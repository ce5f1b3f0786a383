//! Lot and movement creation: every action record's amount is posted, as one or more
//! movements, to lots of its account.
use std::collections::HashMap;
use vstd::prelude::*;
use crate::dec::{
    Dec, val_sum, lemma_dec_sum_val, product, sub_fits, places8, quotient, rounded, normalized, negated, add_fits, spec_add, p10, lemma_p10_pos, lemma_multiples, lemma_round8, lemma_val_zero, lemma_val_sign,
};
use crate::date::Date;
use crate::account::{
    Account, Lot, Movement, MvmtField, RawAccount, sum_field, fields_of, mvmt_sum, spec_lot_of,
};
use crate::transaction::{
    marginness_resolves,
    ActionRecord, Polarity, Transaction, TxHasMargin, TxType, spec_direction, spec_base_and_quote,
    ar_resolves, ar_raw, lookup_raw, spec_marginness, ar_mvmts, spec_tx_type, base_ticker, ar_candidates,
};
use crate::strings::str_eq;
use crate::core_functions::ImportProcessParameters;
use crate::costing_method::InventoryCostingMethod;
use crate::errors::CryptoolsError;
use crate::ledger::{
    accts_wf, acct_wf, lot_wf, lots_wf, mvmt_ok, lot_extends, lots_extend, lots_key_sum,
    mvmts_key_sum, posted, txn_ok, ledger_wf, lemma_lots_extend_other, lemma_lots_key_sum_push, lemma_mvmts_key_sum_push,
    lemma_posted_trans, lemma_posted_refl, starts_no_lot, lots_ordered, mvmts_processed,
    plain_acct, processed_before, lemma_ordered_step, lemma_ordered_margin_step,
    lemma_mvmts_processed_mono, same_shape, lot_same_shape, mvmt_same_shape, precedes,
    lemma_processed_before_mono, scan_overflows_at,
};

verus! {

broadcast use vstd::std_specs::hash::group_hash_axioms;

/// Adds movement `m` to the end of the lot at index `li` of account `a`.
fn push_mvmt(acct_map: &mut HashMap<u16, Account>, a: u16, li: usize, m: Movement)
    requires
        accts_wf(old(acct_map)@),
        old(acct_map)@.contains_key(a),
        li < old(acct_map)@[a].list_of_lots@.len(),
        mvmt_ok(m, li as int),
    ensures
        posted(old(acct_map)@, final(acct_map)@, a, m.action_record_key, m.amount.val()),
        final(acct_map)@[a].list_of_lots@.len() == old(acct_map)@[a].list_of_lots@.len(),
        forall|lj: int|
            0 <= lj < old(acct_map)@[a].list_of_lots@.len() && lj != li ==> (final(acct_map)@[a].list_of_lots@[lj] == old(acct_map)@[a].list_of_lots@[lj]),
        final(acct_map)@[a].list_of_lots@[li as int].movements@ == old(acct_map)@[a].list_of_lots@[li as int].movements@.push(m),
{
    let mut acct = acct_map.remove(&a).unwrap();
    let ghost old_lots = acct.list_of_lots@;
    acct.list_of_lots[li].movements.push(m);
    proof {
        let new_lots = acct.list_of_lots@;
        assert(acct_wf(acct, a)) by {
            assert forall|lj: int| 0 <= lj < new_lots.len() implies lot_wf(
                #[trigger] new_lots[lj],
                a,
                lj,
            ) by {
                if lj == li {
                    let nl = new_lots[lj];
                    assert forall|mi: int| 0 <= mi < nl.movements@.len() implies mvmt_ok(
                        #[trigger] nl.movements@[mi],
                        lj,
                    ) by {
                        if mi < old_lots[lj].movements@.len() {
                            assert(nl.movements@[mi] == old_lots[lj].movements@[mi]);
                        }
                    }
                } else {
                    assert(new_lots[lj] == old_lots[lj]);
                }
            }
        }
        assert(lots_extend(old_lots, new_lots, m.action_record_key));
        lemma_key_sum_push_at(old_lots, new_lots, li as int, m);
    }
    acct_map.insert(a, acct);
}

/// Adding one movement to one lot adds its amount to its own key's total.
proof fn lemma_key_sum_push_at(old: Seq<Lot>, new: Seq<Lot>, li: int, m: Movement)
    requires
        0 <= li < old.len(),
        new.len() == old.len(),
        forall|lj: int| 0 <= lj < old.len() && lj != li ==> new[lj] == old[lj],
        new[li].movements@ == old[li].movements@.push(m),
    ensures
        lots_key_sum(new, m.action_record_key) == lots_key_sum(old, m.action_record_key)
            + m.amount.val(),
    decreases old.len(),
{
    let k = m.action_record_key;
    if li == old.len() - 1 {
        assert(new.drop_last() =~= old.drop_last());
        lemma_mvmts_key_sum_push(old[li].movements@, m, k);
    } else {
        lemma_key_sum_push_at(old.drop_last(), new.drop_last(), li, m);
        assert(new.last() == old.last());
    }
}

/// Adds a whole lot at the end of account `a`'s lots.
fn push_lot(acct_map: &mut HashMap<u16, Account>, a: u16, lot: Lot)
    requires
        accts_wf(old(acct_map)@),
        old(acct_map)@.contains_key(a),
        lot_wf(lot, a, old(acct_map)@[a].list_of_lots@.len() as int),
        old(acct_map)@[a].list_of_lots@.len() + 1 < 0xffff_ffff,
    ensures
        accts_wf(final(acct_map)@),
        final(acct_map)@.dom() == old(acct_map)@.dom(),
        forall|b: u16| b != a && old(acct_map)@.contains_key(b) ==> final(acct_map)@[b] == old(acct_map)@[b],
        final(acct_map)@[a].list_of_lots@ == old(acct_map)@[a].list_of_lots@.push(lot),
{
    let mut acct = acct_map.remove(&a).unwrap();
    let ghost old_lots = acct.list_of_lots@;
    acct.list_of_lots.push(lot);
    proof {
        let new_lots = acct.list_of_lots@;
        assert forall|lj: int| 0 <= lj < new_lots.len() implies lot_wf(
            #[trigger] new_lots[lj],
            a,
            lj,
        ) by {
            if lj < old_lots.len() {
                assert(new_lots[lj] == old_lots[lj]);
            }
        }
    }
    acct_map.insert(a, acct);
}

/// Pushing a lot keyed wholly to `k` extends the lots for `k`.
proof fn lemma_push_lot_extends(old: Seq<Lot>, lot: Lot, k: u32)
    requires
        forall|mi: int| 0 <= mi < lot.movements@.len() ==> (#[trigger] lot.movements@[mi]).action_record_key == k,
    ensures
        lots_extend(old, old.push(lot), k),
        lots_key_sum(old.push(lot), k) == lots_key_sum(old, k) + mvmts_key_sum(lot.movements@, k),
{
    let new = old.push(lot);
    assert forall|li: int| 0 <= li < old.len() implies lot_extends(old[li], #[trigger] new[li], k) by {
        assert(new[li] == old[li]);
    }
    assert forall|li: int, mi: int|
        old.len() <= li < new.len() && 0 <= mi < new[li].movements@.len() implies (
    #[trigger] new[li].movements@[mi]).action_record_key == k by {
        assert(li == old.len());
        assert(new[li] == lot);
    }
    lemma_lots_key_sum_push(old, lot, k);
}

/// The fields of a movement that only a template fills in: everything but the amount
/// and the lot number.
pub open spec fn same_template(m: Movement, t: Movement) -> bool {
    &&& m.date_as_string == t.date_as_string
    &&& m.date == t.date
    &&& m.transaction_key == t.transaction_key
    &&& m.action_record_key == t.action_record_key
}

/// A copy of the template movement with another amount and lot number.
fn mvmt_from_template(t: &Movement, amount: Dec, lot_num: u32) -> (r: Movement)
    ensures
        same_template(r, *t),
        r.amount == amount,
        r.lot_num == lot_num,
        r.cost_basis == t.cost_basis,
        r.ratio_of_amt_to_incoming_mvmts_in_a_r == t.ratio_of_amt_to_incoming_mvmts_in_a_r,
        r.ratio_of_amt_to_outgoing_mvmts_in_a_r == t.ratio_of_amt_to_outgoing_mvmts_in_a_r,
        r.proceeds == t.proceeds,
        r.proceeds_lk == t.proceeds_lk,
        r.cost_basis_lk == t.cost_basis_lk,
{
    Movement {
        amount,
        date_as_string: t.date_as_string.clone(),
        date: t.date,
        transaction_key: t.transaction_key,
        action_record_key: t.action_record_key,
        cost_basis: t.cost_basis,
        ratio_of_amt_to_incoming_mvmts_in_a_r: t.ratio_of_amt_to_incoming_mvmts_in_a_r,
        ratio_of_amt_to_outgoing_mvmts_in_a_r: t.ratio_of_amt_to_outgoing_mvmts_in_a_r,
        lot_num,
        proceeds: t.proceeds,
        proceeds_lk: t.proceeds_lk,
        cost_basis_lk: t.cost_basis_lk,
    }
}

/// A fresh movement of an action record: zero basis and proceeds, both ratios 1.
fn new_mvmt(amount: Dec, txn_date_as_string: &String, txn_date: Date, txn_num: u32, ar_num: u32, ratio_in: Dec, lot_num: u32) -> (r: Movement)
    ensures
        r.amount == amount,
        r.date_as_string == *txn_date_as_string,
        r.date == txn_date,
        r.transaction_key == txn_num,
        r.action_record_key == ar_num,
        r.lot_num == lot_num,
        r.ratio_of_amt_to_incoming_mvmts_in_a_r == ratio_in,
        r.cost_basis.val() == 0,
        r.proceeds.val() == 0,
        r.proceeds_lk.val() == 0,
        r.cost_basis_lk.val() == 0,
        r.ratio_of_amt_to_outgoing_mvmts_in_a_r.val() == Dec::one_spec().val(),
{
    Movement {
        amount,
        date_as_string: txn_date_as_string.clone(),
        date: txn_date,
        transaction_key: txn_num,
        action_record_key: ar_num,
        cost_basis: Dec::zero(),
        ratio_of_amt_to_incoming_mvmts_in_a_r: ratio_in,
        ratio_of_amt_to_outgoing_mvmts_in_a_r: Dec::one(),
        lot_num,
        proceeds: Dec::zero(),
        proceeds_lk: Dec::zero(),
        cost_basis_lk: Dec::zero(),
    }
}

/// Setting the outgoing share of movement `mvmt` fails: its action record `ar` is outgoing,
/// outside the home currency `home`, and its amount does not divide the movement's.
pub open spec fn ratio_fails(mvmt: Movement, ar: ActionRecord, home: Seq<char>, raw: RawAccount) -> bool {
    &&& spec_direction(ar.amount) == Polarity::Outgoing
    &&& raw.ticker@ != home
    &&& quotient(mvmt.amount, ar.amount) is None
}

/// Wrapping movement `mvmt` before posting fails: its share cannot be set, or its amount
/// has more than 8 decimal places.
pub open spec fn wrap_fails(mvmt: Movement, ar: ActionRecord, home: Seq<char>, raw: RawAccount) -> bool {
    ratio_fails(mvmt, ar, home, raw) || !places8(mvmt.amount)
}

/// Posting an amount `x` of action record `ar` fails (see `wrap_fails`).
pub open spec fn amount_fails(x: Dec, ar: ActionRecord, home: Seq<char>, raw: RawAccount) -> bool {
    ||| spec_direction(ar.amount) == Polarity::Outgoing && raw.ticker@ != home && quotient(x, ar.amount) is None
    ||| !places8(x)
}

/// Taking `amt` (what is left, negative) from the lots `lots[order[c]]`, `lots[order[c + 1]]`,
/// ... succeeds: the next lot's balance is known and not negative; a lot with a zero
/// balance is passed over; a lot whose balance covers what is left takes it; otherwise
/// the lot gives up its whole balance and the rest goes on to the lots after it.  It
/// fails when the lots run out, when a sum does not fit, or when an amount cannot be
/// posted (`amount_fails`).
pub open spec fn fit_succeeds(
    lots: Seq<Lot>,
    order: Seq<usize>,
    c: int,
    amt: Dec,
    ar: ActionRecord,
    home: Seq<char>,
    raw: RawAccount,
) -> bool
    decreases order.len() - c,
{
    if c < 0 || c >= order.len() {
        false
    } else {
        match lot_balance(lots[order[c] as int]) {
            None => false,
            Some(bal) => if bal.val() < 0 {
                false
            } else if bal.val() == 0 {
                fit_succeeds(lots, order, c + 1, amt, ar, home, raw)
            } else if !add_fits(amt, bal) {
                false
            } else {
                let rem = normalized(spec_add(amt, bal));
                if rem.val() >= 0 {
                    !amount_fails(amt, ar, home, raw)
                } else {
                    !amount_fails(normalized(negated(bal)), ar, home, raw) && fit_succeeds(
                        lots,
                        order,
                        c + 1,
                        normalized(rem),
                        ar,
                        home,
                        raw,
                    )
                }
            },
        }
    }
}

/// Sets a movement's share of its outgoing action record, for an outgoing action record
/// outside the home currency: the amount over the action record's amount, rounded to
/// 8 places.
fn set_outgoing_ratio(
    mvmt: Movement,
    ar: &ActionRecord,
    chosen_home_currency: &str,
    raw_acct: &RawAccount,
) -> (r: Result<Movement, CryptoolsError>)
    ensures
        r matches Ok(m) ==> m.amount == mvmt.amount && m.lot_num == mvmt.lot_num && same_template(m, mvmt),
        r matches Ok(m) ==> (spec_direction(ar.amount) == Polarity::Outgoing && raw_acct.ticker@ != chosen_home_currency@) || m == mvmt,
        r is Err <==> ratio_fails(mvmt, *ar, chosen_home_currency@, *raw_acct),
        r matches Ok(m) ==> m == (if spec_direction(ar.amount) == Polarity::Outgoing
            && raw_acct.ticker@ != chosen_home_currency@ {
            Movement {
                ratio_of_amt_to_outgoing_mvmts_in_a_r: rounded(quotient(mvmt.amount, ar.amount)->0, 8),
                ..mvmt
            }
        } else {
            mvmt
        }),
{
    let mut mvmt = mvmt;
    if ar.direction() == Polarity::Outgoing && !raw_acct.is_home_currency(chosen_home_currency) {
        match mvmt.amount.checked_div(&ar.amount) {
            Some(ratio) => {
                mvmt.ratio_of_amt_to_outgoing_mvmts_in_a_r = ratio.round_dp(8);
            },
            None => {
                return Err(CryptoolsError::DecimalOverflow { tx_number: ar.tx_key });
            },
        }
    }
    Ok(mvmt)
}


/// What `wrap_mvmt_and_push` checks and sets before a movement is posted: for an
/// outgoing action record outside the home currency, the movement's share of the
/// action record (rounded to 8 places); and that the amount has at most 8 places.
fn wrap_mvmt(
    mvmt: Movement,
    ar: &ActionRecord,
    chosen_home_currency: &str,
    raw_acct: &RawAccount,
) -> (r: Result<Movement, CryptoolsError>)
    ensures
        r matches Ok(m) ==> m.amount == mvmt.amount && m.lot_num == mvmt.lot_num && same_template(
            m,
            mvmt,
        ) && places8(m.amount),
        r matches Ok(m) ==> (spec_direction(ar.amount) == Polarity::Outgoing
            && raw_acct.ticker@ != chosen_home_currency@) || m == mvmt,
        !places8(mvmt.amount) ==> r is Err,
        r is Err <==> wrap_fails(mvmt, *ar, chosen_home_currency@, *raw_acct),
        r matches Ok(m) ==> m.ratio_of_amt_to_incoming_mvmts_in_a_r == mvmt.ratio_of_amt_to_incoming_mvmts_in_a_r,
{
    let m = set_outgoing_ratio(mvmt, ar, chosen_home_currency, raw_acct)?;
    if !m.amount.has_at_most_8_places() {
        return Err(CryptoolsError::ExcessDecimalPlaces { tx_number: m.transaction_key });
    }
    Ok(m)
}

/// Every movement of `new` that `old` lacks belongs to transaction `t`, dated `d`.
pub open spec fn stamped(old: Seq<Lot>, new: Seq<Lot>, t: u32, d: Date) -> bool {
    forall|li: int, mi: int|
        0 <= li < new.len() && 0 <= mi < new[li].movements@.len() && (li >= old.len() || mi
            >= old[li].movements@.len()) ==> (#[trigger] new[li].movements@[mi]).transaction_key
            == t && new[li].movements@[mi].date == d
}

proof fn lemma_stamped_refl(lots: Seq<Lot>, t: u32, d: Date)
    ensures
        stamped(lots, lots, t, d),
{
}

proof fn lemma_stamped_trans(a: Seq<Lot>, b: Seq<Lot>, c: Seq<Lot>, k: u32, t: u32, d: Date)
    requires
        lots_extend(a, b, k),
        lots_extend(b, c, k),
        stamped(a, b, t, d),
        stamped(b, c, t, d),
    ensures
        stamped(a, c, t, d),
{
    assert forall|li: int, mi: int|
        0 <= li < c.len() && 0 <= mi < c[li].movements@.len() && (li >= a.len() || mi
            >= a[li].movements@.len()) implies (#[trigger] c[li].movements@[mi]).transaction_key
        == t && c[li].movements@[mi].date == d by {
        if li < b.len() && mi < b[li].movements@.len() {
            assert(lot_extends(b[li], c[li], k));
            assert(c[li].movements@[mi] == b[li].movements@[mi]);
        }
    }
}

/// One movement added at the end of lot `li`.
proof fn lemma_stamped_mvmt(old: Seq<Lot>, new: Seq<Lot>, li: int, t: u32, d: Date)
    requires
        0 <= li < old.len(),
        new.len() == old.len(),
        forall|lj: int| 0 <= lj < old.len() && lj != li ==> #[trigger] new[lj] == old[lj],
        new[li].movements@.len() == old[li].movements@.len() + 1,
        new[li].movements@.drop_last() == old[li].movements@,
        new[li].movements@.last().transaction_key == t,
        new[li].movements@.last().date == d,
    ensures
        stamped(old, new, t, d),
{
    assert forall|lj: int, mi: int|
        0 <= lj < new.len() && 0 <= mi < new[lj].movements@.len() && (lj >= old.len() || mi
            >= old[lj].movements@.len()) implies (#[trigger] new[lj].movements@[mi]).transaction_key
        == t && new[lj].movements@[mi].date == d by {
        if lj != li {
            assert(new[lj] == old[lj]);
        }
    }
}

/// One lot of one movement added at the end.
proof fn lemma_stamped_lot(old: Seq<Lot>, new: Seq<Lot>, t: u32, d: Date)
    requires
        new.len() == old.len() + 1,
        new.drop_last() == old,
        new.last().movements@.len() == 1,
        new.last().movements@[0].transaction_key == t,
        new.last().movements@[0].date == d,
    ensures
        stamped(old, new, t, d),
{
    assert forall|lj: int, mi: int|
        0 <= lj < new.len() && 0 <= mi < new[lj].movements@.len() && (lj >= old.len() || mi
            >= old[lj].movements@.len()) implies (#[trigger] new[lj].movements@[mi]).transaction_key
        == t && new[lj].movements@[mi].date == d by {
        if lj < old.len() {
            assert(new[lj] == new.drop_last()[lj]);
        } else {
            assert(new[lj] == new.last());
        }
    }
}

/// Wraps a movement and adds it to the lot at index `li` of account `a`, with that lot's
/// number.
fn post_to_lot(
    acct_map: &mut HashMap<u16, Account>,
    a: u16,
    li: usize,
    mvmt: Movement,
    ar: &ActionRecord,
    chosen_home_currency: &str,
    raw_acct: &RawAccount,
) -> (r: Result<(), CryptoolsError>)
    requires
        accts_wf(old(acct_map)@),
        old(acct_map)@.contains_key(a),
        li < old(acct_map)@[a].list_of_lots@.len(),
        mvmt.amount.valid(),
    ensures
        r is Ok ==> posted(
            old(acct_map)@,
            final(acct_map)@,
            a,
            mvmt.action_record_key,
            mvmt.amount.val(),
        ),
        r is Ok ==> final(acct_map)@[a].list_of_lots@.len() == old(acct_map)@[a].list_of_lots@.len(),
        r is Ok ==> forall|lj: int|
            0 <= lj < old(acct_map)@[a].list_of_lots@.len() && lj != li ==> (
            #[trigger] final(acct_map)@[a].list_of_lots@[lj]) == old(acct_map)@[a].list_of_lots@[lj],
        r is Ok ==> final(acct_map)@[a].list_of_lots@[li as int].movements@.len()
            == old(acct_map)@[a].list_of_lots@[li as int].movements@.len() + 1,
        r is Ok ==> final(acct_map)@[a].list_of_lots@[li as int].movements@.drop_last()
            == old(acct_map)@[a].list_of_lots@[li as int].movements@,
        r is Ok ==> final(acct_map)@[a].list_of_lots@[li as int].movements@.last().amount
            == mvmt.amount,
        r is Ok ==> final(acct_map)@[a].list_of_lots@[li as int].movements@.last().action_record_key
            == mvmt.action_record_key,
        r is Ok ==> final(acct_map)@[a].list_of_lots@[li as int].movements@.last().transaction_key
            == mvmt.transaction_key,
        r is Ok ==> final(acct_map)@[a].list_of_lots@[li as int].movements@.last().date == mvmt.date,
        !places8(mvmt.amount) ==> r is Err,
        r is Err <==> wrap_fails(mvmt, *ar, chosen_home_currency@, *raw_acct),
        r is Err ==> final(acct_map)@ == old(acct_map)@,
{
    let lot_num = acct_map.get(&a).unwrap().list_of_lots[li].lot_number;
    let mut mvmt = mvmt;
    mvmt.lot_num = lot_num;
    let m = wrap_mvmt(mvmt, ar, chosen_home_currency, raw_acct)?;
    proof {
        assert(lot_wf(old(acct_map)@[a].list_of_lots@[li as int], a, li as int));
    }
    push_mvmt(acct_map, a, li, m);
    proof {
        assert(old(acct_map)@[a].list_of_lots@[li as int].movements@.push(m).drop_last()
            =~= old(acct_map)@[a].list_of_lots@[li as int].movements@);
    }
    Ok(())
}

/// Wraps a movement and adds it in a new lot at the end of account `a`.
fn post_to_new_lot(
    acct_map: &mut HashMap<u16, Account>,
    a: u16,
    date_as_string: &String,
    date_of_first_mvmt_in_lot: Date,
    date_for_basis_purposes: Date,
    mvmt: Movement,
    ar: &ActionRecord,
    chosen_home_currency: &str,
    raw_acct: &RawAccount,
) -> (r: Result<(), CryptoolsError>)
    requires
        accts_wf(old(acct_map)@),
        old(acct_map)@.contains_key(a),
        mvmt.amount.valid(),
    ensures
        r is Ok ==> posted(
            old(acct_map)@,
            final(acct_map)@,
            a,
            mvmt.action_record_key,
            mvmt.amount.val(),
        ),
        r is Ok ==> final(acct_map)@[a].list_of_lots@.len() == old(acct_map)@[a].list_of_lots@.len() + 1,
        r is Ok ==> final(acct_map)@[a].list_of_lots@.last().date_for_basis_purposes
            == date_for_basis_purposes,
        r is Ok ==> final(acct_map)@[a].list_of_lots@.drop_last() == old(acct_map)@[a].list_of_lots@,
        r is Ok ==> final(acct_map)@[a].list_of_lots@.last().date_of_first_mvmt_in_lot
            == date_of_first_mvmt_in_lot,
        r is Ok ==> final(acct_map)@[a].list_of_lots@.last().movements@.len() == 1,
        r is Ok ==> final(acct_map)@[a].list_of_lots@.last().movements@[0].amount == mvmt.amount,
        r is Ok ==> final(acct_map)@[a].list_of_lots@.last().movements@[0].action_record_key
            == mvmt.action_record_key,
        r is Ok ==> final(acct_map)@[a].list_of_lots@.last().movements@[0].transaction_key
            == mvmt.transaction_key,
        r is Ok ==> final(acct_map)@[a].list_of_lots@.last().movements@[0].date == mvmt.date,
        r is Ok ==> final(acct_map)@[a].list_of_lots@.last().movements@[0].ratio_of_amt_to_incoming_mvmts_in_a_r
            == mvmt.ratio_of_amt_to_incoming_mvmts_in_a_r,
        !places8(mvmt.amount) ==> r is Err,
        r is Err ==> final(acct_map)@ == old(acct_map)@,
        r is Err <==> old(acct_map)@[a].list_of_lots@.len() >= 0xffff_fffe || wrap_fails(
            mvmt,
            *ar,
            chosen_home_currency@,
            *raw_acct,
        ),
{
    let len = acct_map.get(&a).unwrap().list_of_lots.len();
    if len >= 0xffff_fffe {
        return Err(CryptoolsError::TooManyLots { tx_number: mvmt.transaction_key });
    }
    let lot_number = (len + 1) as u32;
    let mut mvmt = mvmt;
    mvmt.lot_num = lot_number;
    let m = wrap_mvmt(mvmt, ar, chosen_home_currency, raw_acct)?;
    let ghost k = m.action_record_key;
    let mut movements: Vec<Movement> = Vec::new();
    movements.push(m);
    let lot = Lot {
        date_as_string: date_as_string.clone(),
        date_of_first_mvmt_in_lot,
        date_for_basis_purposes,
        lot_number,
        account_key: a,
        movements,
    };
    proof {
        assert(lot.movements@ == seq![m]);
        assert(lot_wf(lot, a, len as int));
        lemma_push_lot_extends(old(acct_map)@[a].list_of_lots@, lot, k);
        lemma_mvmts_key_sum_push(Seq::<Movement>::empty(), m, k);
        assert(seq![m] =~= Seq::<Movement>::empty().push(m));
    }
    push_lot(acct_map, a, lot);
    proof {
        assert(old(acct_map)@[a].list_of_lots@.push(lot).drop_last() =~= old(acct_map)@[a].list_of_lots@);
    }
    Ok(())
}


/// The balance of a lot: the amounts of its movements added in order from zero (`None`
/// when a running total does not fit).
pub open spec fn lot_balance(lot: Lot) -> Option<Dec> {
    mvmt_sum(lot.movements@, MvmtField::Amount)
}

/// What the lot at index `li` took from action record `k` between `old` and `new`.
pub open spec fn taken_by_lot(old: Seq<Lot>, new: Seq<Lot>, li: int, k: u32) -> int {
    mvmts_key_sum(new[li].movements@, k) - mvmts_key_sum(old[li].movements@, k)
}

/// The lots at `order[start]` up to `order[p]` are the ones that the outgoing action
/// record `k` was taken from, in that order: each lot before `order[p]` had a balance of
/// at least zero and gave up all of it, `order[p]` had a positive balance that covers what
/// it gave up, and no other lot changed.
pub open spec fn fitted_upto(
    old: Seq<Lot>,
    new: Seq<Lot>,
    order: Seq<usize>,
    start: int,
    p: int,
    k: u32,
) -> bool {
    &&& new.len() == old.len()
    &&& forall|q: int|
        start <= q < p ==> {
            let l = #[trigger] order[q] as int;
            &&& lot_balance(old[l]) is Some
            &&& lot_balance(old[l])->0.val() >= 0
            &&& taken_by_lot(old, new, l, k) == -lot_balance(old[l])->0.val()
        }
    &&& lot_balance(old[order[p] as int]) is Some
    &&& lot_balance(old[order[p] as int])->0.val() > 0
    &&& taken_by_lot(old, new, order[p] as int, k) + lot_balance(old[order[p] as int])->0.val() >= 0
    &&& forall|l: int|
        0 <= l < old.len() && (forall|q: int| start <= q <= p ==> #[trigger] order[q] != l)
            ==> #[trigger] new[l] == old[l]
}

/// Each lot of `new` has at most one movement more than the same lot of `old`.
pub open spec fn one_mvmt_each(old: Seq<Lot>, new: Seq<Lot>) -> bool {
    forall|l: int|
        0 <= l < old.len() ==> #[trigger] new[l].movements@.len() <= old[l].movements@.len() + 1
}

/// An outgoing amount of action record `k` was taken from the lots in the order `order`
/// gives from `start` on, each lot in turn giving up its whole balance until one covers
/// what is left (see `fitted_upto`).
pub open spec fn fitted_in_order(
    old: Seq<Lot>,
    new: Seq<Lot>,
    order: Seq<usize>,
    start: int,
    k: u32,
) -> bool {
    exists|p: int| start <= p < order.len() && fitted_upto(old, new, order, start, p, k)
}

/// `order` is the order in which an outgoing amount is taken from `lots` under costing
/// method `method`: last-in-first-out from the last lot created back, first-in-first-out
/// from the first lot created on, or by basis date (`by_basis_date`), latest or earliest
/// first.  Each method allows exactly one order.
pub open spec fn costing_order(method: InventoryCostingMethod, lots: Seq<Lot>, order: Seq<usize>) -> bool {
    let n = lots.len() as int;
    match method {
        InventoryCostingMethod::LIFObyLotCreationDate => order == Seq::new(
            n as nat,
            |i: int| (n - 1 - i) as usize,
        ),
        InventoryCostingMethod::FIFObyLotCreationDate => order == Seq::new(
            n as nat,
            |i: int| i as usize,
        ),
        InventoryCostingMethod::LIFObyLotBasisDate => by_basis_date(lots, order, false),
        InventoryCostingMethod::FIFObyLotBasisDate => by_basis_date(lots, order, true),
    }
}

/// The lots at `order[start]` up to before `order[c]` each had a balance of at least
/// zero and gave it all up to action record `k`; no other lot changed.
spec fn fit_progress(old: Seq<Lot>, cur: Seq<Lot>, order: Seq<usize>, start: int, c: int, k: u32) -> bool {
    &&& cur.len() == old.len()
    &&& forall|q: int|
        start <= q < c ==> {
            let l = #[trigger] order[q] as int;
            &&& lot_balance(old[l]) is Some
            &&& lot_balance(old[l])->0.val() >= 0
            &&& taken_by_lot(old, cur, l, k) == -lot_balance(old[l])->0.val()
        }
    &&& forall|l: int|
        0 <= l < old.len() && (forall|q: int| start <= q < c ==> #[trigger] order[q] != l)
            ==> #[trigger] cur[l] == old[l]
}

/// Posting `amt` of action record `k` to the next lot in the order, `order[c]`: that lot
/// was still as it started, takes `amt`, and nothing else changes.
proof fn lemma_fit_step(
    old: Seq<Lot>,
    before: Seq<Lot>,
    after: Seq<Lot>,
    order: Seq<usize>,
    start: int,
    c: int,
    k: u32,
    amt: int,
)
    requires
        0 <= start <= c < order.len(),
        forall|x: int, y: int| 0 <= x < y < order.len() ==> order[x] != order[y],
        forall|i: int| 0 <= i < order.len() ==> #[trigger] order[i] < old.len(),
        fit_progress(old, before, order, start, c, k),
        after.len() == old.len(),
        after[order[c] as int].movements@.len() == before[order[c] as int].movements@.len() + 1,
        after[order[c] as int].movements@.drop_last() == before[order[c] as int].movements@,
        after[order[c] as int].movements@.last().action_record_key == k,
        after[order[c] as int].movements@.last().amount.val() == amt,
        forall|l: int| 0 <= l < old.len() && l != order[c] ==> #[trigger] after[l] == before[l],
    ensures
        before[order[c] as int] == old[order[c] as int],
        taken_by_lot(old, after, order[c] as int, k) == amt,
        forall|q: int|
            start <= q < c ==> {
                let l = #[trigger] order[q] as int;
                &&& lot_balance(old[l]) is Some
                &&& lot_balance(old[l])->0.val() >= 0
                &&& taken_by_lot(old, after, l, k) == -lot_balance(old[l])->0.val()
            },
        forall|l: int|
            0 <= l < old.len() && (forall|q: int| start <= q <= c ==> #[trigger] order[q] != l)
                ==> #[trigger] after[l] == old[l],
{
    let lc = order[c] as int;
    assert forall|q: int| start <= q < c implies #[trigger] order[q] != lc by {}
    assert(before[lc] == old[lc]);
    let ms = after[lc].movements@;
    assert(ms =~= ms.drop_last().push(ms.last()));
    lemma_mvmts_key_sum_push(ms.drop_last(), ms.last(), k);
    assert forall|q: int| start <= q < c implies {
        let l = #[trigger] order[q] as int;
        &&& lot_balance(old[l]) is Some
        &&& lot_balance(old[l])->0.val() >= 0
        &&& taken_by_lot(old, after, l, k) == -lot_balance(old[l])->0.val()
    } by {
        let l = order[q] as int;
        assert(l != lc);
        assert(after[l] == before[l]);
    }
    assert forall|l: int|
        0 <= l < old.len() && (forall|q: int| start <= q <= c ==> #[trigger] order[q] != l) implies #[trigger] after[l]
            == old[l] by {
        assert(order[c] != l);
        assert forall|q: int| start <= q < c implies #[trigger] order[q] != l by {
            assert(order[q] != l);
        }
        assert(after[l] == before[l]);
    }
}

/// Posts an outgoing amount to the lots of account `a`, in the order the index values
/// give (starting at `index_position`): each lot with a positive balance takes as much
/// as it holds, the first one that holds enough takes the rest.  A lot with a negative
/// balance, or running out of lots, is an error.  Each lot takes at most one movement
/// (`one_mvmt_each`), keyed to the action record and numbered with the lot's number (the
/// accounts staying well formed), so a lot that takes anything takes it as one movement.
fn fit_into_lots(
    acct_map: &mut HashMap<u16, Account>,
    a: u16,
    mvmt_to_fit: &Movement,
    amt_to_fit: Dec,
    vec_of_ordered_index_values: &Vec<usize>,
    index_position: usize,
    chosen_home_currency: &str,
    ar: &ActionRecord,
    raw_acct: &RawAccount,
) -> (r: Result<(), CryptoolsError>)
    requires
        accts_wf(old(acct_map)@),
        old(acct_map)@.contains_key(a),
        forall|i: int|
            0 <= i < vec_of_ordered_index_values@.len() ==> #[trigger] vec_of_ordered_index_values@[i]
                < old(acct_map)@[a].list_of_lots@.len(),
        index_position <= vec_of_ordered_index_values@.len(),
        forall|x: int, y: int|
            0 <= x < y < vec_of_ordered_index_values@.len() ==> vec_of_ordered_index_values@[x]
                != vec_of_ordered_index_values@[y],
    ensures
        lots_extend(
            old(acct_map)@[a].list_of_lots@,
            final(acct_map)@[a].list_of_lots@,
            mvmt_to_fit.action_record_key,
        ),
        forall|b: u16| b != a && old(acct_map)@.contains_key(b) ==> #[trigger] final(acct_map)@[b] == old(acct_map)@[b],
        final(acct_map)@.dom() == old(acct_map)@.dom(),
        accts_wf(final(acct_map)@),
        r is Ok ==> posted(
            old(acct_map)@,
            final(acct_map)@,
            a,
            mvmt_to_fit.action_record_key,
            amt_to_fit.val(),
        ),
        r is Ok ==> starts_no_lot(old(acct_map)@[a].list_of_lots@, final(acct_map)@[a].list_of_lots@),
        r is Ok ==> stamped(
            old(acct_map)@[a].list_of_lots@,
            final(acct_map)@[a].list_of_lots@,
            mvmt_to_fit.transaction_key,
            mvmt_to_fit.date,
        ),
        r is Ok ==> fitted_in_order(
            old(acct_map)@[a].list_of_lots@,
            final(acct_map)@[a].list_of_lots@,
            vec_of_ordered_index_values@,
            index_position as int,
            mvmt_to_fit.action_record_key,
        ),
        r is Ok ==> one_mvmt_each(old(acct_map)@[a].list_of_lots@, final(acct_map)@[a].list_of_lots@),
        r is Ok <==> fit_succeeds(
            old(acct_map)@[a].list_of_lots@,
            vec_of_ordered_index_values@,
            index_position as int,
            amt_to_fit,
            *ar,
            chosen_home_currency@,
            *raw_acct,
        ),
{
    let ghost k = mvmt_to_fit.action_record_key;
    let ghost m0 = acct_map@;
    let ghost mut pushed: int = 0;
    let mut current_index_position = index_position;
    let mut amt_left = amt_to_fit;
    amt_left.reveal_valid();
    proof {
        lemma_posted_refl(m0, a, k);
        lemma_stamped_refl(m0[a].list_of_lots@, mvmt_to_fit.transaction_key, mvmt_to_fit.date);
    }
    loop
        invariant
            k == mvmt_to_fit.action_record_key,
            m0 == old(acct_map)@,
            posted(m0, acct_map@, a, k, pushed),
            stamped(m0[a].list_of_lots@, acct_map@[a].list_of_lots@, mvmt_to_fit.transaction_key, mvmt_to_fit.date),
            pushed + amt_left.val() == amt_to_fit.val(),
            amt_left.valid(),
            current_index_position <= vec_of_ordered_index_values@.len(),
            acct_map@[a].list_of_lots@.len() == m0[a].list_of_lots@.len(),
            starts_no_lot(m0[a].list_of_lots@, acct_map@[a].list_of_lots@),
            one_mvmt_each(m0[a].list_of_lots@, acct_map@[a].list_of_lots@),
            forall|i: int|
                0 <= i < vec_of_ordered_index_values@.len() ==> #[trigger] vec_of_ordered_index_values@[i]
                    < m0[a].list_of_lots@.len(),
            forall|x: int, y: int|
                0 <= x < y < vec_of_ordered_index_values@.len() ==> vec_of_ordered_index_values@[x]
                    != vec_of_ordered_index_values@[y],
            index_position <= current_index_position,
            fit_succeeds(
                m0[a].list_of_lots@,
                vec_of_ordered_index_values@,
                index_position as int,
                amt_to_fit,
                *ar,
                chosen_home_currency@,
                *raw_acct,
            ) == fit_succeeds(
                m0[a].list_of_lots@,
                vec_of_ordered_index_values@,
                current_index_position as int,
                amt_left,
                *ar,
                chosen_home_currency@,
                *raw_acct,
            ),
            fit_progress(
                m0[a].list_of_lots@,
                acct_map@[a].list_of_lots@,
                vec_of_ordered_index_values@,
                index_position as int,
                current_index_position as int,
                k,
            ),
        decreases vec_of_ordered_index_values@.len() - current_index_position,
    {
        if current_index_position == vec_of_ordered_index_values.len() {
            return Err(CryptoolsError::RanOutOfLots { tx_number: mvmt_to_fit.transaction_key });
        }
        let lot_index = vec_of_ordered_index_values[current_index_position];
        let ghost c = current_index_position as int;
        let ghost ord = vec_of_ordered_index_values@;
        proof {
            assert forall|q: int| index_position <= q < c implies #[trigger] ord[q] != lot_index by {
                assert(ord[c] == lot_index);
            }
            assert(acct_map@[a].list_of_lots@[lot_index as int] == m0[a].list_of_lots@[lot_index as int]);
        }
        let sum_of_mvmts_in_lot = match sum_field(
            &acct_map.get(&a).unwrap().list_of_lots[lot_index].movements,
            MvmtField::Amount,
        ) {
            Some(x) => x,
            None => {
                return Err(CryptoolsError::DecimalOverflow { tx_number: mvmt_to_fit.transaction_key });
            },
        };
        if sum_of_mvmts_in_lot.is_negative() {
            return Err(CryptoolsError::NegativeLotBalance { tx_number: mvmt_to_fit.transaction_key });
        }
        if sum_of_mvmts_in_lot.is_zero() {
            proof {
                let ol = m0[a].list_of_lots@;
                let cl = acct_map@[a].list_of_lots@;
                assert forall|q: int| index_position <= q < c + 1 implies {
                    let l = #[trigger] ord[q] as int;
                    &&& lot_balance(ol[l]) is Some
                    &&& lot_balance(ol[l])->0.val() >= 0
                    &&& taken_by_lot(ol, cl, l, k) == -lot_balance(ol[l])->0.val()
                } by {}
                assert forall|l: int|
                    0 <= l < ol.len() && (forall|q: int| index_position <= q < c + 1 ==> #[trigger] ord[q] != l)
                        implies #[trigger] cl[l] == ol[l] by {
                    assert forall|q: int| index_position <= q < c implies #[trigger] ord[q] != l by {
                        assert(ord[q] != l);
                    }
                }
            }
            current_index_position = current_index_position + 1;
            continue ;
        }
        proof {
            let ms = acct_map@[a].list_of_lots@[lot_index as int].movements@;
            if ms.len() == 0 {
                assert(fields_of(ms, MvmtField::Amount) =~= Seq::<Dec>::empty());
                Dec::lemma_zero_spec();
            }
            assert(ms.len() > 0);
        }
        let remainder_amt_to_recurse = match amt_left.checked_add(&sum_of_mvmts_in_lot) {
            Some(x) => x.normalize(),
            None => {
                return Err(CryptoolsError::DecimalOverflow { tx_number: mvmt_to_fit.transaction_key });
            },
        };
        if !remainder_amt_to_recurse.is_negative() {
            let remainder_mvmt_that_fits = mvmt_from_template(mvmt_to_fit, amt_left, 0);
            let ghost before = acct_map@;
            let ghost fits = remainder_mvmt_that_fits;
            post_to_lot(
                acct_map,
                a,
                lot_index,
                remainder_mvmt_that_fits,
                ar,
                chosen_home_currency,
                raw_acct,
            )?;
            proof {
                assert(posted(before, acct_map@, a, fits.action_record_key, fits.amount.val()));
                lemma_posted_trans(m0, before, acct_map@, a, k, pushed, amt_left.val());
                lemma_stamped_mvmt(before[a].list_of_lots@, acct_map@[a].list_of_lots@, lot_index as int, mvmt_to_fit.transaction_key, mvmt_to_fit.date);
                lemma_stamped_trans(m0[a].list_of_lots@, before[a].list_of_lots@, acct_map@[a].list_of_lots@, k, mvmt_to_fit.transaction_key, mvmt_to_fit.date);
                lemma_fit_step(
                    m0[a].list_of_lots@,
                    before[a].list_of_lots@,
                    acct_map@[a].list_of_lots@,
                    ord,
                    index_position as int,
                    c,
                    k,
                    amt_left.val(),
                );
                assert(fitted_upto(
                    m0[a].list_of_lots@,
                    acct_map@[a].list_of_lots@,
                    ord,
                    index_position as int,
                    c,
                    k,
                ));
            }
            return Ok(());
        }
        let piece = sum_of_mvmts_in_lot.neg().normalize();
        let mvmt_that_fits_in_lot = mvmt_from_template(mvmt_to_fit, piece, 0);
        let ghost before = acct_map@;
        piece.reveal_valid();
        post_to_lot(
            acct_map,
            a,
            lot_index,
            mvmt_that_fits_in_lot,
            ar,
            chosen_home_currency,
            raw_acct,
        )?;
        proof {
            lemma_posted_trans(m0, before, acct_map@, a, k, pushed, piece.val());
            lemma_stamped_mvmt(before[a].list_of_lots@, acct_map@[a].list_of_lots@, lot_index as int, mvmt_to_fit.transaction_key, mvmt_to_fit.date);
            lemma_stamped_trans(m0[a].list_of_lots@, before[a].list_of_lots@, acct_map@[a].list_of_lots@, k, mvmt_to_fit.transaction_key, mvmt_to_fit.date);
            pushed = pushed + piece.val();
            lemma_fit_step(
                m0[a].list_of_lots@,
                before[a].list_of_lots@,
                acct_map@[a].list_of_lots@,
                ord,
                index_position as int,
                c,
                k,
                piece.val(),
            );
            let ol = m0[a].list_of_lots@;
            let cl = acct_map@[a].list_of_lots@;
            assert forall|q: int| index_position <= q < c + 1 implies {
                let l = #[trigger] ord[q] as int;
                &&& lot_balance(ol[l]) is Some
                &&& lot_balance(ol[l])->0.val() >= 0
                &&& taken_by_lot(ol, cl, l, k) == -lot_balance(ol[l])->0.val()
            } by {}
        }
        amt_left = remainder_amt_to_recurse.normalize();
        amt_left.reveal_valid();
        current_index_position = current_index_position + 1;
    }
}

/// Lot indexes, last created first.
fn get_lifo_by_creation_date(list_of_lots: &Vec<Lot>) -> (r: Vec<usize>)
    ensures
        r@.len() == list_of_lots@.len(),
        forall|i: int| 0 <= i < r@.len() ==> #[trigger] r@[i] == list_of_lots@.len() - 1 - i,
{
    let mut vec_of_indexes: Vec<usize> = Vec::new();
    let mut idx: usize = 0;
    while idx < list_of_lots.len()
        invariant
            idx <= list_of_lots@.len(),
            vec_of_indexes@.len() == idx,
            forall|i: int| 0 <= i < idx ==> #[trigger] vec_of_indexes@[i] == idx - 1 - i,
        decreases list_of_lots@.len() - idx,
    {
        vec_of_indexes.insert(0, idx);
        idx = idx + 1;
    }
    vec_of_indexes
}

/// Lot indexes, first created first.
fn get_fifo_by_creation_date(list_of_lots: &Vec<Lot>) -> (r: Vec<usize>)
    ensures
        r@.len() == list_of_lots@.len(),
        forall|i: int| 0 <= i < r@.len() ==> #[trigger] r@[i] == i,
{
    let mut vec_of_indexes: Vec<usize> = Vec::new();
    let mut idx: usize = 0;
    while idx < list_of_lots.len()
        invariant
            idx <= list_of_lots@.len(),
            vec_of_indexes@.len() == idx,
            forall|i: int| 0 <= i < idx ==> #[trigger] vec_of_indexes@[i] == i,
        decreases list_of_lots@.len() - idx,
    {
        vec_of_indexes.push(idx);
        idx = idx + 1;
    }
    vec_of_indexes
}

/// Lot `x` comes before lot `y` by basis date: an earlier basis date, or the same one
/// and created earlier.
pub open spec fn basis_before(lots: Seq<Lot>, x: int, y: int) -> bool {
    let dx = lots[x].date_for_basis_purposes.day_num();
    let dy = lots[y].date_for_basis_purposes.day_num();
    dx < dy || (dx == dy && x < y)
}

/// `order` lists every lot index of `lots` once, sorted by basis date (ties by creation
/// order): earliest first when `earliest_first`, latest first otherwise.
pub open spec fn by_basis_date(lots: Seq<Lot>, order: Seq<usize>, earliest_first: bool) -> bool {
    &&& order.len() == lots.len()
    &&& forall|i: int| 0 <= i < order.len() ==> #[trigger] order[i] < lots.len()
    &&& forall|x: int, y: int|
        0 <= x < y < order.len() ==> if earliest_first {
            basis_before(lots, #[trigger] order[x] as int, #[trigger] order[y] as int)
        } else {
            basis_before(lots, order[y] as int, order[x] as int)
        }
}

/// Lot indexes sorted by basis date, earliest first; lots with the same basis date
/// keep their creation order.
fn sort_lots_by_basis_date(list_of_lots: &Vec<Lot>) -> (r: Vec<usize>)
    ensures
        by_basis_date(list_of_lots@, r@, true),
{
    let ghost lots = list_of_lots@;
    let mut sorted: Vec<usize> = Vec::new();
    let mut i: usize = 0;
    while i < list_of_lots.len()
        invariant
            lots == list_of_lots@,
            i <= lots.len(),
            sorted@.len() == i,
            forall|q: int| 0 <= q < sorted@.len() ==> #[trigger] sorted@[q] < i,
            forall|x: int, y: int|
                0 <= x < y < sorted@.len() ==> basis_before(
                    lots,
                    #[trigger] sorted@[x] as int,
                    #[trigger] sorted@[y] as int,
                ),
        decreases lots.len() - i,
    {
        let day_i = list_of_lots[i].date_for_basis_purposes.num_days_from_ce();
        // Lot `i` goes after every lot whose basis date is not later than its own.
        let mut p: usize = 0;
        while p < sorted.len() && list_of_lots[sorted[p]].date_for_basis_purposes.num_days_from_ce() <= day_i
            invariant
                lots == list_of_lots@,
                i < lots.len(),
                day_i == lots[i as int].date_for_basis_purposes.day_num(),
                p <= sorted@.len(),
                forall|q: int| 0 <= q < sorted@.len() ==> #[trigger] sorted@[q] < i,
                forall|q: int|
                    0 <= q < p ==> lots[#[trigger] sorted@[q] as int].date_for_basis_purposes.day_num()
                        <= day_i,
            decreases sorted@.len() - p,
        {
            p = p + 1;
        }
        let ghost before = sorted@;
        proof {
            assert forall|q: int| p <= q < before.len() implies lots[#[trigger] before[q] as int].date_for_basis_purposes.day_num()
                > day_i by {
                if q > p {
                    assert(basis_before(lots, before[p as int] as int, before[q] as int));
                }
            }
        }
        sorted.insert(p, i);
        proof {
            assert forall|x: int, y: int|
                0 <= x < y < sorted@.len() implies basis_before(
                    lots,
                    #[trigger] sorted@[x] as int,
                    #[trigger] sorted@[y] as int,
                ) by {
                if y < p {
                    assert(sorted@[x] == before[x] && sorted@[y] == before[y]);
                } else if y == p {
                    assert(sorted@[x] == before[x]);
                } else if x < p {
                    assert(sorted@[x] == before[x] && sorted@[y] == before[y - 1]);
                } else if x == p {
                    assert(sorted@[y] == before[y - 1]);
                } else {
                    assert(sorted@[x] == before[x - 1] && sorted@[y] == before[y - 1]);
                }
            }
        }
        i = i + 1;
    }
    sorted
}

/// The lot indexes for last-in-first-out by basis date: the latest basis date first,
/// and among lots with the same basis date the last created first.
fn get_lifo_by_lot_basis_date(list_of_lots: &Vec<Lot>) -> (r: Vec<usize>)
    ensures
        by_basis_date(list_of_lots@, r@, false),
{
    let sorted = sort_lots_by_basis_date(list_of_lots);
    let mut vec_of_indexes: Vec<usize> = Vec::new();
    let mut idx: usize = 0;
    while idx < sorted.len()
        invariant
            idx <= sorted@.len(),
            by_basis_date(list_of_lots@, sorted@, true),
            vec_of_indexes@.len() == idx,
            forall|i: int| 0 <= i < idx ==> #[trigger] vec_of_indexes@[i] == sorted@[idx - 1 - i],
        decreases sorted@.len() - idx,
    {
        vec_of_indexes.insert(0, sorted[idx]);
        idx = idx + 1;
    }
    proof {
        let n = sorted@.len() as int;
        assert forall|x: int, y: int| 0 <= x < y < n implies basis_before(
            list_of_lots@,
            vec_of_indexes@[y] as int,
            vec_of_indexes@[x] as int,
        ) by {
            assert(vec_of_indexes@[x] == sorted@[n - 1 - x]);
            assert(vec_of_indexes@[y] == sorted@[n - 1 - y]);
        }
        assert forall|i: int| 0 <= i < n implies #[trigger] vec_of_indexes@[i] < list_of_lots@.len() by {
            assert(vec_of_indexes@[i] == sorted@[n - 1 - i]);
        }
    }
    vec_of_indexes
}

/// The lot indexes for first-in-first-out by basis date: the earliest basis date first,
/// and among lots with the same basis date the first created first.
fn get_fifo_by_lot_basis_date(list_of_lots: &Vec<Lot>) -> (r: Vec<usize>)
    ensures
        by_basis_date(list_of_lots@, r@, true),
{
    sort_lots_by_basis_date(list_of_lots)
}

/// The basis dates of the lots that movements `ms` sit in.
pub open spec fn lot_dates_of(ms: Seq<Movement>, accts: Map<u16, Account>, ars: Map<u32, ActionRecord>) -> Seq<Date> {
    ms.map_values(|m: Movement| spec_lot_of(m, accts, ars).date_for_basis_purposes)
}

/// Date `d` is the basis date of one of the lots `lots`.
pub open spec fn lots_have_date(lots: Seq<Lot>, d: Date) -> bool {
    exists|lj: int| 0 <= lj < lots.len() && #[trigger] lots[lj].date_for_basis_purposes == d
}

/// Every date of `dates` is the basis date of one of the lots `lots`.
pub open spec fn dates_from(dates: Seq<Date>, lots: Seq<Lot>) -> bool {
    forall|j: int| 0 <= j < dates.len() ==> lots_have_date(lots, #[trigger] dates[j])
}

/// A lot that incoming action record `k` started on `date` with a single movement of a
/// positive amount, its basis date being one of `dates`.
pub open spec fn new_incoming_lot(lot: Lot, k: u32, date: Date, dates: Seq<Date>) -> bool {
    &&& lot.movements@.len() == 1
    &&& lot.movements@[0].action_record_key == k
    &&& lot.movements@[0].amount.val() > 0
    &&& lot.date_of_first_mvmt_in_lot == date
    &&& exists|j: int| 0 <= j < dates.len() && lot.date_for_basis_purposes == dates[j]
}

/// Appending one more lot that `new_incoming_lot` describes (its basis date being
/// `dates[j]`) keeps the earlier lots and the description of every lot added.
proof fn lemma_new_lot_appended(
    old_lots: Seq<Lot>,
    before: Seq<Lot>,
    after: Seq<Lot>,
    k: u32,
    date: Date,
    dates: Seq<Date>,
    j: int,
)
    requires
        old_lots.len() <= before.len(),
        before.take(old_lots.len() as int) == old_lots,
        forall|li: int|
            old_lots.len() <= li < before.len() ==> new_incoming_lot(#[trigger] before[li], k, date, dates),
        after.len() == before.len() + 1,
        after.drop_last() == before,
        after.last().movements@.len() == 1,
        after.last().movements@[0].action_record_key == k,
        after.last().movements@[0].amount.val() > 0,
        after.last().date_of_first_mvmt_in_lot == date,
        0 <= j < dates.len(),
        after.last().date_for_basis_purposes == dates[j],
    ensures
        old_lots.len() < after.len(),
        after.take(old_lots.len() as int) == old_lots,
        forall|li: int|
            old_lots.len() <= li < after.len() ==> new_incoming_lot(#[trigger] after[li], k, date, dates),
{
    assert(after.take(old_lots.len() as int) =~= before.take(old_lots.len() as int));
    assert forall|li: int| old_lots.len() <= li < after.len() implies new_incoming_lot(
        #[trigger] after[li],
        k,
        date,
        dates,
    ) by {
        if li < before.len() {
            assert(after[li] == before[li]);
        } else {
            assert(after[li] == after.last());
        }
    }
}

/// Splitting the incoming amount `inc` over the outgoing movements `ms` of an outgoing
/// action record of amount `out`, from index `idx` on, succeeds: `used` and `ratios` are
/// what the new lots so far took (amounts and shares) and `n` the number of lots the
/// account then has.  Each movement but the last takes its share, `m / out * inc` rounded
/// to 8 places (a share of zero makes no lot), which must not be negative, must fit in
/// the running totals and must leave a lot number free; the last takes what is left,
/// which must be positive, have at most 8 places and leave a lot number free, its share
/// being `1` minus the others.
pub open spec fn split_succeeds(
    ms: Seq<Movement>,
    idx: int,
    out: Dec,
    inc: Dec,
    used: Dec,
    ratios: Dec,
    n: int,
) -> bool
    decreases ms.len() - idx,
{
    if idx < 0 || idx >= ms.len() {
        false
    } else if idx == ms.len() - 1 {
        &&& sub_fits(inc, used)
        &&& inc.val() - used.val() > 0
        &&& sub_fits(Dec::one_spec(), ratios)
        &&& n < 0xffff_fffe
        &&& (inc.val() - used.val()) % p10(20) == 0
    } else {
        match quotient(ms[idx].amount, out) {
            None => false,
            Some(q) => match product(q, inc) {
                None => false,
                Some(p) => {
                    let c = rounded(p, 8);
                    let ri = rounded(q, 8);
                    let amount = normalized(c);
                    if c.val() == 0 {
                        split_succeeds(ms, idx + 1, out, inc, used, ratios, n)
                    } else {
                        &&& c.val() > 0
                        &&& add_fits(ratios, ri)
                        &&& add_fits(used, amount)
                        &&& n < 0xffff_fffe
                        &&& places8(amount)
                        &&& split_succeeds(
                            ms,
                            idx + 1,
                            out,
                            inc,
                            spec_add(used, amount),
                            spec_add(ratios, ri),
                            n + 1,
                        )
                    }
                },
            },
        }
    }
}

/// The new lots (those of `new` after `old`) took their basis dates from `dates` at the
/// indexes `src`, which increase and lie below `upto`.
pub open spec fn src_of(old: Seq<Lot>, new: Seq<Lot>, dates: Seq<Date>, src: Seq<int>, upto: int) -> bool {
    &&& src.len() == new.len() - old.len()
    &&& forall|j: int| 0 <= j < src.len() ==> 0 <= #[trigger] src[j] < upto
    &&& forall|j: int, l: int| 0 <= j < l < src.len() ==> #[trigger] src[j] < #[trigger] src[l]
    &&& forall|j: int|
        0 <= j < src.len() ==> #[trigger] new[old.len() + j].date_for_basis_purposes == dates[src[j]]
}

/// The new lots (those of `new` after `old`) inherit the basis dates `dates` in order: the
/// basis date of each new lot is one of `dates`, each later new lot's coming from a later
/// position than the one before.
pub open spec fn inherits_in_order(old: Seq<Lot>, new: Seq<Lot>, dates: Seq<Date>) -> bool {
    exists|src: Seq<int>| src_of(old, new, dates, src, dates.len() as int)
}

proof fn lemma_src_push(
    old: Seq<Lot>,
    before: Seq<Lot>,
    after: Seq<Lot>,
    dates: Seq<Date>,
    src: Seq<int>,
    idx: int,
)
    requires
        0 <= idx,
        old.len() <= before.len(),
        src_of(old, before, dates, src, idx),
        after.len() == before.len() + 1,
        after.drop_last() == before,
        after.last().date_for_basis_purposes == dates[idx],
    ensures
        src_of(old, after, dates, src.push(idx), idx + 1),
{
    let s2 = src.push(idx);
    assert forall|j: int| 0 <= j < s2.len() implies #[trigger] after[old.len() + j].date_for_basis_purposes
        == dates[s2[j]] by {
        if j < src.len() {
            assert(after[old.len() + j] == before[old.len() + j]);
        } else {
            assert(after[old.len() + j] == after.last());
        }
    }
    assert forall|j: int, l: int| 0 <= j < l < s2.len() implies #[trigger] s2[j] < #[trigger] s2[l] by {
        if l < src.len() {
            assert(s2[j] == src[j] && s2[l] == src[l]);
        } else {
            assert(s2[j] == src[j]);
        }
    }
}

/// What an incoming action record of amount `inc` takes for an outgoing movement of
/// amount `m` of an outgoing action record of amount `out`: `m / out * inc`, rounded to 8
/// places, trailing zeros stripped.
pub open spec fn proportional_share(m: Dec, out: Dec, inc: Dec) -> Option<Dec> {
    match quotient(m, out) {
        Some(r) => match product(r, inc) {
            Some(p) => Some(normalized(rounded(p, 8))),
            None => None,
        },
        None => None,
    }
}

/// The first `n` new lots (those of `new` after `old`) hold, as the amount of their first
/// movement, the proportional share (`proportional_share`) of the outgoing movement at
/// index `src[j]` of `ms`.
pub open spec fn shares_of(
    old: Seq<Lot>,
    new: Seq<Lot>,
    ms: Seq<Movement>,
    out: Dec,
    inc: Dec,
    src: Seq<int>,
    n: int,
) -> bool {
    forall|j: int|
        0 <= j < n ==> proportional_share(ms[src[j]].amount, out, inc) == Some(
            (#[trigger] new[old.len() + j]).movements@[0].amount,
        )
}

proof fn lemma_shares_push(
    old: Seq<Lot>,
    before: Seq<Lot>,
    after: Seq<Lot>,
    ms: Seq<Movement>,
    out: Dec,
    inc: Dec,
    src: Seq<int>,
    idx: int,
    with_share: bool,
)
    requires
        old.len() <= before.len(),
        src.len() == before.len() - old.len(),
        shares_of(old, before, ms, out, inc, src, src.len() as int),
        after.len() == before.len() + 1,
        after.drop_last() == before,
        with_share ==> proportional_share(ms[idx].amount, out, inc) == Some(
            after.last().movements@[0].amount,
        ),
    ensures
        shares_of(
            old,
            after,
            ms,
            out,
            inc,
            src.push(idx),
            if with_share {
                src.len() + 1int
            } else {
                src.len() as int
            },
        ),
{
    let s2 = src.push(idx);
    let n = if with_share {
        src.len() + 1int
    } else {
        src.len() as int
    };
    assert forall|j: int| 0 <= j < n implies proportional_share(ms[s2[j]].amount, out, inc) == Some(
        (#[trigger] after[old.len() + j]).movements@[0].amount,
    ) by {
        if j < src.len() {
            assert(after[old.len() + j] == before[old.len() + j]);
            assert(s2[j] == src[j]);
        } else {
            assert(after[old.len() + j] == after.last());
        }
    }
}

/// Increasing indexes below `n`, `n` of them, are `0` to `n - 1`.
proof fn lemma_src_full(old: Seq<Lot>, new: Seq<Lot>, dates: Seq<Date>, src: Seq<int>)
    requires
        src_of(old, new, dates, src, dates.len() as int),
    ensures
        inherits_in_order(old, new, dates),
        src.len() == dates.len() ==> forall|i: int| 0 <= i < dates.len() ==> #[trigger] new[old.len() + i].date_for_basis_purposes
            == dates[i],
{
    if src.len() == dates.len() {
        lemma_incr_ge(src, src.len() as int);
        lemma_incr_le(src, dates.len() as int, 0);
        assert forall|i: int| 0 <= i < dates.len() implies #[trigger] new[old.len() + i].date_for_basis_purposes
            == dates[i] by {
            assert(src[i] >= i);
            assert(src[i] <= i);
            assert(new[old.len() + i].date_for_basis_purposes == dates[src[i]]);
        }
    }
}

/// An increasing sequence of integers that are at least 0 has its `j`-th at least `j`.
proof fn lemma_incr_ge(src: Seq<int>, n: int)
    requires
        0 <= n <= src.len(),
        forall|j: int| 0 <= j < src.len() ==> 0 <= #[trigger] src[j],
        forall|j: int, l: int| 0 <= j < l < src.len() ==> #[trigger] src[j] < #[trigger] src[l],
    ensures
        forall|j: int| 0 <= j < n ==> #[trigger] src[j] >= j,
    decreases n,
{
    if n > 0 {
        lemma_incr_ge(src, n - 1);
        if n >= 2 {
            assert(src[n - 2] < src[n - 1]);
        }
    }
}

/// An increasing sequence of `m` integers below `m` has its `j`-th at most `j`.
proof fn lemma_incr_le(src: Seq<int>, m: int, from: int)
    requires
        src.len() == m,
        0 <= from <= m,
        forall|j: int| 0 <= j < src.len() ==> #[trigger] src[j] < m,
        forall|j: int, l: int| 0 <= j < l < src.len() ==> #[trigger] src[j] < #[trigger] src[l],
    ensures
        forall|j: int| from <= j < m ==> #[trigger] src[j] <= j,
    decreases m - from,
{
    if from < m {
        lemma_incr_le(src, m, from + 1);
        if from + 1 < m {
            assert(src[from] < src[from + 1]);
        }
    }
}

/// Posts an incoming action record that inherits the lots of an outgoing one (a
/// transfer to oneself, or a like-kind exchange): one new lot for each movement of the
/// outgoing action record, in proportion to it and rounded to 8 places, with the basis
/// date of that movement's lot as its basis date; the last new lot takes what is left.  A
/// proportional amount that rounds to zero gets no lot, so the new lots take the basis
/// dates of the outgoing movements' lots in order (`inherits_in_order`), each its own
/// when no amount rounded to zero; every new lot but the last holds the proportional
/// share of its outgoing movement (`shares_of`).
fn process_multiple_incoming_lots_and_mvmts(
    txn_num: u32,
    outgoing_ar: &ActionRecord,
    incoming_ar: &ActionRecord,
    chosen_home_currency: &str,
    acct_map: &mut HashMap<u16, Account>,
    txns_map: &HashMap<u32, Transaction>,
    ar_map: &HashMap<u32, ActionRecord>,
    raw_acct: &RawAccount,
) -> (r: Result<(), CryptoolsError>)
    requires
        accts_wf(old(acct_map)@),
        txns_map@.contains_key(txn_num),
        txns_map@.contains_key(outgoing_ar.tx_key),
        old(acct_map)@.contains_key(outgoing_ar.account_key),
        old(acct_map)@.contains_key(incoming_ar.account_key),
        ar_map@.contains_key(outgoing_ar.self_ar_key),
        ar_map@[outgoing_ar.self_ar_key].account_key == outgoing_ar.account_key,
        spec_direction(incoming_ar.amount) == Polarity::Incoming,
    ensures
        lots_extend(
            old(acct_map)@[incoming_ar.account_key].list_of_lots@,
            final(acct_map)@[incoming_ar.account_key].list_of_lots@,
            incoming_ar.self_ar_key,
        ),
        forall|b: u16| b != incoming_ar.account_key && old(acct_map)@.contains_key(b) ==> #[trigger] final(acct_map)@[b] == old(acct_map)@[b],
        final(acct_map)@.dom() == old(acct_map)@.dom(),
        accts_wf(final(acct_map)@),
        r is Ok ==> split_succeeds(
            ar_mvmts(*outgoing_ar, old(acct_map)@, txns_map@),
            0,
            outgoing_ar.amount,
            incoming_ar.amount,
            Dec::zero_spec(),
            Dec::zero_spec(),
            old(acct_map)@[incoming_ar.account_key].list_of_lots@.len() as int,
        ),
        r is Err ==> (exists|j: int|
            scan_overflows_at(
                ar_candidates(*outgoing_ar, old(acct_map)@, txns_map@),
                outgoing_ar.amount,
                j,
            )) || ar_mvmts(*outgoing_ar, old(acct_map)@, txns_map@).len() == 0 || !split_succeeds(
            ar_mvmts(*outgoing_ar, old(acct_map)@, txns_map@),
            0,
            outgoing_ar.amount,
            incoming_ar.amount,
            Dec::zero_spec(),
            Dec::zero_spec(),
            old(acct_map)@[incoming_ar.account_key].list_of_lots@.len() as int,
        ),
        r is Ok ==> posted(
            old(acct_map)@,
            final(acct_map)@,
            incoming_ar.account_key,
            incoming_ar.self_ar_key,
            incoming_ar.amount.val(),
        ),
        r is Ok ==> {
            let old_lots = old(acct_map)@[incoming_ar.account_key].list_of_lots@;
            let new_lots = final(acct_map)@[incoming_ar.account_key].list_of_lots@;
            let dates = lot_dates_of(
                ar_mvmts(*outgoing_ar, old(acct_map)@, txns_map@),
                old(acct_map)@,
                ar_map@,
            );
            &&& old_lots.len() < new_lots.len()
            &&& new_lots.take(old_lots.len() as int) == old_lots
            &&& forall|li: int|
                old_lots.len() <= li < new_lots.len() ==> new_incoming_lot(
                    #[trigger] new_lots[li],
                    incoming_ar.self_ar_key,
                    txns_map@[txn_num].date,
                    dates,
                )
            &&& new_lots.last().date_for_basis_purposes == dates.last()
            &&& inherits_in_order(old_lots, new_lots, dates)
            &&& stamped(old_lots, new_lots, txn_num, txns_map@[txn_num].date)
            &&& exists|src: Seq<int>|
                src_of(old_lots, new_lots, dates, src, dates.len() as int) && #[trigger] shares_of(
                    old_lots,
                    new_lots,
                    ar_mvmts(*outgoing_ar, old(acct_map)@, txns_map@),
                    outgoing_ar.amount,
                    incoming_ar.amount,
                    src,
                    src.len() - 1,
                )
            &&& dates_from(dates, old(acct_map)@[outgoing_ar.account_key].list_of_lots@)
            &&& new_lots.len() - old_lots.len() == dates.len() ==> forall|i: int|
                0 <= i < dates.len() ==> #[trigger] new_lots[old_lots.len() + i].date_for_basis_purposes
                    == dates[i]
        },
{
    let txn = txns_map.get(&txn_num).unwrap();
    let a = incoming_ar.account_key;
    let ghost k = incoming_ar.self_ar_key;
    let ghost m0 = acct_map@;
    proof {
        assert(acct_wf(m0[outgoing_ar.account_key], outgoing_ar.account_key));
        lemma_posted_refl(m0, a, k);
    }
    let list_of_mvmts_of_outgoing_ar = match outgoing_ar.get_mvmts_in_ar_in_lot_date_order(
        acct_map,
        txns_map,
    ) {
        Some(v) => v,
        None => {
            return Err(CryptoolsError::DecimalOverflow { tx_number: txn_num });
        },
    };
    let list_len = list_of_mvmts_of_outgoing_ar.len();
    if list_len == 0 {
        return Err(CryptoolsError::MovementsNotFound { tx_number: txn_num });
    }
    // The basis date each new lot inherits: the basis date of the outgoing movement's
    // lot, so that the coins keep their original acquisition date.
    let mut inherited_dates: Vec<Date> = Vec::new();
    let mut i: usize = 0;
    while i < list_len
        invariant
            i <= list_len == list_of_mvmts_of_outgoing_ar@.len(),
            inherited_dates@.len() == i,
            acct_map@ == m0,
            m0.contains_key(outgoing_ar.account_key),
            ar_map@.contains_key(outgoing_ar.self_ar_key),
            ar_map@[outgoing_ar.self_ar_key].account_key == outgoing_ar.account_key,
            forall|j: int|
                0 <= j < list_of_mvmts_of_outgoing_ar@.len() ==> (
                #[trigger] list_of_mvmts_of_outgoing_ar@[j]).action_record_key
                    == outgoing_ar.self_ar_key && 1 <= list_of_mvmts_of_outgoing_ar@[j].lot_num
                    <= m0[outgoing_ar.account_key].list_of_lots@.len(),
            forall|j: int|
                0 <= j < i ==> #[trigger] inherited_dates@[j] == spec_lot_of(
                    list_of_mvmts_of_outgoing_ar@[j],
                    m0,
                    ar_map@,
                ).date_for_basis_purposes,
        decreases list_len - i,
    {
        let og = &list_of_mvmts_of_outgoing_ar[i];
        let lot = og.get_lot(acct_map, ar_map);
        inherited_dates.push(lot.date_for_basis_purposes);
        i = i + 1;
    }
    let ghost dates = lot_dates_of(list_of_mvmts_of_outgoing_ar@, m0, ar_map@);
    let ghost old_lots = m0[a].list_of_lots@;
    let ghost date = txn.date;
    proof {
        assert(inherited_dates@ =~= dates);
        assert forall|j: int| 0 <= j < dates.len() implies lots_have_date(
            m0[outgoing_ar.account_key].list_of_lots@,
            #[trigger] dates[j],
        ) by {
            let m = list_of_mvmts_of_outgoing_ar@[j];
            assert(m.action_record_key == outgoing_ar.self_ar_key);
            let lj = m.lot_num - 1;
            assert(m0[outgoing_ar.account_key].list_of_lots@[lj].date_for_basis_purposes == dates[j]);
        }
        assert(dates_from(dates, m0[outgoing_ar.account_key].list_of_lots@));
        assert(old_lots.take(old_lots.len() as int) =~= old_lots);
    }
    let mut all_but_last_incoming_mvmt_amt = Dec::zero();
    let mut all_but_last_incoming_mvmt_ratio = Dec::zero();
    let ghost mut pushed: int = 0;
    let ghost mut src: Seq<int> = Seq::empty();
    proof {
        lemma_posted_refl(m0, a, k);
        lemma_stamped_refl(m0[a].list_of_lots@, txn_num, txn.date);
    }
    let mut idx: usize = 0;
    while idx < list_len - 1
        invariant
            idx <= list_len - 1,
            list_len == list_of_mvmts_of_outgoing_ar@.len() == inherited_dates@.len(),
            list_len >= 1,
            k == incoming_ar.self_ar_key,
            a == incoming_ar.account_key,
            m0 == old(acct_map)@,
            m0.contains_key(a),
            posted(m0, acct_map@, a, k, pushed),
            pushed == all_but_last_incoming_mvmt_amt.val(),
            all_but_last_incoming_mvmt_amt.valid(),
            inherited_dates@ == dates,
            old_lots == m0[a].list_of_lots@,
            dates_from(dates, m0[outgoing_ar.account_key].list_of_lots@),
            date == txn.date,
            *txn == txns_map@[txn_num],
            old_lots.len() <= acct_map@[a].list_of_lots@.len(),
            acct_map@[a].list_of_lots@.take(old_lots.len() as int) == old_lots,
            forall|li: int|
                old_lots.len() <= li < acct_map@[a].list_of_lots@.len() ==> new_incoming_lot(
                    #[trigger] acct_map@[a].list_of_lots@[li],
                    k,
                    date,
                    dates,
                ),
            src_of(old_lots, acct_map@[a].list_of_lots@, dates, src, idx as int),
            stamped(m0[a].list_of_lots@, acct_map@[a].list_of_lots@, txn_num, txn.date),
            shares_of(
                old_lots,
                acct_map@[a].list_of_lots@,
                list_of_mvmts_of_outgoing_ar@,
                outgoing_ar.amount,
                incoming_ar.amount,
                src,
                src.len() as int,
            ),
            spec_direction(incoming_ar.amount) == Polarity::Incoming,
            list_of_mvmts_of_outgoing_ar@ == ar_mvmts(*outgoing_ar, m0, txns_map@),
            split_succeeds(
                list_of_mvmts_of_outgoing_ar@,
                0,
                outgoing_ar.amount,
                incoming_ar.amount,
                Dec::zero_spec(),
                Dec::zero_spec(),
                old_lots.len() as int,
            ) == split_succeeds(
                list_of_mvmts_of_outgoing_ar@,
                idx as int,
                outgoing_ar.amount,
                incoming_ar.amount,
                all_but_last_incoming_mvmt_amt,
                all_but_last_incoming_mvmt_ratio,
                acct_map@[a].list_of_lots@.len() as int,
            ),
        decreases list_len - 1 - idx,
    {
        let outgoing_mvmt = &list_of_mvmts_of_outgoing_ar[idx];
        let ratio_of_outgoing_mvmt_to_total_ar = match outgoing_mvmt.amount.checked_div(
            &outgoing_ar.amount,
        ) {
            Some(x) => x,
            None => {
                proof {
                    assert(quotient(outgoing_mvmt.amount, outgoing_ar.amount) is None);
                    assert(!split_succeeds(
                        list_of_mvmts_of_outgoing_ar@,
                        idx as int,
                        outgoing_ar.amount,
                        incoming_ar.amount,
                        all_but_last_incoming_mvmt_amt,
                        all_but_last_incoming_mvmt_ratio,
                        acct_map@[a].list_of_lots@.len() as int,
                    ));
                }
                return Err(CryptoolsError::DecimalOverflow { tx_number: txn_num });
            },
        };
        let tentative_incoming_amt = match ratio_of_outgoing_mvmt_to_total_ar.checked_mul(
            &incoming_ar.amount,
        ) {
            Some(x) => x,
            None => {
                proof {
                    assert(quotient(outgoing_mvmt.amount, outgoing_ar.amount) == Some(ratio_of_outgoing_mvmt_to_total_ar));
                    assert(product(ratio_of_outgoing_mvmt_to_total_ar, incoming_ar.amount) is None);
                    assert(!split_succeeds(
                        list_of_mvmts_of_outgoing_ar@,
                        idx as int,
                        outgoing_ar.amount,
                        incoming_ar.amount,
                        all_but_last_incoming_mvmt_amt,
                        all_but_last_incoming_mvmt_ratio,
                        acct_map@[a].list_of_lots@.len() as int,
                    ));
                }
                return Err(CryptoolsError::DecimalOverflow { tx_number: txn_num });
            },
        };
        let corresponding_incoming_amt = tentative_incoming_amt.round_dp(8);
        if corresponding_incoming_amt.is_zero() {
            idx = idx + 1;
            continue ;
        }
        if corresponding_incoming_amt.is_negative() {
            return Err(CryptoolsError::NonPositiveIncomingAmount { tx_number: txn_num });
        }
        let inherited_date = inherited_dates[idx];
        let ratio_in = ratio_of_outgoing_mvmt_to_total_ar.round_dp(8);
        let amount = corresponding_incoming_amt.normalize();
        amount.reveal_valid();
        let incoming_mvmt = new_mvmt(
            amount,
            &txn.date_as_string,
            txn.date,
            txn_num,
            incoming_ar.self_ar_key,
            ratio_in,
            0,
        );
        all_but_last_incoming_mvmt_ratio = match all_but_last_incoming_mvmt_ratio.checked_add(
            &ratio_in,
        ) {
            Some(x) => x,
            None => {
                return Err(CryptoolsError::DecimalOverflow { tx_number: txn_num });
            },
        };
        all_but_last_incoming_mvmt_amt = match all_but_last_incoming_mvmt_amt.checked_add(
            &amount,
        ) {
            Some(x) => x,
            None => {
                return Err(CryptoolsError::DecimalOverflow { tx_number: txn_num });
            },
        };
        let ghost before = acct_map@;
        post_to_new_lot(
            acct_map,
            a,
            &txn.date_as_string,
            txn.date,
            inherited_date,
            incoming_mvmt,
            incoming_ar,
            chosen_home_currency,
            raw_acct,
        )?;
        proof {
            lemma_posted_trans(m0, before, acct_map@, a, k, pushed, amount.val());
            lemma_stamped_lot(before[a].list_of_lots@, acct_map@[a].list_of_lots@, txn_num, txn.date);
            lemma_stamped_trans(m0[a].list_of_lots@, before[a].list_of_lots@, acct_map@[a].list_of_lots@, k, txn_num, txn.date);
            pushed = pushed + amount.val();
            lemma_src_push(old_lots, before[a].list_of_lots@, acct_map@[a].list_of_lots@, dates, src, idx as int);
            lemma_shares_push(
                old_lots,
                before[a].list_of_lots@,
                acct_map@[a].list_of_lots@,
                list_of_mvmts_of_outgoing_ar@,
                outgoing_ar.amount,
                incoming_ar.amount,
                src,
                idx as int,
                true,
            );
            src = src.push(idx as int);
            lemma_new_lot_appended(
                old_lots,
                before[a].list_of_lots@,
                acct_map@[a].list_of_lots@,
                k,
                date,
                dates,
                idx as int,
            );
        }
        idx = idx + 1;
    }
    let corresponding_incoming_amt = match incoming_ar.amount.checked_sub(
        &all_but_last_incoming_mvmt_amt,
    ) {
        Some(x) => x,
        None => {
            return Err(CryptoolsError::DecimalOverflow { tx_number: txn_num });
        },
    };
    if !corresponding_incoming_amt.is_positive() {
        return Err(CryptoolsError::NonPositiveIncomingAmount { tx_number: txn_num });
    }
    let inherited_date = inherited_dates[list_len - 1];
    let ratio_in = match Dec::one().checked_sub(&all_but_last_incoming_mvmt_ratio) {
        Some(x) => x,
        None => {
            return Err(CryptoolsError::DecimalOverflow { tx_number: txn_num });
        },
    };
    let amount = corresponding_incoming_amt.normalize();
    amount.reveal_valid();
    let incoming_mvmt = new_mvmt(
        amount,
        &txn.date_as_string,
        txn.date,
        txn_num,
        incoming_ar.self_ar_key,
        ratio_in,
        0,
    );
    let ghost before = acct_map@;
    post_to_new_lot(
        acct_map,
        a,
        &txn.date_as_string,
        txn.date,
        inherited_date,
        incoming_mvmt,
        incoming_ar,
        chosen_home_currency,
        raw_acct,
    )?;
    proof {
        lemma_posted_trans(m0, before, acct_map@, a, k, pushed, amount.val());
        lemma_stamped_lot(before[a].list_of_lots@, acct_map@[a].list_of_lots@, txn_num, txn.date);
        lemma_stamped_trans(m0[a].list_of_lots@, before[a].list_of_lots@, acct_map@[a].list_of_lots@, k, txn_num, txn.date);
        lemma_src_push(old_lots, before[a].list_of_lots@, acct_map@[a].list_of_lots@, dates, src, list_len - 1);
        lemma_shares_push(
            old_lots,
            before[a].list_of_lots@,
            acct_map@[a].list_of_lots@,
            list_of_mvmts_of_outgoing_ar@,
            outgoing_ar.amount,
            incoming_ar.amount,
            src,
            list_len - 1,
            false,
        );
        let s2 = src.push(list_len - 1);
        assert(src_of(old_lots, acct_map@[a].list_of_lots@, dates, s2, dates.len() as int));
        assert(s2.len() - 1 == src.len());
        assert(shares_of(
            old_lots,
            acct_map@[a].list_of_lots@,
            ar_mvmts(*outgoing_ar, m0, txns_map@),
            outgoing_ar.amount,
            incoming_ar.amount,
            s2,
            s2.len() - 1,
        ));
        lemma_src_full(old_lots, acct_map@[a].list_of_lots@, dates, src.push(list_len - 1));
        lemma_new_lot_appended(
            old_lots,
            before[a].list_of_lots@,
            acct_map@[a].list_of_lots@,
            k,
            date,
            dates,
            list_len - 1,
        );
    }
    Ok(())
}


/// The (base, quote) raw account keys of the margin pair whose quote account pays out
/// in a dual-action-record flow transaction: the first movement of the first lot of the
/// outgoing (margin) account belongs to a margin exchange, which names the pair.
fn get_base_and_quote_acct_for_dual_actionrecord_flow_tx(
    txn_num: u32,
    ar_map: &HashMap<u32, ActionRecord>,
    raw_acct_map: &HashMap<u16, RawAccount>,
    acct_map: &HashMap<u16, Account>,
    txns_map: &HashMap<u32, Transaction>,
) -> (r: Result<(u16, u16), CryptoolsError>)
    requires
        txns_map@.contains_key(txn_num),
        forall|t: u32| #[trigger]
            txns_map@.contains_key(t) ==> txn_ok(
                txns_map@[t],
                t,
                ar_map@,
                acct_map@,
                raw_acct_map@,
            ),
    ensures
        r matches Ok(keys) ==> {
            let og = ar_map@[txns_map@[txn_num].action_record_idx_vec@[0]];
            let first_mvmt = acct_map@[og.account_key].list_of_lots@[0].movements@[0];
            &&& txns_map@.contains_key(first_mvmt.transaction_key)
            &&& spec_base_and_quote(
                txns_map@[first_mvmt.transaction_key],
                ar_map@,
                acct_map@,
                raw_acct_map@,
            ) == Ok::<(u16, u16), CryptoolsError>(keys)
        },
        r is Ok <==> {
            let og = ar_map@[txns_map@[txn_num].action_record_idx_vec@[0]];
            let lots = acct_map@[og.account_key].list_of_lots@;
            let tk = lots[0].movements@[0].transaction_key;
            &&& lots.len() > 0
            &&& lots[0].movements@.len() > 0
            &&& txns_map@.contains_key(tk)
            &&& spec_tx_type(txns_map@[tk], ar_map@, acct_map@, raw_acct_map@) == Ok::<
                TxType,
                CryptoolsError,
            >(TxType::Exchange)
            &&& spec_marginness(txns_map@[tk], ar_map@, acct_map@, raw_acct_map@) == TxHasMargin::TwoARs
            &&& spec_base_and_quote(txns_map@[tk], ar_map@, acct_map@, raw_acct_map@) is Ok
        },
{
    let txn = txns_map.get(&txn_num).unwrap();
    proof {
        assert(txn_ok(txns_map@[txn_num], txn_num, ar_map@, acct_map@, raw_acct_map@));
        assert(ar_resolves(ar_map@, acct_map@, raw_acct_map@, txn.action_record_idx_vec@[0]));
    }
    let og_flow_ar = ar_map.get(&txn.action_record_idx_vec[0]).unwrap();
    let og_flow_ar_acct = acct_map.get(&og_flow_ar.account_key).unwrap();
    if og_flow_ar_acct.list_of_lots.len() == 0 {
        return Err(CryptoolsError::NoMarginLot { tx_number: txn_num });
    }
    let og_flow_ar_acct_first_lot = &og_flow_ar_acct.list_of_lots[0];
    if og_flow_ar_acct_first_lot.movements.len() == 0 {
        return Err(CryptoolsError::MovementsNotFound { tx_number: txn_num });
    }
    let first_lot_mvmts_first_mvmt = &og_flow_ar_acct_first_lot.movements[0];
    let margin_txn_num = first_lot_mvmts_first_mvmt.transaction_key;
    let txn_of_first_lot_mvmts_first_mvmt = match txns_map.get(&margin_txn_num) {
        Some(t) => t,
        None => {
            return Err(CryptoolsError::MissingData { tx_number: txn_num });
        },
    };
    proof {
        assert(txn_ok(
            txns_map@[margin_txn_num],
            margin_txn_num,
            ar_map@,
            acct_map@,
            raw_acct_map@,
        ));
        let v = txn_of_first_lot_mvmts_first_mvmt.action_record_idx_vec@;
        assert(ar_resolves(ar_map@, acct_map@, raw_acct_map@, v[0]));
        if v.len() == 2 {
            assert(ar_resolves(ar_map@, acct_map@, raw_acct_map@, v[1]));
        }
    }
    match txn_of_first_lot_mvmts_first_mvmt.transaction_type(ar_map, raw_acct_map, acct_map) {
        Ok(TxType::Exchange) => {},
        Ok(_) => {
            return Err(CryptoolsError::NotAMarginExchange { tx_number: margin_txn_num });
        },
        Err(e) => {
            return Err(e);
        },
    }
    if txn_of_first_lot_mvmts_first_mvmt.marginness(ar_map, raw_acct_map, acct_map)
        != TxHasMargin::TwoARs {
        return Err(CryptoolsError::NotAMarginExchange { tx_number: margin_txn_num });
    }
    txn_of_first_lot_mvmts_first_mvmt.get_base_and_quote_raw_acct_keys(
        ar_map,
        raw_acct_map,
        acct_map,
    )
}


/// The lots of `new` are those of `old` followed by lots whose first movement is keyed
/// to action record `k`.
pub open spec fn lots_started_by(old: Seq<Lot>, new: Seq<Lot>, k: u32) -> bool {
    &&& old.len() <= new.len()
    &&& new.take(old.len() as int) == old
    &&& forall|li: int|
        old.len() <= li < new.len() ==> (#[trigger] new[li]).movements@.len() > 0
            && new[li].movements@[0].action_record_key == k
}

proof fn lemma_started_by_push(old: Seq<Lot>, before: Seq<Lot>, after: Seq<Lot>, k: u32)
    requires
        lots_started_by(old, before, k),
        after.drop_last() == before,
        after.len() == before.len() + 1,
        after.last().movements@.len() > 0,
        after.last().movements@[0].action_record_key == k,
    ensures
        lots_started_by(old, after, k),
{
    assert(after.take(old.len() as int) =~= before.take(old.len() as int));
    assert forall|li: int| old.len() <= li < after.len() implies (#[trigger] after[li]).movements@.len() > 0
        && after[li].movements@[0].action_record_key == k by {
        if li < before.len() {
            assert(after[li] == before[li]);
        }
    }
}

/// Posts the incoming (non-margin) action record of a margin profit taken while
/// like-kind treatment applies: the margin buys of the base account's current lot each
/// give a new lot, in proportion to their amounts (rounded to 8 places) and with their
/// dates as basis dates; the last new lot takes what is left.
fn post_dual_flow_with_lk_dates(
    txn_num: u32,
    ar: &ActionRecord,
    chosen_home_currency: &str,
    raw_acct: &RawAccount,
    ar_map: &HashMap<u32, ActionRecord>,
    raw_acct_map: &HashMap<u16, RawAccount>,
    acct_map: &mut HashMap<u16, Account>,
    txns_map: &HashMap<u32, Transaction>,
) -> (r: (Result<(), CryptoolsError>, Ghost<int>))
    requires
        accts_wf(old(acct_map)@),
        old(acct_map)@.contains_key(ar.account_key),
        txns_map@.contains_key(txn_num),
        forall|t: u32| #[trigger]
            txns_map@.contains_key(t) ==> txn_ok(
                txns_map@[t],
                t,
                ar_map@,
                old(acct_map)@,
                raw_acct_map@,
            ),
    ensures
        lots_extend(
            old(acct_map)@[ar.account_key].list_of_lots@,
            final(acct_map)@[ar.account_key].list_of_lots@,
            ar.self_ar_key,
        ),
        forall|b: u16| b != ar.account_key && old(acct_map)@.contains_key(b) ==> #[trigger] final(acct_map)@[b] == old(acct_map)@[b],
        final(acct_map)@.dom() == old(acct_map)@.dom(),
        accts_wf(final(acct_map)@),
        r.0 is Ok ==> posted(
            old(acct_map)@,
            final(acct_map)@,
            ar.account_key,
            ar.self_ar_key,
            r.1@,
        ),
        r.0 is Ok ==> (places8(ar.amount) ==> r.1@ == ar.amount.val()),
        r.0 is Ok ==> stamped(
            old(acct_map)@[ar.account_key].list_of_lots@,
            final(acct_map)@[ar.account_key].list_of_lots@,
            txn_num,
            txns_map@[txn_num].date,
        ),
        r.0 is Ok ==> lots_started_by(
            old(acct_map)@[ar.account_key].list_of_lots@,
            final(acct_map)@[ar.account_key].list_of_lots@,
            ar.self_ar_key,
        ),
{
    let txn = txns_map.get(&txn_num).unwrap();
    let a = ar.account_key;
    let ghost k = ar.self_ar_key;
    let ghost m0 = acct_map@;
    let (base_acct_key, _quote_acct_key) = match get_base_and_quote_acct_for_dual_actionrecord_flow_tx(
        txn_num,
        ar_map,
        raw_acct_map,
        acct_map,
        txns_map,
    ) {
        Ok(keys) => keys,
        Err(e) => {
            return (Err(e), Ghost(0));
        },
    };
    let base_acct = match acct_map.get(&base_acct_key) {
        Some(x) => x,
        None => {
            return (Err(CryptoolsError::MissingData { tx_number: txn_num }), Ghost(0));
        },
    };
    let base_len = base_acct.list_of_lots.len();
    if base_len == 0 {
        return (Err(CryptoolsError::NoMarginLot { tx_number: txn_num }), Ghost(0));
    }
    // The margin buys of the current lot: their amounts and dates.
    let base_acct_lot = &base_acct.list_of_lots[base_len - 1];
    let mut positive_amounts: Vec<Dec> = Vec::new();
    let mut positive_dates: Vec<Date> = Vec::new();
    let mut total_positive_amounts = Dec::zero();
    let mut i: usize = 0;
    while i < base_acct_lot.movements.len()
        invariant
            i <= base_acct_lot.movements@.len(),
            positive_amounts@.len() == positive_dates@.len(),
            acct_map@ == m0,
            m0 == old(acct_map)@,
            accts_wf(m0),
        decreases base_acct_lot.movements@.len() - i,
    {
        let base_acct_mvmt = &base_acct_lot.movements[i];
        if base_acct_mvmt.amount.is_positive() {
            total_positive_amounts = match total_positive_amounts.checked_add(
                &base_acct_mvmt.amount,
            ) {
                Some(x) => x,
                None => {
                    return (Err(CryptoolsError::DecimalOverflow { tx_number: txn_num }), Ghost(0));
                },
            };
            positive_amounts.push(base_acct_mvmt.amount);
            positive_dates.push(base_acct_mvmt.date);
        }
        i = i + 1;
    }
    let n = positive_amounts.len();
    if n == 0 {
        return (Err(CryptoolsError::MovementsNotFound { tx_number: txn_num }), Ghost(0));
    }
    let mut amounts_used = Dec::zero();
    let mut percentages_used = Dec::zero();
    let ghost mut pushed: int = 0;
    proof {
        lemma_posted_refl(m0, a, k);
        lemma_stamped_refl(m0[a].list_of_lots@, txn_num, txn.date);
        lemma_p10_pos(20);
        assert(places8(amounts_used)) by {
            vstd::arithmetic::div_mod::lemma_mod_multiples_basic(0, p10(20));
        }
    }
    proof {
        assert(m0[a].list_of_lots@.take(m0[a].list_of_lots@.len() as int) =~= m0[a].list_of_lots@);
    }
    let mut idx: usize = 0;
    while idx < n - 1
        invariant
            idx <= n - 1,
            n == positive_amounts@.len() == positive_dates@.len(),
            n >= 1,
            k == ar.self_ar_key,
            a == ar.account_key,
            m0 == old(acct_map)@,
            m0.contains_key(a),
            posted(m0, acct_map@, a, k, pushed),
            pushed == amounts_used.val(),
            amounts_used.valid(),
            places8(amounts_used),
            p10(20) > 0,
            lots_started_by(m0[a].list_of_lots@, acct_map@[a].list_of_lots@, k),
            stamped(m0[a].list_of_lots@, acct_map@[a].list_of_lots@, txn_num, txn.date),
        decreases n - 1 - idx,
    {
        let percentage_used = match positive_amounts[idx].checked_div(&total_positive_amounts) {
            Some(x) => x.round_dp(8),
            None => {
                return (Err(CryptoolsError::DecimalOverflow { tx_number: txn_num }), Ghost(0));
            },
        };
        let amount_used = match ar.amount.checked_mul(&percentage_used) {
            Some(x) => {
                x.reveal_valid();
                let rounded = x.round_dp(8);
                proof {
                    lemma_round8(x, rounded);
                }
                rounded
            },
            None => {
                return (Err(CryptoolsError::DecimalOverflow { tx_number: txn_num }), Ghost(0));
            },
        };
        amount_used.reveal_valid();
        let inner_mvmt = new_mvmt(
            amount_used,
            &txn.date_as_string,
            txn.date,
            txn_num,
            ar.self_ar_key,
            percentage_used,
            0,
        );
        let ghost before = acct_map@;
        if let Err(e) = post_to_new_lot(
            acct_map,
            a,
            &txn.date_as_string,
            txn.date,
            positive_dates[idx],
            inner_mvmt,
            ar,
            chosen_home_currency,
            raw_acct,
        ) {
            return (Err(e), Ghost(0));
        }
        proof {
            lemma_posted_trans(m0, before, acct_map@, a, k, pushed, amount_used.val());
            lemma_stamped_lot(before[a].list_of_lots@, acct_map@[a].list_of_lots@, txn_num, txn.date);
            lemma_stamped_trans(m0[a].list_of_lots@, before[a].list_of_lots@, acct_map@[a].list_of_lots@, k, txn_num, txn.date);
            pushed = pushed + amount_used.val();
            lemma_started_by_push(m0[a].list_of_lots@, before[a].list_of_lots@, acct_map@[a].list_of_lots@, k);
        }
        let ghost prev_used = amounts_used;
        amounts_used = match amounts_used.checked_add(&amount_used) {
            Some(x) => x,
            None => {
                return (Err(CryptoolsError::DecimalOverflow { tx_number: txn_num }), Ghost(0));
            },
        };
        proof {
            lemma_multiples(prev_used.val(), amount_used.val(), p10(20));
        }
        percentages_used = match percentages_used.checked_add(&percentage_used) {
            Some(x) => x,
            None => {
                return (Err(CryptoolsError::DecimalOverflow { tx_number: txn_num }), Ghost(0));
            },
        };
        idx = idx + 1;
    }
    let final_amount = match ar.amount.checked_sub(&amounts_used) {
        Some(x) => {
            x.reveal_valid();
            let rounded = x.round_dp(8);
            proof {
                lemma_round8(x, rounded);
                if places8(ar.amount) {
                    lemma_multiples(ar.amount.val(), amounts_used.val(), p10(20));
                }
            }
            rounded
        },
        None => {
            return (Err(CryptoolsError::DecimalOverflow { tx_number: txn_num }), Ghost(0));
        },
    };
    let final_ratio = match Dec::one().checked_sub(&percentages_used) {
        Some(x) => x.round_dp(8),
        None => {
            return (Err(CryptoolsError::DecimalOverflow { tx_number: txn_num }), Ghost(0));
        },
    };
    final_amount.reveal_valid();
    let mvmt = new_mvmt(
        final_amount,
        &txn.date_as_string,
        txn.date,
        txn_num,
        ar.self_ar_key,
        final_ratio,
        0,
    );
    let ghost before = acct_map@;
    if let Err(e) = post_to_new_lot(
        acct_map,
        a,
        &txn.date_as_string,
        txn.date,
        positive_dates[n - 1],
        mvmt,
        ar,
        chosen_home_currency,
        raw_acct,
    ) {
        return (Err(e), Ghost(0));
    }
    proof {
        lemma_posted_trans(m0, before, acct_map@, a, k, pushed, final_amount.val());
        lemma_stamped_lot(before[a].list_of_lots@, acct_map@[a].list_of_lots@, txn_num, txn.date);
        lemma_stamped_trans(m0[a].list_of_lots@, before[a].list_of_lots@, acct_map@[a].list_of_lots@, k, txn_num, txn.date);
        lemma_started_by_push(m0[a].list_of_lots@, before[a].list_of_lots@, acct_map@[a].list_of_lots@, k);
        assert(places8(ar.amount) ==> pushed + final_amount.val() == ar.amount.val());
        assert(posted(old(acct_map)@, acct_map@, a, k, pushed + final_amount.val()));
    }
    (Ok(()), Ghost(pushed + final_amount.val()))
}


/// Two raw accounts agree in every field.
pub open spec fn raw_same(x: RawAccount, y: RawAccount) -> bool {
    &&& x.account_num == y.account_num
    &&& x.name@ == y.name@
    &&& x.ticker@ == y.ticker@
    &&& x.is_margin == y.is_margin
}

/// The keys of the base and the quote action records of a margin exchange, given the
/// (base, quote) raw account keys: the first action record is the base one when its raw
/// account is the base raw account.
fn get_base_and_quote_ar_idxs(
    base_and_quote_keys: (u16, u16),
    txn: &Transaction,
    ars: &HashMap<u32, ActionRecord>,
    raw_acct_map: &HashMap<u16, RawAccount>,
    acct_map: &HashMap<u16, Account>,
) -> (r: (u32, u32))
    requires
        txn.action_record_idx_vec@.len() == 2,
        ar_resolves(ars@, acct_map@, raw_acct_map@, txn.action_record_idx_vec@[0]),
        raw_acct_map@.contains_key(base_and_quote_keys.0),
    ensures
        r == (if raw_same(
            ar_raw(ars@, acct_map@, raw_acct_map@, txn.action_record_idx_vec@[0]),
            raw_acct_map@[base_and_quote_keys.0],
        ) {
            (txn.action_record_idx_vec@[0], txn.action_record_idx_vec@[1])
        } else {
            (txn.action_record_idx_vec@[1], txn.action_record_idx_vec@[0])
        }),
{
    let raw_ic_acct = lookup_raw(txn.action_record_idx_vec[0], ars, raw_acct_map, acct_map);
    let compare = raw_acct_map.get(&base_and_quote_keys.0).unwrap();
    if raw_ic_acct.account_num == compare.account_num && str_eq(
        raw_ic_acct.name.as_str(),
        compare.name.as_str(),
    ) && str_eq(raw_ic_acct.ticker.as_str(), compare.ticker.as_str()) && raw_ic_acct.is_margin
        == compare.is_margin {
        (txn.action_record_idx_vec[0], txn.action_record_idx_vec[1])
    } else {
        (txn.action_record_idx_vec[1], txn.action_record_idx_vec[0])
    }
}

/// Posts a margin exchange: both action records at once, each to its account's current
/// lot, or to a new lot in each account when both balances are zero (a new margin
/// position).  Gives back the keys of the base and the quote action records.
fn process_margin_exchange(
    txn_num: u32,
    txn: &Transaction,
    chosen_home_currency: &str,
    raw_acct_map: &HashMap<u16, RawAccount>,
    acct_map: &mut HashMap<u16, Account>,
    ar_map: &HashMap<u32, ActionRecord>,
) -> (r: (Result<(u32, u32), CryptoolsError>, Ghost<Map<u16, Account>>))
    requires
        accts_wf(old(acct_map)@),
        txn_ok(*txn, txn_num, ar_map@, old(acct_map)@, raw_acct_map@),
        forall|a: u16| #[trigger] raw_acct_map@.contains_key(a) ==> raw_acct_map@[a].account_num == a,
        spec_marginness(*txn, ar_map@, old(acct_map)@, raw_acct_map@) == TxHasMargin::TwoARs,
    ensures
        r.0 is Ok ==> txn.action_record_idx_vec@.len() == 2,
        r.0 matches Ok(p) ==> (p.0 == txn.action_record_idx_vec@[0] && p.1
            == txn.action_record_idx_vec@[1]) || (p.0 == txn.action_record_idx_vec@[1] && p.1
            == txn.action_record_idx_vec@[0]),
        r.0 matches Ok(p) ==> ar_map@[p.0].account_key != ar_map@[p.1].account_key,
        r.0 matches Ok(p) ==> posted(
            old(acct_map)@,
            r.1@,
            ar_map@[p.0].account_key,
            p.0,
            ar_map@[p.0].amount.val(),
        ),
        r.0 matches Ok(p) ==> posted(
            r.1@,
            final(acct_map)@,
            ar_map@[p.1].account_key,
            p.1,
            ar_map@[p.1].amount.val(),
        ),
        r.0 matches Ok(p) ==> stamped(
            old(acct_map)@[ar_map@[p.0].account_key].list_of_lots@,
            r.1@[ar_map@[p.0].account_key].list_of_lots@,
            txn_num,
            txn.date,
        ),
        r.0 matches Ok(p) ==> stamped(
            r.1@[ar_map@[p.1].account_key].list_of_lots@,
            final(acct_map)@[ar_map@[p.1].account_key].list_of_lots@,
            txn_num,
            txn.date,
        ),
{
    let ghost m0 = acct_map@;
    let ghost v = txn.action_record_idx_vec@;
    proof {
        assert(ar_resolves(ar_map@, acct_map@, raw_acct_map@, v[0]));
        assert(v.len() == 2);
        assert(ar_resolves(ar_map@, acct_map@, raw_acct_map@, v[1]));
    }
    match txn.transaction_type(ar_map, raw_acct_map, acct_map) {
        Ok(TxType::Exchange) => {},
        Ok(_) => {
            return (Err(CryptoolsError::NotAMarginExchange { tx_number: txn_num }), Ghost(m0));
        },
        Err(e) => {
            return (Err(e), Ghost(m0));
        },
    }
    let the_raw_pair_keys = match txn.get_base_and_quote_raw_acct_keys(
        ar_map,
        raw_acct_map,
        acct_map,
    ) {
        Ok(keys) => keys,
        Err(e) => {
            return (Err(e), Ghost(m0));
        },
    };
    let ghost k1 = acct_map@[ar_map@[v[0]].account_key].raw_key;
    let ghost k2 = acct_map@[ar_map@[v[1]].account_key].raw_key;
    proof {
        assert(acct_wf(m0[ar_map@[v[0]].account_key], ar_map@[v[0]].account_key));
        assert(acct_wf(m0[ar_map@[v[1]].account_key], ar_map@[v[1]].account_key));
        assert(k1 == ar_map@[v[0]].account_key);
        assert(k2 == ar_map@[v[1]].account_key);
        assert(k1 != k2);
    }
    let (base_ar_idx, quote_ar_idx) = get_base_and_quote_ar_idxs(
        the_raw_pair_keys,
        txn,
        ar_map,
        raw_acct_map,
        acct_map,
    );
    let base_key = the_raw_pair_keys.0;
    let quote_key = the_raw_pair_keys.1;
    proof {
        assert(raw_acct_map@[k1].account_num == k1);
        assert(raw_acct_map@[k2].account_num == k2);
        assert(base_key == ar_map@[base_ar_idx].account_key);
        assert(quote_key == ar_map@[quote_ar_idx].account_key);
    }
    let base_ar = ar_map.get(&base_ar_idx).unwrap();
    let quote_ar = ar_map.get(&quote_ar_idx).unwrap();
    let base_number_of_lots = acct_map.get(&base_key).unwrap().list_of_lots.len();
    let quote_number_of_lots = acct_map.get(&quote_key).unwrap().list_of_lots.len();
    if base_number_of_lots != quote_number_of_lots {
        return (Err(CryptoolsError::MarginLotsMismatch { tx_number: txn_num }), Ghost(m0));
    }
    let acct_balances_are_zero: bool;
    if base_number_of_lots > 0 {
        let base_balance = match sum_field(
            &acct_map.get(&base_key).unwrap().list_of_lots[base_number_of_lots - 1].movements,
            MvmtField::Amount,
        ) {
            Some(x) => x,
            None => {
                return (Err(CryptoolsError::DecimalOverflow { tx_number: txn_num }), Ghost(m0));
            },
        };
        let quote_balance = match sum_field(
            &acct_map.get(&quote_key).unwrap().list_of_lots[quote_number_of_lots - 1].movements,
            MvmtField::Amount,
        ) {
            Some(x) => x,
            None => {
                return (Err(CryptoolsError::DecimalOverflow { tx_number: txn_num }), Ghost(m0));
            },
        };
        acct_balances_are_zero = base_balance.is_zero() && quote_balance.is_zero();
    } else {
        acct_balances_are_zero = true;
    }
    base_ar.amount.reveal_valid();
    quote_ar.amount.reveal_valid();
    let base_mvmt = new_mvmt(
        base_ar.amount,
        &txn.date_as_string,
        txn.date,
        txn_num,
        base_ar_idx,
        Dec::one(),
        0,
    );
    let quote_mvmt = new_mvmt(
        quote_ar.amount,
        &txn.date_as_string,
        txn.date,
        txn_num,
        quote_ar_idx,
        Dec::one(),
        0,
    );
    let raw_base_acct = raw_acct_map.get(&base_key).unwrap();
    let raw_quote_acct = raw_acct_map.get(&quote_key).unwrap();
    let ghost mut mid = acct_map@;
    if acct_balances_are_zero {
        if let Err(e) = post_to_new_lot(
            acct_map,
            base_key,
            &txn.date_as_string,
            txn.date,
            txn.date,
            base_mvmt,
            base_ar,
            chosen_home_currency,
            raw_base_acct,
        ) {
            return (Err(e), Ghost(m0));
        }
        proof {
            mid = acct_map@;
            lemma_stamped_lot(m0[base_key].list_of_lots@, mid[base_key].list_of_lots@, txn_num, txn.date);
        }
        if let Err(e) = post_to_new_lot(
            acct_map,
            quote_key,
            &txn.date_as_string,
            txn.date,
            txn.date,
            quote_mvmt,
            quote_ar,
            chosen_home_currency,
            raw_quote_acct,
        ) {
            return (Err(e), Ghost(m0));
        }
        proof {
            assert(posted(m0, mid, base_key, base_ar_idx, base_ar.amount.val()));
            lemma_stamped_lot(mid[quote_key].list_of_lots@, acct_map@[quote_key].list_of_lots@, txn_num, txn.date);
        }
    } else {
        if let Err(e) = post_to_lot(
            acct_map,
            base_key,
            base_number_of_lots - 1,
            base_mvmt,
            base_ar,
            chosen_home_currency,
            raw_base_acct,
        ) {
            return (Err(e), Ghost(m0));
        }
        proof {
            mid = acct_map@;
            lemma_stamped_mvmt(
                m0[base_key].list_of_lots@,
                mid[base_key].list_of_lots@,
                base_number_of_lots - 1,
                txn_num,
                txn.date,
            );
        }
        if let Err(e) = post_to_lot(
            acct_map,
            quote_key,
            quote_number_of_lots - 1,
            quote_mvmt,
            quote_ar,
            chosen_home_currency,
            raw_quote_acct,
        ) {
            return (Err(e), Ghost(m0));
        }
        proof {
            assert(posted(m0, mid, base_key, base_ar_idx, base_ar.amount.val()));
            lemma_stamped_mvmt(
                mid[quote_key].list_of_lots@,
                acct_map@[quote_key].list_of_lots@,
                quote_number_of_lots - 1,
                txn_num,
                txn.date,
            );
        }
    }
    proof {
        assert(posted(m0, mid, base_key, base_ar_idx, base_ar.amount.val()) && posted(
            mid,
            acct_map@,
            quote_key,
            quote_ar_idx,
            quote_ar.amount.val(),
        ));
        assert(posted(
            old(acct_map)@,
            mid,
            ar_map@[base_ar_idx].account_key,
            base_ar_idx,
            ar_map@[base_ar_idx].amount.val(),
        ) && posted(
            mid,
            acct_map@,
            ar_map@[quote_ar_idx].account_key,
            quote_ar_idx,
            ar_map@[quote_ar_idx].amount.val(),
        ));
    }
    (Ok((base_ar_idx, quote_ar_idx)), Ghost(mid))
}


/// The amounts of a lot's movements added up.
pub open spec fn lot_total(lot: Lot) -> int {
    val_sum(fields_of(lot.movements@, MvmtField::Amount))
}

/// A lot that a margin profit started in an account outside margin while basis dates are
/// kept (`preserved`): its first movement's action record is in a transaction of two
/// action records of one base ticker, one in a margin account and one not, dated no
/// later than day `cutoff` (see `post_dual_flow_with_lk_dates`).
pub open spec fn margin_profit_lot(
    lot: Lot,
    txns: Map<u32, Transaction>,
    ars: Map<u32, ActionRecord>,
    raws: Map<u16, RawAccount>,
    preserved: bool,
    cutoff: int,
) -> bool {
    let f = lot.movements@[0].action_record_key;
    let t = txns[ars[f].tx_key];
    let v = t.action_record_idx_vec@;
    let r0 = raws[ars[v[0]].account_key];
    let r1 = raws[ars[v[1]].account_key];
    &&& preserved
    &&& lot.movements@.len() > 0
    &&& v.len() == 2
    &&& t.date.day_num() <= cutoff
    &&& base_ticker(r0.ticker@) == base_ticker(r1.ticker@)
    &&& r0.is_margin != r1.is_margin
}

/// Every lot holds at least zero, but for lots that `margin_profit_lot` describes.
pub open spec fn lots_nonneg(
    lots: Seq<Lot>,
    txns: Map<u32, Transaction>,
    ars: Map<u32, ActionRecord>,
    raws: Map<u16, RawAccount>,
    preserved: bool,
    cutoff: int,
) -> bool {
    forall|li: int|
        0 <= li < lots.len() && !margin_profit_lot(lots[li], txns, ars, raws, preserved, cutoff)
            ==> lot_total(#[trigger] lots[li]) >= 0
}

/// In every account outside margin and the home currency `home`, every lot holds at
/// least zero (`lots_nonneg`).
pub open spec fn accts_nonneg(
    accts: Map<u16, Account>,
    txns: Map<u32, Transaction>,
    ars: Map<u32, ActionRecord>,
    raws: Map<u16, RawAccount>,
    home: Seq<char>,
    preserved: bool,
    cutoff: int,
) -> bool {
    forall|a: u16| #[trigger]
        accts.contains_key(a) && plain_acct(accts, raws, a, home) ==> lots_nonneg(
            accts[a].list_of_lots@,
            txns,
            ars,
            raws,
            preserved,
            cutoff,
        )
}

/// A lot of one movement holds that movement's amount.
proof fn lemma_lot_total_single(lot: Lot)
    requires
        lot.movements@.len() == 1,
    ensures
        lot_total(lot) == lot.movements@[0].amount.val(),
{
    let f = fields_of(lot.movements@, MvmtField::Amount);
    assert(f.drop_last() =~= Seq::<Dec>::empty());
    assert(val_sum(Seq::<Dec>::empty()) == 0);
}

/// A lot's balance, when it fits, is its total.
proof fn lemma_balance_is_total(lot: Lot, li: int, a: u16)
    requires
        lot_wf(lot, a, li),
        lot_balance(lot) is Some,
    ensures
        lot_balance(lot)->0.val() == lot_total(lot),
{
    let f = fields_of(lot.movements@, MvmtField::Amount);
    assert forall|i: int| 0 <= i < f.len() implies (#[trigger] f[i]).valid() by {
        assert(mvmt_ok(lot.movements@[i], li));
    }
    Dec::lemma_zero_spec();
    assert(Dec::zero_spec().valid());
    lemma_dec_sum_val(Dec::zero_spec(), f);
}

/// Movements added after the old ones, all keyed to `k`, add to the total what they add
/// to the key sum of `k`.
proof fn lemma_total_extend(old: Seq<Movement>, new: Seq<Movement>, k: u32)
    requires
        old.len() <= new.len(),
        forall|mi: int| 0 <= mi < old.len() ==> new[mi] == old[mi],
        forall|mi: int| old.len() <= mi < new.len() ==> (#[trigger] new[mi]).action_record_key == k,
    ensures
        val_sum(fields_of(new, MvmtField::Amount)) - val_sum(fields_of(old, MvmtField::Amount))
            == mvmts_key_sum(new, k) - mvmts_key_sum(old, k),
    decreases new.len(),
{
    if new.len() > old.len() {
        let pre = new.drop_last();
        lemma_total_extend(old, pre, k);
        assert(fields_of(new, MvmtField::Amount).drop_last() =~= fields_of(pre, MvmtField::Amount));
        assert(new.last() == new[new.len() - 1]);
    } else {
        assert(new =~= old);
    }
}

/// Taking an outgoing amount from lots in an order (`fitted_in_order`) keeps every lot
/// at or above zero: the lots emptied hold zero, the last one what it had left over.
proof fn lemma_fitted_nonneg(
    old: Seq<Lot>,
    new: Seq<Lot>,
    order: Seq<usize>,
    k: u32,
    a: u16,
    txns: Map<u32, Transaction>,
    ars: Map<u32, ActionRecord>,
    raws: Map<u16, RawAccount>,
    preserved: bool,
    cutoff: int,
)
    requires
        lots_wf(old, a),
        fitted_in_order(old, new, order, 0, k),
        lots_extend(old, new, k),
        new.len() == old.len(),
        lots_nonneg(old, txns, ars, raws, preserved, cutoff),
    ensures
        lots_nonneg(new, txns, ars, raws, preserved, cutoff),
{
    let p = choose|p: int| 0 <= p < order.len() && fitted_upto(old, new, order, 0, p, k);
    assert forall|li: int|
        0 <= li < new.len() && !margin_profit_lot(new[li], txns, ars, raws, preserved, cutoff)
            implies lot_total(#[trigger] new[li]) >= 0 by {
        assert(lot_extends(old[li], new[li], k));
        assert(lot_wf(old[li], a, li));
        lemma_total_extend(old[li].movements@, new[li].movements@, k);
        if exists|q: int| 0 <= q <= p && #[trigger] order[q] == li {
            let q = choose|q: int| 0 <= q <= p && #[trigger] order[q] == li;
            lemma_balance_is_total(old[li], li, a);
            if q < p {
                assert(taken_by_lot(old, new, order[q] as int, k) == -lot_balance(old[order[q] as int])->0.val());
            }
        } else {
            assert forall|q: int| 0 <= q <= p implies #[trigger] order[q] != li by {}
            assert(new[li] == old[li]);
        }
    }
}

/// Lots added after the old ones, each holding at least zero or started by a margin
/// profit, keep every lot at or above zero.
proof fn lemma_appended_nonneg(
    old: Seq<Lot>,
    new: Seq<Lot>,
    txns: Map<u32, Transaction>,
    ars: Map<u32, ActionRecord>,
    raws: Map<u16, RawAccount>,
    preserved: bool,
    cutoff: int,
)
    requires
        old.len() <= new.len(),
        new.take(old.len() as int) == old,
        lots_nonneg(old, txns, ars, raws, preserved, cutoff),
        forall|li: int|
            old.len() <= li < new.len() ==> lot_total(#[trigger] new[li]) >= 0 || margin_profit_lot(
                new[li],
                txns,
                ars,
                raws,
                preserved,
                cutoff,
            ),
    ensures
        lots_nonneg(new, txns, ars, raws, preserved, cutoff),
{
    assert forall|li: int|
        0 <= li < new.len() && !margin_profit_lot(new[li], txns, ars, raws, preserved, cutoff)
            implies lot_total(#[trigger] new[li]) >= 0 by {
        if li < old.len() {
            assert(new[li] == new.take(old.len() as int)[li]);
        }
    }
}

/// One more lot of one movement of an amount of at least zero keeps every lot at or
/// above zero.
proof fn lemma_new_lot_nonneg(
    old: Seq<Lot>,
    new: Seq<Lot>,
    txns: Map<u32, Transaction>,
    ars: Map<u32, ActionRecord>,
    raws: Map<u16, RawAccount>,
    preserved: bool,
    cutoff: int,
)
    requires
        new.len() == old.len() + 1,
        new.drop_last() == old,
        new.last().movements@.len() == 1,
        new.last().movements@[0].amount.val() >= 0,
        lots_nonneg(old, txns, ars, raws, preserved, cutoff),
    ensures
        lots_nonneg(new, txns, ars, raws, preserved, cutoff),
{
    assert(new.take(old.len() as int) =~= new.drop_last());
    lemma_lot_total_single(new.last());
    assert forall|li: int| old.len() <= li < new.len() implies lot_total(#[trigger] new[li]) >= 0
        || margin_profit_lot(new[li], txns, ars, raws, preserved, cutoff) by {
        assert(new[li] == new.last());
    }
    lemma_appended_nonneg(old, new, txns, ars, raws, preserved, cutoff);
}

/// Changing only basis and proceeds (the same shape) keeps every lot's total, so the lots
/// stay at or above zero.
pub proof fn lemma_accts_nonneg_same_shape(
    x: Map<u16, Account>,
    y: Map<u16, Account>,
    txns: Map<u32, Transaction>,
    ars: Map<u32, ActionRecord>,
    raws: Map<u16, RawAccount>,
    home: Seq<char>,
    preserved: bool,
    cutoff: int,
)
    requires
        same_shape(x, y),
        accts_nonneg(x, txns, ars, raws, home, preserved, cutoff),
    ensures
        accts_nonneg(y, txns, ars, raws, home, preserved, cutoff),
{
    assert forall|a: u16| #[trigger]
        y.contains_key(a) && plain_acct(y, raws, a, home) implies lots_nonneg(
        y[a].list_of_lots@,
        txns,
        ars,
        raws,
        preserved,
        cutoff,
    ) by {
        assert(x.contains_key(a));
        let xl = x[a].list_of_lots@;
        let yl = y[a].list_of_lots@;
        assert forall|li: int|
            0 <= li < yl.len() && !margin_profit_lot(yl[li], txns, ars, raws, preserved, cutoff)
                implies lot_total(#[trigger] yl[li]) >= 0 by {
            assert(lot_same_shape(xl[li], yl[li]));
            assert(fields_of(xl[li].movements@, MvmtField::Amount) =~= fields_of(
                yl[li].movements@,
                MvmtField::Amount,
            )) by {
                assert forall|mi: int| 0 <= mi < xl[li].movements@.len() implies xl[li].movements@[mi].amount
                    == yl[li].movements@[mi].amount by {
                    assert(mvmt_same_shape(xl[li].movements@[mi], yl[li].movements@[mi]));
                }
            }
            if yl[li].movements@.len() > 0 {
                assert(mvmt_same_shape(xl[li].movements@[0], yl[li].movements@[0]));
            }
        }
    }
}

/// Account `a` is a home currency account (of ticker `home`) outside margin.
pub open spec fn home_acct(accts: Map<u16, Account>, raws: Map<u16, RawAccount>, a: u16, home: Seq<char>) -> bool {
    &&& !raws[accts[a].raw_key].is_margin
    &&& raws[accts[a].raw_key].ticker@ == home
}

/// Every movement of `lots` is the whole amount of its action record.
pub open spec fn mvmts_whole(lots: Seq<Lot>, ars: Map<u32, ActionRecord>) -> bool {
    forall|li: int, mi: int|
        0 <= li < lots.len() && 0 <= mi < lots[li].movements@.len() ==> (
        #[trigger] lots[li].movements@[mi]).amount == ars[lots[li].movements@[mi].action_record_key].amount
}

/// In every home currency account outside margin, each action record posts its whole
/// amount as one movement (`mvmts_whole`).
pub open spec fn home_mvmts_whole(
    accts: Map<u16, Account>,
    ars: Map<u32, ActionRecord>,
    raws: Map<u16, RawAccount>,
    home: Seq<char>,
) -> bool {
    forall|a: u16| #[trigger]
        accts.contains_key(a) && home_acct(accts, raws, a, home) ==> mvmts_whole(accts[a].list_of_lots@, ars)
}

/// Posting to one account keeps every other account's movements, so home currency
/// accounts keep whole movements when the account posted to does.
proof fn lemma_home_whole_step(
    before: Map<u16, Account>,
    after: Map<u16, Account>,
    a: u16,
    k: u32,
    total: int,
    ars: Map<u32, ActionRecord>,
    raws: Map<u16, RawAccount>,
    home: Seq<char>,
)
    requires
        accts_wf(before),
        home_mvmts_whole(before, ars, raws, home),
        posted(before, after, a, k, total),
        home_acct(before, raws, a, home) && mvmts_whole(before[a].list_of_lots@, ars) ==> mvmts_whole(
            after[a].list_of_lots@,
            ars,
        ),
    ensures
        home_mvmts_whole(after, ars, raws, home),
{
    assert forall|b: u16| #[trigger]
        after.contains_key(b) && home_acct(after, raws, b, home) implies mvmts_whole(after[b].list_of_lots@, ars) by {
        assert(acct_wf(before[b], b));
        assert(acct_wf(after[b], b));
        if b != a {
            assert(after[b] == before[b]);
        }
    }
}

/// The same shape keeps every movement's amount and action record.
pub proof fn lemma_home_whole_same_shape(
    x: Map<u16, Account>,
    y: Map<u16, Account>,
    ars: Map<u32, ActionRecord>,
    raws: Map<u16, RawAccount>,
    home: Seq<char>,
)
    requires
        same_shape(x, y),
        home_mvmts_whole(x, ars, raws, home),
    ensures
        home_mvmts_whole(y, ars, raws, home),
{
    assert forall|a: u16| #[trigger]
        y.contains_key(a) && home_acct(y, raws, a, home) implies mvmts_whole(y[a].list_of_lots@, ars) by {
        assert(x.contains_key(a));
        let xl = x[a].list_of_lots@;
        let yl = y[a].list_of_lots@;
        assert forall|li: int, mi: int| 0 <= li < yl.len() && 0 <= mi < yl[li].movements@.len() implies (
            #[trigger] yl[li].movements@[mi]).amount == ars[yl[li].movements@[mi].action_record_key].amount by {
            assert(lot_same_shape(xl[li], yl[li]));
            assert(mvmt_same_shape(xl[li].movements@[mi], yl[li].movements@[mi]));
        }
    }
}

/// Every home currency account outside margin has at most one lot.
pub open spec fn home_lots_single(accts: Map<u16, Account>, raws: Map<u16, RawAccount>, home: Seq<char>) -> bool {
    forall|a: u16| #[trigger]
        accts.contains_key(a) && home_acct(accts, raws, a, home) ==> accts[a].list_of_lots@.len() <= 1
}

/// Posting to one account keeps every other account's lots, so home currency accounts
/// keep at most one lot when the account posted to does.
proof fn lemma_home_single_step(
    before: Map<u16, Account>,
    after: Map<u16, Account>,
    a: u16,
    k: u32,
    total: int,
    raws: Map<u16, RawAccount>,
    home: Seq<char>,
)
    requires
        accts_wf(before),
        home_lots_single(before, raws, home),
        posted(before, after, a, k, total),
        home_acct(before, raws, a, home) && before[a].list_of_lots@.len() <= 1
            ==> after[a].list_of_lots@.len() <= 1,
    ensures
        home_lots_single(after, raws, home),
{
    assert forall|b: u16| #[trigger]
        after.contains_key(b) && home_acct(after, raws, b, home) implies after[b].list_of_lots@.len() <= 1 by {
        assert(acct_wf(before[b], b));
        assert(acct_wf(after[b], b));
        if b != a {
            assert(after[b] == before[b]);
        }
    }
}

/// The same shape keeps the number of lots of every account.
pub proof fn lemma_home_single_same_shape(
    x: Map<u16, Account>,
    y: Map<u16, Account>,
    raws: Map<u16, RawAccount>,
    home: Seq<char>,
)
    requires
        same_shape(x, y),
        home_lots_single(x, raws, home),
    ensures
        home_lots_single(y, raws, home),
{
    assert forall|a: u16| #[trigger]
        y.contains_key(a) && home_acct(y, raws, a, home) implies y[a].list_of_lots@.len() <= 1 by {
        assert(x.contains_key(a));
    }
}

/// Every movement belongs to the transaction of its action record and carries that
/// transaction's date.
pub open spec fn mvmts_dated(
    accts: Map<u16, Account>,
    txns: Map<u32, Transaction>,
    ars: Map<u32, ActionRecord>,
) -> bool {
    forall|a: u16, li: int, mi: int|
        accts.contains_key(a) && 0 <= li < accts[a].list_of_lots@.len() && 0 <= mi
            < accts[a].list_of_lots@[li].movements@.len() ==> {
            let m = #[trigger] accts[a].list_of_lots@[li].movements@[mi];
            &&& m.transaction_key == ars[m.action_record_key].tx_key
            &&& m.date == txns[m.transaction_key].date
        }
}

/// Posting movements of action record `k` stamped with its transaction and date keeps
/// every movement dated.
proof fn lemma_dated_step(
    before: Map<u16, Account>,
    after: Map<u16, Account>,
    a: u16,
    k: u32,
    total: int,
    txns: Map<u32, Transaction>,
    ars: Map<u32, ActionRecord>,
)
    requires
        mvmts_dated(before, txns, ars),
        posted(before, after, a, k, total),
        stamped(
            before[a].list_of_lots@,
            after[a].list_of_lots@,
            ars[k].tx_key,
            txns[ars[k].tx_key].date,
        ),
    ensures
        mvmts_dated(after, txns, ars),
{
    assert forall|b: u16, li: int, mi: int|
        after.contains_key(b) && 0 <= li < after[b].list_of_lots@.len() && 0 <= mi
            < after[b].list_of_lots@[li].movements@.len() implies {
        let m = #[trigger] after[b].list_of_lots@[li].movements@[mi];
        &&& m.transaction_key == ars[m.action_record_key].tx_key
        &&& m.date == txns[m.transaction_key].date
    } by {
        if b != a {
            assert(after[b] == before[b]);
        } else {
            let ol = before[a].list_of_lots@;
            let nl = after[a].list_of_lots@;
            if li < ol.len() {
                assert(lot_extends(ol[li], nl[li], k));
                if mi < ol[li].movements@.len() {
                    assert(nl[li].movements@[mi] == ol[li].movements@[mi]);
                    assert(before[a].list_of_lots@[li].movements@[mi] == after[b].list_of_lots@[li].movements@[mi]);
                }
            }
        }
    }
}

/// The same shape keeps every movement's transaction and date.
pub proof fn lemma_dated_same_shape(
    x: Map<u16, Account>,
    y: Map<u16, Account>,
    txns: Map<u32, Transaction>,
    ars: Map<u32, ActionRecord>,
)
    requires
        same_shape(x, y),
        mvmts_dated(x, txns, ars),
    ensures
        mvmts_dated(y, txns, ars),
{
    assert forall|b: u16, li: int, mi: int|
        y.contains_key(b) && 0 <= li < y[b].list_of_lots@.len() && 0 <= mi
            < y[b].list_of_lots@[li].movements@.len() implies {
        let m = #[trigger] y[b].list_of_lots@[li].movements@[mi];
        &&& m.transaction_key == ars[m.action_record_key].tx_key
        &&& m.date == txns[m.transaction_key].date
    } by {
        assert(x.contains_key(b));
        assert(lot_same_shape(x[b].list_of_lots@[li], y[b].list_of_lots@[li]));
        assert(mvmt_same_shape(x[b].list_of_lots@[li].movements@[mi], y[b].list_of_lots@[li].movements@[mi]));
    }
}

/// `b` grew from `a`: every lot of `a` is in `b` at the same place with at least its
/// movements, in the same places.
pub open spec fn lots_grow(a: Seq<Lot>, b: Seq<Lot>) -> bool {
    &&& a.len() <= b.len()
    &&& forall|li: int| 0 <= li < a.len() ==> a[li].movements@.len() <= (#[trigger] b[li]).movements@.len()
    &&& forall|li: int, mi: int|
        0 <= li < a.len() && 0 <= mi < a[li].movements@.len() ==> #[trigger] b[li].movements@[mi]
            == a[li].movements@[mi]
}

/// The movements of `lots` are those of `post` followed by movements of action records
/// processed after `j`, and `pre` is `post` without the movements of `j`, all of whose
/// movements were processed before `j`; `j` took from the lots of `pre` in the order of
/// costing method `method` (`costing_order`, `fitted_in_order`).
pub open spec fn drained_witness(
    lots: Seq<Lot>,
    method: InventoryCostingMethod,
    j: u32,
    txns: Map<u32, Transaction>,
    ars: Map<u32, ActionRecord>,
    pre: Seq<Lot>,
    post: Seq<Lot>,
    order: Seq<usize>,
) -> bool {
    &&& costing_order(method, pre, order)
    &&& fitted_in_order(pre, post, order, 0, j)
    &&& lots_extend(pre, post, j)
    &&& lots_grow(post, lots)
    &&& forall|li: int, mi: int|
        0 <= li < pre.len() && 0 <= mi < pre[li].movements@.len() ==> precedes(
            (#[trigger] pre[li].movements@[mi]).action_record_key,
            j,
            txns,
            ars,
        )
    &&& forall|li: int, mi: int|
        0 <= li < lots.len() && 0 <= mi < lots[li].movements@.len() && (li >= post.len() || mi
            >= post[li].movements@.len()) ==> {
            let x = (#[trigger] lots[li].movements@[mi]).action_record_key;
            x != j && !precedes(x, j, txns, ars)
        }
}

/// The outgoing action record `j` took its amount from the lots (of `lots`, as they were
/// before it) in the order of costing method `method`, each lot giving up its whole
/// balance until one covered what was left (see `drained_witness`).
pub open spec fn drained_in_order(
    lots: Seq<Lot>,
    method: InventoryCostingMethod,
    j: u32,
    txns: Map<u32, Transaction>,
    ars: Map<u32, ActionRecord>,
) -> bool {
    exists|pre: Seq<Lot>, post: Seq<Lot>, order: Seq<usize>|
        #[trigger] drained_witness(lots, method, j, txns, ars, pre, post, order)
}

/// Every outgoing action record of the ledger that `sel` picks, of an account outside
/// margin and the home currency, took from that account's lots in the order of the
/// costing method (`drained_in_order`).
pub open spec fn drained_all(
    accts: Map<u16, Account>,
    txns: Map<u32, Transaction>,
    ars: Map<u32, ActionRecord>,
    raws: Map<u16, RawAccount>,
    home: Seq<char>,
    method: InventoryCostingMethod,
    sel: spec_fn(u32) -> bool,
) -> bool {
    forall|j: u32| #[trigger]
        ar_in_ledger(txns, ars, j) && sel(j) && spec_direction(ars[j].amount) == Polarity::Outgoing
            && plain_acct(accts, raws, ars[j].account_key, home) ==> drained_in_order(
            accts[ars[j].account_key].list_of_lots@,
            method,
            j,
            txns,
            ars,
        )
}

/// An action record at position `i` of transaction `num` comes after every action record
/// processed before that position.
proof fn lemma_later(
    j: u32,
    k: u32,
    num: u32,
    i: int,
    txns: Map<u32, Transaction>,
    ars: Map<u32, ActionRecord>,
)
    requires
        processed_before(j, num, i, txns, ars),
        txns.contains_key(num),
        0 <= i < txns[num].action_record_idx_vec@.len() <= 2,
        txns[num].action_record_idx_vec@[i] == k,
        txns[num].action_record_idx_vec@.len() == 2 ==> txns[num].action_record_idx_vec@[0]
            != txns[num].action_record_idx_vec@[1],
        ars.contains_key(k),
        ars[k].tx_key == num,
    ensures
        k != j,
        !precedes(k, j, txns, ars),
{
    let v = txns[num].action_record_idx_vec@;
    if ars[j].tx_key == num {
        let x = choose|x: int| 0 <= x < v.take(i).len() && v.take(i)[x] == j;
        assert(v[x] == j);
        if k == j {
            assert(false);
        }
        if precedes(k, j, txns, ars) {
            let ip = choose|ip: int| 0 <= ip < v.len() && v[ip] == j && #[trigger] processed_before(k, num, ip, txns, ars);
            assert(ip == x);
            let y = choose|y: int| 0 <= y < v.take(ip).len() && v.take(ip)[y] == k;
            assert(v[y] == k);
            assert(false);
        }
    }
}

/// A later posting of action record `k` keeps what an earlier outgoing record `j` did.
proof fn lemma_drained_keep(
    old: Seq<Lot>,
    new: Seq<Lot>,
    k: u32,
    method: InventoryCostingMethod,
    j: u32,
    txns: Map<u32, Transaction>,
    ars: Map<u32, ActionRecord>,
)
    requires
        drained_in_order(old, method, j, txns, ars),
        lots_extend(old, new, k),
        k != j,
        !precedes(k, j, txns, ars),
    ensures
        drained_in_order(new, method, j, txns, ars),
{
    let (pre, post, order) = choose|pre: Seq<Lot>, post: Seq<Lot>, order: Seq<usize>|
        #[trigger] drained_witness(old, method, j, txns, ars, pre, post, order);
    assert forall|li: int| 0 <= li < post.len() implies post[li].movements@.len() <= (#[trigger] new[li]).movements@.len() by {
        assert(lot_extends(old[li], new[li], k));
    }
    assert forall|li: int, mi: int|
        0 <= li < post.len() && 0 <= mi < post[li].movements@.len() implies #[trigger] new[li].movements@[mi]
            == post[li].movements@[mi] by {
        assert(lot_extends(old[li], new[li], k));
        assert(old[li].movements@[mi] == post[li].movements@[mi]);
    }
    assert forall|li: int, mi: int|
        0 <= li < new.len() && 0 <= mi < new[li].movements@.len() && (li >= post.len() || mi
            >= post[li].movements@.len()) implies {
        let x = (#[trigger] new[li].movements@[mi]).action_record_key;
        x != j && !precedes(x, j, txns, ars)
    } by {
        if li < old.len() {
            assert(lot_extends(old[li], new[li], k));
            if mi < old[li].movements@.len() {
                assert(new[li].movements@[mi] == old[li].movements@[mi]);
            }
        }
    }
    assert(drained_witness(new, method, j, txns, ars, pre, post, order));
}

/// What the posting of an outgoing record `k` did, taken from lots whose movements all
/// came before it.
proof fn lemma_drained_new(
    old: Seq<Lot>,
    new: Seq<Lot>,
    order: Seq<usize>,
    k: u32,
    method: InventoryCostingMethod,
    txns: Map<u32, Transaction>,
    ars: Map<u32, ActionRecord>,
)
    requires
        costing_order(method, old, order),
        fitted_in_order(old, new, order, 0, k),
        lots_extend(old, new, k),
        forall|li: int, mi: int|
            0 <= li < old.len() && 0 <= mi < old[li].movements@.len() ==> precedes(
                (#[trigger] old[li].movements@[mi]).action_record_key,
                k,
                txns,
                ars,
            ),
    ensures
        drained_in_order(new, method, k, txns, ars),
{
    assert(drained_witness(new, method, k, txns, ars, old, new, order));
}

/// Picking fewer action records keeps `drained_all`.
proof fn lemma_drained_sel(
    accts: Map<u16, Account>,
    txns: Map<u32, Transaction>,
    ars: Map<u32, ActionRecord>,
    raws: Map<u16, RawAccount>,
    home: Seq<char>,
    method: InventoryCostingMethod,
    sel0: spec_fn(u32) -> bool,
    sel1: spec_fn(u32) -> bool,
)
    requires
        drained_all(accts, txns, ars, raws, home, method, sel0),
        forall|j: u32| ar_in_ledger(txns, ars, j) && #[trigger] sel1(j) ==> sel0(j),
    ensures
        drained_all(accts, txns, ars, raws, home, method, sel1),
{
    assert forall|j: u32| #[trigger]
        ar_in_ledger(txns, ars, j) && sel1(j) && spec_direction(ars[j].amount) == Polarity::Outgoing
            && plain_acct(accts, raws, ars[j].account_key, home) implies drained_in_order(
        accts[ars[j].account_key].list_of_lots@,
        method,
        j,
        txns,
        ars,
    ) by {
        assert(sel0(j));
    }
}

/// Posting to an account outside the plain ones keeps `drained_all`, for any action
/// records picked of which those of plain accounts were picked before.
proof fn lemma_drained_frame(
    before: Map<u16, Account>,
    after: Map<u16, Account>,
    a: u16,
    k: u32,
    total: int,
    txns: Map<u32, Transaction>,
    ars: Map<u32, ActionRecord>,
    raws: Map<u16, RawAccount>,
    home: Seq<char>,
    method: InventoryCostingMethod,
    sel0: spec_fn(u32) -> bool,
    sel1: spec_fn(u32) -> bool,
)
    requires
        accts_wf(before),
        forall|j: u32| #[trigger] ar_in_ledger(txns, ars, j) ==> before.contains_key(ars[j].account_key),
        posted(before, after, a, k, total),
        !plain_acct(before, raws, a, home),
        drained_all(before, txns, ars, raws, home, method, sel0),
        forall|j: u32|
            ar_in_ledger(txns, ars, j) && #[trigger] sel1(j) && plain_acct(after, raws, ars[j].account_key, home)
                ==> sel0(j),
    ensures
        drained_all(after, txns, ars, raws, home, method, sel1),
{
    assert forall|j: u32| #[trigger]
        ar_in_ledger(txns, ars, j) && sel1(j) && spec_direction(ars[j].amount) == Polarity::Outgoing
            && plain_acct(after, raws, ars[j].account_key, home) implies drained_in_order(
        after[ars[j].account_key].list_of_lots@,
        method,
        j,
        txns,
        ars,
    ) by {
        let b = ars[j].account_key;
        assert(acct_wf(before[b], b));
        assert(acct_wf(after[b], b));
        assert(sel0(j));
        if b == a {
            assert(acct_wf(before[a], a));
            assert(false);
        }
        assert(after[b] == before[b]);
    }
}

/// Posting the action record `k` at position `i` of transaction `num` keeps `drained_all`
/// for the records processed before it and adds `k`, when it is an outgoing record of a
/// plain account that took from its lots in the order of the costing method.
proof fn lemma_drained_step(
    before: Map<u16, Account>,
    after: Map<u16, Account>,
    a: u16,
    k: u32,
    total: int,
    txns: Map<u32, Transaction>,
    ars: Map<u32, ActionRecord>,
    raws: Map<u16, RawAccount>,
    home: Seq<char>,
    method: InventoryCostingMethod,
    num: u32,
    i: int,
)
    requires
        accts_wf(before),
        forall|j: u32| #[trigger] ar_in_ledger(txns, ars, j) ==> before.contains_key(ars[j].account_key),
        posted(before, after, a, k, total),
        mvmts_processed(txns, ars, before, num, i),
        drained_all(before, txns, ars, raws, home, method, |j: u32| processed_before(j, num, i, txns, ars)),
        txns.contains_key(num),
        0 <= i < txns[num].action_record_idx_vec@.len() <= 2,
        txns[num].action_record_idx_vec@[i] == k,
        txns[num].action_record_idx_vec@.len() == 2 ==> txns[num].action_record_idx_vec@[0]
            != txns[num].action_record_idx_vec@[1],
        ars.contains_key(k),
        ars[k].tx_key == num,
        ars[k].account_key == a,
        spec_direction(ars[k].amount) == Polarity::Outgoing && plain_acct(before, raws, a, home)
            ==> exists|order: Seq<usize>|
            costing_order(method, before[a].list_of_lots@, order) && #[trigger] fitted_in_order(
                before[a].list_of_lots@,
                after[a].list_of_lots@,
                order,
                0,
                k,
            ),
    ensures
        drained_all(after, txns, ars, raws, home, method, |j: u32| processed_before(j, num, i + 1, txns, ars)),
{
    let v = txns[num].action_record_idx_vec@;
    assert(acct_wf(before[a], a));
    assert(acct_wf(after[a], a));
    assert forall|j: u32| #[trigger]
        ar_in_ledger(txns, ars, j) && processed_before(j, num, i + 1, txns, ars) && spec_direction(ars[j].amount)
            == Polarity::Outgoing && plain_acct(after, raws, ars[j].account_key, home) implies drained_in_order(
        after[ars[j].account_key].list_of_lots@,
        method,
        j,
        txns,
        ars,
    ) by {
        let b = ars[j].account_key;
        assert(acct_wf(before[b], b));
        assert(acct_wf(after[b], b));
        if j == k {
            let order = choose|order: Seq<usize>|
                costing_order(method, before[a].list_of_lots@, order) && #[trigger] fitted_in_order(
                    before[a].list_of_lots@,
                    after[a].list_of_lots@,
                    order,
                    0,
                    k,
                );
            let ol = before[a].list_of_lots@;
            assert forall|li: int, mi: int| 0 <= li < ol.len() && 0 <= mi < ol[li].movements@.len() implies precedes(
                (#[trigger] ol[li].movements@[mi]).action_record_key,
                k,
                txns,
                ars,
            ) by {
                assert(processed_before(before[a].list_of_lots@[li].movements@[mi].action_record_key, num, i, txns, ars));
            }
            lemma_drained_new(ol, after[a].list_of_lots@, order, k, method, txns, ars);
        } else {
            if ars[j].tx_key == num {
                let t1 = v.take(i + 1);
                assert(t1.contains(j));
                let x = choose|x: int| 0 <= x < t1.len() && t1[x] == j;
                assert(v[x] == j);
                assert(x != i);
                assert(v.take(i)[x] == j);
            }
            assert(processed_before(j, num, i, txns, ars));
            if b == a {
                lemma_later(j, k, num, i, txns, ars);
                lemma_drained_keep(before[a].list_of_lots@, after[a].list_of_lots@, k, method, j, txns, ars);
            } else {
                assert(after[b] == before[b]);
            }
        }
    }
}

/// Action record `k` starts a lot of its own: its transaction has one action record, or
/// two that are neither a transfer to oneself (one base ticker, both in margin accounts
/// or neither) nor dated within like-kind basis dates (`preserved`, on or before day
/// `cutoff`).
pub open spec fn starts_own_lot(
    k: u32,
    txns: Map<u32, Transaction>,
    ars: Map<u32, ActionRecord>,
    raws: Map<u16, RawAccount>,
    preserved: bool,
    cutoff: int,
) -> bool {
    let t = txns[ars[k].tx_key];
    let v = t.action_record_idx_vec@;
    let r0 = raws[ars[v[0]].account_key];
    let r1 = raws[ars[v[1]].account_key];
    ||| v.len() == 1
    ||| (v.len() == 2 && !(base_ticker(r0.ticker@) == base_ticker(r1.ticker@) && r0.is_margin
        == r1.is_margin) && !(preserved && t.date.day_num() <= cutoff))
}

/// Incoming action record `k` carries over the basis dates of the outgoing side's lots:
/// it is one of two action records, both outside margin, of a transfer to oneself (the
/// same base currency), or of a like-kind exchange (basis dates kept, the transaction
/// dated no later than the cut-off date, the outgoing side outside the home currency).
pub open spec fn inherits_basis(
    k: u32,
    txns: Map<u32, Transaction>,
    ars: Map<u32, ActionRecord>,
    raws: Map<u16, RawAccount>,
    home: Seq<char>,
    preserved: bool,
    cutoff: int,
) -> bool {
    let t = txns[ars[k].tx_key];
    let v = t.action_record_idx_vec@;
    let r0 = raws[ars[v[0]].account_key];
    let r1 = raws[ars[v[1]].account_key];
    &&& v.len() == 2
    &&& !r0.is_margin
    &&& !r1.is_margin
    &&& (base_ticker(r0.ticker@) == base_ticker(r1.ticker@) || (preserved && t.date.day_num()
        <= cutoff && r0.ticker@ != home))
}

/// A lot whose first action record carries over basis dates (`inherits_basis`) has the
/// basis date of one of the lots of the outgoing side's account in `accts`.
pub open spec fn inherited_lot_ok(
    lot: Lot,
    accts: Map<u16, Account>,
    txns: Map<u32, Transaction>,
    ars: Map<u32, ActionRecord>,
    raws: Map<u16, RawAccount>,
    home: Seq<char>,
    preserved: bool,
    cutoff: int,
) -> bool {
    let k = lot.movements@[0].action_record_key;
    let o = ars[txns[ars[k].tx_key].action_record_idx_vec@[0]];
    lot.movements@.len() > 0 && inherits_basis(k, txns, ars, raws, home, preserved, cutoff) ==> {
        &&& accts.contains_key(o.account_key)
        &&& lots_have_date(accts[o.account_key].list_of_lots@, lot.date_for_basis_purposes)
    }
}

/// In every account outside margin and the home currency, every lot is as
/// `inherited_lot_ok` describes: coins moved to oneself, or exchanged like-kind while
/// basis dates are kept, keep a basis date of the lots they came from.
pub open spec fn accts_inherit_ok(
    accts: Map<u16, Account>,
    txns: Map<u32, Transaction>,
    ars: Map<u32, ActionRecord>,
    raws: Map<u16, RawAccount>,
    home: Seq<char>,
    preserved: bool,
    cutoff: int,
) -> bool {
    forall|a: u16, li: int|
        accts.contains_key(a) && plain_acct(accts, raws, a, home) && 0 <= li
            < accts[a].list_of_lots@.len() ==> #[trigger] inherited_lot_ok(
            accts[a].list_of_lots@[li],
            accts,
            txns,
            ars,
            raws,
            home,
            preserved,
            cutoff,
        )
}

/// A lot that its first action record started on its own (`starts_own_lot`) is dated
/// with that record's transaction and holds the record's whole amount as its first
/// movement, whose share of the record's incoming amount is one.
pub open spec fn own_lot_ok(
    lot: Lot,
    txns: Map<u32, Transaction>,
    ars: Map<u32, ActionRecord>,
    raws: Map<u16, RawAccount>,
    preserved: bool,
    cutoff: int,
) -> bool {
    let k = lot.movements@[0].action_record_key;
    let d = txns[ars[k].tx_key].date;
    lot.movements@.len() > 0 && starts_own_lot(k, txns, ars, raws, preserved, cutoff) ==> {
        &&& lot.date_of_first_mvmt_in_lot == d
        &&& lot.date_for_basis_purposes == d
        &&& lot.movements@[0].amount == ars[k].amount
        &&& lot.movements@[0].ratio_of_amt_to_incoming_mvmts_in_a_r == Dec::one_spec()
    }
}

pub open spec fn own_lots_ok(
    lots: Seq<Lot>,
    txns: Map<u32, Transaction>,
    ars: Map<u32, ActionRecord>,
    raws: Map<u16, RawAccount>,
    preserved: bool,
    cutoff: int,
) -> bool {
    forall|li: int| 0 <= li < lots.len() ==> own_lot_ok(#[trigger] lots[li], txns, ars, raws, preserved, cutoff)
}

/// In every account outside margin and the home currency, every lot is as `own_lot_ok`
/// describes.
pub open spec fn accts_own_lots_ok(
    accts: Map<u16, Account>,
    txns: Map<u32, Transaction>,
    ars: Map<u32, ActionRecord>,
    raws: Map<u16, RawAccount>,
    home: Seq<char>,
    preserved: bool,
    cutoff: int,
) -> bool {
    forall|a: u16| #[trigger]
        accts.contains_key(a) && plain_acct(accts, raws, a, home) ==> own_lots_ok(
            accts[a].list_of_lots@,
            txns,
            ars,
            raws,
            preserved,
            cutoff,
        )
}

/// Movements added to existing lots, none to an empty one, keep every lot as it was
/// described.
proof fn lemma_own_lots_extend(
    old: Seq<Lot>,
    new: Seq<Lot>,
    k: u32,
    txns: Map<u32, Transaction>,
    ars: Map<u32, ActionRecord>,
    raws: Map<u16, RawAccount>,
    preserved: bool,
    cutoff: int,
)
    requires
        own_lots_ok(old, txns, ars, raws, preserved, cutoff),
        lots_extend(old, new, k),
        starts_no_lot(old, new),
    ensures
        own_lots_ok(new, txns, ars, raws, preserved, cutoff),
{
    assert forall|li: int| 0 <= li < new.len() implies own_lot_ok(#[trigger] new[li], txns, ars, raws, preserved, cutoff) by {
        assert(lot_extends(old[li], new[li], k));
        assert(own_lot_ok(old[li], txns, ars, raws, preserved, cutoff));
        if old[li].movements@.len() > 0 {
            assert(new[li].movements@[0] == old[li].movements@[0]);
        }
    }
}

/// Lots appended after the old ones, each as `own_lot_ok` describes.
proof fn lemma_own_lots_append(
    old: Seq<Lot>,
    new: Seq<Lot>,
    txns: Map<u32, Transaction>,
    ars: Map<u32, ActionRecord>,
    raws: Map<u16, RawAccount>,
    preserved: bool,
    cutoff: int,
)
    requires
        own_lots_ok(old, txns, ars, raws, preserved, cutoff),
        old.len() <= new.len(),
        new.take(old.len() as int) == old,
        forall|li: int| old.len() <= li < new.len() ==> own_lot_ok(#[trigger] new[li], txns, ars, raws, preserved, cutoff),
    ensures
        own_lots_ok(new, txns, ars, raws, preserved, cutoff),
{
    assert forall|li: int| 0 <= li < new.len() implies own_lot_ok(#[trigger] new[li], txns, ars, raws, preserved, cutoff) by {
        if li < old.len() {
            assert(new[li] == new.take(old.len() as int)[li]);
        }
    }
}

/// The same shape keeps every lot as `own_lot_ok` describes it.
pub proof fn lemma_own_lots_same_shape(
    x: Map<u16, Account>,
    y: Map<u16, Account>,
    txns: Map<u32, Transaction>,
    ars: Map<u32, ActionRecord>,
    raws: Map<u16, RawAccount>,
    home: Seq<char>,
    preserved: bool,
    cutoff: int,
)
    requires
        same_shape(x, y),
        accts_own_lots_ok(x, txns, ars, raws, home, preserved, cutoff),
    ensures
        accts_own_lots_ok(y, txns, ars, raws, home, preserved, cutoff),
{
    assert forall|a: u16| #[trigger]
        y.contains_key(a) && plain_acct(y, raws, a, home) implies own_lots_ok(
        y[a].list_of_lots@,
        txns,
        ars,
        raws,
        preserved,
        cutoff,
    ) by {
        assert(x.contains_key(a));
        let xl = x[a].list_of_lots@;
        let yl = y[a].list_of_lots@;
        assert forall|li: int| 0 <= li < yl.len() implies own_lot_ok(#[trigger] yl[li], txns, ars, raws, preserved, cutoff) by {
            assert(lot_same_shape(xl[li], yl[li]));
            assert(own_lot_ok(xl[li], txns, ars, raws, preserved, cutoff));
            if yl[li].movements@.len() > 0 {
                assert(mvmt_same_shape(xl[li].movements@[0], yl[li].movements@[0]));
            }
        }
    }
}

/// Accounts of the same shape keep every lot as `inherited_lot_ok` describes.
pub proof fn lemma_inherit_same_shape(
    x: Map<u16, Account>,
    y: Map<u16, Account>,
    txns: Map<u32, Transaction>,
    ars: Map<u32, ActionRecord>,
    raws: Map<u16, RawAccount>,
    home: Seq<char>,
    preserved: bool,
    cutoff: int,
)
    requires
        same_shape(x, y),
        accts_inherit_ok(x, txns, ars, raws, home, preserved, cutoff),
    ensures
        accts_inherit_ok(y, txns, ars, raws, home, preserved, cutoff),
{
    assert forall|a: u16, li: int|
        y.contains_key(a) && plain_acct(y, raws, a, home) && 0 <= li < y[a].list_of_lots@.len()
            implies #[trigger] inherited_lot_ok(y[a].list_of_lots@[li], y, txns, ars, raws, home, preserved, cutoff) by {
        assert(x.contains_key(a));
        let xl = x[a].list_of_lots@;
        let yl = y[a].list_of_lots@;
        assert(lot_same_shape(xl[li], yl[li]));
        assert(inherited_lot_ok(xl[li], x, txns, ars, raws, home, preserved, cutoff));
        if yl[li].movements@.len() > 0 {
            assert(mvmt_same_shape(xl[li].movements@[0], yl[li].movements@[0]));
            let kk = yl[li].movements@[0].action_record_key;
            let o = ars[txns[ars[kk].tx_key].action_record_idx_vec@[0]];
            if inherits_basis(kk, txns, ars, raws, home, preserved, cutoff) {
                let s0 = x[o.account_key].list_of_lots@;
                let s1 = y[o.account_key].list_of_lots@;
                let lj = choose|lj: int| 0 <= lj < s0.len() && #[trigger] s0[lj].date_for_basis_purposes == yl[li].date_for_basis_purposes;
                assert(lot_same_shape(s0[lj], s1[lj]));
                assert(s1[lj].date_for_basis_purposes == yl[li].date_for_basis_purposes);
            }
        }
    }
}

/// Posting to one account keeps every other account's lots, so the lots of every account
/// outside margin and the home currency stay as `own_lot_ok` describes when those of the
/// account posted to do.
proof fn lemma_own_lots_step(
    before: Map<u16, Account>,
    after: Map<u16, Account>,
    a: u16,
    k: u32,
    total: int,
    txns: Map<u32, Transaction>,
    ars: Map<u32, ActionRecord>,
    raws: Map<u16, RawAccount>,
    home: Seq<char>,
    preserved: bool,
    cutoff: int,
)
    requires
        accts_wf(before),
        accts_own_lots_ok(before, txns, ars, raws, home, preserved, cutoff),
        posted(before, after, a, k, total),
        plain_acct(before, raws, a, home) && own_lots_ok(
            before[a].list_of_lots@,
            txns,
            ars,
            raws,
            preserved,
            cutoff,
        ) ==> own_lots_ok(after[a].list_of_lots@, txns, ars, raws, preserved, cutoff),
    ensures
        accts_own_lots_ok(after, txns, ars, raws, home, preserved, cutoff),
{
    assert forall|b: u16| #[trigger]
        after.contains_key(b) && plain_acct(after, raws, b, home) implies own_lots_ok(
        after[b].list_of_lots@,
        txns,
        ars,
        raws,
        preserved,
        cutoff,
    ) by {
        assert(acct_wf(before[b], b));
        assert(acct_wf(after[b], b));
        if b != a {
            assert(after[b] == before[b]);
        }
    }
}

/// Posting action record `k` to account `a` keeps every lot as `inherited_lot_ok`
/// describes, when the lots it appends are (against the accounts before it) and, in an
/// account outside margin and the home currency, an empty lot stays empty.
proof fn lemma_inherit_step(
    before: Map<u16, Account>,
    after: Map<u16, Account>,
    a: u16,
    k: u32,
    total: int,
    txns: Map<u32, Transaction>,
    ars: Map<u32, ActionRecord>,
    raws: Map<u16, RawAccount>,
    home: Seq<char>,
    preserved: bool,
    cutoff: int,
)
    requires
        accts_wf(before),
        accts_inherit_ok(before, txns, ars, raws, home, preserved, cutoff),
        posted(before, after, a, k, total),
        plain_acct(before, raws, a, home) ==> forall|li: int|
            0 <= li < before[a].list_of_lots@.len() && before[a].list_of_lots@[li].movements@.len() == 0
                ==> (#[trigger] after[a].list_of_lots@[li]).movements@.len() == 0,
        plain_acct(before, raws, a, home) ==> forall|li: int|
            before[a].list_of_lots@.len() <= li < after[a].list_of_lots@.len()
                ==> #[trigger] inherited_lot_ok(after[a].list_of_lots@[li], before, txns, ars, raws, home, preserved, cutoff),
    ensures
        accts_inherit_ok(after, txns, ars, raws, home, preserved, cutoff),
{
    assert forall|b: u16, li: int|
        after.contains_key(b) && plain_acct(after, raws, b, home) && 0 <= li
            < after[b].list_of_lots@.len() implies #[trigger] inherited_lot_ok(
        after[b].list_of_lots@[li],
        after,
        txns,
        ars,
        raws,
        home,
        preserved,
        cutoff,
    ) by {
        assert(acct_wf(before[b], b));
        assert(acct_wf(after[b], b));
        let lot = after[b].list_of_lots@[li];
        if b == a && li >= before[a].list_of_lots@.len() {
            assert(inherited_lot_ok(lot, before, txns, ars, raws, home, preserved, cutoff));
        } else {
            let ol = before[b].list_of_lots@[li];
            if b == a {
                assert(lot_extends(ol, lot, k));
                if ol.movements@.len() > 0 {
                    assert(lot.movements@[0] == ol.movements@[0]);
                }
            } else {
                assert(after[b] == before[b]);
            }
            assert(inherited_lot_ok(ol, before, txns, ars, raws, home, preserved, cutoff));
        }
        let kk = lot.movements@[0].action_record_key;
        let o = ars[txns[ars[kk].tx_key].action_record_idx_vec@[0]];
        if lot.movements@.len() > 0 && inherits_basis(kk, txns, ars, raws, home, preserved, cutoff) {
            let src0 = before[o.account_key].list_of_lots@;
            let src1 = after[o.account_key].list_of_lots@;
            assert(lots_have_date(src0, lot.date_for_basis_purposes));
            let lj = choose|lj: int| 0 <= lj < src0.len() && #[trigger] src0[lj].date_for_basis_purposes == lot.date_for_basis_purposes;
            if o.account_key == a {
                assert(lot_extends(src0[lj], src1[lj], k));
            } else {
                assert(before.contains_key(o.account_key));
                assert(src1 == src0);
            }
            assert(src1[lj].date_for_basis_purposes == lot.date_for_basis_purposes);
        }
    }
}

/// Posting to one account keeps every other account's lots, so the lots of every account
/// outside margin and the home currency stay at or above zero when those of the account
/// posted to do.
proof fn lemma_accts_nonneg_step(
    before: Map<u16, Account>,
    after: Map<u16, Account>,
    a: u16,
    k: u32,
    total: int,
    txns: Map<u32, Transaction>,
    ars: Map<u32, ActionRecord>,
    raws: Map<u16, RawAccount>,
    home: Seq<char>,
    preserved: bool,
    cutoff: int,
)
    requires
        accts_wf(before),
        accts_nonneg(before, txns, ars, raws, home, preserved, cutoff),
        posted(before, after, a, k, total),
        plain_acct(before, raws, a, home) && lots_nonneg(
            before[a].list_of_lots@,
            txns,
            ars,
            raws,
            preserved,
            cutoff,
        ) ==> lots_nonneg(after[a].list_of_lots@, txns, ars, raws, preserved, cutoff),
    ensures
        accts_nonneg(after, txns, ars, raws, home, preserved, cutoff),
{
    assert forall|b: u16| #[trigger]
        after.contains_key(b) && plain_acct(after, raws, b, home) implies lots_nonneg(
        after[b].list_of_lots@,
        txns,
        ars,
        raws,
        preserved,
        cutoff,
    ) by {
        assert(acct_wf(before[b], b));
        assert(acct_wf(after[b], b));
        if b != a {
            assert(after[b] == before[b]);
        }
    }
}

/// The lots of account `a` of `new` extend those of `old` by movements of action record
/// `k` only (see `lots_extend`), and every other account is as it was.
pub open spec fn partly_posted(old: Map<u16, Account>, new: Map<u16, Account>, a: u16, k: u32) -> bool {
    &&& accts_wf(new)
    &&& new.dom() == old.dom()
    &&& forall|b: u16| b != a && old.contains_key(b) ==> #[trigger] new[b] == old[b]
    &&& lots_extend(old[a].list_of_lots@, new[a].list_of_lots@, k)
}

/// Splitting an incoming action record `inc` of a transfer to oneself, or of a like-kind
/// exchange, over the lots of the outgoing one `og` fails, the accounts being `accts`:
/// the outgoing record's movements cannot be found, there are none, or the split fails
/// (`split_succeeds`).
pub open spec fn split_fails(
    og: ActionRecord,
    inc: ActionRecord,
    accts: Map<u16, Account>,
    txns: Map<u32, Transaction>,
) -> bool {
    let ms = ar_mvmts(og, accts, txns);
    ||| exists|j: int| scan_overflows_at(ar_candidates(og, accts, txns), og.amount, j)
    ||| ms.len() == 0
    ||| !split_succeeds(
        ms,
        0,
        og.amount,
        inc.amount,
        Dec::zero_spec(),
        Dec::zero_spec(),
        accts[inc.account_key].list_of_lots@.len() as int,
    )
}

/// Posting action record `k` of transaction `t` (not a margin exchange) fails, the
/// accounts being `accts`, by the rules `post_action_record` follows:
/// - in the home currency, when the account holds more than one lot, or the amount
///   cannot be posted (`amount_fails`), or no lot number is left;
/// - when the kind of the transaction cannot be told;
/// - for an outgoing record, when the account has no lot; in a margin account when the
///   amount cannot be posted; otherwise when the lots, in the order of the costing
///   method, cannot take it (`fit_succeeds`);
/// - for an incoming record of a flow, in a margin account when there is no lot or the
///   amount cannot be posted; a margin profit carried over while basis dates are kept
///   (see `post_dual_flow_with_lk_dates`) is not described further; otherwise when a new
///   lot cannot be started;
/// - for an incoming record of a transfer to oneself, in a margin account, or when the
///   split fails (`split_fails`); of an exchange, when the split fails while basis dates
///   are kept and neither side is in the home currency, and otherwise when a new lot
///   cannot be started.
pub open spec fn post_fails(
    home: Seq<char>,
    method: InventoryCostingMethod,
    preserved: bool,
    cutoff: int,
    t: u32,
    k: u32,
    accts: Map<u16, Account>,
    ars: Map<u32, ActionRecord>,
    txns: Map<u32, Transaction>,
    raws: Map<u16, RawAccount>,
) -> bool {
    let txn = txns[t];
    let ar = ars[k];
    let a = ar.account_key;
    let lots = accts[a].list_of_lots@;
    let n = lots.len();
    let raw = raws[accts[a].raw_key];
    let cannot_post = amount_fails(ar.amount, ar, home, raw);
    let new_lot_fails = n >= 0xffff_fffe || cannot_post;
    let lk = preserved && txn.date.day_num() <= cutoff;
    let og = ars[txn.action_record_idx_vec@[0]];
    if raw.ticker@ == home {
        if n == 0 {
            new_lot_fails
        } else if n == 1 {
            cannot_post
        } else {
            true
        }
    } else {
        match spec_tx_type(txn, ars, accts, raws) {
            Err(_) => true,
            Ok(ty) => if spec_direction(ar.amount) == Polarity::Outgoing {
                if raw.is_margin {
                    n == 0 || cannot_post
                } else {
                    n == 0 || exists|order: Seq<usize>|
                        costing_order(method, lots, order) && !#[trigger] fit_succeeds(
                            lots,
                            order,
                            0,
                            ar.amount,
                            ar,
                            home,
                            raw,
                        )
                }
            } else {
                match ty {
                    TxType::Flow => if raw.is_margin {
                        n == 0 || cannot_post
                    } else if txn.action_record_idx_vec@.len() != 1 && lk {
                        true
                    } else {
                        new_lot_fails
                    },
                    TxType::Exchange => if lk && raws[accts[og.account_key].raw_key].ticker@ != home {
                        split_fails(og, ar, accts, txns)
                    } else {
                        new_lot_fails
                    },
                    TxType::ToSelf => raw.is_margin || split_fails(og, ar, accts, txns),
                }
            },
        }
    }
}

/// The action record `ar_num` of transaction `txn_num` is listed in it.
pub open spec fn ar_listed_in(txn: Transaction, ar_num: u32) -> bool {
    exists|i: int|
        0 <= i < txn.action_record_idx_vec@.len() && #[trigger] txn.action_record_idx_vec@[i]
            == ar_num
}

/// Posts one action record of a transaction that is not a margin exchange, by the rules
/// for its account (home currency, margin or not), its direction and the kind of its
/// transaction.  Gives back the total posted, which is the action record's amount
/// whenever that amount has at most 8 decimal places.  An outgoing amount of an account
/// outside margin and the home currency is taken from its lots in the order of the
/// costing method (`costing_order`), each lot giving up its whole balance until one
/// covers what is left (`fitted_in_order`).
fn post_action_record(
    settings: &ImportProcessParameters,
    txn_num: u32,
    ar_num: u32,
    raw_acct_map: &HashMap<u16, RawAccount>,
    acct_map: &mut HashMap<u16, Account>,
    ar_map: &HashMap<u32, ActionRecord>,
    txns_map: &HashMap<u32, Transaction>,
) -> (r: (Result<(), CryptoolsError>, Ghost<int>))
    requires
        accts_wf(old(acct_map)@),
        txns_map@.contains_key(txn_num),
        forall|t: u32| #[trigger]
            txns_map@.contains_key(t) ==> txn_ok(
                txns_map@[t],
                t,
                ar_map@,
                old(acct_map)@,
                raw_acct_map@,
            ),
        ar_listed_in(txns_map@[txn_num], ar_num),
    ensures
        r.0 is Ok ==> posted(
            old(acct_map)@,
            final(acct_map)@,
            ar_map@[ar_num].account_key,
            ar_num,
            r.1@,
        ),
        r.0 is Ok ==> (places8(ar_map@[ar_num].amount) ==> r.1@ == ar_map@[ar_num].amount.val()),
        r.0 is Ok && spec_direction(ar_map@[ar_num].amount) != Polarity::Incoming && plain_acct(
            final(acct_map)@,
            raw_acct_map@,
            ar_map@[ar_num].account_key,
            settings.home_currency@,
        ) ==> starts_no_lot(
            old(acct_map)@[ar_map@[ar_num].account_key].list_of_lots@,
            final(acct_map)@[ar_map@[ar_num].account_key].list_of_lots@,
        ),
        r.0 is Ok && spec_direction(ar_map@[ar_num].amount) == Polarity::Outgoing && plain_acct(
            final(acct_map)@,
            raw_acct_map@,
            ar_map@[ar_num].account_key,
            settings.home_currency@,
        ) ==> exists|order: Seq<usize>|
            costing_order(
                settings.costing_method,
                old(acct_map)@[ar_map@[ar_num].account_key].list_of_lots@,
                order,
            ) && #[trigger] fitted_in_order(
                old(acct_map)@[ar_map@[ar_num].account_key].list_of_lots@,
                final(acct_map)@[ar_map@[ar_num].account_key].list_of_lots@,
                order,
                0,
                ar_num,
            ),
        r.0 is Ok && plain_acct(
            old(acct_map)@,
            raw_acct_map@,
            ar_map@[ar_num].account_key,
            settings.home_currency@,
        ) && lots_nonneg(
            old(acct_map)@[ar_map@[ar_num].account_key].list_of_lots@,
            txns_map@,
            ar_map@,
            raw_acct_map@,
            settings.lk_basis_date_preserved,
            settings.lk_cutoff_date.day_num(),
        ) ==> lots_nonneg(
            final(acct_map)@[ar_map@[ar_num].account_key].list_of_lots@,
            txns_map@,
            ar_map@,
            raw_acct_map@,
            settings.lk_basis_date_preserved,
            settings.lk_cutoff_date.day_num(),
        ),
        r.0 is Ok && home_acct(
            old(acct_map)@,
            raw_acct_map@,
            ar_map@[ar_num].account_key,
            settings.home_currency@,
        ) && old(acct_map)@[ar_map@[ar_num].account_key].list_of_lots@.len() <= 1
            ==> final(acct_map)@[ar_map@[ar_num].account_key].list_of_lots@.len() <= 1,
        r.0 is Ok && home_acct(
            old(acct_map)@,
            raw_acct_map@,
            ar_map@[ar_num].account_key,
            settings.home_currency@,
        ) && mvmts_whole(old(acct_map)@[ar_map@[ar_num].account_key].list_of_lots@, ar_map@)
            ==> mvmts_whole(final(acct_map)@[ar_map@[ar_num].account_key].list_of_lots@, ar_map@),
        r.0 is Ok ==> stamped(
            old(acct_map)@[ar_map@[ar_num].account_key].list_of_lots@,
            final(acct_map)@[ar_map@[ar_num].account_key].list_of_lots@,
            txn_num,
            txns_map@[txn_num].date,
        ),
        r.0 is Ok && plain_acct(
            old(acct_map)@,
            raw_acct_map@,
            ar_map@[ar_num].account_key,
            settings.home_currency@,
        ) && own_lots_ok(
            old(acct_map)@[ar_map@[ar_num].account_key].list_of_lots@,
            txns_map@,
            ar_map@,
            raw_acct_map@,
            settings.lk_basis_date_preserved,
            settings.lk_cutoff_date.day_num(),
        ) ==> own_lots_ok(
            final(acct_map)@[ar_map@[ar_num].account_key].list_of_lots@,
            txns_map@,
            ar_map@,
            raw_acct_map@,
            settings.lk_basis_date_preserved,
            settings.lk_cutoff_date.day_num(),
        ),
        r.0 is Ok && plain_acct(
            old(acct_map)@,
            raw_acct_map@,
            ar_map@[ar_num].account_key,
            settings.home_currency@,
        ) ==> forall|li: int|
            0 <= li < old(acct_map)@[ar_map@[ar_num].account_key].list_of_lots@.len()
                && old(acct_map)@[ar_map@[ar_num].account_key].list_of_lots@[li].movements@.len() == 0
                ==> (#[trigger] final(acct_map)@[ar_map@[ar_num].account_key].list_of_lots@[li]).movements@.len() == 0,
        r.0 is Ok && plain_acct(
            old(acct_map)@,
            raw_acct_map@,
            ar_map@[ar_num].account_key,
            settings.home_currency@,
        ) ==> forall|li: int|
            old(acct_map)@[ar_map@[ar_num].account_key].list_of_lots@.len() <= li
                < final(acct_map)@[ar_map@[ar_num].account_key].list_of_lots@.len()
                ==> #[trigger] inherited_lot_ok(
                final(acct_map)@[ar_map@[ar_num].account_key].list_of_lots@[li],
                old(acct_map)@,
                txns_map@,
                ar_map@,
                raw_acct_map@,
                settings.home_currency@,
                settings.lk_basis_date_preserved,
                settings.lk_cutoff_date.day_num(),
            ),
        partly_posted(old(acct_map)@, final(acct_map)@, ar_map@[ar_num].account_key, ar_num),
        r.0 is Err ==> post_fails(
            settings.home_currency@,
            settings.costing_method,
            settings.lk_basis_date_preserved,
            settings.lk_cutoff_date.day_num(),
            txn_num,
            ar_num,
            old(acct_map)@,
            ar_map@,
            txns_map@,
            raw_acct_map@,
        ),
{
    let txn = txns_map.get(&txn_num).unwrap();
    let ghost m0 = acct_map@;
    proof {
        assert(txn_ok(txns_map@[txn_num], txn_num, ar_map@, acct_map@, raw_acct_map@));
        let i = choose|i: int|
            0 <= i < txn.action_record_idx_vec@.len() && #[trigger] txn.action_record_idx_vec@[i]
                == ar_num;
        assert(ar_resolves(ar_map@, acct_map@, raw_acct_map@, txn.action_record_idx_vec@[i]));
        assert(ar_map@[txn.action_record_idx_vec@[i]].self_ar_key == txn.action_record_idx_vec@[i]);
        assert(ar_map@[txn.action_record_idx_vec@[i]].tx_key == txn_num);
        let v = txn.action_record_idx_vec@;
        assert(ar_resolves(ar_map@, acct_map@, raw_acct_map@, v[0]));
        assert(ar_map@[v[0]].self_ar_key == v[0]);
        assert(ar_map@[v[0]].tx_key == txn_num);
        if v.len() == 2 {
            assert(ar_resolves(ar_map@, acct_map@, raw_acct_map@, v[1]));
        }
    }
    let ar = ar_map.get(&ar_num).unwrap();
    let a = ar.account_key;
    let ghost pres = settings.lk_basis_date_preserved;
    let ghost cut = settings.lk_cutoff_date.day_num();
    let ghost old_lots = m0[a].list_of_lots@;
    let chosen_home_currency = settings.home_currency.as_str();
    let length_of_list_of_lots = acct_map.get(&a).unwrap().list_of_lots.len();
    let raw_acct = raw_acct_map.get(&acct_map.get(&a).unwrap().raw_key).unwrap();
    ar.amount.reveal_valid();
    let whole_mvmt = new_mvmt(
        ar.amount,
        &txn.date_as_string,
        txn.date,
        txn_num,
        ar_num,
        Dec::one(),
        0,
    );
    // A home currency account keeps a single lot, whatever its balance.
    if raw_acct.is_home_currency(chosen_home_currency) {
        if length_of_list_of_lots == 0 {
            let r = post_to_new_lot(
                acct_map,
                a,
                &txn.date_as_string,
                txn.date,
                txn.date,
                whole_mvmt,
                ar,
                chosen_home_currency,
                raw_acct,
            );
            proof {
                if r is Ok {
                    lemma_stamped_lot(m0[a].list_of_lots@, acct_map@[a].list_of_lots@, txn_num, txn.date);
                }
            }
            return (r, Ghost(ar.amount.val()));
        } else if length_of_list_of_lots == 1 {
            let r = post_to_lot(acct_map, a, 0, whole_mvmt, ar, chosen_home_currency, raw_acct);
            proof {
                if r is Ok {
                    lemma_stamped_mvmt(m0[a].list_of_lots@, acct_map@[a].list_of_lots@, 0, txn_num, txn.date);
                }
            }
            return (r, Ghost(ar.amount.val()));
        } else {
            return (
                Err(CryptoolsError::MultipleHomeCurrencyLots { tx_number: txn_num }),
                Ghost(0),
            );
        }
    }
    let tx_type = match txn.transaction_type(ar_map, raw_acct_map, acct_map) {
        Ok(t) => t,
        Err(e) => {
            return (Err(e), Ghost(0));
        },
    };
    match ar.direction() {
        Polarity::Outgoing => {
            if raw_acct.is_margin {
                // A margin profit paid out of the quote account: its current lot.
                if length_of_list_of_lots == 0 {
                    return (Err(CryptoolsError::NoMarginLot { tx_number: txn_num }), Ghost(0));
                }
                let r = post_to_lot(
                    acct_map,
                    a,
                    length_of_list_of_lots - 1,
                    whole_mvmt,
                    ar,
                    chosen_home_currency,
                    raw_acct,
                );
                proof {
                    if r is Ok {
                        lemma_stamped_mvmt(m0[a].list_of_lots@, acct_map@[a].list_of_lots@, (length_of_list_of_lots - 1) as int, txn_num, txn.date);
                    }
                }
                (r, Ghost(ar.amount.val()))
            } else {
                if length_of_list_of_lots == 0 {
                    return (
                        Err(CryptoolsError::NoLotsToSpendFrom { tx_number: txn_num }),
                        Ghost(0),
                    );
                }
                let list_of_lots_to_use = &acct_map.get(&a).unwrap().list_of_lots;
                let vec_of_ordered_index_values = match settings.costing_method {
                    InventoryCostingMethod::LIFObyLotCreationDate => get_lifo_by_creation_date(
                        list_of_lots_to_use,
                    ),
                    InventoryCostingMethod::LIFObyLotBasisDate => get_lifo_by_lot_basis_date(
                        list_of_lots_to_use,
                    ),
                    InventoryCostingMethod::FIFObyLotCreationDate => get_fifo_by_creation_date(
                        list_of_lots_to_use,
                    ),
                    InventoryCostingMethod::FIFObyLotBasisDate => get_fifo_by_lot_basis_date(
                        list_of_lots_to_use,
                    ),
                };
                proof {
                    let lots = m0[a].list_of_lots@;
                    let order = vec_of_ordered_index_values@;
                    match settings.costing_method {
                        InventoryCostingMethod::LIFObyLotCreationDate => {
                            assert(order =~= Seq::new(
                                lots.len(),
                                |i: int| (lots.len() - 1 - i) as usize,
                            ));
                        },
                        InventoryCostingMethod::FIFObyLotCreationDate => {
                            assert(order =~= Seq::new(lots.len(), |i: int| i as usize));
                        },
                        InventoryCostingMethod::LIFObyLotBasisDate => {
                            assert forall|x: int, y: int| 0 <= x < y < order.len() implies order[x]
                                != order[y] by {
                                assert(basis_before(lots, order[y] as int, order[x] as int));
                            }
                        },
                        InventoryCostingMethod::FIFObyLotBasisDate => {
                            assert forall|x: int, y: int| 0 <= x < y < order.len() implies order[x]
                                != order[y] by {
                                assert(basis_before(lots, order[x] as int, order[y] as int));
                            }
                        },
                    }
                    assert(costing_order(settings.costing_method, lots, order));
                }
                let lot_index = vec_of_ordered_index_values[0];
                let first_lot_number = list_of_lots_to_use[lot_index].lot_number;
                let mvmt_to_fit = new_mvmt(
                    ar.amount,
                    &txn.date_as_string,
                    txn.date,
                    txn_num,
                    ar_num,
                    Dec::one(),
                    first_lot_number,
                );
                let r = fit_into_lots(
                    acct_map,
                    a,
                    &mvmt_to_fit,
                    ar.amount,
                    &vec_of_ordered_index_values,
                    0,
                    chosen_home_currency,
                    ar,
                    raw_acct,
                );
                proof {
                    if r is Ok && lots_nonneg(old_lots, txns_map@, ar_map@, raw_acct_map@, pres, cut) {
                        assert(acct_wf(m0[a], a));
                        lemma_fitted_nonneg(
                            old_lots,
                            acct_map@[a].list_of_lots@,
                            vec_of_ordered_index_values@,
                            ar_num,
                            a,
                            txns_map@,
                            ar_map@,
                            raw_acct_map@,
                            pres,
                            cut,
                        );
                    }
                }
                proof {
                    if r is Ok && own_lots_ok(old_lots, txns_map@, ar_map@, raw_acct_map@, pres, cut) {
                        lemma_own_lots_extend(old_lots, acct_map@[a].list_of_lots@, ar_num, txns_map@, ar_map@, raw_acct_map@, pres, cut);
                    }
                }
                (r, Ghost(ar.amount.val()))
            }
        },
        Polarity::Incoming => {
            let lk_dates_apply = settings.lk_basis_date_preserved && txn.date.le(
                &settings.lk_cutoff_date,
            );
            match tx_type {
                TxType::Flow => {
                    if raw_acct.is_margin {
                        // Funds paying off a margin loss: the quote account's current lot.
                        if length_of_list_of_lots == 0 {
                            return (
                                Err(CryptoolsError::NoMarginLot { tx_number: txn_num }),
                                Ghost(0),
                            );
                        }
                        let r = post_to_lot(
                            acct_map,
                            a,
                            length_of_list_of_lots - 1,
                            whole_mvmt,
                            ar,
                            chosen_home_currency,
                            raw_acct,
                        );
                        proof {
                            if r is Ok {
                                lemma_stamped_mvmt(m0[a].list_of_lots@, acct_map@[a].list_of_lots@, (length_of_list_of_lots - 1) as int, txn_num, txn.date);
                            }
                        }
                        (r, Ghost(ar.amount.val()))
                    } else if txn.action_record_idx_vec.len() != 1 && lk_dates_apply {
                        let r = post_dual_flow_with_lk_dates(
                            txn_num,
                            ar,
                            chosen_home_currency,
                            raw_acct,
                            ar_map,
                            raw_acct_map,
                            acct_map,
                            txns_map,
                        );
                        proof {
                            if r.0 is Ok && lots_nonneg(old_lots, txns_map@, ar_map@, raw_acct_map@, pres, cut) {
                                let new_lots = acct_map@[a].list_of_lots@;
                                let v = txn.action_record_idx_vec@;
                                assert(v.len() == 2);
                                assert(acct_wf(m0[ar_map@[v[0]].account_key], ar_map@[v[0]].account_key));
                                assert(acct_wf(m0[ar_map@[v[1]].account_key], ar_map@[v[1]].account_key));
                                assert(ar.self_ar_key == ar_num);
                                assert forall|li: int| old_lots.len() <= li < new_lots.len() implies lot_total(
                                    #[trigger] new_lots[li],
                                ) >= 0 || margin_profit_lot(new_lots[li], txns_map@, ar_map@, raw_acct_map@, pres, cut) by {
                                    assert(new_lots[li].movements@[0].action_record_key == ar_num);
                                }
                                lemma_appended_nonneg(old_lots, new_lots, txns_map@, ar_map@, raw_acct_map@, pres, cut);
                            }
                        }
                        proof {
                            if r.0 is Ok && own_lots_ok(old_lots, txns_map@, ar_map@, raw_acct_map@, pres, cut) {
                                let new_lots = acct_map@[a].list_of_lots@;
                                let v = txn.action_record_idx_vec@;
                                assert(v.len() == 2);
                                assert(acct_wf(m0[ar_map@[v[0]].account_key], ar_map@[v[0]].account_key));
                                assert(acct_wf(m0[ar_map@[v[1]].account_key], ar_map@[v[1]].account_key));
                                assert(ar.self_ar_key == ar_num);
                                assert(!starts_own_lot(ar_num, txns_map@, ar_map@, raw_acct_map@, pres, cut));
                                assert forall|li: int| old_lots.len() <= li < new_lots.len() implies own_lot_ok(
                                    #[trigger] new_lots[li], txns_map@, ar_map@, raw_acct_map@, pres, cut) by {
                                    assert(new_lots[li].movements@[0].action_record_key == ar_num);
                                }
                                lemma_own_lots_append(old_lots, new_lots, txns_map@, ar_map@, raw_acct_map@, pres, cut);
                            }
                        }
                        r
                    } else {
                        let r = post_to_new_lot(
                            acct_map,
                            a,
                            &txn.date_as_string,
                            txn.date,
                            txn.date,
                            whole_mvmt,
                            ar,
                            chosen_home_currency,
                            raw_acct,
                        );
                        proof {
                            if r is Ok {
                                lemma_stamped_lot(m0[a].list_of_lots@, acct_map@[a].list_of_lots@, txn_num, txn.date);
                            }
                        }
                        proof {
                            if r is Ok && lots_nonneg(old_lots, txns_map@, ar_map@, raw_acct_map@, pres, cut) {
                                lemma_new_lot_nonneg(
                                    old_lots,
                                    acct_map@[a].list_of_lots@,
                                    txns_map@,
                                    ar_map@,
                                    raw_acct_map@,
                                    pres,
                                    cut,
                                );
                            }
                        }
                        proof {
                            if r is Ok && own_lots_ok(old_lots, txns_map@, ar_map@, raw_acct_map@, pres, cut) {
                                let new_lots = acct_map@[a].list_of_lots@;
                                assert(new_lots.take(old_lots.len() as int) =~= new_lots.drop_last());
                                assert forall|li: int| old_lots.len() <= li < new_lots.len() implies own_lot_ok(
                                    #[trigger] new_lots[li], txns_map@, ar_map@, raw_acct_map@, pres, cut) by {
                                    assert(new_lots[li] == new_lots.last());
                                }
                                lemma_own_lots_append(old_lots, new_lots, txns_map@, ar_map@, raw_acct_map@, pres, cut);
                            }
                        }
                        (r, Ghost(ar.amount.val()))
                    }
                },
                TxType::Exchange => {
                    let og_ar = ar_map.get(&txn.action_record_idx_vec[0]).unwrap();
                    let og_raw_acct = lookup_raw(
                        txn.action_record_idx_vec[0],
                        ar_map,
                        raw_acct_map,
                        acct_map,
                    );
                    let both_are_non_home_curr = !og_raw_acct.is_home_currency(
                        chosen_home_currency,
                    ) && !raw_acct.is_home_currency(chosen_home_currency);
                    if lk_dates_apply && both_are_non_home_curr {
                        let r = process_multiple_incoming_lots_and_mvmts(
                            txn_num,
                            og_ar,
                            ar,
                            chosen_home_currency,
                            acct_map,
                            txns_map,
                            ar_map,
                            raw_acct,
                        );
                proof {
                    if r is Ok && lots_nonneg(old_lots, txns_map@, ar_map@, raw_acct_map@, pres, cut) {
                        let new_lots = acct_map@[a].list_of_lots@;
                        assert forall|li: int| old_lots.len() <= li < new_lots.len() implies lot_total(
                            #[trigger] new_lots[li],
                        ) >= 0 || margin_profit_lot(new_lots[li], txns_map@, ar_map@, raw_acct_map@, pres, cut) by {
                            lemma_lot_total_single(new_lots[li]);
                        }
                        lemma_appended_nonneg(old_lots, new_lots, txns_map@, ar_map@, raw_acct_map@, pres, cut);
                    }
                }
                proof {
                    if r is Ok && own_lots_ok(old_lots, txns_map@, ar_map@, raw_acct_map@, pres, cut) {
                        let new_lots = acct_map@[a].list_of_lots@;
                        let v = txn.action_record_idx_vec@;
                        assert(v.len() == 2);
                        assert(acct_wf(m0[ar_map@[v[0]].account_key], ar_map@[v[0]].account_key));
                        assert(acct_wf(m0[ar_map@[v[1]].account_key], ar_map@[v[1]].account_key));
                        assert(ar.self_ar_key == ar_num);
                        assert(!starts_own_lot(ar_num, txns_map@, ar_map@, raw_acct_map@, pres, cut));
                        assert forall|li: int| old_lots.len() <= li < new_lots.len() implies own_lot_ok(
                            #[trigger] new_lots[li], txns_map@, ar_map@, raw_acct_map@, pres, cut) by {
                            assert(new_lots[li].movements@[0].action_record_key == ar_num);
                        }
                        lemma_own_lots_append(old_lots, new_lots, txns_map@, ar_map@, raw_acct_map@, pres, cut);
                    }
                }
                        (r, Ghost(ar.amount.val()))
                    } else {
                        let r = post_to_new_lot(
                            acct_map,
                            a,
                            &txn.date_as_string,
                            txn.date,
                            txn.date,
                            whole_mvmt,
                            ar,
                            chosen_home_currency,
                            raw_acct,
                        );
                        proof {
                            if r is Ok {
                                lemma_stamped_lot(m0[a].list_of_lots@, acct_map@[a].list_of_lots@, txn_num, txn.date);
                            }
                        }
                        proof {
                            if r is Ok && lots_nonneg(old_lots, txns_map@, ar_map@, raw_acct_map@, pres, cut) {
                                lemma_new_lot_nonneg(
                                    old_lots,
                                    acct_map@[a].list_of_lots@,
                                    txns_map@,
                                    ar_map@,
                                    raw_acct_map@,
                                    pres,
                                    cut,
                                );
                            }
                        }
                        proof {
                            if r is Ok && own_lots_ok(old_lots, txns_map@, ar_map@, raw_acct_map@, pres, cut) {
                                let new_lots = acct_map@[a].list_of_lots@;
                                assert(new_lots.take(old_lots.len() as int) =~= new_lots.drop_last());
                                assert forall|li: int| old_lots.len() <= li < new_lots.len() implies own_lot_ok(
                                    #[trigger] new_lots[li], txns_map@, ar_map@, raw_acct_map@, pres, cut) by {
                                    assert(new_lots[li] == new_lots.last());
                                }
                                lemma_own_lots_append(old_lots, new_lots, txns_map@, ar_map@, raw_acct_map@, pres, cut);
                            }
                        }
                        (r, Ghost(ar.amount.val()))
                    }
                },
                TxType::ToSelf => {
                    if raw_acct.is_margin {
                        return (
                            Err(CryptoolsError::MarginInToSelf { tx_number: txn_num }),
                            Ghost(0),
                        );
                    }
                    let og_ar = ar_map.get(&txn.action_record_idx_vec[0]).unwrap();
                    let r = process_multiple_incoming_lots_and_mvmts(
                        txn_num,
                        og_ar,
                        ar,
                        chosen_home_currency,
                        acct_map,
                        txns_map,
                        ar_map,
                        raw_acct,
                    );
                proof {
                    if r is Ok && lots_nonneg(old_lots, txns_map@, ar_map@, raw_acct_map@, pres, cut) {
                        let new_lots = acct_map@[a].list_of_lots@;
                        assert forall|li: int| old_lots.len() <= li < new_lots.len() implies lot_total(
                            #[trigger] new_lots[li],
                        ) >= 0 || margin_profit_lot(new_lots[li], txns_map@, ar_map@, raw_acct_map@, pres, cut) by {
                            lemma_lot_total_single(new_lots[li]);
                        }
                        lemma_appended_nonneg(old_lots, new_lots, txns_map@, ar_map@, raw_acct_map@, pres, cut);
                    }
                }
                proof {
                    if r is Ok && own_lots_ok(old_lots, txns_map@, ar_map@, raw_acct_map@, pres, cut) {
                        let new_lots = acct_map@[a].list_of_lots@;
                        let v = txn.action_record_idx_vec@;
                        assert(v.len() == 2);
                        assert(acct_wf(m0[ar_map@[v[0]].account_key], ar_map@[v[0]].account_key));
                        assert(acct_wf(m0[ar_map@[v[1]].account_key], ar_map@[v[1]].account_key));
                        assert(ar.self_ar_key == ar_num);
                        assert(!starts_own_lot(ar_num, txns_map@, ar_map@, raw_acct_map@, pres, cut));
                        assert forall|li: int| old_lots.len() <= li < new_lots.len() implies own_lot_ok(
                            #[trigger] new_lots[li], txns_map@, ar_map@, raw_acct_map@, pres, cut) by {
                            assert(new_lots[li].movements@[0].action_record_key == ar_num);
                        }
                        lemma_own_lots_append(old_lots, new_lots, txns_map@, ar_map@, raw_acct_map@, pres, cut);
                    }
                }
                    (r, Ghost(ar.amount.val()))
                },
            }
        },
    }
}


/// Action record `j` is listed in its own transaction, which is numbered from 1.
pub open spec fn ar_in_ledger(
    txns: Map<u32, Transaction>,
    ars: Map<u32, ActionRecord>,
    j: u32,
) -> bool {
    &&& ars.contains_key(j)
    &&& ars[j].tx_key >= 1
    &&& txns.contains_key(ars[j].tx_key)
    &&& ar_listed_in(txns[ars[j].tx_key], j)
}

/// The total that the movements keyed to action record `j` post in its account.
pub open spec fn ar_posted_total(
    accts: Map<u16, Account>,
    ars: Map<u32, ActionRecord>,
    j: u32,
) -> int {
    lots_key_sum(accts[ars[j].account_key].list_of_lots@, j)
}

/// Processing has reached transaction `t`, of whose action records those in `done` are
/// posted: every action record of an earlier transaction, and each one in `done`, has
/// posted its amount (when that amount has at most 8 places); every other one has posted
/// nothing.
pub open spec fn progress(
    txns: Map<u32, Transaction>,
    ars: Map<u32, ActionRecord>,
    accts: Map<u16, Account>,
    t: int,
    done: Set<u32>,
) -> bool {
    forall|j: u32| #[trigger]
        ar_in_ledger(txns, ars, j) ==> {
            &&& accts.contains_key(ars[j].account_key)
            &&& (ars[j].tx_key < t || (ars[j].tx_key == t && done.contains(j))) ==> (places8(
                ars[j].amount,
            ) ==> ar_posted_total(accts, ars, j) == ars[j].amount.val())
            &&& (ars[j].tx_key > t || (ars[j].tx_key == t && !done.contains(j)))
                ==> ar_posted_total(accts, ars, j) == 0
        }
}

/// Posting one more action record of transaction `t` keeps the progress.
proof fn lemma_progress_step(
    txns: Map<u32, Transaction>,
    ars: Map<u32, ActionRecord>,
    old: Map<u16, Account>,
    new: Map<u16, Account>,
    t: int,
    done: Set<u32>,
    k: u32,
    total: int,
)
    requires
        progress(txns, ars, old, t, done),
        ar_in_ledger(txns, ars, k),
        ars[k].tx_key == t,
        !done.contains(k),
        posted(old, new, ars[k].account_key, k, total),
        places8(ars[k].amount) ==> total == ars[k].amount.val(),
    ensures
        progress(txns, ars, new, t, done.insert(k)),
{
    let a = ars[k].account_key;
    assert forall|j: u32| #[trigger] ar_in_ledger(txns, ars, j) implies {
        &&& new.contains_key(ars[j].account_key)
        &&& (ars[j].tx_key < t || (ars[j].tx_key == t && done.insert(k).contains(j))) ==> (
        places8(ars[j].amount) ==> ar_posted_total(new, ars, j) == ars[j].amount.val())
        &&& (ars[j].tx_key > t || (ars[j].tx_key == t && !done.insert(k).contains(j)))
            ==> ar_posted_total(new, ars, j) == 0
    } by {
        let aj = ars[j].account_key;
        if j != k {
            if aj == a {
                lemma_lots_extend_other(old[a].list_of_lots@, new[a].list_of_lots@, k, j);
            } else {
                assert(new[aj] == old[aj]);
            }
        }
    }
}

/// Once every action record of transaction `t` is posted, processing has reached `t + 1`.
proof fn lemma_progress_next(
    txns: Map<u32, Transaction>,
    ars: Map<u32, ActionRecord>,
    accts: Map<u16, Account>,
    t: u32,
    done: Set<u32>,
)
    requires
        progress(txns, ars, accts, t as int, done),
        txns.contains_key(t),
        forall|i: int|
            0 <= i < txns[t].action_record_idx_vec@.len() ==> done.contains(
                #[trigger] txns[t].action_record_idx_vec@[i],
            ),
    ensures
        progress(txns, ars, accts, t + 1, Set::empty()),
{
    assert forall|j: u32| #[trigger] ar_in_ledger(txns, ars, j) implies {
        &&& accts.contains_key(ars[j].account_key)
        &&& (ars[j].tx_key < t + 1 || (ars[j].tx_key == t + 1 && Set::<u32>::empty().contains(
            j,
        ))) ==> (places8(ars[j].amount) ==> ar_posted_total(accts, ars, j) == ars[j].amount.val())
        &&& (ars[j].tx_key > t + 1 || (ars[j].tx_key == t + 1 && !Set::<u32>::empty().contains(
            j,
        ))) ==> ar_posted_total(accts, ars, j) == 0
    } by {
        if ars[j].tx_key == t {
            let i = choose|i: int|
                0 <= i < txns[t].action_record_idx_vec@.len()
                    && #[trigger] txns[t].action_record_idx_vec@[i] == j;
            assert(done.contains(txns[t].action_record_idx_vec@[i]));
        }
    }
}

/// Whether an action record can be looked up depends on the accounts only through their
/// keys, which posting keeps.
pub proof fn lemma_txn_ok_frame(
    txns: Map<u32, Transaction>,
    ars: Map<u32, ActionRecord>,
    old: Map<u16, Account>,
    new: Map<u16, Account>,
    raws: Map<u16, RawAccount>,
)
    requires
        forall|t: u32| #[trigger] txns.contains_key(t) ==> txn_ok(txns[t], t, ars, old, raws),
        accts_wf(old),
        accts_wf(new),
        new.dom() == old.dom(),
    ensures
        forall|t: u32| #[trigger] txns.contains_key(t) ==> txn_ok(txns[t], t, ars, new, raws),
{
    assert forall|t: u32| #[trigger] txns.contains_key(t) implies txn_ok(txns[t], t, ars, new, raws) by {
        assert(txn_ok(txns[t], t, ars, old, raws));
        let v = txns[t].action_record_idx_vec@;
        assert forall|i: int| 0 <= i < v.len() implies ar_resolves(ars, new, raws, #[trigger] v[i]) by {
            assert(ar_resolves(ars, old, raws, v[i]));
            let a = ars[v[i]].account_key;
            assert(acct_wf(old[a], a));
            assert(acct_wf(new[a], a));
        }
    }
}



/// Every movement of every account is keyed to an action record of the ledger whose
/// account it is.
pub open spec fn mvmts_owned(
    txns: Map<u32, Transaction>,
    ars: Map<u32, ActionRecord>,
    accts: Map<u16, Account>,
) -> bool {
    forall|a: u16, li: int, mi: int|
        accts.contains_key(a) && 0 <= li < accts[a].list_of_lots@.len() && 0 <= mi
            < accts[a].list_of_lots@[li].movements@.len() ==> {
            let j = (#[trigger] accts[a].list_of_lots@[li].movements@[mi]).action_record_key;
            ar_in_ledger(txns, ars, j) && ars[j].account_key == a
        }
}

/// Posting for a ledger action record of the account keeps every movement owned.
proof fn lemma_owned_step(
    txns: Map<u32, Transaction>,
    ars: Map<u32, ActionRecord>,
    old: Map<u16, Account>,
    new: Map<u16, Account>,
    k: u32,
    total: int,
)
    requires
        mvmts_owned(txns, ars, old),
        ar_in_ledger(txns, ars, k),
        posted(old, new, ars[k].account_key, k, total),
    ensures
        mvmts_owned(txns, ars, new),
{
    let a = ars[k].account_key;
    assert forall|b: u16, li: int, mi: int|
        new.contains_key(b) && 0 <= li < new[b].list_of_lots@.len() && 0 <= mi
            < new[b].list_of_lots@[li].movements@.len() implies {
        let j = (#[trigger] new[b].list_of_lots@[li].movements@[mi]).action_record_key;
        ar_in_ledger(txns, ars, j) && ars[j].account_key == b
    } by {
        if b != a {
            assert(new[b] == old[b]);
            assert(old[b].list_of_lots@[li].movements@[mi] == new[b].list_of_lots@[li].movements@[mi]);
        } else {
            let ol = old[a].list_of_lots@;
            let nl = new[a].list_of_lots@;
            if li < ol.len() {
                assert(lot_extends(ol[li], nl[li], k));
                if mi < ol[li].movements@.len() {
                    assert(ol[li].movements@[mi] == nl[li].movements@[mi]);
                    assert(old[a].list_of_lots@[li].movements@[mi] == new[b].list_of_lots@[li].movements@[mi]);
                }
            }
        }
    }
}

/// The accounts `accts` are as processing leaves them just before position `i` of
/// transaction `num`: every movement is of an action record processed before that
/// position (`processed_before`), each of those has posted its amount and every other
/// nothing; and the lots are ordered, owned, dated, at or above zero and drained in the
/// order of the costing method, as `create_lots_and_movements` leaves them.
pub open spec fn reached(
    settings: ImportProcessParameters,
    txns: Map<u32, Transaction>,
    ars: Map<u32, ActionRecord>,
    raws: Map<u16, RawAccount>,
    m0: Map<u16, Account>,
    accts: Map<u16, Account>,
    num: u32,
    i: int,
) -> bool {
    let home = settings.home_currency@;
    let pres = settings.lk_basis_date_preserved;
    let cut = settings.lk_cutoff_date.day_num();
    &&& accts_wf(accts)
    &&& accts.dom() == m0.dom()
    &&& forall|j: u32| #[trigger]
        ar_in_ledger(txns, ars, j) ==> {
            &&& accts.contains_key(ars[j].account_key)
            &&& processed_before(j, num, i, txns, ars) ==> (places8(ars[j].amount) ==> ar_posted_total(
                accts,
                ars,
                j,
            ) == ars[j].amount.val())
            &&& !processed_before(j, num, i, txns, ars) ==> ar_posted_total(accts, ars, j) == 0
        }
    &&& mvmts_processed(txns, ars, accts, num, i)
    &&& mvmts_owned(txns, ars, accts)
    &&& mvmts_dated(accts, txns, ars)
    &&& lots_ordered(txns, ars, accts, raws, home)
    &&& accts_nonneg(accts, txns, ars, raws, home, pres, cut)
    &&& home_lots_single(accts, raws, home)
    &&& accts_own_lots_ok(accts, txns, ars, raws, home, pres, cut)
    &&& drained_all(
        accts,
        txns,
        ars,
        raws,
        home,
        settings.costing_method,
        |j: u32| processed_before(j, num, i, txns, ars),
    )
}

/// Lot creation stops at position `i` of transaction `num`, the accounts `pre` being as
/// processing left them there (`reached`) and `fin` as it returns them: the transaction
/// is a margin exchange whose posting failed (`process_margin_exchange`), or posting the
/// action record at that position failed (`post_fails`), having added at most movements
/// of that record to its account (`partly_posted`).
pub open spec fn fails_at(
    settings: ImportProcessParameters,
    txns: Map<u32, Transaction>,
    ars: Map<u32, ActionRecord>,
    raws: Map<u16, RawAccount>,
    m0: Map<u16, Account>,
    fin: Map<u16, Account>,
    pre: Map<u16, Account>,
    num: u32,
    i: int,
) -> bool {
    let v = txns[num].action_record_idx_vec@;
    &&& 1 <= num <= txns.len()
    &&& 0 <= i < v.len()
    &&& reached(settings, txns, ars, raws, m0, pre, num, i)
    &&& if spec_marginness(txns[num], ars, pre, raws) == TxHasMargin::TwoARs {
        i == 0
    } else {
        &&& post_fails(
            settings.home_currency@,
            settings.costing_method,
            settings.lk_basis_date_preserved,
            settings.lk_cutoff_date.day_num(),
            num,
            v[i],
            pre,
            ars,
            txns,
            raws,
        )
        &&& partly_posted(pre, fin, ars[v[i]].account_key, v[i])
    }
}

/// Whether a transaction is a margin exchange depends only on the raw keys of its
/// accounts, which well-formed accounts keep.
proof fn lemma_marginness_frame(
    t: Transaction,
    ars: Map<u32, ActionRecord>,
    a1: Map<u16, Account>,
    a2: Map<u16, Account>,
    raws: Map<u16, RawAccount>,
)
    requires
        accts_wf(a1),
        accts_wf(a2),
        a1.dom() == a2.dom(),
        marginness_resolves(t, ars, a1, raws),
    ensures
        spec_marginness(t, ars, a1, raws) == spec_marginness(t, ars, a2, raws),
{
    let v = t.action_record_idx_vec@;
    assert(acct_wf(a1[ars[v[0]].account_key], ars[v[0]].account_key));
    assert(acct_wf(a2[ars[v[0]].account_key], ars[v[0]].account_key));
    if v.len() >= 2 {
        assert(acct_wf(a1[ars[v[1]].account_key], ars[v[1]].account_key));
        assert(acct_wf(a2[ars[v[1]].account_key], ars[v[1]].account_key));
    }
}

/// What `progress` says, with the action records done being those before position `i`.
proof fn lemma_progress_processed(
    txns: Map<u32, Transaction>,
    ars: Map<u32, ActionRecord>,
    accts: Map<u16, Account>,
    num: u32,
    i: int,
    done: Set<u32>,
)
    requires
        progress(txns, ars, accts, num as int, done),
        txns.contains_key(num),
        0 <= i <= txns[num].action_record_idx_vec@.len(),
        forall|j: u32|
            done.contains(j) <==> exists|ii: int|
                0 <= ii < i && #[trigger] txns[num].action_record_idx_vec@[ii] == j,
    ensures
        forall|j: u32| #[trigger]
            ar_in_ledger(txns, ars, j) ==> {
                &&& accts.contains_key(ars[j].account_key)
                &&& processed_before(j, num, i, txns, ars) ==> (places8(ars[j].amount)
                    ==> ar_posted_total(accts, ars, j) == ars[j].amount.val())
                &&& !processed_before(j, num, i, txns, ars) ==> ar_posted_total(accts, ars, j) == 0
            },
{
    let v = txns[num].action_record_idx_vec@;
    assert forall|j: u32| #[trigger] ar_in_ledger(txns, ars, j) implies {
        &&& accts.contains_key(ars[j].account_key)
        &&& processed_before(j, num, i, txns, ars) ==> (places8(ars[j].amount) ==> ar_posted_total(
            accts,
            ars,
            j,
        ) == ars[j].amount.val())
        &&& !processed_before(j, num, i, txns, ars) ==> ar_posted_total(accts, ars, j) == 0
    } by {
        if ars[j].tx_key == num {
            if done.contains(j) {
                let ii = choose|ii: int| 0 <= ii < i && #[trigger] v[ii] == j;
                assert(v.take(i)[ii] == j);
            }
            if v.take(i).contains(j) {
                let ii = choose|ii: int| 0 <= ii < v.take(i).len() && v.take(i)[ii] == j;
                assert(v[ii] == j);
                assert(done.contains(j));
            }
        }
    }
}

/// What `create_lots_and_movements` promises of the accounts `fin` it returns, starting
/// from the accounts `m0`.
pub open spec fn lots_created(
    settings: ImportProcessParameters,
    txns: Map<u32, Transaction>,
    ars: Map<u32, ActionRecord>,
    raws: Map<u16, RawAccount>,
    m0: Map<u16, Account>,
    fin: Map<u16, Account>,
) -> bool {
    let home = settings.home_currency@;
    let pres = settings.lk_basis_date_preserved;
    let cut = settings.lk_cutoff_date.day_num();
    &&& accts_wf(fin)
    &&& fin.dom() == m0.dom()
    &&& mvmts_owned(txns, ars, fin)
    &&& forall|j: u32| #[trigger]
        ar_in_ledger(txns, ars, j) && ars[j].tx_key <= txns.len() ==> (places8(ars[j].amount)
            ==> ar_posted_total(fin, ars, j) == ars[j].amount.val())
    &&& lots_ordered(txns, ars, fin, raws, home)
    &&& home_lots_single(fin, raws, home)
    &&& mvmts_dated(fin, txns, ars)
    &&& accts_own_lots_ok(fin, txns, ars, raws, home, pres, cut)
    &&& forall|j: u32| #[trigger]
        ar_in_ledger(txns, ars, j) && ars[j].tx_key <= txns.len() && spec_direction(ars[j].amount)
            == Polarity::Outgoing && plain_acct(fin, raws, ars[j].account_key, home)
            ==> drained_in_order(fin[ars[j].account_key].list_of_lots@, settings.costing_method, j, txns, ars)
    &&& accts_nonneg(fin, txns, ars, raws, home, pres, cut)
    &&& accts_inherit_ok(fin, txns, ars, raws, home, pres, cut)
    &&& home_mvmts_whole(fin, ars, raws, home)
}

/// Creates the lots and movements of an imported ledger, transaction by transaction in
/// number order: every action record's amount is posted, as one or more movements, to
/// lots of its account.
///
/// A margin exchange posts both action records to the current lots of its two margin
/// accounts (new lots when both balances are zero).  Otherwise each action record is
/// posted on its own: home currency accounts keep one lot; outgoing amounts of other
/// accounts are taken from lots in the order of the chosen costing method, never taking
/// a lot below zero; incoming amounts start a new lot, or several when a transfer to
/// oneself or a like-kind exchange carries over the lots (and basis dates) of the
/// outgoing side.
///
/// On success, the accounts still number their lots and movements in order, every
/// action record's movements, which all sit in its own account, add up to its amount
/// (for amounts with at most 8 decimal places, which every movement amount has), and the
/// lots are ordered (`lots_ordered`): outside margin and the home currency, every lot
/// starts with an incoming movement, whose action record comes before those of the
/// lot's other movements.  No coins are spent that are not held: outside margin and the
/// home currency every lot holds at least zero (`accts_nonneg`), but for a lot that a
/// margin profit started while basis dates are kept, whose share is what is left after
/// rounding the others.  Every movement belongs to its action record's transaction and
/// carries its date (`mvmts_dated`), and a home currency account outside margin keeps at
/// most one lot (`home_lots_single`), to which each action record posts its whole amount
/// as one movement (`home_mvmts_whole`).  Every outgoing action record of an account
/// outside margin and the home currency took from that account's lots, as they stood
/// before it, in the order of the chosen costing method (`drained_in_order`).  A lot that
/// an incoming record starts on its own (`starts_own_lot`) is dated with that record's
/// transaction and holds the record's whole amount (`own_lot_ok`); a lot that the
/// incoming side of a transfer to oneself, or of a like-kind exchange while basis dates
/// are kept, starts carries the basis date of one of the lots of the outgoing side's
/// account (`accts_inherit_ok`), so that coins keep their original acquisition date.
///
/// On an error, processing stopped at some action record (`fails_at`), the accounts being as processing left them there (`reached`),
/// and posting that record fails by the rules of `post_fails`, or the transaction is a
/// margin exchange whose posting failed.
pub fn create_lots_and_movements(
    settings: &ImportProcessParameters,
    raw_acct_map: &HashMap<u16, RawAccount>,
    acct_map: &mut HashMap<u16, Account>,
    ar_map: &HashMap<u32, ActionRecord>,
    txns_map: HashMap<u32, Transaction>,
) -> (r: Result<HashMap<u32, Transaction>, CryptoolsError>)
    requires
        ledger_wf(txns_map@, txns_map@.len() as int, ar_map@, old(acct_map)@, raw_acct_map@),
        txns_map@.len() < u32::MAX,
        forall|a: u16| #[trigger]
            old(acct_map)@.contains_key(a) ==> old(acct_map)@[a].list_of_lots@.len() == 0,
    ensures
        r matches Ok(m) ==> m@ == txns_map@,
        r is Ok ==> lots_created(*settings, txns_map@, ar_map@, raw_acct_map@, old(acct_map)@, final(acct_map)@),
        r is Ok ==> accts_wf(final(acct_map)@),
        r is Ok ==> final(acct_map)@.dom() == old(acct_map)@.dom(),
        r is Ok ==> mvmts_owned(txns_map@, ar_map@, final(acct_map)@),
        r is Ok ==> forall|j: u32|
            #[trigger] ar_in_ledger(txns_map@, ar_map@, j) && ar_map@[j].tx_key
                <= txns_map@.len() ==> (places8(ar_map@[j].amount) ==> ar_posted_total(
                final(acct_map)@,
                ar_map@,
                j,
            ) == ar_map@[j].amount.val()),
        r is Ok ==> lots_ordered(
            txns_map@,
            ar_map@,
            final(acct_map)@,
            raw_acct_map@,
            settings.home_currency@,
        ),
        r is Ok ==> home_lots_single(final(acct_map)@, raw_acct_map@, settings.home_currency@),
        r is Ok ==> home_mvmts_whole(final(acct_map)@, ar_map@, raw_acct_map@, settings.home_currency@),
        r is Ok ==> accts_inherit_ok(
            final(acct_map)@,
            txns_map@,
            ar_map@,
            raw_acct_map@,
            settings.home_currency@,
            settings.lk_basis_date_preserved,
            settings.lk_cutoff_date.day_num(),
        ),
        r is Ok ==> mvmts_dated(final(acct_map)@, txns_map@, ar_map@),
        r is Err ==> exists|num: u32, i: int, pre: Map<u16, Account>| #[trigger]
            fails_at(*settings, txns_map@, ar_map@, raw_acct_map@, old(acct_map)@, final(acct_map)@, pre, num, i),
        r is Ok ==> accts_own_lots_ok(
            final(acct_map)@,
            txns_map@,
            ar_map@,
            raw_acct_map@,
            settings.home_currency@,
            settings.lk_basis_date_preserved,
            settings.lk_cutoff_date.day_num(),
        ),
        r is Ok ==> forall|j: u32|
            #[trigger] ar_in_ledger(txns_map@, ar_map@, j) && ar_map@[j].tx_key <= txns_map@.len()
                && spec_direction(ar_map@[j].amount) == Polarity::Outgoing && plain_acct(
                final(acct_map)@,
                raw_acct_map@,
                ar_map@[j].account_key,
                settings.home_currency@,
            ) ==> drained_in_order(
                final(acct_map)@[ar_map@[j].account_key].list_of_lots@,
                settings.costing_method,
                j,
                txns_map@,
                ar_map@,
            ),
        r is Ok ==> accts_nonneg(
            final(acct_map)@,
            txns_map@,
            ar_map@,
            raw_acct_map@,
            settings.home_currency@,
            settings.lk_basis_date_preserved,
            settings.lk_cutoff_date.day_num(),
        ),
{
    let length = txns_map.len();
    let ghost txns = txns_map@;
    let ghost ars = ar_map@;
    let ghost raws = raw_acct_map@;
    let ghost m0 = acct_map@;
    let ghost home = settings.home_currency@;
    let ghost pres = settings.lk_basis_date_preserved;
    let ghost cut = settings.lk_cutoff_date.day_num();
    proof {
        assert forall|j: u32| #[trigger] ar_in_ledger(txns, ars, j) implies {
            &&& m0.contains_key(ars[j].account_key)
            &&& (ars[j].tx_key < 1 || (ars[j].tx_key == 1 && Set::<u32>::empty().contains(j)))
                ==> (places8(ars[j].amount) ==> ar_posted_total(m0, ars, j)
                == ars[j].amount.val())
            &&& (ars[j].tx_key > 1 || (ars[j].tx_key == 1 && !Set::<u32>::empty().contains(j)))
                ==> ar_posted_total(m0, ars, j) == 0
        } by {
            let t = ars[j].tx_key;
            assert(txn_ok(txns[t], t, ars, m0, raws));
            let i = choose|i: int|
                0 <= i < txns[t].action_record_idx_vec@.len()
                    && #[trigger] txns[t].action_record_idx_vec@[i] == j;
            assert(ar_resolves(ars, m0, raws, txns[t].action_record_idx_vec@[i]));
            assert(m0[ars[j].account_key].list_of_lots@.len() == 0);
            assert(m0[ars[j].account_key].list_of_lots@ =~= Seq::<Lot>::empty());
        }
        assert(progress(txns, ars, m0, 1, Set::empty()));
        assert(mvmts_owned(txns, ars, m0));
        assert(lots_ordered(txns, ars, m0, raws, home));
        assert(mvmts_processed(txns, ars, m0, 1, 0));
        assert forall|a: u16| #[trigger]
            m0.contains_key(a) && plain_acct(m0, raws, a, home) implies lots_nonneg(
            m0[a].list_of_lots@,
            txns,
            ars,
            raws,
            pres,
            cut,
        ) by {
            assert(m0[a].list_of_lots@.len() == 0);
        }
        assert forall|a: u16| #[trigger]
            m0.contains_key(a) && home_acct(m0, raws, a, home) implies m0[a].list_of_lots@.len() <= 1 by {}
        assert(mvmts_dated(m0, txns, ars));
        assert forall|a: u16| #[trigger]
            m0.contains_key(a) && plain_acct(m0, raws, a, home) implies own_lots_ok(
            m0[a].list_of_lots@,
            txns,
            ars,
            raws,
            pres,
            cut,
        ) by {
            assert(m0[a].list_of_lots@.len() == 0);
        }
        assert forall|j: u32| #[trigger]
            ar_in_ledger(txns, ars, j) && processed_before(j, 1, 0, txns, ars) && spec_direction(ars[j].amount)
                == Polarity::Outgoing && plain_acct(m0, raws, ars[j].account_key, home) implies drained_in_order(
            m0[ars[j].account_key].list_of_lots@,
            settings.costing_method,
            j,
            txns,
            ars,
        ) by {
            assert(!txns[ars[j].tx_key].action_record_idx_vec@.take(0).contains(j));
        }
        assert(drained_all(m0, txns, ars, raws, home, settings.costing_method, |j: u32| processed_before(j, 1, 0, txns, ars)));
        assert forall|a: u16| #[trigger]
            m0.contains_key(a) && home_acct(m0, raws, a, home) implies mvmts_whole(m0[a].list_of_lots@, ars) by {
            assert(m0[a].list_of_lots@.len() == 0);
        }
        assert forall|a: u16, li: int|
            m0.contains_key(a) && plain_acct(m0, raws, a, home) && 0 <= li < m0[a].list_of_lots@.len()
                implies #[trigger] inherited_lot_ok(m0[a].list_of_lots@[li], m0, txns, ars, raws, home, pres, cut) by {
            assert(m0[a].list_of_lots@.len() == 0);
        }
    }
    let mut num: u32 = 1;
    while (num as usize) <= length
        invariant
            1 <= num <= length + 1,
            length == txns.len(),
            m0 == old(acct_map)@,
            length < u32::MAX,
            txns == txns_map@,
            ars == ar_map@,
            raws == raw_acct_map@,
            ledger_wf(txns, length as int, ars, m0, raws),
            accts_wf(acct_map@),
            acct_map@.dom() == m0.dom(),
            forall|t: u32| #[trigger] txns.contains_key(t) ==> txn_ok(txns[t], t, ars, acct_map@, raws),
            progress(txns, ars, acct_map@, num as int, Set::empty()),
            mvmts_owned(txns, ars, acct_map@),
            home == settings.home_currency@,
            lots_ordered(txns, ars, acct_map@, raws, home),
            mvmts_processed(txns, ars, acct_map@, num, 0),
            pres == settings.lk_basis_date_preserved,
            cut == settings.lk_cutoff_date.day_num(),
            accts_nonneg(acct_map@, txns, ars, raws, home, pres, cut),
            home_lots_single(acct_map@, raws, home),
            mvmts_dated(acct_map@, txns, ars),
            accts_own_lots_ok(acct_map@, txns, ars, raws, home, pres, cut),
            drained_all(acct_map@, txns, ars, raws, home, settings.costing_method, |j: u32| processed_before(j, num, 0, txns, ars)),
            accts_inherit_ok(acct_map@, txns, ars, raws, home, pres, cut),
            home_mvmts_whole(acct_map@, ars, raws, home),
        decreases length + 1 - num,
    {
        let txn = txns_map.get(&num).unwrap();
        proof {
            assert(txns.contains_key(num));
            assert(txn_ok(txns[num], num, ars, acct_map@, raws));
            let v = txn.action_record_idx_vec@;
            assert(ar_resolves(ars, acct_map@, raws, v[0]));
            if v.len() == 2 {
                assert(ar_resolves(ars, acct_map@, raws, v[1]));
            }
        }
        let ghost before = acct_map@;
        if txn.marginness(ar_map, raw_acct_map, acct_map) == TxHasMargin::TwoARs {
            let (r, Ghost(mid)) = process_margin_exchange(
                num,
                txn,
                settings.home_currency.as_str(),
                raw_acct_map,
                acct_map,
                ar_map,
            );
            match r {
                Ok((b, q)) => {
                    proof {
                        let v = txn.action_record_idx_vec@;
                        assert(ar_listed_in(txns[num], v[0]));
                        assert(ar_listed_in(txns[num], v[1]));
                        assert(ar_in_ledger(txns, ars, b));
                        assert(ar_in_ledger(txns, ars, q));
                        lemma_progress_step(
                            txns,
                            ars,
                            before,
                            mid,
                            num as int,
                            Set::empty(),
                            b,
                            ars[b].amount.val(),
                        );
                        lemma_progress_step(
                            txns,
                            ars,
                            mid,
                            acct_map@,
                            num as int,
                            Set::empty().insert(b),
                            q,
                            ars[q].amount.val(),
                        );
                        lemma_progress_next(
                            txns,
                            ars,
                            acct_map@,
                            num,
                            Set::empty().insert(b).insert(q),
                        );
                        lemma_txn_ok_frame(txns, ars, before, mid, raws);
                        lemma_txn_ok_frame(txns, ars, mid, acct_map@, raws);
                        lemma_owned_step(txns, ars, before, mid, b, ars[b].amount.val());
                        lemma_owned_step(txns, ars, mid, acct_map@, q, ars[q].amount.val());
                        assert(spec_marginness(txns[num], ars, before, raws) == TxHasMargin::TwoARs);
                        assert(ar_raw(ars, before, raws, v[0]).is_margin);
                        assert(ar_raw(ars, before, raws, v[1]).is_margin);
                        assert(!plain_acct(before, raws, ars[b].account_key, home));
                        lemma_accts_nonneg_step(before, mid, ars[b].account_key, b, ars[b].amount.val(), txns, ars, raws, home, pres, cut);
                        lemma_home_single_step(before, mid, ars[b].account_key, b, ars[b].amount.val(), raws, home);
                        lemma_dated_step(before, mid, ars[b].account_key, b, ars[b].amount.val(), txns, ars);
                        lemma_own_lots_step(before, mid, ars[b].account_key, b, ars[b].amount.val(), txns, ars, raws, home, pres, cut);
                        lemma_inherit_step(before, mid, ars[b].account_key, b, ars[b].amount.val(), txns, ars, raws, home, pres, cut);
                        lemma_home_whole_step(before, mid, ars[b].account_key, b, ars[b].amount.val(), ars, raws, home);
                        assert(acct_wf(before[ars[q].account_key], ars[q].account_key));
                        assert(acct_wf(mid[ars[q].account_key], ars[q].account_key));
                        assert(!plain_acct(mid, raws, ars[q].account_key, home));
                        lemma_accts_nonneg_step(mid, acct_map@, ars[q].account_key, q, ars[q].amount.val(), txns, ars, raws, home, pres, cut);
                        lemma_home_single_step(mid, acct_map@, ars[q].account_key, q, ars[q].amount.val(), raws, home);
                        lemma_dated_step(mid, acct_map@, ars[q].account_key, q, ars[q].amount.val(), txns, ars);
                        lemma_own_lots_step(mid, acct_map@, ars[q].account_key, q, ars[q].amount.val(), txns, ars, raws, home, pres, cut);
                        lemma_inherit_step(mid, acct_map@, ars[q].account_key, q, ars[q].amount.val(), txns, ars, raws, home, pres, cut);
                        lemma_home_whole_step(mid, acct_map@, ars[q].account_key, q, ars[q].amount.val(), ars, raws, home);
                        lemma_drained_frame(
                            before,
                            mid,
                            ars[b].account_key,
                            b,
                            ars[b].amount.val(),
                            txns,
                            ars,
                            raws,
                            home,
                            settings.costing_method,
                            |j: u32| processed_before(j, num, 0, txns, ars),
                            |j: u32| processed_before(j, num, 0, txns, ars),
                        );
                        assert forall|j: u32|
                            ar_in_ledger(txns, ars, j) && #[trigger] processed_before(j, (num + 1) as u32, 0, txns, ars)
                                && plain_acct(acct_map@, raws, ars[j].account_key, home) implies processed_before(
                            j,
                            num,
                            0,
                            txns,
                            ars,
                        ) by {
                            if ars[j].tx_key == num {
                                assert(v.contains(j));
                                let x = choose|x: int| 0 <= x < v.len() && v[x] == j;
                                assert(x == 0 || x == 1);
                                assert(acct_wf(acct_map@[ars[j].account_key], ars[j].account_key));
                                assert(acct_wf(before[ars[j].account_key], ars[j].account_key));
                                assert(false);
                            }
                        }
                        lemma_drained_frame(
                            mid,
                            acct_map@,
                            ars[q].account_key,
                            q,
                            ars[q].amount.val(),
                            txns,
                            ars,
                            raws,
                            home,
                            settings.costing_method,
                            |j: u32| processed_before(j, num, 0, txns, ars),
                            |j: u32| processed_before(j, (num + 1) as u32, 0, txns, ars),
                        );
                        lemma_mvmts_processed_mono(txns, ars, before, num, 0, (num + 1) as u32, 0);
                        assert(v.take(v.len() as int) =~= v);
                        assert(v[0] == b || v[1] == b);
                        assert(v[0] == q || v[1] == q);
                        assert(processed_before(b, (num + 1) as u32, 0, txns, ars));
                        assert(processed_before(q, (num + 1) as u32, 0, txns, ars));
                        assert(acct_wf(before[ars[b].account_key], ars[b].account_key));
                        assert(acct_wf(mid[ars[q].account_key], ars[q].account_key));
                        assert(acct_wf(before[ars[q].account_key], ars[q].account_key));
                        lemma_ordered_margin_step(
                            txns,
                            ars,
                            raws,
                            home,
                            before,
                            mid,
                            ars[b].account_key,
                            b,
                            ars[b].amount.val(),
                            (num + 1) as u32,
                            0,
                        );
                        lemma_ordered_margin_step(
                            txns,
                            ars,
                            raws,
                            home,
                            mid,
                            acct_map@,
                            ars[q].account_key,
                            q,
                            ars[q].amount.val(),
                            (num + 1) as u32,
                            0,
                        );
                    }
                },
                Err(e) => {
                    proof {
                        lemma_progress_processed(txns, ars, before, num, 0, Set::empty());
                        assert(drained_all(before, txns, ars, raws, home, settings.costing_method, |j: u32| processed_before(j, num, 0int, txns, ars)));
                        assert(reached(*settings, txns, ars, raws, m0, before, num, 0));
                        assert(spec_marginness(txns[num], ars, before, raws) == TxHasMargin::TwoARs);
                        assert(txns[num].action_record_idx_vec@.len() > 0);
                        assert(fails_at(*settings, txns, ars, raws, m0, acct_map@, before, num, 0));
                    }
                    return Err(e);
                },
            }
        } else {
            let ghost mut done: Set<u32> = Set::empty();
            let mut i: usize = 0;
            proof {
                lemma_drained_sel(
                    acct_map@,
                    txns,
                    ars,
                    raws,
                    home,
                    settings.costing_method,
                    |j: u32| processed_before(j, num, 0, txns, ars),
                    |j: u32| processed_before(j, num, i as int, txns, ars),
                );
            }
            while i < txn.action_record_idx_vec.len()
                invariant
                    i <= txn.action_record_idx_vec@.len(),
                    *txn == txns[num],
                    txns.contains_key(num),
                    1 <= num <= length,
                    length == txns.len(),
                    m0 == old(acct_map)@,
                    txns == txns_map@,
                    ars == ar_map@,
                    raws == raw_acct_map@,
                    txn_ok(txns[num], num, ars, m0, raws),
                    accts_wf(acct_map@),
                    acct_map@.dom() == m0.dom(),
                    forall|t: u32| #[trigger]
                        txns.contains_key(t) ==> txn_ok(txns[t], t, ars, acct_map@, raws),
                    progress(txns, ars, acct_map@, num as int, done),
                    mvmts_owned(txns, ars, acct_map@),
                    home == settings.home_currency@,
                    lots_ordered(txns, ars, acct_map@, raws, home),
                    mvmts_processed(txns, ars, acct_map@, num, i as int),
                    pres == settings.lk_basis_date_preserved,
                    cut == settings.lk_cutoff_date.day_num(),
                    accts_nonneg(acct_map@, txns, ars, raws, home, pres, cut),
                    home_lots_single(acct_map@, raws, home),
                    mvmts_dated(acct_map@, txns, ars),
                    accts_own_lots_ok(acct_map@, txns, ars, raws, home, pres, cut),
                    drained_all(acct_map@, txns, ars, raws, home, settings.costing_method, |j: u32| processed_before(j, num, i as int, txns, ars)),
                    accts_inherit_ok(acct_map@, txns, ars, raws, home, pres, cut),
                    home_mvmts_whole(acct_map@, ars, raws, home),
                    accts_wf(before),
                    before.dom() == m0.dom(),
                    marginness_resolves(txns[num], ars, before, raws),
                    spec_marginness(txns[num], ars, before, raws) != TxHasMargin::TwoARs,
                    forall|j: u32|
                        done.contains(j) <==> exists|ii: int|
                            0 <= ii < i && #[trigger] txn.action_record_idx_vec@[ii] == j,
                decreases txn.action_record_idx_vec@.len() - i,
            {
                let ar_num = txn.action_record_idx_vec[i];
                proof {
                    assert(ar_listed_in(txns[num], txn.action_record_idx_vec@[i as int]));
                }
                let ghost before_ar = acct_map@;
                let (r, Ghost(total)) = post_action_record(
                    settings,
                    num,
                    ar_num,
                    raw_acct_map,
                    acct_map,
                    ar_map,
                    &txns_map,
                );
                if let Err(e) = r {
                    proof {
                        lemma_progress_processed(txns, ars, before_ar, num, i as int, done);
                        assert(reached(*settings, txns, ars, raws, m0, before_ar, num, i as int));
                        lemma_marginness_frame(txns[num], ars, before, before_ar, raws);
                        assert(spec_marginness(txns[num], ars, before_ar, raws) != TxHasMargin::TwoARs);
                        let v = txns[num].action_record_idx_vec@;
                        assert(post_fails(
                            settings.home_currency@,
                            settings.costing_method,
                            settings.lk_basis_date_preserved,
                            settings.lk_cutoff_date.day_num(),
                            num,
                            v[i as int],
                            before_ar,
                            ars,
                            txns,
                            raws,
                        ));
                        assert(partly_posted(before_ar, acct_map@, ars[v[i as int]].account_key, v[i as int]));
                        assert(fails_at(*settings, txns, ars, raws, m0, acct_map@, before_ar, num, i as int));
                    }
                    return Err(e);
                }
                proof {
                    let v = txn.action_record_idx_vec@;
                    assert(txn_ok(txns[num], num, ars, acct_map@, raws));
                    assert(ars[v[i as int]].tx_key == num);
                    assert(ar_in_ledger(txns, ars, ar_num));
                    if done.contains(ar_num) {
                        let ii = choose|ii: int|
                            0 <= ii < i && #[trigger] txn.action_record_idx_vec@[ii] == ar_num;
                        assert(v.len() == 2 && ii == 0 && i == 1);
                        assert(false);
                    }
                    lemma_progress_step(
                        txns,
                        ars,
                        before_ar,
                        acct_map@,
                        num as int,
                        done,
                        ar_num,
                        total,
                    );
                    lemma_txn_ok_frame(txns, ars, before_ar, acct_map@, raws);
                    lemma_owned_step(txns, ars, before_ar, acct_map@, ar_num, total);
                    lemma_home_single_step(before_ar, acct_map@, ars[ar_num].account_key, ar_num, total, raws, home);
                    lemma_dated_step(before_ar, acct_map@, ars[ar_num].account_key, ar_num, total, txns, ars);
                    lemma_own_lots_step(before_ar, acct_map@, ars[ar_num].account_key, ar_num, total, txns, ars, raws, home, pres, cut);
                    lemma_inherit_step(before_ar, acct_map@, ars[ar_num].account_key, ar_num, total, txns, ars, raws, home, pres, cut);
                    lemma_home_whole_step(before_ar, acct_map@, ars[ar_num].account_key, ar_num, total, ars, raws, home);
                    assert(acct_wf(before_ar[ars[ar_num].account_key], ars[ar_num].account_key));
                    assert(acct_wf(acct_map@[ars[ar_num].account_key], ars[ar_num].account_key));
                    lemma_drained_step(
                        before_ar,
                        acct_map@,
                        ars[ar_num].account_key,
                        ar_num,
                        total,
                        txns,
                        ars,
                        raws,
                        home,
                        settings.costing_method,
                        num,
                        i as int,
                    );
                    lemma_accts_nonneg_step(
                        before_ar,
                        acct_map@,
                        ars[ar_num].account_key,
                        ar_num,
                        total,
                        txns,
                        ars,
                        raws,
                        home,
                        pres,
                        cut,
                    );
                    lemma_ordered_step(
                        txns,
                        ars,
                        raws,
                        home,
                        before_ar,
                        acct_map@,
                        ars[ar_num].account_key,
                        ar_num,
                        total,
                        num,
                        i as int,
                    );
                    done = done.insert(ar_num);
                    assert forall|j: u32|
                        (exists|ii: int|
                            0 <= ii < i + 1 && #[trigger] txn.action_record_idx_vec@[ii] == j) implies done.contains(j) by {
                        if exists|ii: int|
                            0 <= ii < i + 1 && #[trigger] txn.action_record_idx_vec@[ii] == j {
                            let ii = choose|ii: int|
                                0 <= ii < i + 1 && #[trigger] txn.action_record_idx_vec@[ii]
                                    == j;
                            if ii < i {
                                assert(exists|ii2: int|
                                    0 <= ii2 < i && #[trigger] txn.action_record_idx_vec@[ii2]
                                        == j);
                            }
                        }
                    }
                    assert forall|j: u32|
                        done.contains(j) implies exists|ii: int|
                            0 <= ii < i + 1 && #[trigger] txn.action_record_idx_vec@[ii] == j by {
                        if j == ar_num {
                            assert(txn.action_record_idx_vec@[i as int] == j);
                        } else {
                            let ii = choose|ii: int|
                                0 <= ii < i && #[trigger] txn.action_record_idx_vec@[ii] == j;
                            assert(txn.action_record_idx_vec@[ii] == j);
                        }
                    }
                }
                i = i + 1;
            }
            proof {
                assert forall|ii: int|
                    0 <= ii < txns[num].action_record_idx_vec@.len() implies done.contains(
                    #[trigger] txns[num].action_record_idx_vec@[ii],
                ) by {
                    assert(exists|i2: int|
                        0 <= i2 < i && #[trigger] txn.action_record_idx_vec@[i2]
                            == txns[num].action_record_idx_vec@[ii]);
                }
                lemma_progress_next(txns, ars, acct_map@, num, done);
                let vv = txns[num].action_record_idx_vec@;
                assert(vv.take(i as int) =~= vv);
                assert forall|j: u32|
                    ar_in_ledger(txns, ars, j) && #[trigger] processed_before(j, (num + 1) as u32, 0, txns, ars)
                        implies processed_before(j, num, i as int, txns, ars) by {
                }
                lemma_drained_sel(
                    acct_map@,
                    txns,
                    ars,
                    raws,
                    home,
                    settings.costing_method,
                    |j: u32| processed_before(j, num, i as int, txns, ars),
                    |j: u32| processed_before(j, (num + 1) as u32, 0, txns, ars),
                );
                lemma_mvmts_processed_mono(
                    txns,
                    ars,
                    acct_map@,
                    num,
                    i as int,
                    (num + 1) as u32,
                    0,
                );
            }
        }
        num = num + 1;
    }
    proof {
        assert forall|j: u32|
            #[trigger] ar_in_ledger(txns_map@, ar_map@, j) && ar_map@[j].tx_key
                <= txns_map@.len() implies (places8(ar_map@[j].amount) ==> ar_posted_total(
            acct_map@,
            ar_map@,
            j,
        ) == ar_map@[j].amount.val()) by {
            assert(ar_map@[j].tx_key < num);
        }
        assert forall|j: u32|
            #[trigger] ar_in_ledger(txns_map@, ar_map@, j) && ar_map@[j].tx_key <= txns_map@.len()
                && spec_direction(ar_map@[j].amount) == Polarity::Outgoing && plain_acct(
                acct_map@,
                raw_acct_map@,
                ar_map@[j].account_key,
                settings.home_currency@,
            ) implies drained_in_order(
            acct_map@[ar_map@[j].account_key].list_of_lots@,
            settings.costing_method,
            j,
            txns_map@,
            ar_map@,
        ) by {
            assert(ar_map@[j].tx_key < num);
            assert(processed_before(j, num, 0, txns, ars));
        }
    }
    Ok(txns_map)
}

} // verus!
