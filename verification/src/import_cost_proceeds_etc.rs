//! Cost basis, proceeds and like-kind treatment of the movements of a processed ledger.
use std::collections::HashMap;
use vstd::prelude::*;
use crate::dec::{
    Dec, product, quotient, rounded, negated, absolute, lemma_negated_twice, dec_sum_from,
    lemma_dec_sum_push, add_fits, spec_add,
};
use crate::account::{Account, Lot, Movement, RawAccount, spec_lot_of, lot_of_resolves};
use crate::transaction::{
    ActionRecord, Polarity, Transaction, TxType, ar_resolves, spec_direction, lookup_raw,
    ar_raw, spec_tx_type,
};
use crate::errors::CryptoolsError;
use crate::ledger::{
    accts_wf, acct_wf, lot_wf, mvmt_ok, txn_ok, ledger_wf, same_shape, lot_same_shape,
    mvmt_same_shape, lemma_same_shape_refl, lemma_same_shape_trans, lemma_same_shape_wf,
    lots_match_pos, lot_match_pos, pos_int, lots_same_shape, mvmt_matches, scan_stops_at,
    lemma_lots_match_pos_same_shape, lemma_lots_matches_same_shape, lemma_scan_same_amounts,
    processed_before, lots_ordered, plain_acct, precedes, lemma_lots_ordered_same_shape,
    lemma_lots_matches_frozen, lemma_lots_matches_same_basis, mvmts_same_basis, mvmts_same_shape,
};
use crate::transaction::{ar_candidates, ar_mvmts, scan_stop, lemma_scan_stop_unique};
use crate::core_functions::ImportProcessParameters;
use crate::create_lots_mvmts::mvmts_owned;
use crate::decimal_utils::round_d128_1e2;

verus! {

broadcast use vstd::std_specs::hash::group_hash_axioms;

/// The movement at (lot index `li`, movement index `mi`) of account `a` exists.
pub open spec fn mvmt_at(accts: Map<u16, Account>, a: u16, li: int, mi: int) -> bool {
    &&& accts.contains_key(a)
    &&& 0 <= li < accts[a].list_of_lots@.len()
    &&& 0 <= mi < accts[a].list_of_lots@[li].movements@.len()
}

/// The movement at (`li`, `mi`) of account `a`.
pub open spec fn mvmt_of(accts: Map<u16, Account>, a: u16, li: int, mi: int) -> Movement {
    accts[a].list_of_lots@[li].movements@[mi]
}

/// The movement with its basis and proceeds replaced.
pub open spec fn with_values(m: Movement, cb: Dec, cb_lk: Dec, pr: Dec, pr_lk: Dec) -> Movement {
    Movement { cost_basis: cb, cost_basis_lk: cb_lk, proceeds: pr, proceeds_lk: pr_lk, ..m }
}

/// Sets the basis and proceeds of the movement at (`li`, `mi`) of account `a`; nothing
/// else changes.
fn set_mvmt_values(
    acct_map: &mut HashMap<u16, Account>,
    a: u16,
    li: usize,
    mi: usize,
    cost_basis: Dec,
    cost_basis_lk: Dec,
    proceeds: Dec,
    proceeds_lk: Dec,
)
    requires
        mvmt_at(old(acct_map)@, a, li as int, mi as int),
    ensures
        same_shape(old(acct_map)@, final(acct_map)@),
        mvmt_of(final(acct_map)@, a, li as int, mi as int) == with_values(
            mvmt_of(old(acct_map)@, a, li as int, mi as int),
            cost_basis,
            cost_basis_lk,
            proceeds,
            proceeds_lk,
        ),
        forall|b: u16, lj: int, mj: int|
            mvmt_at(old(acct_map)@, b, lj, mj) && !(b == a && lj == li && mj == mi) ==> #[trigger] mvmt_of(
                final(acct_map)@,
                b,
                lj,
                mj,
            ) == mvmt_of(old(acct_map)@, b, lj, mj),
{
    let ghost m0 = acct_map@;
    let mut acct = acct_map.remove(&a).unwrap();
    let ghost old_lots = acct.list_of_lots@;
    acct.list_of_lots[li].movements[mi].cost_basis = cost_basis;
    acct.list_of_lots[li].movements[mi].cost_basis_lk = cost_basis_lk;
    acct.list_of_lots[li].movements[mi].proceeds = proceeds;
    acct.list_of_lots[li].movements[mi].proceeds_lk = proceeds_lk;
    let ghost new_lots = acct.list_of_lots@;
    acct_map.insert(a, acct);
    proof {
        assert forall|lj: int| 0 <= lj < old_lots.len() implies lot_same_shape(
            #[trigger] old_lots[lj],
            new_lots[lj],
        ) by {
            if lj == li {
                assert forall|mj: int| 0 <= mj < old_lots[lj].movements@.len() implies mvmt_same_shape(
                    #[trigger] old_lots[lj].movements@[mj],
                    new_lots[lj].movements@[mj],
                ) by {}
            } else {
                assert(new_lots[lj] == old_lots[lj]);
            }
        }
        assert forall|b: u16| #[trigger] m0.contains_key(b) implies {
            &&& acct_map@[b].raw_key == m0[b].raw_key
            &&& acct_map@[b].list_of_lots@.len() == m0[b].list_of_lots@.len()
            &&& forall|lj: int|
                0 <= lj < m0[b].list_of_lots@.len() ==> lot_same_shape(
                    #[trigger] m0[b].list_of_lots@[lj],
                    acct_map@[b].list_of_lots@[lj],
                )
        } by {
            if b != a {
                assert(acct_map@[b] == m0[b]);
            }
        }
        assert(acct_map@.dom() =~= m0.dom());
        assert(mvmt_of(acct_map@, a, li as int, mi as int) =~= with_values(
            mvmt_of(m0, a, li as int, mi as int),
            cost_basis,
            cost_basis_lk,
            proceeds,
            proceeds_lk,
        ));
        assert forall|b: u16, lj: int, mj: int|
            mvmt_at(m0, b, lj, mj) && !(b == a && lj == li && mj == mi) implies #[trigger] mvmt_of(
            acct_map@,
            b,
            lj,
            mj,
        ) == mvmt_of(m0, b, lj, mj) by {
            if b != a {
                assert(acct_map@[b] == m0[b]);
            } else if lj != li {
                assert(new_lots[lj] == old_lots[lj]);
            }
        }
    }
}


/// Changing basis and proceeds keeps every transaction as processing expects it.
pub proof fn lemma_txn_ok_same_shape(
    txns: Map<u32, Transaction>,
    ars: Map<u32, ActionRecord>,
    old: Map<u16, Account>,
    new: Map<u16, Account>,
    raws: Map<u16, RawAccount>,
)
    requires
        forall|t: u32| #[trigger] txns.contains_key(t) ==> txn_ok(txns[t], t, ars, old, raws),
        same_shape(old, new),
    ensures
        forall|t: u32| #[trigger] txns.contains_key(t) ==> txn_ok(txns[t], t, ars, new, raws),
{
    assert forall|t: u32| #[trigger] txns.contains_key(t) implies txn_ok(txns[t], t, ars, new, raws) by {
        assert(txn_ok(txns[t], t, ars, old, raws));
        let v = txns[t].action_record_idx_vec@;
        assert forall|i: int| 0 <= i < v.len() implies ar_resolves(ars, new, raws, #[trigger] v[i]) by {
            assert(ar_resolves(ars, old, raws, v[i]));
            assert(old.contains_key(ars[v[i]].account_key));
        }
    }
}

/// The basis an outgoing movement takes from its lot: the basis of the lot's first
/// movement times the movement's share of that first movement, negated and rounded to
/// 2 places.
pub open spec fn spec_outgoing_basis(first_basis: Dec, amount: Dec, first_amount: Dec) -> Option<Dec> {
    match quotient(amount, first_amount) {
        Some(q) => match product(first_basis, absolute(q)) {
            Some(p) => Some(rounded(negated(p), 2)),
            None => None,
        },
        None => None,
    }
}

/// The basis (like-kind basis when `lk`) an outgoing movement takes from its lot.
fn outgoing_basis_from_lot(
    mvmt: &Movement,
    acct_map: &HashMap<u16, Account>,
    ars: &HashMap<u32, ActionRecord>,
    lk: bool,
) -> (r: Result<Dec, CryptoolsError>)
    requires
        lot_of_resolves(*mvmt, acct_map@, ars@),
        spec_lot_of(*mvmt, acct_map@, ars@).movements@.len() > 0,
    ensures
        ({
            let first = spec_lot_of(*mvmt, acct_map@, ars@).movements@[0];
            r == match spec_outgoing_basis(
                if lk {
                    first.cost_basis_lk
                } else {
                    first.cost_basis
                },
                mvmt.amount,
                first.amount,
            ) {
                Some(x) => Ok(x),
                None => Err(CryptoolsError::DecimalOverflow { tx_number: mvmt.transaction_key }),
            }
        }),
{
    let cb_of_lots_first_mvmt = if lk {
        mvmt.get_lk_cost_basis_of_lots_first_mvmt(acct_map, ars)
    } else {
        mvmt.get_cost_basis_of_lots_first_mvmt(acct_map, ars)
    };
    let ratio_of_amt_to_lots_first_mvmt = match mvmt.ratio_of_amt_to_lots_first_mvmt(acct_map, ars) {
        Some(x) => x,
        None => {
            return Err(CryptoolsError::DecimalOverflow { tx_number: mvmt.transaction_key });
        },
    };
    match cb_of_lots_first_mvmt.checked_mul(&ratio_of_amt_to_lots_first_mvmt) {
        Some(p) => Ok(round_d128_1e2(&p.neg())),
        None => Err(CryptoolsError::DecimalOverflow { tx_number: mvmt.transaction_key }),
    }
}

/// The proceeds of a transaction times a ratio, rounded to 2 places.
pub open spec fn spec_share_of(proceeds: Dec, ratio: Dec) -> Option<Dec> {
    match product(proceeds, ratio) {
        Some(p) => Some(rounded(p, 2)),
        None => None,
    }
}

fn share_of(proceeds: &Dec, ratio: &Dec, tx_number: u32) -> (r: Result<Dec, CryptoolsError>)
    ensures
        r == match spec_share_of(*proceeds, *ratio) {
            Some(x) => Ok(x),
            None => Err(CryptoolsError::DecimalOverflow { tx_number }),
        },
{
    match proceeds.checked_mul(ratio) {
        Some(p) => Ok(round_d128_1e2(&p)),
        None => Err(CryptoolsError::DecimalOverflow { tx_number }),
    }
}

/// Where an action record's movements sit: each position is a movement of its account
/// keyed to it.
pub open spec fn positions_of_ar(
    ps: Seq<(usize, usize)>,
    accts: Map<u16, Account>,
    a: u16,
    k: u32,
) -> bool {
    forall|i: int|
        0 <= i < ps.len() ==> mvmt_at(accts, a, #[trigger] ps[i].0 as int, ps[i].1 as int)
            && mvmt_of(accts, a, ps[i].0 as int, ps[i].1 as int).action_record_key == k
}

/// The positions (lot index, movement index) of the movements that the scan of action
/// record `ar` reaches in its account: those keyed to it and dated no later than its
/// transaction, in lot order, as many as the scan takes (see
/// `ActionRecord::get_mvmts_in_ar_in_lot_date_order`).
pub open spec fn reached_by(
    ar: ActionRecord,
    accts: Map<u16, Account>,
    txns: Map<u32, Transaction>,
) -> Seq<(int, int)> {
    let all = lots_match_pos(
        accts[ar.account_key].list_of_lots@,
        0,
        ar.self_ar_key,
        txns[ar.tx_key].date.day_num(),
    );
    let stop = scan_stop(ar_candidates(ar, accts, txns), ar.amount);
    if 0 <= stop <= all.len() {
        all.take(stop)
    } else {
        all
    }
}

/// The positions that match `k` and `d` from lot `li` on are positions of movements
/// keyed to `k`.
proof fn lemma_match_pos_valid(lots: Seq<Lot>, li: int, k: u32, d: int)
    ensures
        forall|n: int|
            0 <= n < lots_match_pos(lots, li, k, d).len() ==> {
                let p = #[trigger] lots_match_pos(lots, li, k, d)[n];
                &&& li <= p.0
                &&& 0 <= p.0 < lots.len()
                &&& 0 <= p.1 < lots[p.0].movements@.len()
                &&& lots[p.0].movements@[p.1].action_record_key == k
            },
    decreases lots.len() - li,
{
    if 0 <= li < lots.len() {
        lemma_match_pos_valid(lots, li + 1, k, d);
        lemma_lot_match_pos_valid(lots[li].movements@, li, 0, k, d);
        let h = lot_match_pos(lots[li].movements@, li, 0, k, d);
        let t = lots_match_pos(lots, li + 1, k, d);
        assert forall|n: int| 0 <= n < (h + t).len() implies {
            let p = #[trigger] (h + t)[n];
            &&& li <= p.0
            &&& 0 <= p.0 < lots.len()
            &&& 0 <= p.1 < lots[p.0].movements@.len()
            &&& lots[p.0].movements@[p.1].action_record_key == k
        } by {
            if n < h.len() {
                assert((h + t)[n] == h[n]);
            } else {
                assert((h + t)[n] == t[n - h.len()]);
            }
        }
    }
}

proof fn lemma_lot_match_pos_valid(ms: Seq<Movement>, li: int, mi: int, k: u32, d: int)
    ensures
        forall|n: int|
            0 <= n < lot_match_pos(ms, li, mi, k, d).len() ==> {
                let p = #[trigger] lot_match_pos(ms, li, mi, k, d)[n];
                &&& p.0 == li
                &&& mi <= p.1
                &&& 0 <= p.1 < ms.len()
                &&& ms[p.1].action_record_key == k
            },
    decreases ms.len() - mi,
{
    if 0 <= mi < ms.len() {
        lemma_lot_match_pos_valid(ms, li, mi + 1, k, d);
        let h = if mvmt_matches(ms[mi], k, d) {
            seq![(li, mi)]
        } else {
            Seq::<(int, int)>::empty()
        };
        let t = lot_match_pos(ms, li, mi + 1, k, d);
        assert forall|n: int| 0 <= n < (h + t).len() implies {
            let p = #[trigger] (h + t)[n];
            &&& p.0 == li
            &&& mi <= p.1
            &&& 0 <= p.1 < ms.len()
            &&& ms[p.1].action_record_key == k
        } by {
            if n < h.len() {
                assert((h + t)[n] == h[n]);
            } else {
                assert((h + t)[n] == t[n - h.len()]);
            }
        }
    }
}

/// The positions matching in one lot are all different.
proof fn lemma_lot_match_pos_distinct(ms: Seq<Movement>, li: int, mi: int, k: u32, d: int)
    ensures
        forall|x: int, y: int|
            0 <= x < y < lot_match_pos(ms, li, mi, k, d).len() ==> lot_match_pos(ms, li, mi, k, d)[x]
                != lot_match_pos(ms, li, mi, k, d)[y],
    decreases ms.len() - mi,
{
    if 0 <= mi < ms.len() {
        lemma_lot_match_pos_distinct(ms, li, mi + 1, k, d);
        lemma_lot_match_pos_valid(ms, li, mi + 1, k, d);
        let h = if mvmt_matches(ms[mi], k, d) {
            seq![(li, mi)]
        } else {
            Seq::<(int, int)>::empty()
        };
        let t = lot_match_pos(ms, li, mi + 1, k, d);
        assert forall|x: int, y: int| 0 <= x < y < (h + t).len() implies (h + t)[x] != (h + t)[y] by {
            if y < h.len() {
            } else if x < h.len() {
                assert((h + t)[y] == t[y - h.len()]);
                assert(mi + 1 <= t[y - h.len()].1);
            } else {
                assert((h + t)[x] == t[x - h.len()]);
                assert((h + t)[y] == t[y - h.len()]);
            }
        }
    }
}

/// The positions matching from lot `li` on are all different.
proof fn lemma_match_pos_distinct(lots: Seq<Lot>, li: int, k: u32, d: int)
    ensures
        forall|x: int, y: int|
            0 <= x < y < lots_match_pos(lots, li, k, d).len() ==> lots_match_pos(lots, li, k, d)[x]
                != lots_match_pos(lots, li, k, d)[y],
    decreases lots.len() - li,
{
    if 0 <= li < lots.len() {
        lemma_match_pos_distinct(lots, li + 1, k, d);
        lemma_match_pos_valid(lots, li + 1, k, d);
        lemma_lot_match_pos_distinct(lots[li].movements@, li, 0, k, d);
        lemma_lot_match_pos_valid(lots[li].movements@, li, 0, k, d);
        let h = lot_match_pos(lots[li].movements@, li, 0, k, d);
        let t = lots_match_pos(lots, li + 1, k, d);
        assert forall|x: int, y: int| 0 <= x < y < (h + t).len() implies (h + t)[x] != (h + t)[y] by {
            if y < h.len() {
                assert((h + t)[x] == h[x]);
                assert((h + t)[y] == h[y]);
            } else if x < h.len() {
                assert((h + t)[x] == h[x]);
                assert((h + t)[y] == t[y - h.len()]);
                assert(h[x].0 == li);
                assert(li + 1 <= t[y - h.len()].0);
            } else {
                assert((h + t)[x] == t[x - h.len()]);
                assert((h + t)[y] == t[y - h.len()]);
            }
        }
    }
}

/// Where a scan reaches depends only on the shape of the accounts, once it is known to
/// stop.
proof fn lemma_reached_same_shape(
    ar: ActionRecord,
    x: Map<u16, Account>,
    y: Map<u16, Account>,
    txns: Map<u32, Transaction>,
    j: int,
)
    requires
        same_shape(x, y),
        x.contains_key(ar.account_key),
        scan_stops_at(ar_candidates(ar, x, txns), ar.amount, j),
    ensures
        reached_by(ar, x, txns) == reached_by(ar, y, txns),
        scan_stops_at(ar_candidates(ar, y, txns), ar.amount, j),
        scan_stop(ar_candidates(ar, x, txns), ar.amount) == j,
        scan_stop(ar_candidates(ar, y, txns), ar.amount) == j,
{
    let a = ar.account_key;
    let d = txns[ar.tx_key].date.day_num();
    assert(lots_same_shape(x[a].list_of_lots@, y[a].list_of_lots@));
    lemma_lots_match_pos_same_shape(x[a].list_of_lots@, y[a].list_of_lots@, 0, ar.self_ar_key, d);
    lemma_lots_matches_same_shape(x[a].list_of_lots@, y[a].list_of_lots@, ar.self_ar_key, d);
    lemma_scan_same_amounts(ar_candidates(ar, x, txns), ar_candidates(ar, y, txns), ar.amount, j);
    lemma_scan_stop_unique(ar_candidates(ar, x, txns), ar.amount, j);
    lemma_scan_stop_unique(ar_candidates(ar, y, txns), ar.amount, j);
}

/// The positions of action record `ar_num`'s movements.
fn positions_of(
    ar: &ActionRecord,
    acct_map: &HashMap<u16, Account>,
    txns_map: &HashMap<u32, Transaction>,
) -> (r: Result<Vec<(usize, usize)>, CryptoolsError>)
    requires
        txns_map@.contains_key(ar.tx_key),
        acct_map@.contains_key(ar.account_key),
        accts_wf(acct_map@),
    ensures
        r matches Ok(ps) ==> positions_of_ar(ps@, acct_map@, ar.account_key, ar.self_ar_key),
        r matches Ok(ps) ==> pos_int(ps@) == reached_by(*ar, acct_map@, txns_map@),
        r matches Ok(ps) ==> exists|j: int|
            scan_stops_at(ar_candidates(*ar, acct_map@, txns_map@), ar.amount, j),
        r is Err <==> !(exists|j: int|
            scan_stops_at(ar_candidates(*ar, acct_map@, txns_map@), ar.amount, j)),
{
    proof {
        assert(acct_wf(acct_map@[ar.account_key], ar.account_key));
    }
    match ar.get_mvmt_positions_in_lot_date_order(acct_map, txns_map) {
        Some(ps) => {
            proof {
                let j = choose|j: int|
                    scan_stops_at(ar_candidates(*ar, acct_map@, txns_map@), ar.amount, j)
                        && ps@.len() == j;
                lemma_scan_stop_unique(ar_candidates(*ar, acct_map@, txns_map@), ar.amount, j);
                let lots = acct_map@[ar.account_key].list_of_lots@;
                assert forall|i: int| 0 <= i < ps@.len() implies mvmt_at(
                    acct_map@,
                    ar.account_key,
                    #[trigger] ps@[i].0 as int,
                    ps@[i].1 as int,
                ) && mvmt_of(acct_map@, ar.account_key, ps@[i].0 as int, ps@[i].1 as int).action_record_key
                    == ar.self_ar_key by {
                    assert(crate::transaction::position_ok(
                        ps@[i],
                        lots,
                        crate::transaction::ar_candidates(*ar, acct_map@, txns_map@)[i],
                    ));
                }
            }
            Ok(ps)
        },
        None => {
            proof {
                let j = choose|j: int|
                    crate::ledger::scan_overflows_at(ar_candidates(*ar, acct_map@, txns_map@), ar.amount, j);
                crate::ledger::lemma_overflow_no_stop(
                    ar_candidates(*ar, acct_map@, txns_map@),
                    ar.amount,
                    j,
                );
            }
            Err(CryptoolsError::DecimalOverflow { tx_number: ar.tx_key })
        },
    }
}

/// Positions stay valid when only basis and proceeds change.
proof fn lemma_positions_same_shape(
    ps: Seq<(usize, usize)>,
    old: Map<u16, Account>,
    new: Map<u16, Account>,
    a: u16,
    k: u32,
)
    requires
        positions_of_ar(ps, old, a, k),
        same_shape(old, new),
    ensures
        positions_of_ar(ps, new, a, k),
{
    assert forall|i: int| 0 <= i < ps.len() implies mvmt_at(new, a, #[trigger] ps[i].0 as int, ps[i].1 as int)
        && mvmt_of(new, a, ps[i].0 as int, ps[i].1 as int).action_record_key == k by {
        assert(mvmt_at(old, a, ps[i].0 as int, ps[i].1 as int));
        assert(old.contains_key(a));
        assert(lot_same_shape(old[a].list_of_lots@[ps[i].0 as int], new[a].list_of_lots@[ps[i].0 as int]));
        assert(mvmt_same_shape(
            old[a].list_of_lots@[ps[i].0 as int].movements@[ps[i].1 as int],
            new[a].list_of_lots@[ps[i].0 as int].movements@[ps[i].1 as int],
        ));
    }
}

/// The lot of a movement of action record `k` at a position of account `a`, which is
/// `k`'s account, is the lot at that position.
proof fn lemma_lot_of_position(
    accts: Map<u16, Account>,
    ars: Map<u32, ActionRecord>,
    a: u16,
    li: int,
    mi: int,
)
    requires
        accts_wf(accts),
        mvmt_at(accts, a, li, mi),
        ars.contains_key(mvmt_of(accts, a, li, mi).action_record_key),
        ars[mvmt_of(accts, a, li, mi).action_record_key].account_key == a,
    ensures
        lot_of_resolves(mvmt_of(accts, a, li, mi), accts, ars),
        spec_lot_of(mvmt_of(accts, a, li, mi), accts, ars) == accts[a].list_of_lots@[li],
        spec_lot_of(mvmt_of(accts, a, li, mi), accts, ars).movements@.len() > 0,
{
    assert(acct_wf(accts[a], a));
    assert(lot_wf(accts[a].list_of_lots@[li], a, li));
    assert(mvmt_ok(accts[a].list_of_lots@[li].movements@[mi], li));
}


/// What the per-transaction steps may assume of the ledger and the accounts.
pub open spec fn ready(
    txns: Map<u32, Transaction>,
    ars: Map<u32, ActionRecord>,
    accts: Map<u16, Account>,
    raws: Map<u16, RawAccount>,
) -> bool {
    &&& accts_wf(accts)
    &&& forall|t: u32| #[trigger] txns.contains_key(t) ==> txn_ok(txns[t], t, ars, accts, raws)
}

/// Changing basis and proceeds keeps the ledger ready.
proof fn lemma_ready_same_shape(
    txns: Map<u32, Transaction>,
    ars: Map<u32, ActionRecord>,
    old: Map<u16, Account>,
    new: Map<u16, Account>,
    raws: Map<u16, RawAccount>,
)
    requires
        ready(txns, ars, old, raws),
        same_shape(old, new),
    ensures
        ready(txns, ars, new, raws),
{
    lemma_same_shape_wf(old, new);
    lemma_txn_ok_same_shape(txns, ars, old, new, raws);
}

/// The action record at index `i` of transaction `t` can be looked up, knows its
/// transaction and its own key.
proof fn lemma_ar_of_txn(
    txns: Map<u32, Transaction>,
    ars: Map<u32, ActionRecord>,
    accts: Map<u16, Account>,
    raws: Map<u16, RawAccount>,
    t: u32,
    i: int,
)
    requires
        ready(txns, ars, accts, raws),
        txns.contains_key(t),
        0 <= i < txns[t].action_record_idx_vec@.len(),
    ensures
        ar_resolves(ars, accts, raws, txns[t].action_record_idx_vec@[i]),
        ars[txns[t].action_record_idx_vec@[i]].tx_key == t,
        ars[txns[t].action_record_idx_vec@[i]].self_ar_key == txns[t].action_record_idx_vec@[i],
        ar_resolves(ars, accts, raws, txns[t].action_record_idx_vec@[0]),
        ars[txns[t].action_record_idx_vec@[0]].tx_key == t,
        ars[txns[t].action_record_idx_vec@[0]].self_ar_key == txns[t].action_record_idx_vec@[0],
        txns[t].action_record_idx_vec@.len() == 2 ==> ar_resolves(
            ars,
            accts,
            raws,
            txns[t].action_record_idx_vec@[1],
        ),
{
    assert(txn_ok(txns[t], t, ars, accts, raws));
}

/// The cost basis of each movement of the outgoing action record of a transfer to
/// oneself, in the order of its movements.
fn retrieve_cb_vec_from_corresponding_outgoing_toself(
    txn_num: u32,
    ars: &HashMap<u32, ActionRecord>,
    txns_map: &HashMap<u32, Transaction>,
    acct_map: &HashMap<u16, Account>,
    raw_acct_map: &HashMap<u16, RawAccount>,
) -> (r: Result<Vec<Dec>, CryptoolsError>)
    requires
        ready(txns_map@, ars@, acct_map@, raw_acct_map@),
        txns_map@.contains_key(txn_num),
    ensures
        r is Ok ==> spec_direction(ars@[txns_map@[txn_num].action_record_idx_vec@[0]].amount)
            == Polarity::Outgoing,
        r matches Ok(v) ==> {
            let om = ar_mvmts(
                ars@[txns_map@[txn_num].action_record_idx_vec@[0]],
                acct_map@,
                txns_map@,
            );
            &&& v@.len() == om.len()
            &&& forall|j: int| 0 <= j < v@.len() ==> #[trigger] v@[j] == om[j].cost_basis
        },
        r is Ok <==> {
            let o = ars@[txns_map@[txn_num].action_record_idx_vec@[0]];
            &&& spec_direction(o.amount) == Polarity::Outgoing
            &&& exists|j: int| scan_stops_at(ar_candidates(o, acct_map@, txns_map@), o.amount, j)
        },
{
    let txn = txns_map.get(&txn_num).unwrap();
    proof {
        lemma_ar_of_txn(txns_map@, ars@, acct_map@, raw_acct_map@, txn_num, 0);
        assert(acct_wf(
            acct_map@[ars@[txn.action_record_idx_vec@[0]].account_key],
            ars@[txn.action_record_idx_vec@[0]].account_key,
        ));
    }
    let other_ar_borrowed = ars.get(&txn.action_record_idx_vec[0]).unwrap();
    if other_ar_borrowed.direction() != Polarity::Outgoing {
        return Err(CryptoolsError::IncomingBeforeOutgoing { tx_number: txn_num });
    }
    let movements = match other_ar_borrowed.get_mvmts_in_ar_in_lot_date_order(acct_map, txns_map) {
        Some(v) => v,
        None => {
            proof {
                let j = choose|j: int|
                    crate::ledger::scan_overflows_at(
                        ar_candidates(*other_ar_borrowed, acct_map@, txns_map@),
                        other_ar_borrowed.amount,
                        j,
                    );
                crate::ledger::lemma_overflow_no_stop(
                    ar_candidates(*other_ar_borrowed, acct_map@, txns_map@),
                    other_ar_borrowed.amount,
                    j,
                );
            }
            return Err(CryptoolsError::DecimalOverflow { tx_number: txn_num });
        },
    };
    let mut vec: Vec<Dec> = Vec::new();
    let mut i: usize = 0;
    while i < movements.len()
        invariant
            i <= movements@.len(),
            vec@.len() == i,
            forall|j: int| 0 <= j < i ==> #[trigger] vec@[j] == movements@[j].cost_basis,
        decreases movements@.len() - i,
    {
        vec.push(movements[i].cost_basis);
        i = i + 1;
    }
    Ok(vec)
}

/// The cost basis that processing gives a movement `m` of an action record of transaction
/// `t` outside margin accounts (`home` being the home currency), as both its basis and
/// its like-kind basis: in the home currency, its amount; otherwise an outgoing movement's
/// basis is at most zero (its share of its lot's basis, see `outgoing_cover`), and an
/// incoming one's at least
/// zero: in an exchange, minus the home currency amount paid, or else its share of the
/// transaction's value (rounded to 2 places); in a flow, that share.
pub open spec fn basis_rule(
    m: Movement,
    home: Seq<char>,
    txns: Map<u32, Transaction>,
    ars: Map<u32, ActionRecord>,
    accts: Map<u16, Account>,
    raws: Map<u16, RawAccount>,
) -> bool {
    let k = m.action_record_key;
    let ar = ars[k];
    let t = txns[ar.tx_key];
    let share = spec_share_of(t.proceeds, m.ratio_of_amt_to_incoming_mvmts_in_a_r);
    &&& ars.contains_key(k)
    &&& txns.contains_key(ar.tx_key)
    &&& t.action_record_idx_vec@.contains(k)
    &&& !ar_raw(ars, accts, raws, k).is_margin
    &&& m.cost_basis_lk == m.cost_basis
    &&& spec_tx_type(t, ars, accts, raws) is Ok
    &&& if ar_raw(ars, accts, raws, k).ticker@ == home {
        m.cost_basis == m.amount
    } else if spec_direction(ar.amount) == Polarity::Outgoing {
        m.cost_basis.val() <= 0
    } else {
        &&& m.cost_basis.val() >= 0
        &&& match spec_tx_type(t, ars, accts, raws) {
            Ok(TxType::Exchange) => {
                let o = t.action_record_idx_vec@[0];
                if ar_raw(ars, accts, raws, o).ticker@ == home {
                    m.cost_basis == negated(ars[o].amount)
                } else {
                    share == Some(m.cost_basis)
                }
            },
            Ok(TxType::Flow) => share == Some(m.cost_basis),
            _ => true,
        }
    }
}

/// Movement `o` became `n`: unchanged, or with the same proceeds and basis by the rule.
pub open spec fn basis_change(
    o: Movement,
    n: Movement,
    home: Seq<char>,
    txns: Map<u32, Transaction>,
    ars: Map<u32, ActionRecord>,
    accts: Map<u16, Account>,
    raws: Map<u16, RawAccount>,
) -> bool {
    ||| n == o
    ||| {
        &&& mvmt_same_shape(o, n)
        &&& n.proceeds == o.proceeds
        &&& n.proceeds_lk == o.proceeds_lk
        &&& basis_rule(n, home, txns, ars, accts, raws)
    }
}

/// Every movement of `old` became its counterpart in `new` as `basis_change` allows.
pub open spec fn basis_changes(
    old: Map<u16, Account>,
    new: Map<u16, Account>,
    home: Seq<char>,
    txns: Map<u32, Transaction>,
    ars: Map<u32, ActionRecord>,
    raws: Map<u16, RawAccount>,
) -> bool {
    forall|a: u16, li: int, mi: int|
        mvmt_at(old, a, li, mi) ==> basis_change(
            mvmt_of(old, a, li, mi),
            #[trigger] mvmt_of(new, a, li, mi),
            home,
            txns,
            ars,
            old,
            raws,
        )
}

proof fn lemma_basis_rule_same_shape(
    m: Movement,
    home: Seq<char>,
    txns: Map<u32, Transaction>,
    ars: Map<u32, ActionRecord>,
    x: Map<u16, Account>,
    y: Map<u16, Account>,
    raws: Map<u16, RawAccount>,
)
    requires
        ready(txns, ars, x, raws),
        same_shape(x, y),
        basis_rule(m, home, txns, ars, y, raws),
    ensures
        basis_rule(m, home, txns, ars, x, raws),
{
    let k = m.action_record_key;
    let tk = ars[k].tx_key;
    let t = txns[tk];
    assert(txn_ok(t, tk, ars, x, raws));
    let i = choose|i: int| 0 <= i < t.action_record_idx_vec@.len() && t.action_record_idx_vec@[i] == k;
    assert(ar_resolves(ars, x, raws, t.action_record_idx_vec@[i]));
    assert(ar_raw(ars, x, raws, k) == ar_raw(ars, y, raws, k));
    assert(ar_resolves(ars, x, raws, t.action_record_idx_vec@[0]));
    assert(ar_raw(ars, x, raws, t.action_record_idx_vec@[0]) == ar_raw(
        ars,
        y,
        raws,
        t.action_record_idx_vec@[0],
    ));
    if t.action_record_idx_vec@.len() == 2 {
        assert(ar_resolves(ars, x, raws, t.action_record_idx_vec@[1]));
    }
    assert(spec_tx_type(t, ars, x, raws) == spec_tx_type(t, ars, y, raws));
}

proof fn lemma_basis_changes_trans(
    m0: Map<u16, Account>,
    m1: Map<u16, Account>,
    m2: Map<u16, Account>,
    home: Seq<char>,
    txns: Map<u32, Transaction>,
    ars: Map<u32, ActionRecord>,
    raws: Map<u16, RawAccount>,
)
    requires
        ready(txns, ars, m0, raws),
        same_shape(m0, m1),
        same_shape(m1, m2),
        basis_changes(m0, m1, home, txns, ars, raws),
        basis_changes(m1, m2, home, txns, ars, raws),
    ensures
        basis_changes(m0, m2, home, txns, ars, raws),
{
    assert forall|a: u16, li: int, mi: int| mvmt_at(m0, a, li, mi) implies basis_change(
        mvmt_of(m0, a, li, mi),
        #[trigger] mvmt_of(m2, a, li, mi),
        home,
        txns,
        ars,
        m0,
        raws,
    ) by {
        lemma_mvmt_at_same_shape(m0, m1, a, li, mi);
        let o = mvmt_of(m0, a, li, mi);
        let p = mvmt_of(m1, a, li, mi);
        let n = mvmt_of(m2, a, li, mi);
        assert(basis_change(o, p, home, txns, ars, m0, raws));
        assert(basis_change(p, n, home, txns, ars, m1, raws));
        if n != p {
            lemma_basis_rule_same_shape(n, home, txns, ars, m0, m1, raws);
        }
    }
}

/// Writing the basis of the `idx`-th position of the incoming side `k` of a transfer to
/// oneself, from the `idx`-th movement of the outgoing side, keeps the rule of
/// `toself_rule` at every position written so far: the outgoing side's movements are
/// not `k`'s, so they stay as they were.
proof fn lemma_toself_write(
    txns: Map<u32, Transaction>,
    ars: Map<u32, ActionRecord>,
    before: Map<u16, Account>,
    after: Map<u16, Account>,
    raws: Map<u16, RawAccount>,
    a: u16,
    k: u32,
    ps: Seq<(usize, usize)>,
    idx: int,
)
    requires
        ready(txns, ars, before, raws),
        same_shape(before, after),
        positions_of_ar(ps, before, a, k),
        0 <= idx < ps.len(),
        forall|q: int| 0 <= q < idx ==> ps[q] != ps[idx],
        txns.contains_key(ars[k].tx_key),
        txns[ars[k].tx_key].action_record_idx_vec@[0] != k,
        ({
            let li = ps[idx].0 as int;
            let mi = ps[idx].1 as int;
            let src = toself_source(k, txns, ars, before);
            &&& idx < src.len()
            &&& mvmt_of(after, a, li, mi).cost_basis == negated(rounded(src[idx].cost_basis, 2))
            &&& forall|b: u16, lj: int, mj: int|
                mvmt_at(before, b, lj, mj) && !(b == a && lj == li && mj == mi) ==> #[trigger] mvmt_of(
                    after,
                    b,
                    lj,
                    mj,
                ) == mvmt_of(before, b, lj, mj)
        }),
        forall|q: int|
            0 <= q < idx ==> toself_rule(
                #[trigger] mvmt_of(before, a, ps[q].0 as int, ps[q].1 as int),
                q,
                toself_source(k, txns, ars, before),
            ),
    ensures
        forall|q: int|
            0 <= q < idx + 1 ==> toself_rule(
                #[trigger] mvmt_of(after, a, ps[q].0 as int, ps[q].1 as int),
                q,
                toself_source(k, txns, ars, after),
            ),
{
    let li = ps[idx].0 as int;
    let mi = ps[idx].1 as int;
    assert(mvmt_at(before, a, li, mi));
    assert forall|b: u16, lj: int, mj: int|
        mvmt_at(before, b, lj, mj) && mvmt_of(before, b, lj, mj).action_record_key != k implies #[trigger] mvmt_of(
        after,
        b,
        lj,
        mj,
    ) == mvmt_of(before, b, lj, mj) by {
        if b == a && lj == li && mj == mi {
            assert(mvmt_of(before, a, li, mi).action_record_key == k);
        }
    }
    assert(only_ar_changed(before, after, k));
    lemma_source_frozen(k, txns, ars, before, after, raws, k);
    assert forall|q: int| 0 <= q < idx + 1 implies toself_rule(
        #[trigger] mvmt_of(after, a, ps[q].0 as int, ps[q].1 as int),
        q,
        toself_source(k, txns, ars, after),
    ) by {
        if q < idx {
            let lq = ps[q].0 as int;
            let mq = ps[q].1 as int;
            assert(mvmt_at(before, a, lq, mq));
            assert(ps[q] != ps[idx]);
            assert(!(lq == li && mq == mi));
            assert(mvmt_of(after, a, lq, mq) == mvmt_of(before, a, lq, mq));
        }
    }
}

/// Writing the basis of one more position of an outgoing action record `k` (outside
/// margin and the home currency), taken from the first movement of its lot, keeps the
/// outgoing rule at every position written so far: with ordered lots, that first
/// movement is not one of `k`'s.
proof fn lemma_outgoing_write(
    txns: Map<u32, Transaction>,
    ars: Map<u32, ActionRecord>,
    m0: Map<u16, Account>,
    before: Map<u16, Account>,
    after: Map<u16, Account>,
    raws: Map<u16, RawAccount>,
    home: Seq<char>,
    a: u16,
    k: u32,
    ps: Seq<(usize, usize)>,
    idx: int,
)
    requires
        lots_ordered(txns, ars, m0, raws, home),
        same_shape(m0, before),
        same_shape(before, after),
        m0.contains_key(a),
        plain_acct(m0, raws, a, home),
        spec_direction(ars[k].amount) == Polarity::Outgoing,
        positions_of_ar(ps, before, a, k),
        0 <= idx < ps.len(),
        ({
            let li = ps[idx].0 as int;
            let mi = ps[idx].1 as int;
            &&& spec_outgoing_basis(
                mvmt_of(before, a, li, 0).cost_basis,
                mvmt_of(before, a, li, mi).amount,
                mvmt_of(before, a, li, 0).amount,
            ) == Some(mvmt_of(after, a, li, mi).cost_basis)
            &&& mvmt_of(after, a, li, mi).amount == mvmt_of(before, a, li, mi).amount
            &&& forall|b: u16, lj: int, mj: int|
                mvmt_at(before, b, lj, mj) && !(b == a && lj == li && mj == mi) ==> #[trigger] mvmt_of(
                    after,
                    b,
                    lj,
                    mj,
                ) == mvmt_of(before, b, lj, mj)
        }),
        forall|q: int|
            0 <= q < idx ==> outgoing_basis_rule(
                #[trigger] mvmt_of(before, a, ps[q].0 as int, ps[q].1 as int),
                mvmt_of(before, a, ps[q].0 as int, 0),
            ),
    ensures
        forall|q: int|
            0 <= q < idx + 1 ==> outgoing_basis_rule(
                #[trigger] mvmt_of(after, a, ps[q].0 as int, ps[q].1 as int),
                mvmt_of(after, a, ps[q].0 as int, 0),
            ),
{
    let li = ps[idx].0 as int;
    let mi = ps[idx].1 as int;
    assert(mvmt_at(before, a, li, mi));
    assert(mvmt_at(before, a, li, 0));
    lemma_first_incoming(txns, ars, m0, before, raws, home, a, li);
    assert(mi != 0);
    assert(mvmt_of(after, a, li, 0) == mvmt_of(before, a, li, 0));
    assert forall|q: int| 0 <= q < idx + 1 implies outgoing_basis_rule(
        #[trigger] mvmt_of(after, a, ps[q].0 as int, ps[q].1 as int),
        mvmt_of(after, a, ps[q].0 as int, 0),
    ) by {
        let lq = ps[q].0 as int;
        let mq = ps[q].1 as int;
        if !(lq == li && mq == mi) {
            assert(mvmt_at(before, a, lq, mq));
            assert(mvmt_at(before, a, lq, 0));
            lemma_first_incoming(txns, ars, m0, before, raws, home, a, lq);
            assert(mvmt_of(after, a, lq, mq) == mvmt_of(before, a, lq, mq));
            assert(mvmt_of(after, a, lq, 0) == mvmt_of(before, a, lq, 0));
        }
    }
}

/// Sets the cost basis (both the original and the like-kind one) of the movements of
/// the action record at index `i` of transaction `txn_num`, which is not in a margin
/// account:
/// - a home currency movement's basis is its amount;
/// - any other outgoing movement takes its share of the basis of its lot (see
///   `spec_outgoing_basis`);
/// - an incoming movement of an exchange costs what the home currency paid, or else its
///   share of the transaction's value (rounded to 2 places); of a transfer to oneself,
///   the basis of the matching outgoing movement (rounded, sign flipped); of a flow, its
///   share of the transaction's value.
/// An outgoing basis above zero or an incoming one below zero is an error.
fn add_cost_basis_to_ar(
    settings: &ImportProcessParameters,
    txn_num: u32,
    i: usize,
    raw_acct_map: &HashMap<u16, RawAccount>,
    acct_map: &mut HashMap<u16, Account>,
    ars: &HashMap<u32, ActionRecord>,
    txns_map: &HashMap<u32, Transaction>,
) -> (r: Result<(), CryptoolsError>)
    requires
        ready(txns_map@, ars@, old(acct_map)@, raw_acct_map@),
        txns_map@.contains_key(txn_num),
        i < txns_map@[txn_num].action_record_idx_vec@.len(),
    ensures
        r is Ok ==> same_shape(old(acct_map)@, final(acct_map)@),
        r is Ok ==> basis_changes(
            old(acct_map)@,
            final(acct_map)@,
            settings.home_currency@,
            txns_map@,
            ars@,
            raw_acct_map@,
        ),
        r is Ok ==> only_ar_changed(
            old(acct_map)@,
            final(acct_map)@,
            txns_map@[txn_num].action_record_idx_vec@[i as int],
        ),
        r is Ok && lots_ordered(
            txns_map@,
            ars@,
            old(acct_map)@,
            raw_acct_map@,
            settings.home_currency@,
        ) ==> ({
            let k = txns_map@[txn_num].action_record_idx_vec@[i as int];
            let reach = reached_by(ars@[k], old(acct_map)@, txns_map@);
            plain_outgoing(k, settings.home_currency@, ars@, old(acct_map)@, raw_acct_map@)
                ==> forall|n: int|
                0 <= n < reach.len() ==> outgoing_basis_rule(
                    #[trigger] mvmt_of(final(acct_map)@, ars@[k].account_key, reach[n].0, reach[n].1),
                    mvmt_of(final(acct_map)@, ars@[k].account_key, reach[n].0, 0),
                )
        }),
        r is Ok ==> ({
            let k = txns_map@[txn_num].action_record_idx_vec@[i as int];
            let reach = reached_by(ars@[k], old(acct_map)@, txns_map@);
            toself_incoming(
                k,
                settings.home_currency@,
                txns_map@,
                ars@,
                old(acct_map)@,
                raw_acct_map@,
            ) ==> forall|n: int|
                0 <= n < reach.len() ==> toself_rule(
                    #[trigger] mvmt_of(final(acct_map)@, ars@[k].account_key, reach[n].0, reach[n].1),
                    n,
                    toself_source(k, txns_map@, ars@, final(acct_map)@),
                )
        }),
        r is Ok ==> ({
            let k = txns_map@[txn_num].action_record_idx_vec@[i as int];
            let reach = reached_by(ars@[k], old(acct_map)@, txns_map@);
            !ar_raw(ars@, old(acct_map)@, raw_acct_map@, k).is_margin ==> {
                &&& exists|j: int|
                    scan_stops_at(
                        ar_candidates(ars@[k], old(acct_map)@, txns_map@),
                        ars@[k].amount,
                        j,
                    )
                &&& forall|n: int|
                    0 <= n < reach.len() ==> value_rule(
                        true,
                        settings.home_currency@,
                        #[trigger] mvmt_of(final(acct_map)@, ars@[k].account_key, reach[n].0, reach[n].1),
                        txns_map@,
                        ars@,
                        old(acct_map)@,
                        raw_acct_map@,
                    )
            }
        }),
        ({
            let k = txns_map@[txn_num].action_record_idx_vec@[i as int];
            let ar = ars@[k];
            let stops = exists|j: int|
                scan_stops_at(ar_candidates(ar, old(acct_map)@, txns_map@), ar.amount, j);
            let reach = reached_by(ar, old(acct_map)@, txns_map@);
            let ty = spec_tx_type(txns_map@[txn_num], ars@, old(acct_map)@, raw_acct_map@);
            &&& !stops ==> r is Err
            &&& r is Err ==> ar_basis_fails(
                txn_num,
                i as int,
                settings.home_currency@,
                old(acct_map)@,
                ars@,
                raw_acct_map@,
                txns_map@,
            )
            &&& stops && reach.len() > 0 && ty is Err ==> r is Err
            &&& stops && (reach.len() == 0 || (ty is Ok && ar_raw(
                ars@,
                old(acct_map)@,
                raw_acct_map@,
                k,
            ).is_margin)) ==> r is Ok
        }),
{
    let ghost m0 = acct_map@;
    let ghost home = settings.home_currency@;
    let txn = txns_map.get(&txn_num).unwrap();
    proof {
        lemma_ar_of_txn(txns_map@, ars@, acct_map@, raw_acct_map@, txn_num, i as int);
        lemma_same_shape_refl(m0);
        assert forall|a: u16, li: int, mi: int| mvmt_at(m0, a, li, mi) implies basis_change(
            mvmt_of(m0, a, li, mi),
            #[trigger] mvmt_of(m0, a, li, mi),
            home,
            txns_map@,
            ars@,
            m0,
            raw_acct_map@,
        ) by {}
    }
    let ar_num = txn.action_record_idx_vec[i];
    proof {
        assert forall|b: u16, lj: int, mj: int|
            mvmt_at(m0, b, lj, mj) && mvmt_of(m0, b, lj, mj).action_record_key != ar_num implies #[trigger] mvmt_of(
            m0,
            b,
            lj,
            mj,
        ) == mvmt_of(m0, b, lj, mj) by {}
    }
    let ar = ars.get(&ar_num).unwrap();
    let a = ar.account_key;
    let raw_acct = lookup_raw(ar_num, ars, raw_acct_map, acct_map);
    let positions = positions_of(ar, acct_map, txns_map)?;
    if positions.len() == 0 {
        return Ok(());
    }
    let tx_type = txn.transaction_type(ars, raw_acct_map, acct_map)?;
    if raw_acct.is_margin {
        return Ok(());
    }
    let is_home_curr = raw_acct.is_home_currency(settings.home_currency.as_str());
    let polarity = ar.direction();
    proof {
        assert(txn.action_record_idx_vec@[i as int] == ar_num);
        assert(txn.action_record_idx_vec@.contains(ar_num));
    }
    proof {
        let d = txns_map@[ar.tx_key].date.day_num();
        let all = lots_match_pos(m0[a].list_of_lots@, 0, ar.self_ar_key, d);
        lemma_match_pos_distinct(m0[a].list_of_lots@, 0, ar.self_ar_key, d);
        let reach = reached_by(*ar, m0, txns_map@);
        assert(pos_int(positions@) == reach);
        let stop = scan_stop(ar_candidates(*ar, m0, txns_map@), ar.amount);
        assert(reach == (if 0 <= stop <= all.len() {
            all.take(stop)
        } else {
            all
        }));
        assert forall|x: int, y: int| 0 <= x < y < positions@.len() implies positions@[x]
            != positions@[y] by {
            assert(pos_int(positions@)[x] == reach[x]);
            assert(pos_int(positions@)[y] == reach[y]);
            assert(reach.len() == positions@.len());
            if 0 <= stop <= all.len() {
                assert(reach[x] == all[x]);
                assert(reach[y] == all[y]);
            }
            assert(reach[x] != reach[y]);
        }
    }
    let mut idx: usize = 0;
    while idx < positions.len()
        invariant
            idx <= positions@.len(),
            ready(txns_map@, ars@, acct_map@, raw_acct_map@),
            same_shape(m0, acct_map@),
            m0 == old(acct_map)@,
            positions_of_ar(positions@, acct_map@, a, ar_num),
            txns_map@.contains_key(txn_num),
            *txn == txns_map@[txn_num],
            ars@.contains_key(ar_num),
            *ar == ars@[ar_num],
            a == ar.account_key,
            ar.self_ar_key == ar_num,
            ar.tx_key == txn_num,
            polarity == spec_direction(ar.amount),
            ready(txns_map@, ars@, m0, raw_acct_map@),
            basis_changes(m0, acct_map@, home, txns_map@, ars@, raw_acct_map@),
            home == settings.home_currency@,
            txn.action_record_idx_vec@.contains(ar_num),
            txn.action_record_idx_vec@[i as int] == ar_num,
            i < txn.action_record_idx_vec@.len(),
            positions@.len() > 0,
            !ar_raw(ars@, m0, raw_acct_map@, ar_num).is_margin,
            is_home_curr == (ar_raw(ars@, m0, raw_acct_map@, ar_num).ticker@ == home),
            spec_tx_type(*txn, ars@, m0, raw_acct_map@) == Ok::<TxType, CryptoolsError>(tx_type),
            only_ar_changed(m0, acct_map@, ar_num),
            pos_int(positions@) == reached_by(*ar, m0, txns_map@),
            forall|n: int|
                0 <= n < idx ==> basis_rule(
                    #[trigger] mvmt_of(acct_map@, a, positions@[n].0 as int, positions@[n].1 as int),
                    home,
                    txns_map@,
                    ars@,
                    m0,
                    raw_acct_map@,
                ),
            lots_ordered(txns_map@, ars@, m0, raw_acct_map@, home) && plain_outgoing(
                ar_num,
                home,
                ars@,
                m0,
                raw_acct_map@,
            ) ==> forall|q: int|
                0 <= q < idx ==> outgoing_basis_rule(
                    #[trigger] mvmt_of(acct_map@, a, positions@[q].0 as int, positions@[q].1 as int),
                    mvmt_of(acct_map@, a, positions@[q].0 as int, 0),
                ),
            toself_incoming(ar_num, home, txns_map@, ars@, m0, raw_acct_map@) ==> forall|q: int|
                0 <= q < idx ==> toself_rule(
                    #[trigger] mvmt_of(acct_map@, a, positions@[q].0 as int, positions@[q].1 as int),
                    q,
                    toself_source(ar_num, txns_map@, ars@, acct_map@),
                ),
            forall|x: int, y: int|
                0 <= x < y < positions@.len() ==> positions@[x] != positions@[y],
        decreases positions@.len() - idx,
    {
        let (li, mi) = positions[idx];
        proof {
            assert(mvmt_at(acct_map@, a, li as int, mi as int));
            lemma_lot_of_position(acct_map@, ars@, a, li as int, mi as int);
        }
        let mvmt = acct_map.get(&a).unwrap().list_of_lots[li].movements[mi].clone();
        let ghost src = toself_source(ar_num, txns_map@, ars@, acct_map@);
        let cb = match movement_basis(
            settings,
            txn_num,
            ar_num,
            idx,
            &mvmt,
            txn,
            ar,
            tx_type,
            is_home_curr,
            polarity,
            raw_acct_map,
            acct_map,
            ars,
            txns_map,
        ) {
            Ok(cb) => cb,
            Err(e) => {
                proof {
                    assert(mvmt_basis_fails(
                        mvmt_of(acct_map@, a, reached_by(*ar, m0, txns_map@)[idx as int].0, reached_by(*ar, m0, txns_map@)[idx as int].1),
                        ar_num,
                        idx as int,
                        home,
                        txns_map@,
                        ars@,
                        acct_map@,
                        raw_acct_map@,
                    ));
                }
                return Err(e);
            },
        };
        let ghost before = acct_map@;
        proof {
            assert(mvmt.action_record_key == ar_num);
            assert(mvmt == mvmt_of(before, a, li as int, mi as int));
        }
        set_mvmt_values(acct_map, a, li, mi, cb, cb, mvmt.proceeds, mvmt.proceeds_lk);
        proof {
            if toself_incoming(ar_num, home, txns_map@, ars@, m0, raw_acct_map@) {
                assert(txn.action_record_idx_vec@[0] != ar_num);
                lemma_toself_write(
                    txns_map@,
                    ars@,
                    before,
                    acct_map@,
                    raw_acct_map@,
                    a,
                    ar_num,
                    positions@,
                    idx as int,
                );
            }
            if lots_ordered(txns_map@, ars@, m0, raw_acct_map@, home) && plain_outgoing(
                ar_num,
                home,
                ars@,
                m0,
                raw_acct_map@,
            ) {
                assert(mvmt_at(before, a, li as int, 0));
                assert(spec_lot_of(mvmt, before, ars@).movements@[0] == mvmt_of(before, a, li as int, 0));
                lemma_outgoing_write(
                    txns_map@,
                    ars@,
                    m0,
                    before,
                    acct_map@,
                    raw_acct_map@,
                    home,
                    a,
                    ar_num,
                    positions@,
                    idx as int,
                );
            }
            lemma_same_shape_trans(m0, before, acct_map@);
            lemma_ready_same_shape(txns_map@, ars@, before, acct_map@, raw_acct_map@);
            lemma_positions_same_shape(positions@, before, acct_map@, a, ar_num);
            let n = mvmt_of(acct_map@, a, li as int, mi as int);
            assert(basis_rule(n, home, txns_map@, ars@, m0, raw_acct_map@));
            if n != mvmt {
                assert(mvmt_same_shape(mvmt, n));
            }
            assert forall|b: u16, lj: int, mj: int|
                mvmt_at(m0, b, lj, mj) && mvmt_of(m0, b, lj, mj).action_record_key != ar_num implies #[trigger] mvmt_of(
                acct_map@,
                b,
                lj,
                mj,
            ) == mvmt_of(m0, b, lj, mj) by {
                lemma_mvmt_at_same_shape(m0, before, b, lj, mj);
            }
            assert forall|q: int| 0 <= q < idx + 1 implies basis_rule(
                #[trigger] mvmt_of(acct_map@, a, positions@[q].0 as int, positions@[q].1 as int),
                home,
                txns_map@,
                ars@,
                m0,
                raw_acct_map@,
            ) by {
                if q < idx && positions@[q] != positions@[idx as int] {
                    assert(mvmt_at(before, a, positions@[q].0 as int, positions@[q].1 as int));
                }
            }
            assert forall|b: u16, lj: int, mj: int| mvmt_at(m0, b, lj, mj) implies basis_change(
                mvmt_of(m0, b, lj, mj),
                #[trigger] mvmt_of(acct_map@, b, lj, mj),
                home,
                txns_map@,
                ars@,
                m0,
                raw_acct_map@,
            ) by {
                lemma_mvmt_at_same_shape(m0, before, b, lj, mj);
                assert(basis_change(
                    mvmt_of(m0, b, lj, mj),
                    mvmt_of(before, b, lj, mj),
                    home,
                    txns_map@,
                    ars@,
                    m0,
                    raw_acct_map@,
                ));
            }
        }
        idx = idx + 1;
    }
    proof {
        assert(ar_raw(ars@, m0, raw_acct_map@, ar_num) == *raw_acct);
    }
    Ok(())
}

/// The cost basis that movement `m`, the `n`-th movement that the scan of action record
/// `k` reaches, is given in `accts` (see `add_cost_basis_to_ar`), or `None` when it cannot
/// be had: an outgoing movement outside the home currency takes its share of the basis of
/// its lot's first movement; an incoming one outside the home currency takes, in an
/// exchange, the outgoing amount paid in the home currency or its share of the proceeds
/// (the outgoing side coming first), in a transfer to oneself the basis of the outgoing
/// side's `n`-th movement, rounded to 2 places, sign flipped (the outgoing side's scan
/// stopping), and in a flow its share of the proceeds.
pub open spec fn mvmt_basis(
    m: Movement,
    k: u32,
    n: int,
    home: Seq<char>,
    txns: Map<u32, Transaction>,
    ars: Map<u32, ActionRecord>,
    accts: Map<u16, Account>,
    raws: Map<u16, RawAccount>,
) -> Option<Dec> {
    let ar = ars[k];
    let t = txns[ar.tx_key];
    let o = t.action_record_idx_vec@[0];
    let share = spec_share_of(t.proceeds, m.ratio_of_amt_to_incoming_mvmts_in_a_r);
    if ar_raw(ars, accts, raws, k).ticker@ == home {
        Some(m.amount)
    } else if spec_direction(ar.amount) == Polarity::Outgoing {
        let first = spec_lot_of(m, accts, ars).movements@[0];
        spec_outgoing_basis(first.cost_basis, m.amount, first.amount)
    } else {
        match spec_tx_type(t, ars, accts, raws) {
            Ok(TxType::Exchange) => if spec_direction(ars[o].amount) != Polarity::Outgoing {
                None
            } else if ar_raw(ars, accts, raws, o).ticker@ == home {
                Some(negated(ars[o].amount))
            } else {
                share
            },
            Ok(TxType::ToSelf) => {
                let src = toself_source(k, txns, ars, accts);
                if spec_direction(ars[o].amount) != Polarity::Outgoing || !(exists|j: int|
                    scan_stops_at(ar_candidates(ars[o], accts, txns), ars[o].amount, j)) || n
                    >= src.len() {
                    None
                } else {
                    Some(negated(rounded(src[n].cost_basis, 2)))
                }
            },
            Ok(TxType::Flow) => share,
            Err(_) => None,
        }
    }
}

/// The basis of `mvmt_basis` cannot be had, or has the wrong sign: above zero for an
/// outgoing action record, below zero for an incoming one.
pub open spec fn mvmt_basis_fails(
    m: Movement,
    k: u32,
    n: int,
    home: Seq<char>,
    txns: Map<u32, Transaction>,
    ars: Map<u32, ActionRecord>,
    accts: Map<u16, Account>,
    raws: Map<u16, RawAccount>,
) -> bool {
    match mvmt_basis(m, k, n, home, txns, ars, accts, raws) {
        None => true,
        Some(cb) => if spec_direction(ars[k].amount) == Polarity::Outgoing {
            cb.val() > 0
        } else {
            cb.val() < 0
        },
    }
}

/// The cost basis of movement `mvmt`, the `idx`-th movement that the scan of action record
/// `ar_num` reaches, by `mvmt_basis`; an error when that fails or has the wrong sign
/// (`mvmt_basis_fails`).
fn movement_basis(
    settings: &ImportProcessParameters,
    txn_num: u32,
    ar_num: u32,
    idx: usize,
    mvmt: &Movement,
    txn: &Transaction,
    ar: &ActionRecord,
    tx_type: TxType,
    is_home_curr: bool,
    polarity: Polarity,
    raw_acct_map: &HashMap<u16, RawAccount>,
    acct_map: &HashMap<u16, Account>,
    ars: &HashMap<u32, ActionRecord>,
    txns_map: &HashMap<u32, Transaction>,
) -> (r: Result<Dec, CryptoolsError>)
    requires
        ready(txns_map@, ars@, acct_map@, raw_acct_map@),
        txns_map@.contains_key(txn_num),
        *txn == txns_map@[txn_num],
        ars@.contains_key(ar_num),
        *ar == ars@[ar_num],
        ar.tx_key == txn_num,
        txn.action_record_idx_vec@.contains(ar_num),
        polarity == spec_direction(ar.amount),
        is_home_curr == (ar_raw(ars@, acct_map@, raw_acct_map@, ar_num).ticker@ == settings.home_currency@),
        spec_tx_type(*txn, ars@, acct_map@, raw_acct_map@) == Ok::<TxType, CryptoolsError>(tx_type),
        lot_of_resolves(*mvmt, acct_map@, ars@),
        spec_lot_of(*mvmt, acct_map@, ars@).movements@.len() > 0,
    ensures
        r is Err <==> mvmt_basis_fails(
            *mvmt,
            ar_num,
            idx as int,
            settings.home_currency@,
            txns_map@,
            ars@,
            acct_map@,
            raw_acct_map@,
        ),
        r matches Ok(cb) ==> mvmt_basis(
            *mvmt,
            ar_num,
            idx as int,
            settings.home_currency@,
            txns_map@,
            ars@,
            acct_map@,
            raw_acct_map@,
        ) == Some(cb),
{
    let cb = match polarity {
        Polarity::Outgoing => {
            let cb = if is_home_curr {
                mvmt.amount
            } else {
                outgoing_basis_from_lot(mvmt, acct_map, ars, false)?
            };
            if cb.is_positive() {
                return Err(CryptoolsError::UnexpectedCostBasisSign { tx_number: txn_num });
            }
            cb
        },
        Polarity::Incoming => {
            let cb = if is_home_curr {
                mvmt.amount
            } else {
                match tx_type {
                    TxType::Exchange => {
                        proof {
                            lemma_ar_of_txn(
                                txns_map@,
                                ars@,
                                acct_map@,
                                raw_acct_map@,
                                txn_num,
                                0,
                            );
                        }
                        let other_ar = ars.get(&txn.action_record_idx_vec[0]).unwrap();
                        if other_ar.direction() != Polarity::Outgoing {
                            return Err(
                                CryptoolsError::IncomingBeforeOutgoing { tx_number: txn_num },
                            );
                        }
                        let raw_other_acct = lookup_raw(
                            txn.action_record_idx_vec[0],
                            ars,
                            raw_acct_map,
                            acct_map,
                        );
                        if raw_other_acct.is_home_currency(settings.home_currency.as_str()) {
                            other_ar.amount.neg()
                        } else {
                            share_of(
                                &txn.proceeds,
                                &mvmt.ratio_of_amt_to_incoming_mvmts_in_a_r,
                                txn_num,
                            )?
                        }
                    },
                    TxType::ToSelf => {
                        let cb_vec_outgoing_ar =
                            retrieve_cb_vec_from_corresponding_outgoing_toself(
                            txn_num,
                            ars,
                            txns_map,
                            acct_map,
                            raw_acct_map,
                        )?;
                        if idx >= cb_vec_outgoing_ar.len() {
                            return Err(
                                CryptoolsError::ToSelfMovementsMismatch { tx_number: txn_num },
                            );
                        }
                        round_d128_1e2(&cb_vec_outgoing_ar[idx]).neg()
                    },
                    TxType::Flow => share_of(
                        &txn.proceeds,
                        &mvmt.ratio_of_amt_to_incoming_mvmts_in_a_r,
                        txn_num,
                    )?,
                }
            };
            if cb.is_negative() {
                return Err(CryptoolsError::UnexpectedCostBasisSign { tx_number: txn_num });
            }
            cb
        },
    };
    Ok(cb)
}

/// Adding cost basis to action record `i` of transaction `tn` fails, the accounts being
/// `accts`: it fails whatever the values are (`ar_basis_fails_surely`), or it has work to
/// do and, the basis of its earlier movements written (`st`, which differs from `accts`
/// only there), the basis of its `n`-th movement fails (`mvmt_basis_fails`).
pub open spec fn ar_basis_fails(
    tn: u32,
    i: int,
    home: Seq<char>,
    accts: Map<u16, Account>,
    ars: Map<u32, ActionRecord>,
    raws: Map<u16, RawAccount>,
    txns: Map<u32, Transaction>,
) -> bool {
    let k = txns[tn].action_record_idx_vec@[i];
    let a = ars[k].account_key;
    let reach = reached_by(ars[k], accts, txns);
    ||| ar_basis_fails_surely(tn, i, accts, ars, raws, txns)
    ||| !ar_basis_untouched(tn, i, accts, ars, raws, txns) && exists|st: Map<u16, Account>, n: int|
        0 <= n < reach.len() && same_shape(accts, st) && only_ar_changed(accts, st, k)
            && #[trigger] mvmt_basis_fails(
            mvmt_of(st, a, reach[n].0, reach[n].1),
            k,
            n,
            home,
            txns,
            ars,
            st,
            raws,
        )
}

/// Adding cost basis to action record `i` of transaction `tn` fails whatever the values
/// are, the accounts being `accts`: its scan does not stop, or it reaches movements and
/// the kind of the transaction cannot be told.
pub open spec fn ar_basis_fails_surely(
    tn: u32,
    i: int,
    accts: Map<u16, Account>,
    ars: Map<u32, ActionRecord>,
    raws: Map<u16, RawAccount>,
    txns: Map<u32, Transaction>,
) -> bool {
    let ar = ars[txns[tn].action_record_idx_vec@[i]];
    ||| !(exists|j: int| scan_stops_at(ar_candidates(ar, accts, txns), ar.amount, j))
    ||| reached_by(ar, accts, txns).len() > 0 && spec_tx_type(txns[tn], ars, accts, raws) is Err
}

/// Adding cost basis to action record `i` of transaction `tn` has nothing to do: its scan
/// stops and it reaches no movement, or it is in a margin account (the kind of the
/// transaction being known).
pub open spec fn ar_basis_untouched(
    tn: u32,
    i: int,
    accts: Map<u16, Account>,
    ars: Map<u32, ActionRecord>,
    raws: Map<u16, RawAccount>,
    txns: Map<u32, Transaction>,
) -> bool {
    let k = txns[tn].action_record_idx_vec@[i];
    let ar = ars[k];
    &&& exists|j: int| scan_stops_at(ar_candidates(ar, accts, txns), ar.amount, j)
    &&& (reached_by(ar, accts, txns).len() == 0 || (spec_tx_type(txns[tn], ars, accts, raws) is Ok
        && ar_raw(ars, accts, raws, k).is_margin))
}

/// Both depend only on the shape of the accounts.
proof fn lemma_ar_basis_checks_same_shape(
    tn: u32,
    i: int,
    x: Map<u16, Account>,
    y: Map<u16, Account>,
    ars: Map<u32, ActionRecord>,
    raws: Map<u16, RawAccount>,
    txns: Map<u32, Transaction>,
)
    requires
        ready(txns, ars, x, raws),
        same_shape(x, y),
        txns.contains_key(tn),
        0 <= i < txns[tn].action_record_idx_vec@.len(),
    ensures
        ar_basis_fails_surely(tn, i, x, ars, raws, txns) == ar_basis_fails_surely(tn, i, y, ars, raws, txns),
        ar_basis_untouched(tn, i, x, ars, raws, txns) == ar_basis_untouched(tn, i, y, ars, raws, txns),
{
    let k = txns[tn].action_record_idx_vec@[i];
    let ar = ars[k];
    lemma_ar_of_txn(txns, ars, x, raws, tn, i);
    lemma_ready_same_shape(txns, ars, x, y, raws);
    lemma_ar_raw_same_shape(ars, y, x, raws, k);
    lemma_tx_type_same_shape(txns, ars, x, y, raws, tn);
    lemma_same_shape_sym(x, y);
    if exists|j: int| scan_stops_at(ar_candidates(ar, x, txns), ar.amount, j) {
        let j = choose|j: int| scan_stops_at(ar_candidates(ar, x, txns), ar.amount, j);
        lemma_reached_same_shape(ar, x, y, txns, j);
    } else if exists|j: int| scan_stops_at(ar_candidates(ar, y, txns), ar.amount, j) {
        let j = choose|j: int| scan_stops_at(ar_candidates(ar, y, txns), ar.amount, j);
        lemma_reached_same_shape(ar, y, x, txns, j);
    }
}

/// What `add_cost_basis_to_movements` promises of the accounts `new` it returns, starting
/// from `old`.
pub open spec fn basis_added(
    home: Seq<char>,
    txns: Map<u32, Transaction>,
    ars: Map<u32, ActionRecord>,
    raws: Map<u16, RawAccount>,
    old: Map<u16, Account>,
    new: Map<u16, Account>,
) -> bool {
    let sel = |k: u32| ar_of_txns(k, txns.len() as int, txns, ars);
    &&& same_shape(old, new)
    &&& basis_changes(old, new, home, txns, ars, raws)
    &&& values_cover(true, home, old, new, txns, ars, raws, sel)
    &&& toself_cover(home, old, new, txns, ars, raws, sel)
    &&& lots_ordered(txns, ars, old, raws, home) ==> outgoing_cover(home, old, new, txns, ars, raws, sel)
}

/// What `add_proceeds_to_movements` promises of the accounts `new` it returns, starting
/// from `old`.
pub open spec fn proceeds_added(
    txns: Map<u32, Transaction>,
    ars: Map<u32, ActionRecord>,
    raws: Map<u16, RawAccount>,
    old: Map<u16, Account>,
    new: Map<u16, Account>,
) -> bool {
    &&& same_shape(old, new)
    &&& proceeds_changes(old, new, txns, ars, raws)
    &&& margin_loss_kept(old, new, txns, ars, raws)
    &&& values_cover(
        false,
        Seq::<char>::empty(),
        old,
        new,
        txns,
        ars,
        raws,
        |k: u32| ar_of_txns(k, txns.len() as int, txns, ars),
    )
}

/// Adds cost basis to every movement, transaction by transaction in number order (see
/// `add_cost_basis_to_ar`).  Only basis and proceeds change; with the lots ordered as
/// `create_lots_and_movements` leaves them, every outgoing movement reached (outside
/// margin and the home currency) takes its share of the basis of its lot's first
/// movement.  On an error, adding basis to some action record failed (`ar_basis_fails`),
/// from the accounts as the earlier records left them.
pub fn add_cost_basis_to_movements(
    settings: &ImportProcessParameters,
    raw_acct_map: &HashMap<u16, RawAccount>,
    acct_map: &mut HashMap<u16, Account>,
    ars: &HashMap<u32, ActionRecord>,
    txns_map: &HashMap<u32, Transaction>,
) -> (r: Result<(), CryptoolsError>)
    requires
        ledger_wf(txns_map@, txns_map@.len() as int, ars@, old(acct_map)@, raw_acct_map@),
        txns_map@.len() < u32::MAX,
    ensures
        r is Ok ==> same_shape(old(acct_map)@, final(acct_map)@),
        r is Ok ==> basis_added(settings.home_currency@, txns_map@, ars@, raw_acct_map@, old(acct_map)@, final(acct_map)@),
        r is Ok ==> basis_changes(
            old(acct_map)@,
            final(acct_map)@,
            settings.home_currency@,
            txns_map@,
            ars@,
            raw_acct_map@,
        ),
        r is Ok ==> values_cover(
            true,
            settings.home_currency@,
            old(acct_map)@,
            final(acct_map)@,
            txns_map@,
            ars@,
            raw_acct_map@,
            |k: u32| ar_of_txns(k, txns_map@.len() as int, txns_map@, ars@),
        ),
        r is Ok ==> toself_cover(
            settings.home_currency@,
            old(acct_map)@,
            final(acct_map)@,
            txns_map@,
            ars@,
            raw_acct_map@,
            |k: u32| ar_of_txns(k, txns_map@.len() as int, txns_map@, ars@),
        ),
        r is Ok && lots_ordered(
            txns_map@,
            ars@,
            old(acct_map)@,
            raw_acct_map@,
            settings.home_currency@,
        ) ==> outgoing_cover(
            settings.home_currency@,
            old(acct_map)@,
            final(acct_map)@,
            txns_map@,
            ars@,
            raw_acct_map@,
            |k: u32| ar_of_txns(k, txns_map@.len() as int, txns_map@, ars@),
        ),
        r is Err ==> exists|t: u32, i: int, pre: Map<u16, Account>|
            1 <= t <= txns_map@.len() && 0 <= i < txns_map@[t].action_record_idx_vec@.len()
                && same_shape(old(acct_map)@, pre) && basis_changes(
                old(acct_map)@,
                pre,
                settings.home_currency@,
                txns_map@,
                ars@,
                raw_acct_map@,
            ) && #[trigger] ar_basis_fails(
                t,
                i,
                settings.home_currency@,
                pre,
                ars@,
                raw_acct_map@,
                txns_map@,
            ),
        (exists|t: u32, i: int|
            1 <= t <= txns_map@.len() && 0 <= i < txns_map@[t].action_record_idx_vec@.len()
                && #[trigger] ar_basis_fails_surely(t, i, old(acct_map)@, ars@, raw_acct_map@, txns_map@))
            ==> r is Err,
        (forall|t: u32, i: int|
            1 <= t <= txns_map@.len() && 0 <= i < txns_map@[t].action_record_idx_vec@.len()
                ==> #[trigger] ar_basis_untouched(t, i, old(acct_map)@, ars@, raw_acct_map@, txns_map@))
            ==> r is Ok,
{
    let ghost m0 = acct_map@;
    let ghost home = settings.home_currency@;
    let length = txns_map.len();
    proof {
        lemma_same_shape_refl(m0);
        assert forall|a: u16, li: int, mi: int| mvmt_at(m0, a, li, mi) implies basis_change(
            mvmt_of(m0, a, li, mi),
            #[trigger] mvmt_of(m0, a, li, mi),
            home,
            txns_map@,
            ars@,
            m0,
            raw_acct_map@,
        ) by {}
    }
    let mut num: u32 = 1;
    while (num as usize) <= length
        invariant
            1 <= num <= length + 1,
            length == txns_map@.len(),
            length < u32::MAX,
            forall|t: u32| 1 <= t <= length ==> #[trigger] txns_map@.contains_key(t),
            ready(txns_map@, ars@, acct_map@, raw_acct_map@),
            ready(txns_map@, ars@, m0, raw_acct_map@),
            same_shape(m0, acct_map@),
            m0 == old(acct_map)@,
            home == settings.home_currency@,
            basis_changes(m0, acct_map@, home, txns_map@, ars@, raw_acct_map@),
            values_cover(
                true,
                home,
                m0,
                acct_map@,
                txns_map@,
                ars@,
                raw_acct_map@,
                |k: u32| processed_before(k, num, 0, txns_map@, ars@),
            ),
            lots_ordered(txns_map@, ars@, m0, raw_acct_map@, home) ==> outgoing_cover(
                home,
                m0,
                acct_map@,
                txns_map@,
                ars@,
                raw_acct_map@,
                |k: u32| processed_before(k, num, 0, txns_map@, ars@),
            ),
            toself_cover(
                home,
                m0,
                acct_map@,
                txns_map@,
                ars@,
                raw_acct_map@,
                |k: u32| processed_before(k, num, 0, txns_map@, ars@),
            ),
            forall|t: u32, i: int|
                1 <= t < num && 0 <= i < txns_map@[t].action_record_idx_vec@.len() ==> !#[trigger] ar_basis_fails_surely(
                    t,
                    i,
                    m0,
                    ars@,
                    raw_acct_map@,
                    txns_map@,
                ),
        decreases length + 1 - num,
    {
        let txn = txns_map.get(&num).unwrap();
        let mut i: usize = 0;
        while i < txn.action_record_idx_vec.len()
            invariant
                i <= txn.action_record_idx_vec@.len(),
                txns_map@.contains_key(num),
                *txn == txns_map@[num],
                ready(txns_map@, ars@, acct_map@, raw_acct_map@),
                ready(txns_map@, ars@, m0, raw_acct_map@),
                same_shape(m0, acct_map@),
                home == settings.home_currency@,
                basis_changes(m0, acct_map@, home, txns_map@, ars@, raw_acct_map@),
                values_cover(
                    true,
                    home,
                    m0,
                    acct_map@,
                    txns_map@,
                    ars@,
                    raw_acct_map@,
                    |k: u32| processed_before(k, num, i as int, txns_map@, ars@),
                ),
                lots_ordered(txns_map@, ars@, m0, raw_acct_map@, home) ==> outgoing_cover(
                    home,
                    m0,
                    acct_map@,
                    txns_map@,
                    ars@,
                    raw_acct_map@,
                    |k: u32| processed_before(k, num, i as int, txns_map@, ars@),
                ),
                toself_cover(
                    home,
                    m0,
                    acct_map@,
                    txns_map@,
                    ars@,
                    raw_acct_map@,
                    |k: u32| processed_before(k, num, i as int, txns_map@, ars@),
                ),
                m0 == old(acct_map)@,
                1 <= num <= length,
                length == txns_map@.len(),
                forall|t: u32, i: int|
                    1 <= t < num && 0 <= i < txns_map@[t].action_record_idx_vec@.len() ==> !#[trigger] ar_basis_fails_surely(
                        t,
                        i,
                        m0,
                        ars@,
                        raw_acct_map@,
                        txns_map@,
                    ),
                forall|ii: int| 0 <= ii < i ==> !#[trigger] ar_basis_fails_surely(
                    num,
                    ii,
                    m0,
                    ars@,
                    raw_acct_map@,
                    txns_map@,
                ),
            decreases txn.action_record_idx_vec@.len() - i,
        {
            let ghost before = acct_map@;
            proof {
                lemma_ar_basis_checks_same_shape(num, i as int, m0, before, ars@, raw_acct_map@, txns_map@);
            }
            match add_cost_basis_to_ar(settings, num, i, raw_acct_map, acct_map, ars, txns_map) {
                Ok(()) => {},
                Err(e) => {
                    proof {
                        assert(!ar_basis_untouched(num, i as int, m0, ars@, raw_acct_map@, txns_map@));
                        assert(ar_basis_fails(num, i as int, home, before, ars@, raw_acct_map@, txns_map@));
                    }
                    return Err(e);
                },
            }
            proof {
                lemma_basis_changes_trans(m0, before, acct_map@, home, txns_map@, ars@, raw_acct_map@);
                lemma_values_cover_step(
                    true,
                    home,
                    m0,
                    before,
                    acct_map@,
                    txns_map@,
                    ars@,
                    raw_acct_map@,
                    num,
                    i as int,
                );
                lemma_toself_cover_step(
                    home,
                    m0,
                    before,
                    acct_map@,
                    txns_map@,
                    ars@,
                    raw_acct_map@,
                    num,
                    i as int,
                );
                if lots_ordered(txns_map@, ars@, m0, raw_acct_map@, home) {
                    lemma_lots_ordered_same_shape(
                        txns_map@,
                        ars@,
                        m0,
                        before,
                        raw_acct_map@,
                        home,
                    );
                    lemma_outgoing_cover_step(
                        home,
                        m0,
                        before,
                        acct_map@,
                        txns_map@,
                        ars@,
                        raw_acct_map@,
                        num,
                        i as int,
                    );
                }
                lemma_same_shape_trans(m0, before, acct_map@);
                lemma_ready_same_shape(txns_map@, ars@, before, acct_map@, raw_acct_map@);
            }
            i = i + 1;
        }
        proof {
            lemma_cover_next_txn(true, home, m0, acct_map@, txns_map@, ars@, raw_acct_map@, num);
            lemma_toself_cover_next_txn(home, m0, acct_map@, txns_map@, ars@, raw_acct_map@, num);
            if lots_ordered(txns_map@, ars@, m0, raw_acct_map@, home) {
                lemma_outgoing_cover_next_txn(
                    home,
                    m0,
                    acct_map@,
                    txns_map@,
                    ars@,
                    raw_acct_map@,
                    num,
                );
            }
        }
        num = num + 1;
    }
    proof {
        lemma_cover_all(true, home, m0, acct_map@, txns_map@, ars@, raw_acct_map@, num);
        lemma_toself_cover_all(home, m0, acct_map@, txns_map@, ars@, raw_acct_map@, num);
        if lots_ordered(txns_map@, ars@, m0, raw_acct_map@, home) {
            lemma_outgoing_cover_all(home, m0, acct_map@, txns_map@, ars@, raw_acct_map@, num);
        }
    }
    Ok(())
}


/// The proceeds of a movement of amount `amount` of action record `ar`, in transaction
/// `t` of kind `ty`, cannot be worked out: it is an outgoing movement of an exchange or
/// of a flow of one action record, and its amount does not divide by the action
/// record's, or the share of the transaction's proceeds does not fit.
pub open spec fn proceeds_share_fails(amount: Dec, ar: ActionRecord, t: Transaction, ty: TxType) -> bool {
    &&& (ty == TxType::Exchange || ty == TxType::Flow)
    &&& spec_direction(ar.amount) == Polarity::Outgoing
    &&& !(ty == TxType::Flow && t.action_record_idx_vec@.len() == 2)
    &&& (quotient(amount, ar.amount) is None || spec_share_of(
        t.proceeds,
        quotient(amount, ar.amount)->Some_0,
    ) is None)
}

/// Adding proceeds to the movements of action record `i` of transaction `tn`, the
/// accounts being `accts`, fails: its scan does not stop, or (outside margin, with
/// movements reached) the kind of the transaction cannot be told or the proceeds of one
/// of them cannot be worked out.
pub open spec fn ar_proceeds_fail(
    tn: u32,
    i: int,
    accts: Map<u16, Account>,
    ars: Map<u32, ActionRecord>,
    raws: Map<u16, RawAccount>,
    txns: Map<u32, Transaction>,
) -> bool {
    let t = txns[tn];
    let k = t.action_record_idx_vec@[i];
    let ar = ars[k];
    let reach = reached_by(ar, accts, txns);
    ||| !(exists|j: int| scan_stops_at(ar_candidates(ar, accts, txns), ar.amount, j))
    ||| (!ar_raw(ars, accts, raws, k).is_margin && reach.len() > 0 && (spec_tx_type(
        t,
        ars,
        accts,
        raws,
    ) is Err || exists|n: int|
        0 <= n < reach.len() && proceeds_share_fails(
            mvmt_of(accts, ar.account_key, (#[trigger] reach[n]).0, reach[n].1).amount,
            ar,
            t,
            spec_tx_type(t, ars, accts, raws)->Ok_0,
        )))
}

/// Sets the proceeds of the movements of the action record at index `i` of transaction
/// `txn_num`, which is not in a margin account: an outgoing movement of an exchange or
/// of a single-record flow gets its share (by amount) of the transaction's value,
/// rounded to 2 places; an outgoing movement of a two-record flow (a margin loss) keeps
/// zero; every other movement gets proceeds that cancel its basis.
fn add_proceeds_to_ar(
    txn_num: u32,
    i: usize,
    raw_acct_map: &HashMap<u16, RawAccount>,
    acct_map: &mut HashMap<u16, Account>,
    ars: &HashMap<u32, ActionRecord>,
    txns_map: &HashMap<u32, Transaction>,
) -> (r: Result<(), CryptoolsError>)
    requires
        ready(txns_map@, ars@, old(acct_map)@, raw_acct_map@),
        txns_map@.contains_key(txn_num),
        i < txns_map@[txn_num].action_record_idx_vec@.len(),
    ensures
        r is Ok ==> same_shape(old(acct_map)@, final(acct_map)@),
        r is Ok ==> proceeds_changes(old(acct_map)@, final(acct_map)@, txns_map@, ars@, raw_acct_map@),
        r is Ok ==> margin_loss_kept(old(acct_map)@, final(acct_map)@, txns_map@, ars@, raw_acct_map@),
        r is Ok ==> only_ar_changed(
            old(acct_map)@,
            final(acct_map)@,
            txns_map@[txn_num].action_record_idx_vec@[i as int],
        ),
        r is Ok ==> ({
            let k = txns_map@[txn_num].action_record_idx_vec@[i as int];
            let reach = reached_by(ars@[k], old(acct_map)@, txns_map@);
            !ar_raw(ars@, old(acct_map)@, raw_acct_map@, k).is_margin ==> {
                &&& exists|j: int|
                    scan_stops_at(
                        ar_candidates(ars@[k], old(acct_map)@, txns_map@),
                        ars@[k].amount,
                        j,
                    )
                &&& forall|n: int|
                    0 <= n < reach.len() ==> proceeds_rule(
                        #[trigger] mvmt_of(final(acct_map)@, ars@[k].account_key, reach[n].0, reach[n].1),
                        txns_map@,
                        ars@,
                        old(acct_map)@,
                        raw_acct_map@,
                    )
            }
        }),
        r is Err <==> ar_proceeds_fail(txn_num, i as int, old(acct_map)@, ars@, raw_acct_map@, txns_map@),
{
    let ghost m0 = acct_map@;
    let txn = txns_map.get(&txn_num).unwrap();
    proof {
        lemma_ar_of_txn(txns_map@, ars@, acct_map@, raw_acct_map@, txn_num, i as int);
        lemma_same_shape_refl(m0);
        assert forall|a: u16, li: int, mi: int| mvmt_at(m0, a, li, mi) implies proceeds_change(
            mvmt_of(m0, a, li, mi),
            #[trigger] mvmt_of(m0, a, li, mi),
            txns_map@,
            ars@,
            m0,
            raw_acct_map@,
        ) by {}
    }
    let ar_num = txn.action_record_idx_vec[i];
    proof {
        assert forall|b: u16, lj: int, mj: int|
            mvmt_at(m0, b, lj, mj) && mvmt_of(m0, b, lj, mj).action_record_key != ar_num implies #[trigger] mvmt_of(
            m0,
            b,
            lj,
            mj,
        ) == mvmt_of(m0, b, lj, mj) by {}
    }
    let ar = ars.get(&ar_num).unwrap();
    let a = ar.account_key;
    let raw_acct = lookup_raw(ar_num, ars, raw_acct_map, acct_map);
    let positions = positions_of(ar, acct_map, txns_map)?;
    proof {
        assert(txn.action_record_idx_vec@[i as int] == ar_num);
        assert(ar_raw(ars@, m0, raw_acct_map@, ar_num) == *raw_acct);
    }
    if raw_acct.is_margin || positions.len() == 0 {
        return Ok(());
    }
    let tx_type = txn.transaction_type(ars, raw_acct_map, acct_map)?;
    let ghost reach = reached_by(*ar, m0, txns_map@);
    let polarity = ar.direction();
    proof {
        assert(txn.action_record_idx_vec@[i as int] == ar_num);
        assert(txn.action_record_idx_vec@.contains(ar_num));
    }
    let mut idx: usize = 0;
    while idx < positions.len()
        invariant
            idx <= positions@.len(),
            ready(txns_map@, ars@, acct_map@, raw_acct_map@),
            ready(txns_map@, ars@, m0, raw_acct_map@),
            same_shape(m0, acct_map@),
            m0 == old(acct_map)@,
            positions_of_ar(positions@, acct_map@, a, ar_num),
            proceeds_changes(m0, acct_map@, txns_map@, ars@, raw_acct_map@),
            margin_loss_kept(m0, acct_map@, txns_map@, ars@, raw_acct_map@),
            txns_map@.contains_key(txn_num),
            *txn == txns_map@[txn_num],
            ars@.contains_key(ar_num),
            *ar == ars@[ar_num],
            a == ar.account_key,
            ar.tx_key == txn_num,
            txn.action_record_idx_vec@.contains(ar_num),
            !ar_raw(ars@, m0, raw_acct_map@, ar_num).is_margin,
            spec_tx_type(*txn, ars@, m0, raw_acct_map@) == Ok::<TxType, CryptoolsError>(tx_type),
            polarity == spec_direction(ar.amount),
            only_ar_changed(m0, acct_map@, ar_num),
            pos_int(positions@) == reached_by(*ar, m0, txns_map@),
            forall|n: int|
                0 <= n < idx ==> proceeds_rule(
                    #[trigger] mvmt_of(acct_map@, a, positions@[n].0 as int, positions@[n].1 as int),
                    txns_map@,
                    ars@,
                    m0,
                    raw_acct_map@,
                ),
            reach == reached_by(*ar, m0, txns_map@),
            txn.action_record_idx_vec@[i as int] == ar_num,
            i < txn.action_record_idx_vec@.len(),
            forall|n: int|
                0 <= n < idx ==> !proceeds_share_fails(
                    mvmt_of(m0, a, (#[trigger] reach[n]).0, reach[n].1).amount,
                    *ar,
                    *txn,
                    tx_type,
                ),
        decreases positions@.len() - idx,
    {
        let (li, mi) = positions[idx];
        proof {
            assert(mvmt_at(acct_map@, a, li as int, mi as int));
        }
        let mvmt = acct_map.get(&a).unwrap().list_of_lots[li].movements[mi].clone();
        proof {
            assert(pos_int(positions@)[idx as int] == reach[idx as int]);
            lemma_same_shape_sym(m0, acct_map@);
            lemma_mvmt_at_same_shape(acct_map@, m0, a, li as int, mi as int);
            assert(mvmt.amount == mvmt_of(m0, a, reach[idx as int].0, reach[idx as int].1).amount);
        }
        let (proceeds, proceeds_lk) = match tx_type {
            TxType::Exchange | TxType::Flow => match polarity {
                Polarity::Outgoing => {
                    if tx_type == TxType::Flow && txn.action_record_idx_vec.len() == 2 {
                        (mvmt.proceeds, mvmt.proceeds_lk)
                    } else {
                        let ratio = match mvmt.amount.checked_div(&ar.amount) {
                            Some(x) => x,
                            None => {
                                proof {
                                    assert(proceeds_share_fails(
                                        mvmt_of(m0, a, reach[idx as int].0, reach[idx as int].1).amount,
                                        *ar,
                                        *txn,
                                        tx_type,
                                    ));
                                }
                                return Err(CryptoolsError::DecimalOverflow { tx_number: txn_num });
                            },
                        };
                        let proceeds_rounded = match share_of(&txn.proceeds, &ratio, txn_num) {
                            Ok(x) => x,
                            Err(e) => {
                                proof {
                                    assert(proceeds_share_fails(
                                        mvmt_of(m0, a, reach[idx as int].0, reach[idx as int].1).amount,
                                        *ar,
                                        *txn,
                                        tx_type,
                                    ));
                                }
                                return Err(e);
                            },
                        };
                        (proceeds_rounded, proceeds_rounded)
                    }
                },
                Polarity::Incoming => (mvmt.cost_basis.neg(), mvmt.cost_basis_lk.neg()),
            },
            TxType::ToSelf => (mvmt.cost_basis.neg(), mvmt.cost_basis_lk.neg()),
        };
        let ghost before = acct_map@;
        proof {
            assert(mvmt.action_record_key == ar_num);
            assert(mvmt == mvmt_of(before, a, li as int, mi as int));
        }
        set_mvmt_values(
            acct_map,
            a,
            li,
            mi,
            mvmt.cost_basis,
            mvmt.cost_basis_lk,
            proceeds,
            proceeds_lk,
        );
        proof {
            lemma_same_shape_trans(m0, before, acct_map@);
            lemma_ready_same_shape(txns_map@, ars@, before, acct_map@, raw_acct_map@);
            lemma_positions_same_shape(positions@, before, acct_map@, a, ar_num);
            assert forall|b: u16, lj: int, mj: int|
                mvmt_at(m0, b, lj, mj) && margin_loss_out(mvmt_of(m0, b, lj, mj), txns_map@, ars@, m0, raw_acct_map@)
                    implies #[trigger] mvmt_of(acct_map@, b, lj, mj) == mvmt_of(m0, b, lj, mj) by {
                lemma_mvmt_at_same_shape(m0, before, b, lj, mj);
                if b == a && lj == li && mj == mi {
                    assert(mvmt_of(before, b, lj, mj) == mvmt_of(m0, b, lj, mj));
                    assert(mvmt_of(m0, b, lj, mj).action_record_key == ar_num);
                    assert(mvmt_of(acct_map@, b, lj, mj) =~= mvmt);
                }
            }
            let n = mvmt_of(acct_map@, a, li as int, mi as int);
            assert(proceeds_rule(n, txns_map@, ars@, m0, raw_acct_map@));
            if n != mvmt {
                assert(mvmt_same_shape(mvmt, n));
            }
            assert forall|b: u16, lj: int, mj: int|
                mvmt_at(m0, b, lj, mj) && mvmt_of(m0, b, lj, mj).action_record_key != ar_num implies #[trigger] mvmt_of(
                acct_map@,
                b,
                lj,
                mj,
            ) == mvmt_of(m0, b, lj, mj) by {
                lemma_mvmt_at_same_shape(m0, before, b, lj, mj);
            }
            assert forall|q: int| 0 <= q < idx + 1 implies proceeds_rule(
                #[trigger] mvmt_of(acct_map@, a, positions@[q].0 as int, positions@[q].1 as int),
                txns_map@,
                ars@,
                m0,
                raw_acct_map@,
            ) by {
                if q < idx && positions@[q] != positions@[idx as int] {
                    assert(mvmt_at(before, a, positions@[q].0 as int, positions@[q].1 as int));
                }
            }
            assert forall|b: u16, lj: int, mj: int| mvmt_at(m0, b, lj, mj) implies proceeds_change(
                mvmt_of(m0, b, lj, mj),
                #[trigger] mvmt_of(acct_map@, b, lj, mj),
                txns_map@,
                ars@,
                m0,
                raw_acct_map@,
            ) by {
                lemma_mvmt_at_same_shape(m0, before, b, lj, mj);
                assert(proceeds_change(
                    mvmt_of(m0, b, lj, mj),
                    mvmt_of(before, b, lj, mj),
                    txns_map@,
                    ars@,
                    m0,
                    raw_acct_map@,
                ));
            }
        }
        idx = idx + 1;
    }
    proof {
        assert(ar_raw(ars@, m0, raw_acct_map@, ar_num) == *raw_acct);
    }
    Ok(())
}

/// Movement `m` is outgoing in a flow of two action records (a margin loss).
pub open spec fn margin_loss_out(
    m: Movement,
    txns: Map<u32, Transaction>,
    ars: Map<u32, ActionRecord>,
    accts: Map<u16, Account>,
    raws: Map<u16, RawAccount>,
) -> bool {
    let ar = ars[m.action_record_key];
    let t = txns[ar.tx_key];
    &&& ars.contains_key(m.action_record_key)
    &&& txns.contains_key(ar.tx_key)
    &&& spec_tx_type(t, ars, accts, raws) == Ok::<TxType, CryptoolsError>(TxType::Flow)
    &&& t.action_record_idx_vec@.len() == 2
    &&& spec_direction(ar.amount) == Polarity::Outgoing
}

/// Every movement of `old` that `margin_loss_out` describes is unchanged in `new`.
pub open spec fn margin_loss_kept(
    old: Map<u16, Account>,
    new: Map<u16, Account>,
    txns: Map<u32, Transaction>,
    ars: Map<u32, ActionRecord>,
    raws: Map<u16, RawAccount>,
) -> bool {
    forall|a: u16, li: int, mi: int|
        mvmt_at(old, a, li, mi) && margin_loss_out(mvmt_of(old, a, li, mi), txns, ars, old, raws)
            ==> #[trigger] mvmt_of(new, a, li, mi) == mvmt_of(old, a, li, mi)
}

/// Two steps that each keep those movements keep them.
proof fn lemma_margin_loss_kept_trans(
    m0: Map<u16, Account>,
    m1: Map<u16, Account>,
    m2: Map<u16, Account>,
    txns: Map<u32, Transaction>,
    ars: Map<u32, ActionRecord>,
    raws: Map<u16, RawAccount>,
)
    requires
        ready(txns, ars, m0, raws),
        same_shape(m0, m1),
        margin_loss_kept(m0, m1, txns, ars, raws),
        margin_loss_kept(m1, m2, txns, ars, raws),
    ensures
        margin_loss_kept(m0, m2, txns, ars, raws),
{
    assert forall|a: u16, li: int, mi: int|
        mvmt_at(m0, a, li, mi) && margin_loss_out(mvmt_of(m0, a, li, mi), txns, ars, m0, raws)
            implies #[trigger] mvmt_of(m2, a, li, mi) == mvmt_of(m0, a, li, mi) by {
        lemma_mvmt_at_same_shape(m0, m1, a, li, mi);
        let m = mvmt_of(m0, a, li, mi);
        assert(mvmt_of(m1, a, li, mi) == m);
        let tk = ars[m.action_record_key].tx_key;
        lemma_tx_type_same_shape(txns, ars, m0, m1, raws, tk);
    }
}

/// Only the movements of action record `k` changed from `old` to `new`.
pub open spec fn only_ar_changed(old: Map<u16, Account>, new: Map<u16, Account>, k: u32) -> bool {
    forall|b: u16, lj: int, mj: int|
        mvmt_at(old, b, lj, mj) && mvmt_of(old, b, lj, mj).action_record_key != k ==> #[trigger] mvmt_of(
            new,
            b,
            lj,
            mj,
        ) == mvmt_of(old, b, lj, mj)
}

/// The proceeds that processing gives a movement `m` (its basis already set) of an action
/// record of transaction `t` outside margin accounts: in an exchange or a flow, an
/// outgoing movement gets its share (by amount) of the transaction's value, rounded to 2
/// places, as both proceeds (in a flow of two action records, a margin loss, it keeps
/// its proceeds); every other movement gets proceeds that cancel its basis.
pub open spec fn proceeds_rule(
    m: Movement,
    txns: Map<u32, Transaction>,
    ars: Map<u32, ActionRecord>,
    accts: Map<u16, Account>,
    raws: Map<u16, RawAccount>,
) -> bool {
    let k = m.action_record_key;
    let ar = ars[k];
    let t = txns[ar.tx_key];
    let cancel = m.proceeds == negated(m.cost_basis) && m.proceeds_lk == negated(m.cost_basis_lk);
    &&& ars.contains_key(k)
    &&& txns.contains_key(ar.tx_key)
    &&& t.action_record_idx_vec@.contains(k)
    &&& !ar_raw(ars, accts, raws, k).is_margin
    &&& match spec_tx_type(t, ars, accts, raws) {
        Ok(TxType::ToSelf) => cancel,
        Ok(ty) => if spec_direction(ar.amount) == Polarity::Outgoing {
            if ty == TxType::Flow && t.action_record_idx_vec@.len() == 2 {
                true
            } else {
                match quotient(m.amount, ar.amount) {
                    Some(r) => spec_share_of(t.proceeds, r) == Some(m.proceeds) && m.proceeds_lk
                        == m.proceeds,
                    None => false,
                }
            }
        } else {
            cancel
        },
        Err(_) => false,
    }
}

/// Movement `o` became `n`: unchanged, or with the same basis and proceeds by the rule.
pub open spec fn proceeds_change(
    o: Movement,
    n: Movement,
    txns: Map<u32, Transaction>,
    ars: Map<u32, ActionRecord>,
    accts: Map<u16, Account>,
    raws: Map<u16, RawAccount>,
) -> bool {
    ||| n == o
    ||| {
        &&& mvmt_same_shape(o, n)
        &&& n.cost_basis == o.cost_basis
        &&& n.cost_basis_lk == o.cost_basis_lk
        &&& proceeds_rule(n, txns, ars, accts, raws)
    }
}

/// Every movement of `old` became its counterpart in `new` as `proceeds_change` allows.
pub open spec fn proceeds_changes(
    old: Map<u16, Account>,
    new: Map<u16, Account>,
    txns: Map<u32, Transaction>,
    ars: Map<u32, ActionRecord>,
    raws: Map<u16, RawAccount>,
) -> bool {
    forall|a: u16, li: int, mi: int|
        mvmt_at(old, a, li, mi) ==> proceeds_change(
            mvmt_of(old, a, li, mi),
            #[trigger] mvmt_of(new, a, li, mi),
            txns,
            ars,
            old,
            raws,
        )
}

/// A movement of one state is there in a state of the same shape, and has its shape.
proof fn lemma_mvmt_at_same_shape(x: Map<u16, Account>, y: Map<u16, Account>, a: u16, li: int, mi: int)
    requires
        same_shape(x, y),
        mvmt_at(x, a, li, mi),
    ensures
        mvmt_at(y, a, li, mi),
        mvmt_same_shape(mvmt_of(x, a, li, mi), mvmt_of(y, a, li, mi)),
{
    assert(x.contains_key(a));
    assert(lot_same_shape(x[a].list_of_lots@[li], y[a].list_of_lots@[li]));
    assert(mvmt_same_shape(x[a].list_of_lots@[li].movements@[mi], y[a].list_of_lots@[li].movements@[mi]));
}

/// The raw account of an action record that can be looked up is the same in a state of
/// the same shape.
proof fn lemma_ar_raw_same_shape(
    ars: Map<u32, ActionRecord>,
    x: Map<u16, Account>,
    y: Map<u16, Account>,
    raws: Map<u16, RawAccount>,
    k: u32,
)
    requires
        same_shape(x, y) || same_shape(y, x),
        ar_resolves(ars, y, raws, k),
    ensures
        ar_raw(ars, x, raws, k) == ar_raw(ars, y, raws, k),
{
}

/// What the rule reads of the accounts is kept when only basis and proceeds change.
proof fn lemma_proceeds_rule_same_shape(
    m: Movement,
    txns: Map<u32, Transaction>,
    ars: Map<u32, ActionRecord>,
    x: Map<u16, Account>,
    y: Map<u16, Account>,
    raws: Map<u16, RawAccount>,
)
    requires
        ready(txns, ars, x, raws),
        same_shape(x, y),
        proceeds_rule(m, txns, ars, y, raws),
    ensures
        proceeds_rule(m, txns, ars, x, raws),
{
    let k = m.action_record_key;
    let tk = ars[k].tx_key;
    let t = txns[tk];
    assert(txn_ok(t, tk, ars, x, raws));
    let i = choose|i: int| 0 <= i < t.action_record_idx_vec@.len() && t.action_record_idx_vec@[i] == k;
    assert(ar_resolves(ars, x, raws, t.action_record_idx_vec@[i]));
    assert(ar_raw(ars, x, raws, k) == ar_raw(ars, y, raws, k));
    if t.action_record_idx_vec@.len() == 2 {
        assert(ar_resolves(ars, x, raws, t.action_record_idx_vec@[0]));
        assert(ar_resolves(ars, x, raws, t.action_record_idx_vec@[1]));
    }
    assert(spec_tx_type(t, ars, x, raws) == spec_tx_type(t, ars, y, raws));
}

/// Proceeds changes add up.
proof fn lemma_proceeds_changes_trans(
    m0: Map<u16, Account>,
    m1: Map<u16, Account>,
    m2: Map<u16, Account>,
    txns: Map<u32, Transaction>,
    ars: Map<u32, ActionRecord>,
    raws: Map<u16, RawAccount>,
)
    requires
        ready(txns, ars, m0, raws),
        same_shape(m0, m1),
        same_shape(m1, m2),
        proceeds_changes(m0, m1, txns, ars, raws),
        proceeds_changes(m1, m2, txns, ars, raws),
    ensures
        proceeds_changes(m0, m2, txns, ars, raws),
{
    assert forall|a: u16, li: int, mi: int| mvmt_at(m0, a, li, mi) implies proceeds_change(
        mvmt_of(m0, a, li, mi),
        #[trigger] mvmt_of(m2, a, li, mi),
        txns,
        ars,
        m0,
        raws,
    ) by {
        assert(m0.contains_key(a));
        assert(lot_same_shape(m0[a].list_of_lots@[li], m1[a].list_of_lots@[li]));
        assert(mvmt_same_shape(m0[a].list_of_lots@[li].movements@[mi], m1[a].list_of_lots@[li].movements@[mi]));
        assert(mvmt_at(m1, a, li, mi));
        let o = mvmt_of(m0, a, li, mi);
        let p = mvmt_of(m1, a, li, mi);
        let n = mvmt_of(m2, a, li, mi);
        assert(proceeds_change(o, p, txns, ars, m0, raws));
        assert(proceeds_change(p, n, txns, ars, m1, raws));
        if n != p {
            lemma_proceeds_rule_same_shape(n, txns, ars, m0, m1, raws);
        }
    }
}

/// The basis rule (with home currency `home`) or the proceeds rule.
pub open spec fn value_rule(
    basis: bool,
    home: Seq<char>,
    m: Movement,
    txns: Map<u32, Transaction>,
    ars: Map<u32, ActionRecord>,
    accts: Map<u16, Account>,
    raws: Map<u16, RawAccount>,
) -> bool {
    if basis {
        basis_rule(m, home, txns, ars, accts, raws)
    } else {
        proceeds_rule(m, txns, ars, accts, raws)
    }
}

proof fn lemma_value_rule_same_shape(
    basis: bool,
    home: Seq<char>,
    m: Movement,
    txns: Map<u32, Transaction>,
    ars: Map<u32, ActionRecord>,
    x: Map<u16, Account>,
    y: Map<u16, Account>,
    raws: Map<u16, RawAccount>,
)
    requires
        ready(txns, ars, x, raws),
        same_shape(x, y),
        value_rule(basis, home, m, txns, ars, y, raws),
    ensures
        value_rule(basis, home, m, txns, ars, x, raws),
{
    if basis {
        lemma_basis_rule_same_shape(m, home, txns, ars, x, y, raws);
    } else {
        lemma_proceeds_rule_same_shape(m, txns, ars, x, y, raws);
    }
}

/// `same_shape` holds both ways.
proof fn lemma_same_shape_sym(x: Map<u16, Account>, y: Map<u16, Account>)
    requires
        same_shape(x, y),
    ensures
        same_shape(y, x),
{
    assert forall|a: u16| #[trigger] y.contains_key(a) implies {
        &&& x[a].raw_key == y[a].raw_key
        &&& x[a].list_of_lots@.len() == y[a].list_of_lots@.len()
        &&& forall|li: int|
            0 <= li < y[a].list_of_lots@.len() ==> lot_same_shape(
                #[trigger] y[a].list_of_lots@[li],
                x[a].list_of_lots@[li],
            )
    } by {
        assert(x.contains_key(a));
        assert forall|li: int| 0 <= li < y[a].list_of_lots@.len() implies lot_same_shape(
            #[trigger] y[a].list_of_lots@[li],
            x[a].list_of_lots@[li],
        ) by {
            assert(lot_same_shape(x[a].list_of_lots@[li], y[a].list_of_lots@[li]));
            assert forall|mi: int| 0 <= mi < y[a].list_of_lots@[li].movements@.len() implies mvmt_same_shape(
                #[trigger] y[a].list_of_lots@[li].movements@[mi],
                x[a].list_of_lots@[li].movements@[mi],
            ) by {
                assert(mvmt_same_shape(
                    x[a].list_of_lots@[li].movements@[mi],
                    y[a].list_of_lots@[li].movements@[mi],
                ));
            }
        }
    }
}

/// The scan of every action record (outside margin accounts) selected by `sel` stops in
/// `old`, and every movement that it reaches there has, in `new`, the values of its rule
/// (`value_rule`).
pub open spec fn values_cover(
    basis: bool,
    home: Seq<char>,
    old: Map<u16, Account>,
    new: Map<u16, Account>,
    txns: Map<u32, Transaction>,
    ars: Map<u32, ActionRecord>,
    raws: Map<u16, RawAccount>,
    sel: spec_fn(u32) -> bool,
) -> bool {
    &&& forall|k: u32|
        #![trigger ars[k]]
        sel(k) && !ar_raw(ars, old, raws, k).is_margin ==> exists|j: int|
            scan_stops_at(ar_candidates(ars[k], old, txns), ars[k].amount, j)
    &&& forall|k: u32, n: int|
        sel(k) && !ar_raw(ars, old, raws, k).is_margin && 0 <= n < reached_by(
            ars[k],
            old,
            txns,
        ).len() ==> value_rule(
            basis,
            home,
            #[trigger] mvmt_of(
                new,
                ars[k].account_key,
                reached_by(ars[k], old, txns)[n].0,
                reached_by(ars[k], old, txns)[n].1,
            ),
            txns,
            ars,
            old,
            raws,
        )
}

/// The action records of the transactions numbered 1 to `n`.
pub open spec fn ar_of_txns(
    k: u32,
    n: int,
    txns: Map<u32, Transaction>,
    ars: Map<u32, ActionRecord>,
) -> bool {
    &&& ars.contains_key(k)
    &&& 1 <= ars[k].tx_key <= n
    &&& txns.contains_key(ars[k].tx_key)
    &&& txns[ars[k].tx_key].action_record_idx_vec@.contains(k)
}

/// An action record among the first `i + 1` of transaction `num` is among the first `i`
/// or is the `i`-th.
proof fn lemma_processed_next(k: u32, num: u32, i: int, txns: Map<u32, Transaction>, ars: Map<u32, ActionRecord>)
    requires
        txns.contains_key(num),
        0 <= i < txns[num].action_record_idx_vec@.len(),
        processed_before(k, num, i + 1, txns, ars),
        k != txns[num].action_record_idx_vec@[i],
    ensures
        processed_before(k, num, i, txns, ars),
{
    let v = txns[num].action_record_idx_vec@;
    if ars[k].tx_key == num {
        let j = choose|j: int| 0 <= j < v.take(i + 1).len() && #[trigger] v.take(i + 1)[j] == k;
        assert(j < i);
        assert(v.take(i)[j] == k);
    }
}

/// The movement at a position that the scan of action record `k` reaches is keyed to `k`.
proof fn lemma_reached_key(
    k: u32,
    n: int,
    txns: Map<u32, Transaction>,
    ars: Map<u32, ActionRecord>,
    accts: Map<u16, Account>,
    raws: Map<u16, RawAccount>,
)
    requires
        ready(txns, ars, accts, raws),
        ars.contains_key(k),
        txns.contains_key(ars[k].tx_key),
        txns[ars[k].tx_key].action_record_idx_vec@.contains(k),
        0 <= n < reached_by(ars[k], accts, txns).len(),
    ensures
        mvmt_at(accts, ars[k].account_key, reached_by(ars[k], accts, txns)[n].0, reached_by(ars[k], accts, txns)[n].1),
        mvmt_of(accts, ars[k].account_key, reached_by(ars[k], accts, txns)[n].0, reached_by(ars[k], accts, txns)[n].1).action_record_key == k,
{
    let t = ars[k].tx_key;
    let v = txns[t].action_record_idx_vec@;
    assert(txn_ok(txns[t], t, ars, accts, raws));
    let j = choose|j: int| 0 <= j < v.len() && #[trigger] v[j] == k;
    assert(ar_resolves(ars, accts, raws, v[j]));
    let a = ars[k].account_key;
    let d = txns[t].date.day_num();
    lemma_match_pos_valid(accts[a].list_of_lots@, 0, k, d);
    let all = lots_match_pos(accts[a].list_of_lots@, 0, ars[k].self_ar_key, d);
    assert(ars[k].self_ar_key == k);
    assert(reached_by(ars[k], accts, txns)[n] == all[n]);
}

/// Processing one more action record extends the proceeds coverage to it.
proof fn lemma_values_cover_step(
    basis: bool,
    home: Seq<char>,
    m0: Map<u16, Account>,
    before: Map<u16, Account>,
    after: Map<u16, Account>,
    txns: Map<u32, Transaction>,
    ars: Map<u32, ActionRecord>,
    raws: Map<u16, RawAccount>,
    num: u32,
    i: int,
)
    requires
        ready(txns, ars, m0, raws),
        same_shape(m0, before),
        same_shape(before, after),
        txns.contains_key(num),
        0 <= i < txns[num].action_record_idx_vec@.len(),
        values_cover(basis, home, m0, before, txns, ars, raws, |k: u32| processed_before(k, num, i, txns, ars)),
        only_ar_changed(before, after, txns[num].action_record_idx_vec@[i]),
        ({
            let k = txns[num].action_record_idx_vec@[i];
            let reach = reached_by(ars[k], before, txns);
            !ar_raw(ars, before, raws, k).is_margin ==> {
                &&& exists|j: int| scan_stops_at(ar_candidates(ars[k], before, txns), ars[k].amount, j)
                &&& forall|n: int|
                    0 <= n < reach.len() ==> value_rule(
                        basis,
                        home,
                        #[trigger] mvmt_of(after, ars[k].account_key, reach[n].0, reach[n].1),
                        txns,
                        ars,
                        before,
                        raws,
                    )
            }
        }),
    ensures
        values_cover(basis, home, m0, after, txns, ars, raws, |k: u32| processed_before(k, num, i + 1, txns, ars)),
{
    let v = txns[num].action_record_idx_vec@;
    let kk = v[i];
    lemma_ar_of_txn(txns, ars, m0, raws, num, i);
    lemma_same_shape_sym(m0, before);
    lemma_ar_raw_same_shape(ars, before, m0, raws, kk);
    assert forall|k: u32|
        #![trigger ars[k]]
        processed_before(k, num, i + 1, txns, ars) && !ar_raw(ars, m0, raws, k).is_margin implies exists|
        j: int,
    | scan_stops_at(ar_candidates(ars[k], m0, txns), ars[k].amount, j) by {
        if k == kk {
            assert(!ar_raw(ars, before, raws, k).is_margin);
            let j = choose|j: int| scan_stops_at(ar_candidates(ars[k], before, txns), ars[k].amount, j);
            lemma_reached_same_shape(ars[k], before, m0, txns, j);
        } else {
            lemma_processed_next(k, num, i, txns, ars);
            assert(processed_before(k, num, i, txns, ars));
        }
    }
    assert forall|k: u32, n: int|
        processed_before(k, num, i + 1, txns, ars) && !ar_raw(ars, m0, raws, k).is_margin && 0 <= n
            < reached_by(ars[k], m0, txns).len() implies value_rule(
        basis,
        home,
        #[trigger] mvmt_of(
            after,
            ars[k].account_key,
            reached_by(ars[k], m0, txns)[n].0,
            reached_by(ars[k], m0, txns)[n].1,
        ),
        txns,
        ars,
        m0,
        raws,
    ) by {
        if k == kk {
            assert(!ar_raw(ars, before, raws, k).is_margin);
            let j = choose|j: int| scan_stops_at(ar_candidates(ars[k], before, txns), ars[k].amount, j);
            lemma_reached_same_shape(ars[k], before, m0, txns, j);
            let reach_b = reached_by(ars[k], before, txns);
            assert(reach_b == reached_by(ars[k], m0, txns));
            let p = reach_b[n];
            assert(value_rule(
                basis,
                home,
                mvmt_of(after, ars[k].account_key, reach_b[n].0, reach_b[n].1),
                txns,
                ars,
                before,
                raws,
            ));
            lemma_value_rule_same_shape(
                basis,
                home,
                mvmt_of(after, ars[k].account_key, p.0, p.1),
                txns,
                ars,
                m0,
                before,
                raws,
            );
        } else {
            lemma_processed_next(k, num, i, txns, ars);
            let p = reached_by(ars[k], m0, txns)[n];
            if ars[k].tx_key == num {
                let w = choose|w: int| 0 <= w < v.take(i).len() && #[trigger] v.take(i)[w] == k;
                assert(v[w] == k);
            }
            assert(txns[ars[k].tx_key].action_record_idx_vec@.contains(k)) by {
                if ars[k].tx_key == num {
                    let w = choose|w: int| 0 <= w < v.take(i).len() && #[trigger] v.take(i)[w] == k;
                    assert(v[w] == k);
                }
            }
            lemma_reached_key(k, n, txns, ars, m0, raws);
            lemma_mvmt_at_same_shape(m0, before, ars[k].account_key, p.0, p.1);
            assert(mvmt_of(after, ars[k].account_key, p.0, p.1) == mvmt_of(
                before,
                ars[k].account_key,
                p.0,
                p.1,
            ));
            assert(processed_before(k, num, i, txns, ars));
            assert(value_rule(
                basis,
                home,
                mvmt_of(before, ars[k].account_key, p.0, p.1),
                txns,
                ars,
                m0,
                raws,
            ));
        }
    }
}

/// Once every action record of transaction `num` is processed, the next transaction
/// begins.
proof fn lemma_cover_next_txn(
    basis: bool,
    home: Seq<char>,
    m0: Map<u16, Account>,
    cur: Map<u16, Account>,
    txns: Map<u32, Transaction>,
    ars: Map<u32, ActionRecord>,
    raws: Map<u16, RawAccount>,
    num: u32,
)
    requires
        txns.contains_key(num),
        num < u32::MAX,
        values_cover(
            basis,
            home,
            m0,
            cur,
            txns,
            ars,
            raws,
            |k: u32| processed_before(k, num, txns[num].action_record_idx_vec@.len() as int, txns, ars),
        ),
    ensures
        values_cover(basis, home, m0, cur, txns, ars, raws, |k: u32| processed_before(k, (num + 1) as u32, 0, txns, ars)),
{
    let v = txns[num].action_record_idx_vec@;
    assert(v.take(v.len() as int) =~= v);
    assert forall|k: u32| #[trigger] processed_before(k, (num + 1) as u32, 0, txns, ars) implies processed_before(
        k,
        num,
        v.len() as int,
        txns,
        ars,
    ) by {
        if ars[k].tx_key < (num + 1) as u32 && ars[k].tx_key == num {
            assert(v.take(v.len() as int) == v);
        }
        if ars[k].tx_key == (num + 1) as u32 {
            assert(txns[(num + 1) as u32].action_record_idx_vec@.take(0).len() == 0);
        }
    }
}

/// After the last transaction, every action record of the transactions is covered.
proof fn lemma_cover_all(
    basis: bool,
    home: Seq<char>,
    m0: Map<u16, Account>,
    cur: Map<u16, Account>,
    txns: Map<u32, Transaction>,
    ars: Map<u32, ActionRecord>,
    raws: Map<u16, RawAccount>,
    num: u32,
)
    requires
        num == txns.len() + 1,
        values_cover(basis, home, m0, cur, txns, ars, raws, |k: u32| processed_before(k, num, 0, txns, ars)),
    ensures
        values_cover(basis, home, m0, cur, txns, ars, raws, |k: u32| ar_of_txns(k, txns.len() as int, txns, ars)),
{
    assert forall|k: u32| #[trigger] ar_of_txns(k, txns.len() as int, txns, ars) implies processed_before(
        k,
        num,
        0,
        txns,
        ars,
    ) by {}
}

/// Coverage stated against the accounts before processing holds against the accounts
/// after it, which have the same shape.
pub proof fn lemma_values_cover_transport(
    basis: bool,
    home: Seq<char>,
    m0: Map<u16, Account>,
    m1: Map<u16, Account>,
    txns: Map<u32, Transaction>,
    ars: Map<u32, ActionRecord>,
    raws: Map<u16, RawAccount>,
    sel: spec_fn(u32) -> bool,
)
    requires
        ready(txns, ars, m0, raws),
        same_shape(m0, m1),
        forall|k: u32| #[trigger] sel(k) ==> ar_of_txns(k, txns.len() as int, txns, ars),
        values_cover(basis, home, m0, m1, txns, ars, raws, sel),
    ensures
        values_cover(basis, home, m1, m1, txns, ars, raws, sel),
{
    lemma_ready_same_shape(txns, ars, m0, m1, raws);
    lemma_same_shape_sym(m0, m1);
    assert forall|k: u32| #![trigger ars[k]] sel(k) && !ar_raw(ars, m1, raws, k).is_margin implies exists|j: int|
        scan_stops_at(ar_candidates(ars[k], m1, txns), ars[k].amount, j) by {
        lemma_ar_in_txn_resolves(k, txns, ars, m0, raws);
        lemma_ar_raw_same_shape(ars, m1, m0, raws, k);
        let j = choose|j: int| scan_stops_at(ar_candidates(ars[k], m0, txns), ars[k].amount, j);
        lemma_reached_same_shape(ars[k], m0, m1, txns, j);
    }
    assert forall|k: u32, n: int|
        sel(k) && !ar_raw(ars, m1, raws, k).is_margin && 0 <= n < reached_by(ars[k], m1, txns).len() implies value_rule(
        basis,
        home,
        #[trigger] mvmt_of(m1, ars[k].account_key, reached_by(ars[k], m1, txns)[n].0, reached_by(ars[k], m1, txns)[n].1),
        txns,
        ars,
        m1,
        raws,
    ) by {
        lemma_ar_in_txn_resolves(k, txns, ars, m0, raws);
        lemma_ar_raw_same_shape(ars, m1, m0, raws, k);
        let j = choose|j: int| scan_stops_at(ar_candidates(ars[k], m0, txns), ars[k].amount, j);
        lemma_reached_same_shape(ars[k], m0, m1, txns, j);
        let p = reached_by(ars[k], m0, txns)[n];
        assert(value_rule(basis, home, mvmt_of(m1, ars[k].account_key, p.0, p.1), txns, ars, m0, raws));
        lemma_value_rule_same_shape(basis, home, mvmt_of(m1, ars[k].account_key, p.0, p.1), txns, ars, m1, m0, raws);
    }
}

/// An action record of a transaction can be looked up.
proof fn lemma_ar_in_txn_resolves(
    k: u32,
    txns: Map<u32, Transaction>,
    ars: Map<u32, ActionRecord>,
    accts: Map<u16, Account>,
    raws: Map<u16, RawAccount>,
)
    requires
        ready(txns, ars, accts, raws),
        ar_of_txns(k, txns.len() as int, txns, ars),
    ensures
        ar_resolves(ars, accts, raws, k),
        ars[k].self_ar_key == k,
{
    let t = ars[k].tx_key;
    let v = txns[t].action_record_idx_vec@;
    assert(txn_ok(txns[t], t, ars, accts, raws));
    let i = choose|i: int| 0 <= i < v.len() && #[trigger] v[i] == k;
    assert(ar_resolves(ars, accts, raws, v[i]));
}

/// Setting proceeds keeps the basis of every movement, so basis coverage survives it.
pub proof fn lemma_basis_cover_through_proceeds(
    home: Seq<char>,
    m2: Map<u16, Account>,
    m3: Map<u16, Account>,
    txns: Map<u32, Transaction>,
    ars: Map<u32, ActionRecord>,
    raws: Map<u16, RawAccount>,
    sel: spec_fn(u32) -> bool,
)
    requires
        ready(txns, ars, m2, raws),
        same_shape(m2, m3),
        forall|k: u32| #[trigger] sel(k) ==> ar_of_txns(k, txns.len() as int, txns, ars),
        values_cover(true, home, m2, m2, txns, ars, raws, sel),
        proceeds_changes(m2, m3, txns, ars, raws),
    ensures
        values_cover(true, home, m2, m3, txns, ars, raws, sel),
{
    assert forall|k: u32, n: int|
        sel(k) && !ar_raw(ars, m2, raws, k).is_margin && 0 <= n < reached_by(ars[k], m2, txns).len() implies value_rule(
        true,
        home,
        #[trigger] mvmt_of(m3, ars[k].account_key, reached_by(ars[k], m2, txns)[n].0, reached_by(ars[k], m2, txns)[n].1),
        txns,
        ars,
        m2,
        raws,
    ) by {
        lemma_ar_in_txn_resolves(k, txns, ars, m2, raws);
        let p = reached_by(ars[k], m2, txns)[n];
        assert(value_rule(true, home, mvmt_of(m2, ars[k].account_key, p.0, p.1), txns, ars, m2, raws));
        lemma_reached_key(k, n, txns, ars, m2, raws);
        assert(proceeds_change(
            mvmt_of(m2, ars[k].account_key, p.0, p.1),
            mvmt_of(m3, ars[k].account_key, p.0, p.1),
            txns,
            ars,
            m2,
            raws,
        ));
    }
}

/// Action record `k` is the incoming side, outside margin and the home currency `home`,
/// of a transfer to oneself.
pub open spec fn toself_incoming(
    k: u32,
    home: Seq<char>,
    txns: Map<u32, Transaction>,
    ars: Map<u32, ActionRecord>,
    accts: Map<u16, Account>,
    raws: Map<u16, RawAccount>,
) -> bool {
    &&& spec_direction(ars[k].amount) == Polarity::Incoming
    &&& !ar_raw(ars, accts, raws, k).is_margin
    &&& ar_raw(ars, accts, raws, k).ticker@ != home
    &&& spec_tx_type(txns[ars[k].tx_key], ars, accts, raws) == Ok::<TxType, CryptoolsError>(
        TxType::ToSelf,
    )
}

/// The movements of the outgoing side (the first action record) of the transaction of
/// action record `k`, as its scan finds them in `accts`.
pub open spec fn toself_source(
    k: u32,
    txns: Map<u32, Transaction>,
    ars: Map<u32, ActionRecord>,
    accts: Map<u16, Account>,
) -> Seq<Movement> {
    ar_mvmts(ars[txns[ars[k].tx_key].action_record_idx_vec@[0]], accts, txns)
}

/// The `n`-th movement `m` of the incoming side of a transfer to oneself costs the basis
/// of the `n`-th movement of the outgoing side `src`, rounded to 2 places, sign flipped.
pub open spec fn toself_rule(m: Movement, n: int, src: Seq<Movement>) -> bool {
    &&& 0 <= n < src.len()
    &&& m.cost_basis == negated(rounded(src[n].cost_basis, 2))
}

/// Every movement that the scan of an action record selected by `sel` reaches in `old`,
/// when that record is the incoming side of a transfer to oneself outside margin and
/// the home currency, carries in `new` the basis of `toself_rule` from the outgoing
/// side's movements in `new`.
pub open spec fn toself_cover(
    home: Seq<char>,
    old: Map<u16, Account>,
    new: Map<u16, Account>,
    txns: Map<u32, Transaction>,
    ars: Map<u32, ActionRecord>,
    raws: Map<u16, RawAccount>,
    sel: spec_fn(u32) -> bool,
) -> bool {
    forall|k: u32, n: int|
        sel(k) && toself_incoming(k, home, txns, ars, old, raws) && 0 <= n < reached_by(
            ars[k],
            old,
            txns,
        ).len() ==> toself_rule(
            #[trigger] mvmt_of(
                new,
                ars[k].account_key,
                reached_by(ars[k], old, txns)[n].0,
                reached_by(ars[k], old, txns)[n].1,
            ),
            n,
            toself_source(k, txns, ars, new),
        )
}

/// The outgoing side of the transfer of action record `k` finds the same movements when
/// only the movements of another action record `kk` changed.
proof fn lemma_source_frozen(
    k: u32,
    txns: Map<u32, Transaction>,
    ars: Map<u32, ActionRecord>,
    x: Map<u16, Account>,
    y: Map<u16, Account>,
    raws: Map<u16, RawAccount>,
    kk: u32,
)
    requires
        ready(txns, ars, x, raws),
        same_shape(x, y),
        only_ar_changed(x, y, kk),
        txns.contains_key(ars[k].tx_key),
        txns[ars[k].tx_key].action_record_idx_vec@[0] != kk,
    ensures
        toself_source(k, txns, ars, x) == toself_source(k, txns, ars, y),
{
    let t = ars[k].tx_key;
    let o = txns[t].action_record_idx_vec@[0];
    lemma_ar_of_txn(txns, ars, x, raws, t, 0);
    let a = ars[o].account_key;
    assert(x.contains_key(a));
    let xl = x[a].list_of_lots@;
    let yl = y[a].list_of_lots@;
    assert(lots_same_shape(xl, yl)) by {
        assert forall|li: int| 0 <= li < xl.len() implies lot_same_shape(#[trigger] xl[li], yl[li]) by {}
    }
    assert forall|li: int, mi: int|
        0 <= li < xl.len() && 0 <= mi < xl[li].movements@.len() && (
        #[trigger] xl[li].movements@[mi]).action_record_key == o implies yl[li].movements@[mi]
        == xl[li].movements@[mi] by {
        assert(mvmt_at(x, a, li, mi));
        assert(mvmt_of(y, a, li, mi) == mvmt_of(x, a, li, mi));
    }
    lemma_lots_matches_frozen(xl, yl, o, txns[t].date.day_num());
}

/// The outgoing side of the transfer of an action record processed before position `i`
/// of transaction `num` is not the action record at that position.
proof fn lemma_source_not_current(
    k: u32,
    txns: Map<u32, Transaction>,
    ars: Map<u32, ActionRecord>,
    accts: Map<u16, Account>,
    raws: Map<u16, RawAccount>,
    num: u32,
    i: int,
)
    requires
        ready(txns, ars, accts, raws),
        processed_before(k, num, i, txns, ars),
        txns.contains_key(num),
        0 <= i < txns[num].action_record_idx_vec@.len(),
    ensures
        txns[ars[k].tx_key].action_record_idx_vec@[0] != txns[num].action_record_idx_vec@[i],
{
    let t = ars[k].tx_key;
    let v = txns[num].action_record_idx_vec@;
    lemma_ar_of_txn(txns, ars, accts, raws, num, i);
    lemma_ar_of_txn(txns, ars, accts, raws, t, 0);
    assert(txn_ok(txns[num], num, ars, accts, raws));
    if t == num {
        let x = choose|x: int| 0 <= x < v.take(i).len() && #[trigger] v.take(i)[x] == k;
        assert(v[x] == k);
        assert(i >= 1);
    }
}

/// Processing one more action record extends the coverage of transfers to oneself to it.
proof fn lemma_toself_cover_step(
    home: Seq<char>,
    m0: Map<u16, Account>,
    before: Map<u16, Account>,
    after: Map<u16, Account>,
    txns: Map<u32, Transaction>,
    ars: Map<u32, ActionRecord>,
    raws: Map<u16, RawAccount>,
    num: u32,
    i: int,
)
    requires
        ready(txns, ars, m0, raws),
        same_shape(m0, before),
        same_shape(before, after),
        txns.contains_key(num),
        0 <= i < txns[num].action_record_idx_vec@.len(),
        toself_cover(home, m0, before, txns, ars, raws, |k: u32| processed_before(k, num, i, txns, ars)),
        values_cover(true, home, m0, after, txns, ars, raws, |k: u32| processed_before(k, num, i + 1, txns, ars)),
        only_ar_changed(before, after, txns[num].action_record_idx_vec@[i]),
        ({
            let k = txns[num].action_record_idx_vec@[i];
            let reach = reached_by(ars[k], before, txns);
            toself_incoming(k, home, txns, ars, before, raws) ==> forall|n: int|
                0 <= n < reach.len() ==> toself_rule(
                    #[trigger] mvmt_of(after, ars[k].account_key, reach[n].0, reach[n].1),
                    n,
                    toself_source(k, txns, ars, after),
                )
        }),
    ensures
        toself_cover(home, m0, after, txns, ars, raws, |k: u32| processed_before(k, num, i + 1, txns, ars)),
{
    let v = txns[num].action_record_idx_vec@;
    let kk = v[i];
    lemma_ar_of_txn(txns, ars, m0, raws, num, i);
    lemma_same_shape_sym(m0, before);
    lemma_ar_raw_same_shape(ars, before, m0, raws, kk);
    lemma_ready_same_shape(txns, ars, m0, before, raws);
    assert forall|k: u32, n: int|
        processed_before(k, num, i + 1, txns, ars) && toself_incoming(k, home, txns, ars, m0, raws) && 0 <= n
            < reached_by(ars[k], m0, txns).len() implies toself_rule(
        #[trigger] mvmt_of(
            after,
            ars[k].account_key,
            reached_by(ars[k], m0, txns)[n].0,
            reached_by(ars[k], m0, txns)[n].1,
        ),
        n,
        toself_source(k, txns, ars, after),
    ) by {
        let a = ars[k].account_key;
        if k == kk {
            let j = choose|j: int| scan_stops_at(ar_candidates(ars[k], m0, txns), ars[k].amount, j);
            lemma_reached_same_shape(ars[k], m0, before, txns, j);
            lemma_tx_type_same_shape(txns, ars, m0, before, raws, num);
            assert(toself_incoming(k, home, txns, ars, before, raws));
        } else {
            lemma_processed_next(k, num, i, txns, ars);
            let p = reached_by(ars[k], m0, txns)[n];
            assert(txns[ars[k].tx_key].action_record_idx_vec@.contains(k)) by {
                if ars[k].tx_key == num {
                    let w = choose|w: int| 0 <= w < v.take(i).len() && #[trigger] v.take(i)[w] == k;
                    assert(v[w] == k);
                }
            }
            lemma_reached_key(k, n, txns, ars, m0, raws);
            lemma_mvmt_at_same_shape(m0, before, a, p.0, p.1);
            assert(mvmt_of(after, a, p.0, p.1) == mvmt_of(before, a, p.0, p.1));
            assert(processed_before(k, num, i, txns, ars));
            lemma_source_not_current(k, txns, ars, m0, raws, num, i);
            lemma_source_frozen(k, txns, ars, before, after, raws, kk);
        }
    }
}

/// Once every action record of transaction `num` is processed, the next transaction
/// begins.
proof fn lemma_toself_cover_next_txn(
    home: Seq<char>,
    m0: Map<u16, Account>,
    cur: Map<u16, Account>,
    txns: Map<u32, Transaction>,
    ars: Map<u32, ActionRecord>,
    raws: Map<u16, RawAccount>,
    num: u32,
)
    requires
        txns.contains_key(num),
        num < u32::MAX,
        toself_cover(
            home,
            m0,
            cur,
            txns,
            ars,
            raws,
            |k: u32| processed_before(k, num, txns[num].action_record_idx_vec@.len() as int, txns, ars),
        ),
    ensures
        toself_cover(home, m0, cur, txns, ars, raws, |k: u32| processed_before(k, (num + 1) as u32, 0, txns, ars)),
{
    let v = txns[num].action_record_idx_vec@;
    assert(v.take(v.len() as int) =~= v);
    assert forall|k: u32| #[trigger] processed_before(k, (num + 1) as u32, 0, txns, ars) implies processed_before(
        k,
        num,
        v.len() as int,
        txns,
        ars,
    ) by {
        if ars[k].tx_key < (num + 1) as u32 && ars[k].tx_key == num {
            assert(v.take(v.len() as int) == v);
        }
        if ars[k].tx_key == (num + 1) as u32 {
            assert(txns[(num + 1) as u32].action_record_idx_vec@.take(0).len() == 0);
        }
    }
}

/// After the last transaction, every action record of the transactions is covered.
proof fn lemma_toself_cover_all(
    home: Seq<char>,
    m0: Map<u16, Account>,
    cur: Map<u16, Account>,
    txns: Map<u32, Transaction>,
    ars: Map<u32, ActionRecord>,
    raws: Map<u16, RawAccount>,
    num: u32,
)
    requires
        num == txns.len() + 1,
        toself_cover(home, m0, cur, txns, ars, raws, |k: u32| processed_before(k, num, 0, txns, ars)),
    ensures
        toself_cover(home, m0, cur, txns, ars, raws, |k: u32| ar_of_txns(k, txns.len() as int, txns, ars)),
{
    assert forall|k: u32| #[trigger] ar_of_txns(k, txns.len() as int, txns, ars) implies processed_before(
        k,
        num,
        0,
        txns,
        ars,
    ) by {}
}

/// Coverage of transfers to oneself stated against the accounts before processing holds
/// against the accounts after it, whose scans stop where they did.
pub proof fn lemma_toself_cover_transport(
    home: Seq<char>,
    m0: Map<u16, Account>,
    m1: Map<u16, Account>,
    txns: Map<u32, Transaction>,
    ars: Map<u32, ActionRecord>,
    raws: Map<u16, RawAccount>,
    sel: spec_fn(u32) -> bool,
)
    requires
        ready(txns, ars, m0, raws),
        same_shape(m0, m1),
        forall|k: u32| #[trigger] sel(k) ==> ar_of_txns(k, txns.len() as int, txns, ars),
        values_cover(true, home, m0, m1, txns, ars, raws, sel),
        toself_cover(home, m0, m1, txns, ars, raws, sel),
    ensures
        toself_cover(home, m1, m1, txns, ars, raws, sel),
{
    lemma_same_shape_sym(m0, m1);
    assert forall|k: u32, n: int|
        sel(k) && toself_incoming(k, home, txns, ars, m1, raws) && 0 <= n < reached_by(ars[k], m1, txns).len() implies toself_rule(
        #[trigger] mvmt_of(m1, ars[k].account_key, reached_by(ars[k], m1, txns)[n].0, reached_by(ars[k], m1, txns)[n].1),
        n,
        toself_source(k, txns, ars, m1),
    ) by {
        lemma_ar_in_txn_resolves(k, txns, ars, m0, raws);
        lemma_ar_raw_same_shape(ars, m1, m0, raws, k);
        lemma_tx_type_same_shape(txns, ars, m0, m1, raws, ars[k].tx_key);
        assert(toself_incoming(k, home, txns, ars, m0, raws));
        let j = choose|j: int| scan_stops_at(ar_candidates(ars[k], m0, txns), ars[k].amount, j);
        lemma_reached_same_shape(ars[k], m0, m1, txns, j);
    }
}

/// Adding proceeds keeps every basis and amount, hence the coverage of transfers to
/// oneself.
pub proof fn lemma_toself_cover_through_proceeds(
    home: Seq<char>,
    m2: Map<u16, Account>,
    m3: Map<u16, Account>,
    txns: Map<u32, Transaction>,
    ars: Map<u32, ActionRecord>,
    raws: Map<u16, RawAccount>,
)
    requires
        ready(txns, ars, m2, raws),
        same_shape(m2, m3),
        proceeds_changes(m2, m3, txns, ars, raws),
        values_cover(
            true,
            home,
            m2,
            m2,
            txns,
            ars,
            raws,
            |k: u32| ar_of_txns(k, txns.len() as int, txns, ars),
        ),
        toself_cover(
            home,
            m2,
            m2,
            txns,
            ars,
            raws,
            |k: u32| ar_of_txns(k, txns.len() as int, txns, ars),
        ),
    ensures
        toself_cover(
            home,
            m2,
            m3,
            txns,
            ars,
            raws,
            |k: u32| ar_of_txns(k, txns.len() as int, txns, ars),
        ),
{
    assert forall|k: u32, n: int|
        ar_of_txns(k, txns.len() as int, txns, ars) && toself_incoming(k, home, txns, ars, m2, raws) && 0 <= n
            < reached_by(ars[k], m2, txns).len() implies toself_rule(
        #[trigger] mvmt_of(m3, ars[k].account_key, reached_by(ars[k], m2, txns)[n].0, reached_by(ars[k], m2, txns)[n].1),
        n,
        toself_source(k, txns, ars, m3),
    ) by {
        let a = ars[k].account_key;
        let p = reached_by(ars[k], m2, txns)[n];
        lemma_ar_in_txn_resolves(k, txns, ars, m2, raws);
        lemma_reached_key(k, n, txns, ars, m2, raws);
        assert(proceeds_change(mvmt_of(m2, a, p.0, p.1), mvmt_of(m3, a, p.0, p.1), txns, ars, m2, raws));
        lemma_mvmt_at_same_shape(m2, m3, a, p.0, p.1);
        let t = ars[k].tx_key;
        let v = txns[t].action_record_idx_vec@;
        let o = v[0];
        lemma_ar_of_txn(txns, ars, m2, raws, t, 0);
        assert(txn_ok(txns[t], t, ars, m2, raws));
        assert(v.len() == 2);
        assert(ar_resolves(ars, m2, raws, v[1]));
        assert(ar_of_txns(o, txns.len() as int, txns, ars));
        assert(!ar_raw(ars, m2, raws, o).is_margin);
        let ao = ars[o].account_key;
        let d = txns[t].date.day_num();
        let xl = m2[ao].list_of_lots@;
        let yl = m3[ao].list_of_lots@;
        assert(lots_same_shape(xl, yl)) by {
            assert forall|li: int| 0 <= li < xl.len() implies lot_same_shape(#[trigger] xl[li], yl[li]) by {}
        }
        assert forall|li: int, mi: int|
            0 <= li < xl.len() && 0 <= mi < xl[li].movements@.len() implies (
            #[trigger] xl[li].movements@[mi]).cost_basis == yl[li].movements@[mi].cost_basis by {
            assert(mvmt_at(m2, ao, li, mi));
            assert(proceeds_change(mvmt_of(m2, ao, li, mi), mvmt_of(m3, ao, li, mi), txns, ars, m2, raws));
        }
        lemma_lots_matches_same_basis(xl, yl, o, d);
        let cx = ar_candidates(ars[o], m2, txns);
        let cy = ar_candidates(ars[o], m3, txns);
        assert(mvmts_same_shape(cx, cy)) by {
            assert forall|q: int| 0 <= q < cx.len() implies mvmt_same_shape(#[trigger] cx[q], cy[q]) by {}
        }
        let j = choose|j: int| scan_stops_at(cx, ars[o].amount, j);
        lemma_scan_same_amounts(cx, cy, ars[o].amount, j);
        lemma_scan_stop_unique(cx, ars[o].amount, j);
        lemma_scan_stop_unique(cy, ars[o].amount, j);
        assert(toself_source(k, txns, ars, m3)[n].cost_basis == toself_source(k, txns, ars, m2)[n].cost_basis);
    }
}

/// The basis an outgoing movement `m` takes from the first movement `first` of its lot
/// (see `spec_outgoing_basis`).
pub open spec fn outgoing_basis_rule(m: Movement, first: Movement) -> bool {
    spec_outgoing_basis(first.cost_basis, m.amount, first.amount) == Some(m.cost_basis)
}

/// Action record `k` is outgoing, in an account outside margin and the home currency
/// `home`.
pub open spec fn plain_outgoing(
    k: u32,
    home: Seq<char>,
    ars: Map<u32, ActionRecord>,
    accts: Map<u16, Account>,
    raws: Map<u16, RawAccount>,
) -> bool {
    &&& spec_direction(ars[k].amount) == Polarity::Outgoing
    &&& !ar_raw(ars, accts, raws, k).is_margin
    &&& ar_raw(ars, accts, raws, k).ticker@ != home
}

/// Every movement that the scan of an outgoing action record selected by `sel`, outside
/// margin and the home currency, reaches in `old` carries, in `new`, the basis of
/// `outgoing_basis_rule` from the first movement of its lot in `new`.
pub open spec fn outgoing_cover(
    home: Seq<char>,
    old: Map<u16, Account>,
    new: Map<u16, Account>,
    txns: Map<u32, Transaction>,
    ars: Map<u32, ActionRecord>,
    raws: Map<u16, RawAccount>,
    sel: spec_fn(u32) -> bool,
) -> bool {
    forall|k: u32, n: int|
        sel(k) && plain_outgoing(k, home, ars, old, raws) && 0 <= n < reached_by(
            ars[k],
            old,
            txns,
        ).len() ==> outgoing_basis_rule(
            #[trigger] mvmt_of(
                new,
                ars[k].account_key,
                reached_by(ars[k], old, txns)[n].0,
                reached_by(ars[k], old, txns)[n].1,
            ),
            mvmt_of(new, ars[k].account_key, reached_by(ars[k], old, txns)[n].0, 0),
        )
}

/// With ordered lots, the first movement of a lot of an account outside margin and the
/// home currency is incoming, in any state of the same shape.
proof fn lemma_first_incoming(
    txns: Map<u32, Transaction>,
    ars: Map<u32, ActionRecord>,
    m0: Map<u16, Account>,
    cur: Map<u16, Account>,
    raws: Map<u16, RawAccount>,
    home: Seq<char>,
    a: u16,
    li: int,
)
    requires
        lots_ordered(txns, ars, m0, raws, home),
        same_shape(m0, cur),
        m0.contains_key(a),
        plain_acct(m0, raws, a, home),
        mvmt_at(cur, a, li, 0),
    ensures
        spec_direction(ars[mvmt_of(cur, a, li, 0).action_record_key].amount) == Polarity::Incoming,
        mvmt_of(cur, a, li, 0).action_record_key == mvmt_of(m0, a, li, 0).action_record_key,
        mvmt_at(m0, a, li, 0),
{
    lemma_same_shape_sym(m0, cur);
    lemma_mvmt_at_same_shape(cur, m0, a, li, 0);
    assert(m0[a].list_of_lots@[li].movements@[0] == mvmt_of(m0, a, li, 0));
}

/// With ordered lots, the first movement of the lot of a movement of an outgoing action
/// record processed before position `i` of transaction `num` (outside margin and the
/// home currency) is not keyed to the action record at that position.
proof fn lemma_first_before(
    txns: Map<u32, Transaction>,
    ars: Map<u32, ActionRecord>,
    m0: Map<u16, Account>,
    raws: Map<u16, RawAccount>,
    home: Seq<char>,
    a: u16,
    li: int,
    mi: int,
    num: u32,
    i: int,
)
    requires
        ready(txns, ars, m0, raws),
        lots_ordered(txns, ars, m0, raws, home),
        m0.contains_key(a),
        plain_acct(m0, raws, a, home),
        mvmt_at(m0, a, li, mi),
        spec_direction(ars[mvmt_of(m0, a, li, mi).action_record_key].amount) == Polarity::Outgoing,
        processed_before(mvmt_of(m0, a, li, mi).action_record_key, num, i, txns, ars),
        txns.contains_key(num),
        0 <= i < txns[num].action_record_idx_vec@.len(),
    ensures
        mvmt_of(m0, a, li, 0).action_record_key != txns[num].action_record_idx_vec@[i],
{
    let k = mvmt_of(m0, a, li, mi).action_record_key;
    let f = mvmt_of(m0, a, li, 0).action_record_key;
    let v = txns[num].action_record_idx_vec@;
    let kk = v[i];
    assert(m0[a].list_of_lots@[li].movements@[mi] == mvmt_of(m0, a, li, mi));
    assert(m0[a].list_of_lots@[li].movements@[0] == mvmt_of(m0, a, li, 0));
    assert(spec_direction(ars[f].amount) == Polarity::Incoming);
    assert(f != k);
    assert(precedes(f, k, txns, ars));
    if f == kk {
        lemma_ar_of_txn(txns, ars, m0, raws, num, i);
        assert(txn_ok(txns[num], num, ars, m0, raws));
        let t = ars[k].tx_key;
        let w_vec = txns[t].action_record_idx_vec@;
        let w = choose|w: int|
            0 <= w < w_vec.len() && w_vec[w] == k && #[trigger] processed_before(f, t, w, txns, ars);
        if t == num {
            let x = choose|x: int| 0 <= x < v.take(i).len() && #[trigger] v.take(i)[x] == k;
            assert(v[x] == k);
            assert(w == x);
            let y = choose|y: int| 0 <= y < v.take(w).len() && #[trigger] v.take(w)[y] == kk;
            assert(v[y] == kk);
            assert(false);
        } else {
            assert(false);
        }
    }
}

/// Processing one more action record extends the coverage of outgoing bases to it.
proof fn lemma_outgoing_cover_step(
    home: Seq<char>,
    m0: Map<u16, Account>,
    before: Map<u16, Account>,
    after: Map<u16, Account>,
    txns: Map<u32, Transaction>,
    ars: Map<u32, ActionRecord>,
    raws: Map<u16, RawAccount>,
    num: u32,
    i: int,
)
    requires
        ready(txns, ars, m0, raws),
        lots_ordered(txns, ars, m0, raws, home),
        same_shape(m0, before),
        same_shape(before, after),
        txns.contains_key(num),
        0 <= i < txns[num].action_record_idx_vec@.len(),
        outgoing_cover(home, m0, before, txns, ars, raws, |k: u32| processed_before(k, num, i, txns, ars)),
        values_cover(true, home, m0, after, txns, ars, raws, |k: u32| processed_before(k, num, i + 1, txns, ars)),
        only_ar_changed(before, after, txns[num].action_record_idx_vec@[i]),
        ({
            let k = txns[num].action_record_idx_vec@[i];
            let reach = reached_by(ars[k], before, txns);
            plain_outgoing(k, home, ars, before, raws) ==> forall|n: int|
                0 <= n < reach.len() ==> outgoing_basis_rule(
                    #[trigger] mvmt_of(after, ars[k].account_key, reach[n].0, reach[n].1),
                    mvmt_of(after, ars[k].account_key, reach[n].0, 0),
                )
        }),
    ensures
        outgoing_cover(home, m0, after, txns, ars, raws, |k: u32| processed_before(k, num, i + 1, txns, ars)),
{
    let v = txns[num].action_record_idx_vec@;
    let kk = v[i];
    lemma_ar_of_txn(txns, ars, m0, raws, num, i);
    lemma_same_shape_sym(m0, before);
    lemma_ar_raw_same_shape(ars, before, m0, raws, kk);
    assert forall|k: u32, n: int|
        processed_before(k, num, i + 1, txns, ars) && plain_outgoing(k, home, ars, m0, raws) && 0 <= n
            < reached_by(ars[k], m0, txns).len() implies outgoing_basis_rule(
        #[trigger] mvmt_of(
            after,
            ars[k].account_key,
            reached_by(ars[k], m0, txns)[n].0,
            reached_by(ars[k], m0, txns)[n].1,
        ),
        mvmt_of(after, ars[k].account_key, reached_by(ars[k], m0, txns)[n].0, 0),
    ) by {
        let a = ars[k].account_key;
        if k == kk {
            assert(ars[k] == ars[kk]);
            let j = choose|j: int| scan_stops_at(ar_candidates(ars[k], m0, txns), ars[k].amount, j);
            lemma_reached_same_shape(ars[k], m0, before, txns, j);
            assert(plain_outgoing(k, home, ars, before, raws));
        } else {
            lemma_processed_next(k, num, i, txns, ars);
            let p = reached_by(ars[k], m0, txns)[n];
            assert(txns[ars[k].tx_key].action_record_idx_vec@.contains(k)) by {
                if ars[k].tx_key == num {
                    let w = choose|w: int| 0 <= w < v.take(i).len() && #[trigger] v.take(i)[w] == k;
                    assert(v[w] == k);
                }
            }
            lemma_reached_key(k, n, txns, ars, m0, raws);
            lemma_mvmt_at_same_shape(m0, before, a, p.0, p.1);
            assert(mvmt_of(after, a, p.0, p.1) == mvmt_of(before, a, p.0, p.1));
            assert(processed_before(k, num, i, txns, ars));
            assert(outgoing_basis_rule(mvmt_of(before, a, p.0, p.1), mvmt_of(before, a, p.0, 0)));
            assert(plain_acct(m0, raws, a, home));
            lemma_first_before(txns, ars, m0, raws, home, a, p.0, p.1, num, i);
            lemma_mvmt_at_same_shape(m0, before, a, p.0, 0);
            assert(mvmt_of(after, a, p.0, 0) == mvmt_of(before, a, p.0, 0));
        }
    }
}

/// Once every action record of transaction `num` is processed, the next transaction
/// begins.
proof fn lemma_outgoing_cover_next_txn(
    home: Seq<char>,
    m0: Map<u16, Account>,
    cur: Map<u16, Account>,
    txns: Map<u32, Transaction>,
    ars: Map<u32, ActionRecord>,
    raws: Map<u16, RawAccount>,
    num: u32,
)
    requires
        txns.contains_key(num),
        num < u32::MAX,
        outgoing_cover(
            home,
            m0,
            cur,
            txns,
            ars,
            raws,
            |k: u32| processed_before(k, num, txns[num].action_record_idx_vec@.len() as int, txns, ars),
        ),
    ensures
        outgoing_cover(home, m0, cur, txns, ars, raws, |k: u32| processed_before(k, (num + 1) as u32, 0, txns, ars)),
{
    let v = txns[num].action_record_idx_vec@;
    assert(v.take(v.len() as int) =~= v);
    assert forall|k: u32| #[trigger] processed_before(k, (num + 1) as u32, 0, txns, ars) implies processed_before(
        k,
        num,
        v.len() as int,
        txns,
        ars,
    ) by {
        if ars[k].tx_key < (num + 1) as u32 && ars[k].tx_key == num {
            assert(v.take(v.len() as int) == v);
        }
        if ars[k].tx_key == (num + 1) as u32 {
            assert(txns[(num + 1) as u32].action_record_idx_vec@.take(0).len() == 0);
        }
    }
}

/// After the last transaction, every action record of the transactions is covered.
proof fn lemma_outgoing_cover_all(
    home: Seq<char>,
    m0: Map<u16, Account>,
    cur: Map<u16, Account>,
    txns: Map<u32, Transaction>,
    ars: Map<u32, ActionRecord>,
    raws: Map<u16, RawAccount>,
    num: u32,
)
    requires
        num == txns.len() + 1,
        outgoing_cover(home, m0, cur, txns, ars, raws, |k: u32| processed_before(k, num, 0, txns, ars)),
    ensures
        outgoing_cover(home, m0, cur, txns, ars, raws, |k: u32| ar_of_txns(k, txns.len() as int, txns, ars)),
{
    assert forall|k: u32| #[trigger] ar_of_txns(k, txns.len() as int, txns, ars) implies processed_before(
        k,
        num,
        0,
        txns,
        ars,
    ) by {}
}

/// Coverage of outgoing bases stated against the accounts before processing holds
/// against the accounts after it, whose scans stop where they did.
pub proof fn lemma_outgoing_cover_transport(
    home: Seq<char>,
    m0: Map<u16, Account>,
    m1: Map<u16, Account>,
    txns: Map<u32, Transaction>,
    ars: Map<u32, ActionRecord>,
    raws: Map<u16, RawAccount>,
    sel: spec_fn(u32) -> bool,
)
    requires
        ready(txns, ars, m0, raws),
        same_shape(m0, m1),
        forall|k: u32| #[trigger] sel(k) ==> ar_of_txns(k, txns.len() as int, txns, ars),
        values_cover(true, home, m0, m1, txns, ars, raws, sel),
        outgoing_cover(home, m0, m1, txns, ars, raws, sel),
    ensures
        outgoing_cover(home, m1, m1, txns, ars, raws, sel),
{
    lemma_same_shape_sym(m0, m1);
    assert forall|k: u32, n: int|
        sel(k) && plain_outgoing(k, home, ars, m1, raws) && 0 <= n < reached_by(ars[k], m1, txns).len() implies outgoing_basis_rule(
        #[trigger] mvmt_of(m1, ars[k].account_key, reached_by(ars[k], m1, txns)[n].0, reached_by(ars[k], m1, txns)[n].1),
        mvmt_of(m1, ars[k].account_key, reached_by(ars[k], m1, txns)[n].0, 0),
    ) by {
        lemma_ar_in_txn_resolves(k, txns, ars, m0, raws);
        lemma_ar_raw_same_shape(ars, m1, m0, raws, k);
        assert(ars[k] == ars[k]);
        let j = choose|j: int| scan_stops_at(ar_candidates(ars[k], m0, txns), ars[k].amount, j);
        lemma_reached_same_shape(ars[k], m0, m1, txns, j);
    }
}

/// Adding proceeds keeps every basis and amount, hence the coverage of outgoing bases.
pub proof fn lemma_outgoing_cover_through_proceeds(
    home: Seq<char>,
    m2: Map<u16, Account>,
    m3: Map<u16, Account>,
    txns: Map<u32, Transaction>,
    ars: Map<u32, ActionRecord>,
    raws: Map<u16, RawAccount>,
    sel: spec_fn(u32) -> bool,
)
    requires
        ready(txns, ars, m2, raws),
        same_shape(m2, m3),
        forall|k: u32| #[trigger] sel(k) ==> ar_of_txns(k, txns.len() as int, txns, ars),
        proceeds_changes(m2, m3, txns, ars, raws),
        outgoing_cover(home, m2, m2, txns, ars, raws, sel),
    ensures
        outgoing_cover(home, m2, m3, txns, ars, raws, sel),
{
    assert forall|k: u32, n: int|
        sel(k) && plain_outgoing(k, home, ars, m2, raws) && 0 <= n < reached_by(ars[k], m2, txns).len() implies outgoing_basis_rule(
        #[trigger] mvmt_of(m3, ars[k].account_key, reached_by(ars[k], m2, txns)[n].0, reached_by(ars[k], m2, txns)[n].1),
        mvmt_of(m3, ars[k].account_key, reached_by(ars[k], m2, txns)[n].0, 0),
    ) by {
        let a = ars[k].account_key;
        let p = reached_by(ars[k], m2, txns)[n];
        lemma_ar_in_txn_resolves(k, txns, ars, m2, raws);
        lemma_reached_key(k, n, txns, ars, m2, raws);
        assert(mvmt_at(m2, a, p.0, 0));
        assert(proceeds_change(mvmt_of(m2, a, p.0, p.1), mvmt_of(m3, a, p.0, p.1), txns, ars, m2, raws));
        assert(proceeds_change(mvmt_of(m2, a, p.0, 0), mvmt_of(m3, a, p.0, 0), txns, ars, m2, raws));
        lemma_mvmt_at_same_shape(m2, m3, a, p.0, p.1);
        lemma_mvmt_at_same_shape(m2, m3, a, p.0, 0);
    }
}

/// Whether adding proceeds to an action record fails depends only on the shape of the
/// accounts.
proof fn lemma_ar_proceeds_fail_same_shape(
    tn: u32,
    i: int,
    x: Map<u16, Account>,
    y: Map<u16, Account>,
    ars: Map<u32, ActionRecord>,
    raws: Map<u16, RawAccount>,
    txns: Map<u32, Transaction>,
)
    requires
        ready(txns, ars, x, raws),
        same_shape(x, y),
        txns.contains_key(tn),
        0 <= i < txns[tn].action_record_idx_vec@.len(),
    ensures
        ar_proceeds_fail(tn, i, x, ars, raws, txns) == ar_proceeds_fail(tn, i, y, ars, raws, txns),
{
    let t = txns[tn];
    let k = t.action_record_idx_vec@[i];
    let ar = ars[k];
    lemma_ar_of_txn(txns, ars, x, raws, tn, i);
    lemma_ready_same_shape(txns, ars, x, y, raws);
    lemma_ar_raw_same_shape(ars, y, x, raws, k);
    lemma_tx_type_same_shape(txns, ars, x, y, raws, tn);
    lemma_same_shape_sym(x, y);
    assert(t.action_record_idx_vec@.contains(k));
    if exists|j: int| scan_stops_at(ar_candidates(ar, x, txns), ar.amount, j) {
        let j = choose|j: int| scan_stops_at(ar_candidates(ar, x, txns), ar.amount, j);
        lemma_reached_same_shape(ar, x, y, txns, j);
        let reach = reached_by(ar, x, txns);
        assert forall|n: int| 0 <= n < reach.len() implies mvmt_of(x, ar.account_key, reach[n].0, reach[n].1).amount
            == mvmt_of(y, ar.account_key, reach[n].0, reach[n].1).amount by {
            lemma_reached_key(k, n, txns, ars, x, raws);
            lemma_mvmt_at_same_shape(x, y, ar.account_key, reach[n].0, reach[n].1);
        }
    } else if exists|j: int| scan_stops_at(ar_candidates(ar, y, txns), ar.amount, j) {
        let j = choose|j: int| scan_stops_at(ar_candidates(ar, y, txns), ar.amount, j);
        lemma_reached_same_shape(ar, y, x, txns, j);
    }
}

/// Adds proceeds to every movement, transaction by transaction in number order (see
/// `add_proceeds_to_ar`).  Only basis and proceeds change.
pub fn add_proceeds_to_movements(
    raw_acct_map: &HashMap<u16, RawAccount>,
    acct_map: &mut HashMap<u16, Account>,
    ars: &HashMap<u32, ActionRecord>,
    txns_map: &HashMap<u32, Transaction>,
) -> (r: Result<(), CryptoolsError>)
    requires
        ledger_wf(txns_map@, txns_map@.len() as int, ars@, old(acct_map)@, raw_acct_map@),
        txns_map@.len() < u32::MAX,
    ensures
        r is Ok ==> same_shape(old(acct_map)@, final(acct_map)@),
        r is Ok ==> proceeds_added(txns_map@, ars@, raw_acct_map@, old(acct_map)@, final(acct_map)@),
        r is Ok ==> proceeds_changes(old(acct_map)@, final(acct_map)@, txns_map@, ars@, raw_acct_map@),
        r is Ok ==> margin_loss_kept(old(acct_map)@, final(acct_map)@, txns_map@, ars@, raw_acct_map@),
        r is Ok ==> values_cover(
            false,
            Seq::<char>::empty(),
            old(acct_map)@,
            final(acct_map)@,
            txns_map@,
            ars@,
            raw_acct_map@,
            |k: u32| ar_of_txns(k, txns_map@.len() as int, txns_map@, ars@),
        ),
        r is Err <==> exists|t: u32, i: int|
            1 <= t <= txns_map@.len() && 0 <= i < txns_map@[t].action_record_idx_vec@.len()
                && #[trigger] ar_proceeds_fail(t, i, old(acct_map)@, ars@, raw_acct_map@, txns_map@),
{
    let ghost m0 = acct_map@;
    let length = txns_map.len();
    proof {
        lemma_same_shape_refl(m0);
        assert forall|a: u16, li: int, mi: int| mvmt_at(m0, a, li, mi) implies proceeds_change(
            mvmt_of(m0, a, li, mi),
            #[trigger] mvmt_of(m0, a, li, mi),
            txns_map@,
            ars@,
            m0,
            raw_acct_map@,
        ) by {}
    }
    let mut num: u32 = 1;
    while (num as usize) <= length
        invariant
            1 <= num <= length + 1,
            length == txns_map@.len(),
            length < u32::MAX,
            forall|t: u32| 1 <= t <= length ==> #[trigger] txns_map@.contains_key(t),
            ready(txns_map@, ars@, acct_map@, raw_acct_map@),
            ready(txns_map@, ars@, m0, raw_acct_map@),
            same_shape(m0, acct_map@),
            m0 == old(acct_map)@,
            proceeds_changes(m0, acct_map@, txns_map@, ars@, raw_acct_map@),
            margin_loss_kept(m0, acct_map@, txns_map@, ars@, raw_acct_map@),
            values_cover(
                false,
                Seq::<char>::empty(),
                m0,
                acct_map@,
                txns_map@,
                ars@,
                raw_acct_map@,
                |k: u32| processed_before(k, num, 0, txns_map@, ars@),
            ),
            forall|t: u32, i: int|
                1 <= t < num && 0 <= i < txns_map@[t].action_record_idx_vec@.len() ==> !#[trigger] ar_proceeds_fail(
                    t,
                    i,
                    m0,
                    ars@,
                    raw_acct_map@,
                    txns_map@,
                ),
        decreases length + 1 - num,
    {
        let txn = txns_map.get(&num).unwrap();
        let mut i: usize = 0;
        while i < txn.action_record_idx_vec.len()
            invariant
                i <= txn.action_record_idx_vec@.len(),
                txns_map@.contains_key(num),
                *txn == txns_map@[num],
                ready(txns_map@, ars@, acct_map@, raw_acct_map@),
                ready(txns_map@, ars@, m0, raw_acct_map@),
                same_shape(m0, acct_map@),
                proceeds_changes(m0, acct_map@, txns_map@, ars@, raw_acct_map@),
                margin_loss_kept(m0, acct_map@, txns_map@, ars@, raw_acct_map@),
                values_cover(
                    false,
                    Seq::<char>::empty(),
                    m0,
                    acct_map@,
                    txns_map@,
                    ars@,
                    raw_acct_map@,
                    |k: u32| processed_before(k, num, i as int, txns_map@, ars@),
                ),
                m0 == old(acct_map)@,
                1 <= num <= length,
                length == txns_map@.len(),
                forall|t: u32, i: int|
                    1 <= t < num && 0 <= i < txns_map@[t].action_record_idx_vec@.len() ==> !#[trigger] ar_proceeds_fail(
                        t,
                        i,
                        m0,
                        ars@,
                        raw_acct_map@,
                        txns_map@,
                    ),
                forall|ii: int| 0 <= ii < i ==> !#[trigger] ar_proceeds_fail(
                    num,
                    ii,
                    m0,
                    ars@,
                    raw_acct_map@,
                    txns_map@,
                ),
            decreases txn.action_record_idx_vec@.len() - i,
        {
            let ghost before = acct_map@;
            proof {
                lemma_ar_proceeds_fail_same_shape(num, i as int, m0, before, ars@, raw_acct_map@, txns_map@);
            }
            match add_proceeds_to_ar(num, i, raw_acct_map, acct_map, ars, txns_map) {
                Ok(()) => {},
                Err(e) => {
                    proof {
                        assert(ar_proceeds_fail(num, i as int, m0, ars@, raw_acct_map@, txns_map@));
                    }
                    return Err(e);
                },
            }
            proof {
                lemma_margin_loss_kept_trans(m0, before, acct_map@, txns_map@, ars@, raw_acct_map@);
                lemma_proceeds_changes_trans(m0, before, acct_map@, txns_map@, ars@, raw_acct_map@);
                lemma_values_cover_step(
                    false,
                    Seq::<char>::empty(),
                    m0,
                    before,
                    acct_map@,
                    txns_map@,
                    ars@,
                    raw_acct_map@,
                    num,
                    i as int,
                );
                lemma_same_shape_trans(m0, before, acct_map@);
                lemma_ready_same_shape(txns_map@, ars@, before, acct_map@, raw_acct_map@);
            }
            i = i + 1;
        }
        proof {
            lemma_cover_next_txn(false, Seq::<char>::empty(), m0, acct_map@, txns_map@, ars@, raw_acct_map@, num);
        }
        num = num + 1;
    }
    proof {
        lemma_cover_all(false, Seq::<char>::empty(), m0, acct_map@, txns_map@, ars@, raw_acct_map@, num);
    }
    Ok(())
}


/// What like-kind treatment may make of movement `o` (now `n`): only its like-kind basis
/// and proceeds change, except that an incoming movement of a flow of two action records
/// (a margin profit or loss) gets zero basis and proceeds; and in a transfer to oneself
/// outside the home currency `home`, the like-kind proceeds cancel the like-kind basis.
pub open spec fn lk_rule(
    o: Movement,
    n: Movement,
    home: Seq<char>,
    txns: Map<u32, Transaction>,
    ars: Map<u32, ActionRecord>,
    accts: Map<u16, Account>,
    raws: Map<u16, RawAccount>,
) -> bool {
    let k = n.action_record_key;
    let ar = ars[k];
    let t = txns[ar.tx_key];
    let ty = spec_tx_type(t, ars, accts, raws);
    &&& ars.contains_key(k)
    &&& txns.contains_key(ar.tx_key)
    &&& t.action_record_idx_vec@.contains(k)
    &&& mvmt_same_shape(o, n)
    &&& ((n.cost_basis == o.cost_basis && n.proceeds == o.proceeds) || (ty == Ok::<
        TxType,
        CryptoolsError,
    >(TxType::Flow) && t.action_record_idx_vec@.len() == 2 && spec_direction(ar.amount)
        == Polarity::Incoming && n.cost_basis == Dec::zero_spec() && n.proceeds
        == Dec::zero_spec()))
    &&& (ty == Ok::<TxType, CryptoolsError>(TxType::ToSelf) && ar_raw(ars, accts, raws, k).ticker@
        != home ==> n.proceeds_lk == negated(n.cost_basis_lk))
}

pub open spec fn lk_change(
    o: Movement,
    n: Movement,
    home: Seq<char>,
    txns: Map<u32, Transaction>,
    ars: Map<u32, ActionRecord>,
    accts: Map<u16, Account>,
    raws: Map<u16, RawAccount>,
) -> bool {
    n == o || lk_rule(o, n, home, txns, ars, accts, raws)
}

/// Every movement of `old` became its counterpart in `new` as `lk_change` allows.
pub open spec fn lk_changes(
    old: Map<u16, Account>,
    new: Map<u16, Account>,
    home: Seq<char>,
    txns: Map<u32, Transaction>,
    ars: Map<u32, ActionRecord>,
    raws: Map<u16, RawAccount>,
) -> bool {
    forall|a: u16, li: int, mi: int|
        mvmt_at(old, a, li, mi) ==> lk_change(
            mvmt_of(old, a, li, mi),
            #[trigger] mvmt_of(new, a, li, mi),
            home,
            txns,
            ars,
            old,
            raws,
        )
}

/// `new` is what like-kind treatment may make of a state `old` of the same shape in which
/// every movement that the scan of an action record of transactions 1 to `txns.len()`
/// reaches carries the basis of `basis_rule` (and of `outgoing_cover` and `toself_cover`)
/// and the proceeds
/// of `proceeds_rule`.
pub open spec fn lk_after_rules(
    old: Map<u16, Account>,
    new: Map<u16, Account>,
    home: Seq<char>,
    txns: Map<u32, Transaction>,
    ars: Map<u32, ActionRecord>,
    raws: Map<u16, RawAccount>,
) -> bool {
    &&& same_shape(old, new)
    &&& values_cover(
        true,
        home,
        old,
        old,
        txns,
        ars,
        raws,
        |k: u32| ar_of_txns(k, txns.len() as int, txns, ars),
    )
    &&& values_cover(
        false,
        Seq::<char>::empty(),
        old,
        old,
        txns,
        ars,
        raws,
        |k: u32| ar_of_txns(k, txns.len() as int, txns, ars),
    )
    &&& outgoing_cover(
        home,
        old,
        old,
        txns,
        ars,
        raws,
        |k: u32| ar_of_txns(k, txns.len() as int, txns, ars),
    )
    &&& toself_cover(
        home,
        old,
        old,
        txns,
        ars,
        raws,
        |k: u32| ar_of_txns(k, txns.len() as int, txns, ars),
    )
    &&& lk_changes(old, new, home, txns, ars, raws)
}

/// The accounts `accts` are what like-kind treatment may make of some state in which
/// the basis and proceeds rules hold (see `lk_after_rules`).
pub open spec fn lk_treated_after_rules(
    accts: Map<u16, Account>,
    home: Seq<char>,
    txns: Map<u32, Transaction>,
    ars: Map<u32, ActionRecord>,
    raws: Map<u16, RawAccount>,
) -> bool {
    exists|m: Map<u16, Account>| #[trigger] lk_after_rules(m, accts, home, txns, ars, raws)
}

proof fn lemma_lk_rule_same_shape(
    o: Movement,
    n: Movement,
    home: Seq<char>,
    txns: Map<u32, Transaction>,
    ars: Map<u32, ActionRecord>,
    x: Map<u16, Account>,
    y: Map<u16, Account>,
    raws: Map<u16, RawAccount>,
)
    requires
        ready(txns, ars, x, raws),
        same_shape(x, y),
        lk_rule(o, n, home, txns, ars, y, raws),
    ensures
        lk_rule(o, n, home, txns, ars, x, raws),
{
    let k = n.action_record_key;
    let tk = ars[k].tx_key;
    let t = txns[tk];
    assert(txn_ok(t, tk, ars, x, raws));
    let i = choose|i: int| 0 <= i < t.action_record_idx_vec@.len() && t.action_record_idx_vec@[i] == k;
    assert(ar_resolves(ars, x, raws, t.action_record_idx_vec@[i]));
    assert(ar_raw(ars, x, raws, k) == ar_raw(ars, y, raws, k));
    if t.action_record_idx_vec@.len() == 2 {
        assert(ar_resolves(ars, x, raws, t.action_record_idx_vec@[0]));
        assert(ar_resolves(ars, x, raws, t.action_record_idx_vec@[1]));
    }
    assert(spec_tx_type(t, ars, x, raws) == spec_tx_type(t, ars, y, raws));
}

proof fn lemma_lk_changes_trans(
    m0: Map<u16, Account>,
    m1: Map<u16, Account>,
    m2: Map<u16, Account>,
    home: Seq<char>,
    txns: Map<u32, Transaction>,
    ars: Map<u32, ActionRecord>,
    raws: Map<u16, RawAccount>,
)
    requires
        ready(txns, ars, m0, raws),
        same_shape(m0, m1),
        same_shape(m1, m2),
        lk_changes(m0, m1, home, txns, ars, raws),
        lk_changes(m1, m2, home, txns, ars, raws),
    ensures
        lk_changes(m0, m2, home, txns, ars, raws),
{
    assert forall|a: u16, li: int, mi: int| mvmt_at(m0, a, li, mi) implies lk_change(
        mvmt_of(m0, a, li, mi),
        #[trigger] mvmt_of(m2, a, li, mi),
        home,
        txns,
        ars,
        m0,
        raws,
    ) by {
        lemma_mvmt_at_same_shape(m0, m1, a, li, mi);
        let o = mvmt_of(m0, a, li, mi);
        let p = mvmt_of(m1, a, li, mi);
        let n = mvmt_of(m2, a, li, mi);
        assert(lk_change(o, p, home, txns, ars, m0, raws));
        assert(lk_change(p, n, home, txns, ars, m1, raws));
        if n != p {
            lemma_lk_rule_same_shape(p, n, home, txns, ars, m0, m1, raws);
            if p != o {
                assert(lk_rule(o, p, home, txns, ars, m0, raws));
            }
        }
    }
}

/// The type of transaction `tk` is the same in a state of the same shape.
proof fn lemma_tx_type_same_shape(
    txns: Map<u32, Transaction>,
    ars: Map<u32, ActionRecord>,
    x: Map<u16, Account>,
    y: Map<u16, Account>,
    raws: Map<u16, RawAccount>,
    tk: u32,
)
    requires
        ready(txns, ars, x, raws),
        same_shape(x, y),
        txns.contains_key(tk),
    ensures
        spec_tx_type(txns[tk], ars, x, raws) == spec_tx_type(txns[tk], ars, y, raws),
{
    let t = txns[tk];
    assert(txn_ok(t, tk, ars, x, raws));
    if t.action_record_idx_vec@.len() == 2 {
        assert(ar_resolves(ars, x, raws, t.action_record_idx_vec@[0]));
        assert(ar_resolves(ars, x, raws, t.action_record_idx_vec@[1]));
        lemma_ar_raw_same_shape(ars, y, x, raws, t.action_record_idx_vec@[0]);
        lemma_ar_raw_same_shape(ars, y, x, raws, t.action_record_idx_vec@[1]);
    }
}

/// Changing one movement (the one at (`li`, `mi`) of account `a`) as `lk_rule` allows,
/// after earlier like-kind changes, is again a like-kind change of the whole map.
proof fn lemma_lk_step(
    m0: Map<u16, Account>,
    before: Map<u16, Account>,
    after: Map<u16, Account>,
    a: u16,
    li: int,
    mi: int,
    home: Seq<char>,
    txns: Map<u32, Transaction>,
    ars: Map<u32, ActionRecord>,
    raws: Map<u16, RawAccount>,
)
    requires
        same_shape(m0, before),
        lk_changes(m0, before, home, txns, ars, raws),
        mvmt_at(before, a, li, mi),
        lk_rule(
            mvmt_of(before, a, li, mi),
            mvmt_of(after, a, li, mi),
            home,
            txns,
            ars,
            m0,
            raws,
        ),
        forall|b: u16, lj: int, mj: int|
            mvmt_at(before, b, lj, mj) && !(b == a && lj == li && mj == mi) ==> #[trigger] mvmt_of(
                after,
                b,
                lj,
                mj,
            ) == mvmt_of(before, b, lj, mj),
    ensures
        lk_changes(m0, after, home, txns, ars, raws),
{
    assert forall|b: u16, lj: int, mj: int| mvmt_at(m0, b, lj, mj) implies lk_change(
        mvmt_of(m0, b, lj, mj),
        #[trigger] mvmt_of(after, b, lj, mj),
        home,
        txns,
        ars,
        m0,
        raws,
    ) by {
        lemma_mvmt_at_same_shape(m0, before, b, lj, mj);
        let o = mvmt_of(m0, b, lj, mj);
        let p = mvmt_of(before, b, lj, mj);
        assert(lk_change(o, p, home, txns, ars, m0, raws));
        if b == a && lj == li && mj == mi {
            if p != o {
                assert(lk_rule(o, p, home, txns, ars, m0, raws));
            }
        } else {
            assert(mvmt_of(after, b, lj, mj) == p);
        }
    }
}

/// No movement has changed yet.
proof fn lemma_lk_changes_refl(
    m0: Map<u16, Account>,
    home: Seq<char>,
    txns: Map<u32, Transaction>,
    ars: Map<u32, ActionRecord>,
    raws: Map<u16, RawAccount>,
)
    ensures
        lk_changes(m0, m0, home, txns, ars, raws),
{
    assert forall|b: u16, lj: int, mj: int| mvmt_at(m0, b, lj, mj) implies lk_change(
        mvmt_of(m0, b, lj, mj),
        #[trigger] mvmt_of(m0, b, lj, mj),
        home,
        txns,
        ars,
        m0,
        raws,
    ) by {}
}

/// The like-kind basis an outgoing movement `m` takes from the first movement `first` of
/// its lot (see `spec_outgoing_basis`).
pub open spec fn lk_outgoing_rule(m: Movement, first: Movement) -> bool {
    spec_outgoing_basis(first.cost_basis_lk, m.amount, first.amount) == Some(m.cost_basis_lk)
}

/// The scan of every outgoing action record selected by `sel`, outside margin and the
/// home currency, stops in `old`, and every movement that it reaches there carries, in
/// `new`, the like-kind basis of `lk_outgoing_rule` from the first movement of its lot
/// in `new`.
pub open spec fn lk_outgoing_cover(
    home: Seq<char>,
    old: Map<u16, Account>,
    new: Map<u16, Account>,
    txns: Map<u32, Transaction>,
    ars: Map<u32, ActionRecord>,
    raws: Map<u16, RawAccount>,
    sel: spec_fn(u32) -> bool,
) -> bool {
    &&& forall|k: u32|
        #![trigger ars[k]]
        sel(k) && plain_outgoing(k, home, ars, old, raws) ==> exists|j: int|
            scan_stops_at(ar_candidates(ars[k], old, txns), ars[k].amount, j)
    &&& forall|k: u32, n: int|
        sel(k) && plain_outgoing(k, home, ars, old, raws) && 0 <= n < reached_by(
            ars[k],
            old,
            txns,
        ).len() ==> lk_outgoing_rule(
            #[trigger] mvmt_of(
                new,
                ars[k].account_key,
                reached_by(ars[k], old, txns)[n].0,
                reached_by(ars[k], old, txns)[n].1,
            ),
            mvmt_of(new, ars[k].account_key, reached_by(ars[k], old, txns)[n].0, 0),
        )
}

/// From `old` to `new`, the like-kind basis of a movement changes only when the movement
/// belongs to the incoming action record of transaction `num`, an exchange.
pub open spec fn lk_basis_kept_except(
    old: Map<u16, Account>,
    new: Map<u16, Account>,
    txns: Map<u32, Transaction>,
    ars: Map<u32, ActionRecord>,
    raws: Map<u16, RawAccount>,
    num: u32,
) -> bool {
    forall|b: u16, lj: int, mj: int|
        mvmt_at(old, b, lj, mj) ==> {
            let k = mvmt_of(old, b, lj, mj).action_record_key;
            ||| (#[trigger] mvmt_of(new, b, lj, mj)).cost_basis_lk == mvmt_of(
                old,
                b,
                lj,
                mj,
            ).cost_basis_lk
            ||| {
                &&& ars[k].tx_key == num
                &&& spec_tx_type(txns[num], ars, old, raws) == Ok::<TxType, CryptoolsError>(
                    TxType::Exchange,
                )
                &&& spec_direction(ars[k].amount) == Polarity::Incoming
            }
        }
}

/// Writing the like-kind basis of one more position of an outgoing action record `k`
/// (outside margin and the home currency), taken from the first movement of its lot,
/// keeps the like-kind rule at every position written so far.
proof fn lemma_lk_outgoing_write(
    txns: Map<u32, Transaction>,
    ars: Map<u32, ActionRecord>,
    m0: Map<u16, Account>,
    before: Map<u16, Account>,
    after: Map<u16, Account>,
    raws: Map<u16, RawAccount>,
    home: Seq<char>,
    a: u16,
    k: u32,
    ps: Seq<(usize, usize)>,
    idx: int,
)
    requires
        lots_ordered(txns, ars, m0, raws, home),
        same_shape(m0, before),
        same_shape(before, after),
        m0.contains_key(a),
        plain_acct(m0, raws, a, home),
        spec_direction(ars[k].amount) == Polarity::Outgoing,
        positions_of_ar(ps, before, a, k),
        0 <= idx < ps.len(),
        ({
            let li = ps[idx].0 as int;
            let mi = ps[idx].1 as int;
            &&& spec_outgoing_basis(
                mvmt_of(before, a, li, 0).cost_basis_lk,
                mvmt_of(before, a, li, mi).amount,
                mvmt_of(before, a, li, 0).amount,
            ) == Some(mvmt_of(after, a, li, mi).cost_basis_lk)
            &&& mvmt_of(after, a, li, mi).amount == mvmt_of(before, a, li, mi).amount
            &&& forall|b: u16, lj: int, mj: int|
                mvmt_at(before, b, lj, mj) && !(b == a && lj == li && mj == mi) ==> #[trigger] mvmt_of(
                    after,
                    b,
                    lj,
                    mj,
                ) == mvmt_of(before, b, lj, mj)
        }),
        forall|q: int|
            0 <= q < idx ==> lk_outgoing_rule(
                #[trigger] mvmt_of(before, a, ps[q].0 as int, ps[q].1 as int),
                mvmt_of(before, a, ps[q].0 as int, 0),
            ),
    ensures
        forall|q: int|
            0 <= q < idx + 1 ==> lk_outgoing_rule(
                #[trigger] mvmt_of(after, a, ps[q].0 as int, ps[q].1 as int),
                mvmt_of(after, a, ps[q].0 as int, 0),
            ),
{
    let li = ps[idx].0 as int;
    let mi = ps[idx].1 as int;
    assert(mvmt_at(before, a, li, mi));
    assert(mvmt_at(before, a, li, 0));
    lemma_first_incoming(txns, ars, m0, before, raws, home, a, li);
    assert(mi != 0);
    assert(mvmt_of(after, a, li, 0) == mvmt_of(before, a, li, 0));
    assert forall|q: int| 0 <= q < idx + 1 implies lk_outgoing_rule(
        #[trigger] mvmt_of(after, a, ps[q].0 as int, ps[q].1 as int),
        mvmt_of(after, a, ps[q].0 as int, 0),
    ) by {
        let lq = ps[q].0 as int;
        let mq = ps[q].1 as int;
        if !(lq == li && mq == mi) {
            assert(mvmt_at(before, a, lq, mq));
            assert(mvmt_at(before, a, lq, 0));
            lemma_first_incoming(txns, ars, m0, before, raws, home, a, lq);
            assert(mvmt_of(after, a, lq, mq) == mvmt_of(before, a, lq, mq));
            assert(mvmt_of(after, a, lq, 0) == mvmt_of(before, a, lq, 0));
        }
    }
}

/// Carrying over like-kind basis into one more action record extends the coverage of
/// outgoing like-kind bases to it.
proof fn lemma_lk_cover_ar_step(
    home: Seq<char>,
    m0: Map<u16, Account>,
    before: Map<u16, Account>,
    after: Map<u16, Account>,
    txns: Map<u32, Transaction>,
    ars: Map<u32, ActionRecord>,
    raws: Map<u16, RawAccount>,
    num: u32,
    i: int,
)
    requires
        ready(txns, ars, m0, raws),
        lots_ordered(txns, ars, m0, raws, home),
        same_shape(m0, before),
        same_shape(before, after),
        txns.contains_key(num),
        0 <= i < txns[num].action_record_idx_vec@.len(),
        lk_outgoing_cover(home, m0, before, txns, ars, raws, |k: u32| processed_before(k, num, i, txns, ars)),
        only_ar_changed(before, after, txns[num].action_record_idx_vec@[i]),
        ({
            let k = txns[num].action_record_idx_vec@[i];
            let reach = reached_by(ars[k], before, txns);
            plain_outgoing(k, home, ars, before, raws) ==> {
                &&& exists|j: int| scan_stops_at(ar_candidates(ars[k], before, txns), ars[k].amount, j)
                &&& forall|n: int|
                    0 <= n < reach.len() ==> lk_outgoing_rule(
                        #[trigger] mvmt_of(after, ars[k].account_key, reach[n].0, reach[n].1),
                        mvmt_of(after, ars[k].account_key, reach[n].0, 0),
                    )
            }
        }),
    ensures
        lk_outgoing_cover(home, m0, after, txns, ars, raws, |k: u32| processed_before(k, num, i + 1, txns, ars)),
{
    let v = txns[num].action_record_idx_vec@;
    let kk = v[i];
    lemma_ar_of_txn(txns, ars, m0, raws, num, i);
    lemma_same_shape_sym(m0, before);
    lemma_ar_raw_same_shape(ars, before, m0, raws, kk);
    assert forall|k: u32|
        #![trigger ars[k]]
        processed_before(k, num, i + 1, txns, ars) && plain_outgoing(k, home, ars, m0, raws) implies exists|
        j: int,
    | scan_stops_at(ar_candidates(ars[k], m0, txns), ars[k].amount, j) by {
        if k == kk {
            assert(plain_outgoing(k, home, ars, before, raws));
            let j = choose|j: int| scan_stops_at(ar_candidates(ars[k], before, txns), ars[k].amount, j);
            lemma_reached_same_shape(ars[k], before, m0, txns, j);
        } else {
            lemma_processed_next(k, num, i, txns, ars);
            assert(processed_before(k, num, i, txns, ars));
        }
    }
    assert forall|k: u32, n: int|
        processed_before(k, num, i + 1, txns, ars) && plain_outgoing(k, home, ars, m0, raws) && 0 <= n
            < reached_by(ars[k], m0, txns).len() implies lk_outgoing_rule(
        #[trigger] mvmt_of(
            after,
            ars[k].account_key,
            reached_by(ars[k], m0, txns)[n].0,
            reached_by(ars[k], m0, txns)[n].1,
        ),
        mvmt_of(after, ars[k].account_key, reached_by(ars[k], m0, txns)[n].0, 0),
    ) by {
        let a = ars[k].account_key;
        if k == kk {
            assert(ars[k] == ars[kk]);
            assert(plain_outgoing(k, home, ars, before, raws));
            let j = choose|j: int| scan_stops_at(ar_candidates(ars[k], before, txns), ars[k].amount, j);
            lemma_reached_same_shape(ars[k], before, m0, txns, j);
        } else {
            lemma_processed_next(k, num, i, txns, ars);
            let p = reached_by(ars[k], m0, txns)[n];
            assert(txns[ars[k].tx_key].action_record_idx_vec@.contains(k)) by {
                if ars[k].tx_key == num {
                    let w = choose|w: int| 0 <= w < v.take(i).len() && #[trigger] v.take(i)[w] == k;
                    assert(v[w] == k);
                }
            }
            assert(processed_before(k, num, i, txns, ars));
            assert(exists|j: int| scan_stops_at(ar_candidates(ars[k], m0, txns), ars[k].amount, j));
            lemma_reached_key(k, n, txns, ars, m0, raws);
            lemma_mvmt_at_same_shape(m0, before, a, p.0, p.1);
            assert(mvmt_of(after, a, p.0, p.1) == mvmt_of(before, a, p.0, p.1));
            assert(lk_outgoing_rule(mvmt_of(before, a, p.0, p.1), mvmt_of(before, a, p.0, 0)));
            assert(plain_acct(m0, raws, a, home));
            lemma_first_before(txns, ars, m0, raws, home, a, p.0, p.1, num, i);
            lemma_mvmt_at_same_shape(m0, before, a, p.0, 0);
            assert(mvmt_of(after, a, p.0, 0) == mvmt_of(before, a, p.0, 0));
        }
    }
}

/// Once every action record of transaction `num` is carried over, the next transaction
/// begins.
proof fn lemma_lk_cover_next_txn(
    home: Seq<char>,
    m0: Map<u16, Account>,
    cur: Map<u16, Account>,
    txns: Map<u32, Transaction>,
    ars: Map<u32, ActionRecord>,
    raws: Map<u16, RawAccount>,
    num: u32,
)
    requires
        txns.contains_key(num),
        num < u32::MAX,
        lk_outgoing_cover(
            home,
            m0,
            cur,
            txns,
            ars,
            raws,
            |k: u32| processed_before(k, num, txns[num].action_record_idx_vec@.len() as int, txns, ars),
        ),
    ensures
        lk_outgoing_cover(home, m0, cur, txns, ars, raws, |k: u32| processed_before(k, (num + 1) as u32, 0, txns, ars)),
{
    let v = txns[num].action_record_idx_vec@;
    assert(v.take(v.len() as int) =~= v);
    assert forall|k: u32| #[trigger] processed_before(k, (num + 1) as u32, 0, txns, ars) implies processed_before(
        k,
        num,
        v.len() as int,
        txns,
        ars,
    ) by {
        if ars[k].tx_key < (num + 1) as u32 && ars[k].tx_key == num {
            assert(v.take(v.len() as int) == v);
        }
        if ars[k].tx_key == (num + 1) as u32 {
            assert(txns[(num + 1) as u32].action_record_idx_vec@.take(0).len() == 0);
        }
    }
}

/// The coverage of outgoing like-kind bases can be stated against any state of the same
/// shape.
proof fn lemma_lk_cover_rebase(
    home: Seq<char>,
    x: Map<u16, Account>,
    y: Map<u16, Account>,
    z: Map<u16, Account>,
    txns: Map<u32, Transaction>,
    ars: Map<u32, ActionRecord>,
    raws: Map<u16, RawAccount>,
    sel: spec_fn(u32) -> bool,
)
    requires
        ready(txns, ars, x, raws),
        same_shape(x, y),
        forall|k: u32| #[trigger] sel(k) ==> ars.contains_key(k) && txns.contains_key(ars[k].tx_key)
            && txns[ars[k].tx_key].action_record_idx_vec@.contains(k),
        lk_outgoing_cover(home, x, z, txns, ars, raws, sel),
    ensures
        lk_outgoing_cover(home, y, z, txns, ars, raws, sel),
{
    lemma_same_shape_sym(x, y);
    assert forall|k: u32| #![trigger ars[k]] sel(k) && plain_outgoing(k, home, ars, y, raws) implies exists|j: int|
        scan_stops_at(ar_candidates(ars[k], y, txns), ars[k].amount, j) by {
        let t = ars[k].tx_key;
        assert(txn_ok(txns[t], t, ars, x, raws));
        let w = choose|w: int| 0 <= w < txns[t].action_record_idx_vec@.len() && #[trigger] txns[t].action_record_idx_vec@[w] == k;
        assert(ar_resolves(ars, x, raws, txns[t].action_record_idx_vec@[w]));
        lemma_ar_raw_same_shape(ars, y, x, raws, k);
        let j = choose|j: int| scan_stops_at(ar_candidates(ars[k], x, txns), ars[k].amount, j);
        lemma_reached_same_shape(ars[k], x, y, txns, j);
    }
    assert forall|k: u32, n: int|
        sel(k) && plain_outgoing(k, home, ars, y, raws) && 0 <= n < reached_by(ars[k], y, txns).len() implies lk_outgoing_rule(
        #[trigger] mvmt_of(z, ars[k].account_key, reached_by(ars[k], y, txns)[n].0, reached_by(ars[k], y, txns)[n].1),
        mvmt_of(z, ars[k].account_key, reached_by(ars[k], y, txns)[n].0, 0),
    ) by {
        let t = ars[k].tx_key;
        assert(txn_ok(txns[t], t, ars, x, raws));
        let w = choose|w: int| 0 <= w < txns[t].action_record_idx_vec@.len() && #[trigger] txns[t].action_record_idx_vec@[w] == k;
        assert(ar_resolves(ars, x, raws, txns[t].action_record_idx_vec@[w]));
        lemma_ar_raw_same_shape(ars, y, x, raws, k);
        assert(ars[k] == ars[k]);
        let j = choose|j: int| scan_stops_at(ar_candidates(ars[k], x, txns), ars[k].amount, j);
        lemma_reached_same_shape(ars[k], x, y, txns, j);
    }
}

/// Writing one movement's values, changing its like-kind basis only as
/// `lk_basis_kept_except` allows, keeps that allowance from `m0` on.
proof fn lemma_lk_kept_step(
    m0: Map<u16, Account>,
    before: Map<u16, Account>,
    after: Map<u16, Account>,
    txns: Map<u32, Transaction>,
    ars: Map<u32, ActionRecord>,
    raws: Map<u16, RawAccount>,
    num: u32,
    a: u16,
    li: int,
    mi: int,
)
    requires
        same_shape(m0, before),
        lk_basis_kept_except(m0, before, txns, ars, raws, num),
        mvmt_at(before, a, li, mi),
        ({
            let k = mvmt_of(before, a, li, mi).action_record_key;
            ||| mvmt_of(after, a, li, mi).cost_basis_lk == mvmt_of(before, a, li, mi).cost_basis_lk
            ||| {
                &&& ars[k].tx_key == num
                &&& spec_tx_type(txns[num], ars, m0, raws) == Ok::<TxType, CryptoolsError>(
                    TxType::Exchange,
                )
                &&& spec_direction(ars[k].amount) == Polarity::Incoming
            }
        }),
        forall|b: u16, lj: int, mj: int|
            mvmt_at(before, b, lj, mj) && !(b == a && lj == li && mj == mi) ==> #[trigger] mvmt_of(
                after,
                b,
                lj,
                mj,
            ) == mvmt_of(before, b, lj, mj),
    ensures
        lk_basis_kept_except(m0, after, txns, ars, raws, num),
{
    assert forall|b: u16, lj: int, mj: int| mvmt_at(m0, b, lj, mj) implies {
        let k = mvmt_of(m0, b, lj, mj).action_record_key;
        ||| (#[trigger] mvmt_of(after, b, lj, mj)).cost_basis_lk == mvmt_of(m0, b, lj, mj).cost_basis_lk
        ||| {
            &&& ars[k].tx_key == num
            &&& spec_tx_type(txns[num], ars, m0, raws) == Ok::<TxType, CryptoolsError>(
                TxType::Exchange,
            )
            &&& spec_direction(ars[k].amount) == Polarity::Incoming
        }
    } by {
        lemma_mvmt_at_same_shape(m0, before, b, lj, mj);
        assert(mvmt_of(before, b, lj, mj) == mvmt_of(before, b, lj, mj));
    }
}

/// Like-kind treatment of transaction `num` keeps the coverage of outgoing like-kind
/// bases: it changes like-kind basis only on the incoming side of an exchange, which is
/// neither an outgoing record nor the first movement of a lot that one of them draws on.
proof fn lemma_lk_cover_perform(
    home: Seq<char>,
    r: Map<u16, Account>,
    x: Map<u16, Account>,
    y: Map<u16, Account>,
    txns: Map<u32, Transaction>,
    ars: Map<u32, ActionRecord>,
    raws: Map<u16, RawAccount>,
    num: u32,
)
    requires
        ready(txns, ars, r, raws),
        lots_ordered(txns, ars, r, raws, home),
        mvmts_owned(txns, ars, r),
        same_shape(r, x),
        same_shape(x, y),
        txns.contains_key(num),
        lk_outgoing_cover(home, r, x, txns, ars, raws, |k: u32| processed_before(k, (num + 1) as u32, 0, txns, ars)),
        lk_basis_kept_except(x, y, txns, ars, raws, num),
    ensures
        lk_outgoing_cover(home, r, y, txns, ars, raws, |k: u32| processed_before(k, (num + 1) as u32, 0, txns, ars)),
{
    let v = txns[num].action_record_idx_vec@;
    assert forall|k: u32, n: int|
        processed_before(k, (num + 1) as u32, 0, txns, ars) && plain_outgoing(k, home, ars, r, raws) && 0 <= n
            < reached_by(ars[k], r, txns).len() implies lk_outgoing_rule(
        #[trigger] mvmt_of(
            y,
            ars[k].account_key,
            reached_by(ars[k], r, txns)[n].0,
            reached_by(ars[k], r, txns)[n].1,
        ),
        mvmt_of(y, ars[k].account_key, reached_by(ars[k], r, txns)[n].0, 0),
    ) by {
        let a = ars[k].account_key;
        let p = reached_by(ars[k], r, txns)[n];
        lemma_reached_key(k, n, txns, ars, r, raws);
        lemma_mvmt_at_same_shape(r, x, a, p.0, p.1);
        lemma_mvmt_at_same_shape(r, x, a, p.0, 0);
        lemma_mvmt_at_same_shape(x, y, a, p.0, p.1);
        lemma_mvmt_at_same_shape(x, y, a, p.0, 0);
        assert(lk_outgoing_rule(mvmt_of(x, a, p.0, p.1), mvmt_of(x, a, p.0, 0)));
        assert(mvmt_of(y, a, p.0, p.1).cost_basis_lk == mvmt_of(x, a, p.0, p.1).cost_basis_lk);
        let f = mvmt_of(x, a, p.0, 0).action_record_key;
        if mvmt_of(y, a, p.0, 0).cost_basis_lk != mvmt_of(x, a, p.0, 0).cost_basis_lk {
            assert(ars[f].tx_key == num);
            assert(spec_tx_type(txns[num], ars, x, raws) == Ok::<TxType, CryptoolsError>(TxType::Exchange));
            assert(r[a].list_of_lots@[p.0].movements@[p.1] == mvmt_of(r, a, p.0, p.1));
            assert(r[a].list_of_lots@[p.0].movements@[0] == mvmt_of(r, a, p.0, 0));
            assert(plain_acct(r, raws, a, home));
            assert(f == mvmt_of(r, a, p.0, 0).action_record_key);
            assert(spec_direction(ars[f].amount) == Polarity::Incoming);
            assert(f != k);
            assert(precedes(f, k, txns, ars));
            let tk = ars[k].tx_key;
            let vk = txns[tk].action_record_idx_vec@;
            let w = choose|w: int|
                0 <= w < vk.len() && vk[w] == k && #[trigger] processed_before(f, tk, w, txns, ars);
            assert(tk == num);
            let xf = choose|xf: int| 0 <= xf < vk.take(w).len() && #[trigger] vk.take(w)[xf] == f;
            assert(vk[xf] == f);
            assert(ars[f].account_key == a);
            assert(txn_ok(txns[num], num, ars, r, raws));
            assert(ar_resolves(ars, r, raws, v[0]));
            assert(ar_resolves(ars, r, raws, v[1]));
            lemma_ar_raw_same_shape(ars, x, r, raws, v[0]);
            lemma_ar_raw_same_shape(ars, x, r, raws, v[1]);
            assert(ar_raw(ars, r, raws, f) == ar_raw(ars, r, raws, k));
            assert(false);
        }
    }
}

/// Writing one more movement of action record `k` keeps every other movement as it was.
proof fn lemma_only_ar_step(
    start: Map<u16, Account>,
    before: Map<u16, Account>,
    after: Map<u16, Account>,
    k: u32,
    a: u16,
    li: int,
    mi: int,
)
    requires
        only_ar_changed(start, before, k),
        same_shape(start, before),
        mvmt_at(before, a, li, mi),
        mvmt_of(before, a, li, mi).action_record_key == k,
        forall|b: u16, lj: int, mj: int|
            mvmt_at(before, b, lj, mj) && !(b == a && lj == li && mj == mi) ==> #[trigger] mvmt_of(
                after,
                b,
                lj,
                mj,
            ) == mvmt_of(before, b, lj, mj),
    ensures
        only_ar_changed(start, after, k),
{
    assert forall|b: u16, lj: int, mj: int|
        mvmt_at(start, b, lj, mj) && mvmt_of(start, b, lj, mj).action_record_key != k implies #[trigger] mvmt_of(
        after,
        b,
        lj,
        mj,
    ) == mvmt_of(start, b, lj, mj) by {
        lemma_mvmt_at_same_shape(start, before, b, lj, mj);
        assert(mvmt_of(before, b, lj, mj) == mvmt_of(start, b, lj, mj));
    }
}

/// After the last transaction, every outgoing action record of the transactions is
/// covered.
proof fn lemma_lk_cover_all(
    home: Seq<char>,
    m0: Map<u16, Account>,
    cur: Map<u16, Account>,
    txns: Map<u32, Transaction>,
    ars: Map<u32, ActionRecord>,
    raws: Map<u16, RawAccount>,
    num: u32,
)
    requires
        num == txns.len() + 1,
        lk_outgoing_cover(home, m0, cur, txns, ars, raws, |k: u32| processed_before(k, num, 0, txns, ars)),
    ensures
        lk_outgoing_cover(home, m0, cur, txns, ars, raws, |k: u32| ar_of_txns(k, txns.len() as int, txns, ars)),
{
    assert forall|k: u32| #[trigger] ar_of_txns(k, txns.len() as int, txns, ars) implies processed_before(
        k,
        num,
        0,
        txns,
        ars,
    ) by {}
}

/// Before the first transaction, nothing is to be covered.
proof fn lemma_lk_cover_none(
    home: Seq<char>,
    m0: Map<u16, Account>,
    txns: Map<u32, Transaction>,
    ars: Map<u32, ActionRecord>,
    raws: Map<u16, RawAccount>,
)
    ensures
        lk_outgoing_cover(home, m0, m0, txns, ars, raws, |k: u32| processed_before(k, 1, 0, txns, ars)),
{
    assert forall|k: u32| !#[trigger] processed_before(k, 1, 0, txns, ars) by {
        if ars.contains_key(k) && txns.contains_key(ars[k].tx_key) && ars[k].tx_key == 1 {
            assert(txns[1].action_record_idx_vec@.take(0).len() == 0);
        }
    }
}

/// The like-kind bases at positions `ps` of account `a`, added in order from zero
/// (`None` when the total does not fit).
pub open spec fn lk_basis_sum(accts: Map<u16, Account>, a: u16, ps: Seq<(int, int)>) -> Option<Dec> {
    dec_sum_from(
        Dec::zero_spec(),
        ps.map_values(|p: (int, int)| mvmt_of(accts, a, p.0, p.1).cost_basis_lk),
    )
}

/// An incoming movement `m` of an exchange under like-kind treatment takes its share of
/// the outgoing side's like-kind basis `s` (rounded to 2 places) as like-kind proceeds,
/// and that share, sign flipped, as like-kind basis.
pub open spec fn lk_incoming_rule(m: Movement, s: Option<Dec>) -> bool {
    &&& s is Some
    &&& spec_share_of(s->Some_0, m.ratio_of_amt_to_incoming_mvmts_in_a_r) is Some
    &&& m.proceeds_lk == spec_share_of(s->Some_0, m.ratio_of_amt_to_incoming_mvmts_in_a_r)->Some_0
    &&& m.cost_basis_lk == negated(m.proceeds_lk)
}

/// The like-kind basis of the outgoing side before action record `k` in transaction `t`:
/// when `k` is the second action record and the first is outgoing, the like-kind bases
/// in `cur` at the positions that the first one's scan reaches in `r`; zero otherwise.
pub open spec fn lk_source_sum(
    t: Transaction,
    k: u32,
    ars: Map<u32, ActionRecord>,
    r: Map<u16, Account>,
    cur: Map<u16, Account>,
    txns: Map<u32, Transaction>,
) -> Option<Dec> {
    let v = t.action_record_idx_vec@;
    if v.len() == 2 && v[1] == k && spec_direction(ars[v[0]].amount) == Polarity::Outgoing {
        lk_basis_sum(cur, ars[v[0]].account_key, reached_by(ars[v[0]], r, txns))
    } else {
        Some(Dec::zero_spec())
    }
}

/// Sums of like-kind bases at positions whose like-kind bases agree are equal.
proof fn lemma_lk_basis_sum_frame(
    x: Map<u16, Account>,
    y: Map<u16, Account>,
    a: u16,
    ps: Seq<(int, int)>,
)
    requires
        forall|q: int|
            0 <= q < ps.len() ==> (#[trigger] mvmt_of(y, a, ps[q].0, ps[q].1)).cost_basis_lk
                == mvmt_of(x, a, ps[q].0, ps[q].1).cost_basis_lk,
    ensures
        lk_basis_sum(x, a, ps) == lk_basis_sum(y, a, ps),
{
    let fx = |p: (int, int)| mvmt_of(x, a, p.0, p.1).cost_basis_lk;
    let fy = |p: (int, int)| mvmt_of(y, a, p.0, p.1).cost_basis_lk;
    assert(ps.map_values(fx) =~= ps.map_values(fy)) by {
        assert forall|q: int| 0 <= q < ps.len() implies ps.map_values(fx)[q] == ps.map_values(fy)[q] by {
            assert(mvmt_of(y, a, ps[q].0, ps[q].1).cost_basis_lk == mvmt_of(x, a, ps[q].0, ps[q].1).cost_basis_lk);
        }
    }
}

/// Adding the like-kind basis at one more position.
proof fn lemma_lk_basis_sum_push(x: Map<u16, Account>, a: u16, ps: Seq<(int, int)>, p: (int, int))
    ensures
        lk_basis_sum(x, a, ps.push(p)) == match lk_basis_sum(x, a, ps) {
            Some(t) => if add_fits(t, mvmt_of(x, a, p.0, p.1).cost_basis_lk) {
                Some(spec_add(t, mvmt_of(x, a, p.0, p.1).cost_basis_lk))
            } else {
                None
            },
            None => None,
        },
{
    let f = |q: (int, int)| mvmt_of(x, a, q.0, q.1).cost_basis_lk;
    assert(ps.push(p).map_values(f) =~= ps.map_values(f).push(f(p)));
    lemma_dec_sum_push(Dec::zero_spec(), ps.map_values(f), f(p));
}

/// Like-kind treatment treats transaction `t` as an exchange: an exchange whose two
/// action records are in accounts outside the home currency `home`.
pub open spec fn lk_exchange(
    t: Transaction,
    home: Seq<char>,
    ars: Map<u32, ActionRecord>,
    accts: Map<u16, Account>,
    raws: Map<u16, RawAccount>,
) -> bool {
    &&& spec_tx_type(t, ars, accts, raws) == Ok::<TxType, CryptoolsError>(TxType::Exchange)
    &&& ar_raw(ars, accts, raws, t.action_record_idx_vec@[0]).ticker@ != home
    &&& ar_raw(ars, accts, raws, t.action_record_idx_vec@[1]).ticker@ != home
}

/// The scans of the first `i` action records of exchange `t` stop in `r`, and every
/// position that the scan of an incoming one reaches there holds, in `cur`, the
/// like-kind values of `lk_incoming_rule` from the outgoing side's like-kind basis.
pub open spec fn lk_exchange_done(
    t: Transaction,
    i: int,
    ars: Map<u32, ActionRecord>,
    r: Map<u16, Account>,
    cur: Map<u16, Account>,
    txns: Map<u32, Transaction>,
) -> bool {
    forall|ii: int|
        0 <= ii < i ==> {
            let k = #[trigger] t.action_record_idx_vec@[ii];
            &&& exists|j: int| scan_stops_at(ar_candidates(ars[k], r, txns), ars[k].amount, j)
            &&& spec_direction(ars[k].amount) == Polarity::Incoming ==> forall|n: int|
                0 <= n < reached_by(ars[k], r, txns).len() ==> lk_incoming_rule(
                    #[trigger] mvmt_of(
                        cur,
                        ars[k].account_key,
                        reached_by(ars[k], r, txns)[n].0,
                        reached_by(ars[k], r, txns)[n].1,
                    ),
                    lk_source_sum(t, k, ars, r, cur, txns),
                )
        }
}

/// After the action record at index `i` of exchange `t` is treated, the first `i + 1`
/// action records are done.
proof fn lemma_lk_exchange_ar_done(
    tn: u32,
    txns: Map<u32, Transaction>,
    ars: Map<u32, ActionRecord>,
    raws: Map<u16, RawAccount>,
    m0: Map<u16, Account>,
    before: Map<u16, Account>,
    cur: Map<u16, Account>,
    i: int,
    s: Option<Dec>,
)
    requires
        ready(txns, ars, m0, raws),
        txns.contains_key(tn),
        txns[tn].action_record_idx_vec@.len() == 2,
        txns[tn].action_record_idx_vec@[0] != txns[tn].action_record_idx_vec@[1],
        0 <= i < 2,
        same_shape(m0, before),
        same_shape(before, cur),
        only_ar_changed(before, cur, txns[tn].action_record_idx_vec@[i]),
        lk_exchange_done(txns[tn], i, ars, m0, before, txns),
        ({
            let k = txns[tn].action_record_idx_vec@[i];
            &&& exists|j: int| scan_stops_at(ar_candidates(ars[k], before, txns), ars[k].amount, j)
            &&& spec_direction(ars[k].amount) == Polarity::Incoming ==> {
                &&& lk_source_sum(txns[tn], k, ars, m0, cur, txns) == s
                &&& forall|n: int|
                    0 <= n < reached_by(ars[k], before, txns).len() ==> lk_incoming_rule(
                        #[trigger] mvmt_of(
                            cur,
                            ars[k].account_key,
                            reached_by(ars[k], before, txns)[n].0,
                            reached_by(ars[k], before, txns)[n].1,
                        ),
                        s,
                    )
            }
        }),
    ensures
        lk_exchange_done(txns[tn], i + 1, ars, m0, cur, txns),
{
    let t = txns[tn];
    let v = t.action_record_idx_vec@;
    let kk = v[i];
    lemma_ar_of_txn(txns, ars, m0, raws, tn, i);
    lemma_same_shape_sym(m0, before);
    assert forall|ii: int| 0 <= ii < i + 1 implies {
        let k = #[trigger] t.action_record_idx_vec@[ii];
        &&& exists|j: int| scan_stops_at(ar_candidates(ars[k], m0, txns), ars[k].amount, j)
        &&& spec_direction(ars[k].amount) == Polarity::Incoming ==> forall|n: int|
            0 <= n < reached_by(ars[k], m0, txns).len() ==> lk_incoming_rule(
                #[trigger] mvmt_of(
                    cur,
                    ars[k].account_key,
                    reached_by(ars[k], m0, txns)[n].0,
                    reached_by(ars[k], m0, txns)[n].1,
                ),
                lk_source_sum(t, k, ars, m0, cur, txns),
            )
    } by {
        let k = v[ii];
        if ii == i {
            let j = choose|j: int| scan_stops_at(ar_candidates(ars[k], before, txns), ars[k].amount, j);
            lemma_reached_same_shape(ars[k], before, m0, txns, j);
        } else {
            lemma_ar_of_txn(txns, ars, m0, raws, tn, ii);
            assert(v.contains(k));
            if spec_direction(ars[k].amount) == Polarity::Incoming {
                assert forall|n: int| 0 <= n < reached_by(ars[k], m0, txns).len() implies lk_incoming_rule(
                    #[trigger] mvmt_of(
                        cur,
                        ars[k].account_key,
                        reached_by(ars[k], m0, txns)[n].0,
                        reached_by(ars[k], m0, txns)[n].1,
                    ),
                    lk_source_sum(t, k, ars, m0, cur, txns),
                ) by {
                    let p = reached_by(ars[k], m0, txns)[n];
                    lemma_reached_key(k, n, txns, ars, m0, raws);
                    lemma_mvmt_at_same_shape(m0, before, ars[k].account_key, p.0, p.1);
                    assert(mvmt_of(cur, ars[k].account_key, p.0, p.1) == mvmt_of(before, ars[k].account_key, p.0, p.1));
                    assert(lk_source_sum(t, k, ars, m0, cur, txns) == lk_source_sum(t, k, ars, m0, before, txns));
                }
            }
        }
    }
}

/// Only movements of action records of transaction `num` changed.
pub open spec fn only_txn_changed(
    old: Map<u16, Account>,
    new: Map<u16, Account>,
    ars: Map<u32, ActionRecord>,
    num: u32,
) -> bool {
    forall|b: u16, lj: int, mj: int|
        mvmt_at(old, b, lj, mj) && ars[mvmt_of(old, b, lj, mj).action_record_key].tx_key != num
            ==> #[trigger] mvmt_of(new, b, lj, mj) == mvmt_of(old, b, lj, mj)
}

/// Every movement of `old` whose transaction is dated after day `cutoff` has in `new`
/// the cost basis and proceeds it had in `old`.
pub open spec fn orig_values_kept_after(
    old: Map<u16, Account>,
    new: Map<u16, Account>,
    txns: Map<u32, Transaction>,
    ars: Map<u32, ActionRecord>,
    cutoff: int,
) -> bool {
    forall|a: u16, li: int, mi: int|
        mvmt_at(old, a, li, mi) && txns[ars[mvmt_of(old, a, li, mi).action_record_key].tx_key].date.day_num()
            > cutoff ==> {
            &&& (#[trigger] mvmt_of(new, a, li, mi)).cost_basis == mvmt_of(old, a, li, mi).cost_basis
            &&& mvmt_of(new, a, li, mi).proceeds == mvmt_of(old, a, li, mi).proceeds
        }
}

/// Every movement of `old` has in `new` the cost basis and proceeds it had in `old`.
pub open spec fn orig_values_kept(old: Map<u16, Account>, new: Map<u16, Account>) -> bool {
    forall|a: u16, li: int, mi: int|
        mvmt_at(old, a, li, mi) ==> {
            &&& (#[trigger] mvmt_of(new, a, li, mi)).cost_basis == mvmt_of(old, a, li, mi).cost_basis
            &&& mvmt_of(new, a, li, mi).proceeds == mvmt_of(old, a, li, mi).proceeds
        }
}

/// Writing a movement's own cost basis and proceeds back keeps them.
proof fn lemma_orig_kept_write(
    m0: Map<u16, Account>,
    before: Map<u16, Account>,
    after: Map<u16, Account>,
    a: u16,
    li: int,
    mi: int,
)
    requires
        same_shape(m0, before),
        orig_values_kept(m0, before),
        mvmt_at(before, a, li, mi),
        mvmt_of(after, a, li, mi).cost_basis == mvmt_of(before, a, li, mi).cost_basis,
        mvmt_of(after, a, li, mi).proceeds == mvmt_of(before, a, li, mi).proceeds,
        forall|b: u16, lj: int, mj: int|
            mvmt_at(before, b, lj, mj) && !(b == a && lj == li && mj == mi) ==> #[trigger] mvmt_of(
                after,
                b,
                lj,
                mj,
            ) == mvmt_of(before, b, lj, mj),
    ensures
        orig_values_kept(m0, after),
{
    assert forall|b: u16, lj: int, mj: int| mvmt_at(m0, b, lj, mj) implies {
        &&& (#[trigger] mvmt_of(after, b, lj, mj)).cost_basis == mvmt_of(m0, b, lj, mj).cost_basis
        &&& mvmt_of(after, b, lj, mj).proceeds == mvmt_of(m0, b, lj, mj).proceeds
    } by {
        lemma_mvmt_at_same_shape(m0, before, b, lj, mj);
        assert(mvmt_of(before, b, lj, mj).cost_basis == mvmt_of(m0, b, lj, mj).cost_basis);
    }
}

/// Keeping every cost basis and proceeds, or changing only the movements of a transaction
/// dated no later than `cutoff`, keeps those of the transactions dated after it.
proof fn lemma_orig_kept_after_step(
    m0: Map<u16, Account>,
    m1: Map<u16, Account>,
    m2: Map<u16, Account>,
    txns: Map<u32, Transaction>,
    ars: Map<u32, ActionRecord>,
    cutoff: int,
    num: u32,
)
    requires
        same_shape(m0, m1),
        orig_values_kept_after(m0, m1, txns, ars, cutoff),
        orig_values_kept(m1, m2) || (only_txn_changed(m1, m2, ars, num) && txns[num].date.day_num()
            <= cutoff),
    ensures
        orig_values_kept_after(m0, m2, txns, ars, cutoff),
{
    assert forall|a: u16, li: int, mi: int|
        mvmt_at(m0, a, li, mi) && txns[ars[mvmt_of(m0, a, li, mi).action_record_key].tx_key].date.day_num()
            > cutoff implies {
        &&& (#[trigger] mvmt_of(m2, a, li, mi)).cost_basis == mvmt_of(m0, a, li, mi).cost_basis
        &&& mvmt_of(m2, a, li, mi).proceeds == mvmt_of(m0, a, li, mi).proceeds
    } by {
        lemma_mvmt_at_same_shape(m0, m1, a, li, mi);
        assert(mvmt_of(m1, a, li, mi).cost_basis == mvmt_of(m0, a, li, mi).cost_basis);
        if !orig_values_kept(m1, m2) {
            assert(mvmt_of(m1, a, li, mi).action_record_key == mvmt_of(m0, a, li, mi).action_record_key);
            assert(mvmt_of(m2, a, li, mi) == mvmt_of(m1, a, li, mi));
        }
    }
}

/// Every exchange numbered from 1 to below `upto` that like-kind treatment treats (dated
/// no later than day `cutoff`) is done (see `lk_exchange_done`), its scans taken in `r`
/// and its values in `cur`.
pub open spec fn lk_exchanges_cover(
    home: Seq<char>,
    cutoff: int,
    r: Map<u16, Account>,
    cur: Map<u16, Account>,
    txns: Map<u32, Transaction>,
    ars: Map<u32, ActionRecord>,
    raws: Map<u16, RawAccount>,
    upto: int,
) -> bool {
    forall|tn: u32|
        #![trigger txns[tn]]
        1 <= tn < upto && txns.contains_key(tn) && lk_exchange(txns[tn], home, ars, r, raws)
            && txns[tn].date.day_num() <= cutoff ==> lk_exchange_done(txns[tn], 2, ars, r, cur, txns)
}

/// Changing only the movements of another transaction keeps an exchange done.
proof fn lemma_lk_done_frame(
    tn: u32,
    txns: Map<u32, Transaction>,
    ars: Map<u32, ActionRecord>,
    raws: Map<u16, RawAccount>,
    r: Map<u16, Account>,
    x: Map<u16, Account>,
    y: Map<u16, Account>,
    num: u32,
)
    requires
        ready(txns, ars, r, raws),
        same_shape(r, x),
        only_txn_changed(x, y, ars, num),
        txns.contains_key(tn),
        tn != num,
        txns[tn].action_record_idx_vec@.len() == 2,
        lk_exchange_done(txns[tn], 2, ars, r, x, txns),
    ensures
        lk_exchange_done(txns[tn], 2, ars, r, y, txns),
{
    let t = txns[tn];
    let v = t.action_record_idx_vec@;
    lemma_ar_of_txn(txns, ars, r, raws, tn, 0);
    lemma_ar_of_txn(txns, ars, r, raws, tn, 1);
    assert forall|ii: int| 0 <= ii < 2 implies {
        let k = #[trigger] t.action_record_idx_vec@[ii];
        &&& exists|j: int| scan_stops_at(ar_candidates(ars[k], r, txns), ars[k].amount, j)
        &&& spec_direction(ars[k].amount) == Polarity::Incoming ==> forall|n: int|
            0 <= n < reached_by(ars[k], r, txns).len() ==> lk_incoming_rule(
                #[trigger] mvmt_of(
                    y,
                    ars[k].account_key,
                    reached_by(ars[k], r, txns)[n].0,
                    reached_by(ars[k], r, txns)[n].1,
                ),
                lk_source_sum(t, k, ars, r, y, txns),
            )
    } by {
        let k = v[ii];
        assert(v.contains(k));
        if spec_direction(ars[k].amount) == Polarity::Incoming {
            if v[1] == k && spec_direction(ars[v[0]].amount) == Polarity::Outgoing {
                let o = v[0];
                let a0 = ars[o].account_key;
                let reach0 = reached_by(ars[o], r, txns);
                assert(v.contains(o));
                assert forall|q: int| 0 <= q < reach0.len() implies (#[trigger] mvmt_of(
                    y,
                    a0,
                    reach0[q].0,
                    reach0[q].1,
                )).cost_basis_lk == mvmt_of(x, a0, reach0[q].0, reach0[q].1).cost_basis_lk by {
                    lemma_reached_key(o, q, txns, ars, r, raws);
                    lemma_mvmt_at_same_shape(r, x, a0, reach0[q].0, reach0[q].1);
                }
                lemma_lk_basis_sum_frame(x, y, a0, reach0);
            }
            assert forall|n: int| 0 <= n < reached_by(ars[k], r, txns).len() implies lk_incoming_rule(
                #[trigger] mvmt_of(
                    y,
                    ars[k].account_key,
                    reached_by(ars[k], r, txns)[n].0,
                    reached_by(ars[k], r, txns)[n].1,
                ),
                lk_source_sum(t, k, ars, r, y, txns),
            ) by {
                let p = reached_by(ars[k], r, txns)[n];
                lemma_reached_key(k, n, txns, ars, r, raws);
                lemma_mvmt_at_same_shape(r, x, ars[k].account_key, p.0, p.1);
                assert(mvmt_of(y, ars[k].account_key, p.0, p.1) == mvmt_of(x, ars[k].account_key, p.0, p.1));
            }
        }
    }
}

/// An exchange done with its scans taken in `r1` is done with them taken in a state `r2`
/// of the same shape.
proof fn lemma_lk_done_rebase(
    tn: u32,
    txns: Map<u32, Transaction>,
    ars: Map<u32, ActionRecord>,
    raws: Map<u16, RawAccount>,
    r1: Map<u16, Account>,
    r2: Map<u16, Account>,
    cur: Map<u16, Account>,
)
    requires
        ready(txns, ars, r1, raws),
        same_shape(r1, r2),
        txns.contains_key(tn),
        txns[tn].action_record_idx_vec@.len() == 2,
        lk_exchange_done(txns[tn], 2, ars, r1, cur, txns),
    ensures
        lk_exchange_done(txns[tn], 2, ars, r2, cur, txns),
{
    let t = txns[tn];
    let v = t.action_record_idx_vec@;
    lemma_ar_of_txn(txns, ars, r1, raws, tn, 0);
    lemma_ar_of_txn(txns, ars, r1, raws, tn, 1);
    let o = v[0];
    assert(v[0] == t.action_record_idx_vec@[0]);
    let j0 = choose|j: int| scan_stops_at(ar_candidates(ars[o], r1, txns), ars[o].amount, j);
    lemma_reached_same_shape(ars[o], r1, r2, txns, j0);
    assert forall|ii: int| 0 <= ii < 2 implies {
        let k = #[trigger] t.action_record_idx_vec@[ii];
        &&& exists|j: int| scan_stops_at(ar_candidates(ars[k], r2, txns), ars[k].amount, j)
        &&& spec_direction(ars[k].amount) == Polarity::Incoming ==> forall|n: int|
            0 <= n < reached_by(ars[k], r2, txns).len() ==> lk_incoming_rule(
                #[trigger] mvmt_of(
                    cur,
                    ars[k].account_key,
                    reached_by(ars[k], r2, txns)[n].0,
                    reached_by(ars[k], r2, txns)[n].1,
                ),
                lk_source_sum(t, k, ars, r2, cur, txns),
            )
    } by {
        let k = v[ii];
        let j = choose|j: int| scan_stops_at(ar_candidates(ars[k], r1, txns), ars[k].amount, j);
        lemma_reached_same_shape(ars[k], r1, r2, txns, j);
        assert(lk_source_sum(t, k, ars, r2, cur, txns) == lk_source_sum(t, k, ars, r1, cur, txns));
    }
}

/// Whether like-kind treatment treats a transaction as an exchange depends only on the
/// shape of the accounts.
proof fn lemma_lk_exchange_same_shape(
    tn: u32,
    home: Seq<char>,
    txns: Map<u32, Transaction>,
    ars: Map<u32, ActionRecord>,
    raws: Map<u16, RawAccount>,
    x: Map<u16, Account>,
    y: Map<u16, Account>,
)
    requires
        ready(txns, ars, x, raws),
        same_shape(x, y),
        txns.contains_key(tn),
    ensures
        lk_exchange(txns[tn], home, ars, x, raws) == lk_exchange(txns[tn], home, ars, y, raws),
{
    lemma_tx_type_same_shape(txns, ars, x, y, raws, tn);
    let v = txns[tn].action_record_idx_vec@;
    lemma_ar_of_txn(txns, ars, x, raws, tn, 0);
    lemma_same_shape_sym(x, y);
    lemma_ar_raw_same_shape(ars, y, x, raws, v[0]);
    if v.len() == 2 {
        lemma_ar_raw_same_shape(ars, y, x, raws, v[1]);
    }
}

/// Changing only the movements of one more action record of transaction `num` keeps
/// every movement of other transactions as it was.
proof fn lemma_only_txn_step(
    m0: Map<u16, Account>,
    x: Map<u16, Account>,
    y: Map<u16, Account>,
    ars: Map<u32, ActionRecord>,
    num: u32,
    k: u32,
)
    requires
        same_shape(m0, x),
        only_txn_changed(m0, x, ars, num),
        only_ar_changed(x, y, k),
        ars[k].tx_key == num,
    ensures
        only_txn_changed(m0, y, ars, num),
{
    assert forall|b: u16, lj: int, mj: int|
        mvmt_at(m0, b, lj, mj) && ars[mvmt_of(m0, b, lj, mj).action_record_key].tx_key != num
            implies #[trigger] mvmt_of(y, b, lj, mj) == mvmt_of(m0, b, lj, mj) by {
        lemma_mvmt_at_same_shape(m0, x, b, lj, mj);
        assert(mvmt_of(x, b, lj, mj) == mvmt_of(m0, b, lj, mj));
    }
}

/// Carrying over and treating transaction `num` extends the coverage of treated
/// exchanges to it.
proof fn lemma_lk_exchanges_next(
    home: Seq<char>,
    cutoff: int,
    before: Map<u16, Account>,
    mid: Map<u16, Account>,
    cur: Map<u16, Account>,
    txns: Map<u32, Transaction>,
    ars: Map<u32, ActionRecord>,
    raws: Map<u16, RawAccount>,
    num: u32,
)
    requires
        ready(txns, ars, before, raws),
        same_shape(before, mid),
        same_shape(mid, cur),
        txns.contains_key(num),
        lk_exchanges_cover(home, cutoff, before, before, txns, ars, raws, num as int),
        only_txn_changed(before, mid, ars, num),
        only_txn_changed(mid, cur, ars, num),
        lk_exchange(txns[num], home, ars, mid, raws) && txns[num].date.day_num() <= cutoff
            ==> lk_exchange_done(txns[num], 2, ars, mid, cur, txns),
    ensures
        lk_exchanges_cover(home, cutoff, cur, cur, txns, ars, raws, num + 1),
{
    lemma_ready_same_shape(txns, ars, before, mid, raws);
    lemma_same_shape_trans(before, mid, cur);
    assert forall|tn: u32|
        #![trigger txns[tn]]
        1 <= tn < num + 1 && txns.contains_key(tn) && lk_exchange(txns[tn], home, ars, cur, raws)
            && txns[tn].date.day_num() <= cutoff implies lk_exchange_done(txns[tn], 2, ars, cur, cur, txns) by {
        lemma_lk_exchange_same_shape(tn, home, txns, ars, raws, before, cur);
        lemma_lk_exchange_same_shape(tn, home, txns, ars, raws, mid, cur);
        assert(txns[tn].action_record_idx_vec@.len() == 2);
        if tn < num {
            assert(lk_exchange_done(txns[tn], 2, ars, before, before, txns));
            lemma_same_shape_refl(before);
            lemma_lk_done_frame(tn, txns, ars, raws, before, before, mid, num);
            lemma_lk_done_frame(tn, txns, ars, raws, before, mid, cur, num);
            lemma_lk_done_rebase(tn, txns, ars, raws, before, cur, cur);
        } else {
            lemma_lk_done_rebase(tn, txns, ars, raws, mid, cur, cur);
        }
    }
}

/// The scans of the first `i` action records of transaction `t`, a transfer to oneself,
/// stop in `r`, and every position that the scan of an incoming one outside margin and
/// the home currency `home` reaches there holds, in `cur`, the like-kind values of
/// `lk_incoming_rule` from the outgoing side's like-kind basis.
pub open spec fn lk_toself_done(
    t: Transaction,
    i: int,
    home: Seq<char>,
    ars: Map<u32, ActionRecord>,
    r: Map<u16, Account>,
    cur: Map<u16, Account>,
    txns: Map<u32, Transaction>,
    raws: Map<u16, RawAccount>,
) -> bool {
    forall|ii: int|
        0 <= ii < i ==> {
            let k = #[trigger] t.action_record_idx_vec@[ii];
            &&& exists|j: int| scan_stops_at(ar_candidates(ars[k], r, txns), ars[k].amount, j)
            &&& spec_direction(ars[k].amount) == Polarity::Incoming && !ar_raw(
                ars,
                r,
                raws,
                k,
            ).is_margin && ar_raw(ars, r, raws, k).ticker@ != home ==> forall|n: int|
                0 <= n < reached_by(ars[k], r, txns).len() ==> lk_incoming_rule(
                    #[trigger] mvmt_of(
                        cur,
                        ars[k].account_key,
                        reached_by(ars[k], r, txns)[n].0,
                        reached_by(ars[k], r, txns)[n].1,
                    ),
                    lk_source_sum(t, k, ars, r, cur, txns),
                )
        }
}

/// Every transfer to oneself numbered from 1 to below `upto` is done (see
/// `lk_toself_done`), its scans taken in `r` and its values in `cur`.
pub open spec fn lk_toselfs_cover(
    home: Seq<char>,
    r: Map<u16, Account>,
    cur: Map<u16, Account>,
    txns: Map<u32, Transaction>,
    ars: Map<u32, ActionRecord>,
    raws: Map<u16, RawAccount>,
    upto: int,
) -> bool {
    forall|tn: u32|
        #![trigger txns[tn]]
        1 <= tn < upto && txns.contains_key(tn) && spec_tx_type(txns[tn], ars, r, raws) == Ok::<
            TxType,
            CryptoolsError,
        >(TxType::ToSelf) ==> lk_toself_done(txns[tn], 2, home, ars, r, cur, txns, raws)
}

/// After the action record at index `i` of transfer `t` is carried over, the first
/// `i + 1` action records are done.
proof fn lemma_lk_toself_ar_done(
    tn: u32,
    home: Seq<char>,
    txns: Map<u32, Transaction>,
    ars: Map<u32, ActionRecord>,
    raws: Map<u16, RawAccount>,
    m0: Map<u16, Account>,
    before: Map<u16, Account>,
    cur: Map<u16, Account>,
    i: int,
    s: Option<Dec>,
)
    requires
        ready(txns, ars, m0, raws),
        txns.contains_key(tn),
        txns[tn].action_record_idx_vec@.len() == 2,
        txns[tn].action_record_idx_vec@[0] != txns[tn].action_record_idx_vec@[1],
        0 <= i < 2,
        same_shape(m0, before),
        same_shape(before, cur),
        only_ar_changed(before, cur, txns[tn].action_record_idx_vec@[i]),
        lk_toself_done(txns[tn], i, home, ars, m0, before, txns, raws),
        ({
            let k = txns[tn].action_record_idx_vec@[i];
            &&& exists|j: int| scan_stops_at(ar_candidates(ars[k], before, txns), ars[k].amount, j)
            &&& spec_direction(ars[k].amount) == Polarity::Incoming && !ar_raw(
                ars,
                m0,
                raws,
                k,
            ).is_margin && ar_raw(ars, m0, raws, k).ticker@ != home ==> {
                &&& lk_source_sum(txns[tn], k, ars, m0, cur, txns) == s
                &&& forall|n: int|
                    0 <= n < reached_by(ars[k], before, txns).len() ==> lk_incoming_rule(
                        #[trigger] mvmt_of(
                            cur,
                            ars[k].account_key,
                            reached_by(ars[k], before, txns)[n].0,
                            reached_by(ars[k], before, txns)[n].1,
                        ),
                        s,
                    )
            }
        }),
    ensures
        lk_toself_done(txns[tn], i + 1, home, ars, m0, cur, txns, raws),
{
    let t = txns[tn];
    let v = t.action_record_idx_vec@;
    lemma_ar_of_txn(txns, ars, m0, raws, tn, i);
    lemma_same_shape_sym(m0, before);
    assert forall|ii: int| 0 <= ii < i + 1 implies {
        let k = #[trigger] t.action_record_idx_vec@[ii];
        &&& exists|j: int| scan_stops_at(ar_candidates(ars[k], m0, txns), ars[k].amount, j)
        &&& spec_direction(ars[k].amount) == Polarity::Incoming && !ar_raw(ars, m0, raws, k).is_margin
            && ar_raw(ars, m0, raws, k).ticker@ != home ==> forall|n: int|
            0 <= n < reached_by(ars[k], m0, txns).len() ==> lk_incoming_rule(
                #[trigger] mvmt_of(
                    cur,
                    ars[k].account_key,
                    reached_by(ars[k], m0, txns)[n].0,
                    reached_by(ars[k], m0, txns)[n].1,
                ),
                lk_source_sum(t, k, ars, m0, cur, txns),
            )
    } by {
        let k = v[ii];
        if ii == i {
            let j = choose|j: int| scan_stops_at(ar_candidates(ars[k], before, txns), ars[k].amount, j);
            lemma_reached_same_shape(ars[k], before, m0, txns, j);
        } else {
            lemma_ar_of_txn(txns, ars, m0, raws, tn, ii);
            assert(v.contains(k));
            if spec_direction(ars[k].amount) == Polarity::Incoming && !ar_raw(ars, m0, raws, k).is_margin
                && ar_raw(ars, m0, raws, k).ticker@ != home {
                assert forall|n: int| 0 <= n < reached_by(ars[k], m0, txns).len() implies lk_incoming_rule(
                    #[trigger] mvmt_of(
                        cur,
                        ars[k].account_key,
                        reached_by(ars[k], m0, txns)[n].0,
                        reached_by(ars[k], m0, txns)[n].1,
                    ),
                    lk_source_sum(t, k, ars, m0, cur, txns),
                ) by {
                    let p = reached_by(ars[k], m0, txns)[n];
                    lemma_reached_key(k, n, txns, ars, m0, raws);
                    lemma_mvmt_at_same_shape(m0, before, ars[k].account_key, p.0, p.1);
                    assert(mvmt_of(cur, ars[k].account_key, p.0, p.1) == mvmt_of(before, ars[k].account_key, p.0, p.1));
                    assert(lk_source_sum(t, k, ars, m0, cur, txns) == lk_source_sum(t, k, ars, m0, before, txns));
                }
            }
        }
    }
}

/// Changing only the movements of another transaction keeps a transfer done.
proof fn lemma_lk_toself_frame(
    tn: u32,
    home: Seq<char>,
    txns: Map<u32, Transaction>,
    ars: Map<u32, ActionRecord>,
    raws: Map<u16, RawAccount>,
    r: Map<u16, Account>,
    x: Map<u16, Account>,
    y: Map<u16, Account>,
    num: u32,
)
    requires
        ready(txns, ars, r, raws),
        same_shape(r, x),
        only_txn_changed(x, y, ars, num),
        txns.contains_key(tn),
        tn != num,
        txns[tn].action_record_idx_vec@.len() == 2,
        lk_toself_done(txns[tn], 2, home, ars, r, x, txns, raws),
    ensures
        lk_toself_done(txns[tn], 2, home, ars, r, y, txns, raws),
{
    let t = txns[tn];
    let v = t.action_record_idx_vec@;
    lemma_ar_of_txn(txns, ars, r, raws, tn, 0);
    lemma_ar_of_txn(txns, ars, r, raws, tn, 1);
    assert forall|ii: int| 0 <= ii < 2 implies {
        let k = #[trigger] t.action_record_idx_vec@[ii];
        &&& exists|j: int| scan_stops_at(ar_candidates(ars[k], r, txns), ars[k].amount, j)
        &&& spec_direction(ars[k].amount) == Polarity::Incoming && !ar_raw(ars, r, raws, k).is_margin
            && ar_raw(ars, r, raws, k).ticker@ != home ==> forall|n: int|
            0 <= n < reached_by(ars[k], r, txns).len() ==> lk_incoming_rule(
                #[trigger] mvmt_of(
                    y,
                    ars[k].account_key,
                    reached_by(ars[k], r, txns)[n].0,
                    reached_by(ars[k], r, txns)[n].1,
                ),
                lk_source_sum(t, k, ars, r, y, txns),
            )
    } by {
        let k = v[ii];
        assert(v.contains(k));
        if spec_direction(ars[k].amount) == Polarity::Incoming && !ar_raw(ars, r, raws, k).is_margin
            && ar_raw(ars, r, raws, k).ticker@ != home {
            if v[1] == k && spec_direction(ars[v[0]].amount) == Polarity::Outgoing {
                let o = v[0];
                let a0 = ars[o].account_key;
                let reach0 = reached_by(ars[o], r, txns);
                assert(v.contains(o));
                assert forall|q: int| 0 <= q < reach0.len() implies (#[trigger] mvmt_of(
                    y,
                    a0,
                    reach0[q].0,
                    reach0[q].1,
                )).cost_basis_lk == mvmt_of(x, a0, reach0[q].0, reach0[q].1).cost_basis_lk by {
                    lemma_reached_key(o, q, txns, ars, r, raws);
                    lemma_mvmt_at_same_shape(r, x, a0, reach0[q].0, reach0[q].1);
                }
                lemma_lk_basis_sum_frame(x, y, a0, reach0);
            }
            assert forall|n: int| 0 <= n < reached_by(ars[k], r, txns).len() implies lk_incoming_rule(
                #[trigger] mvmt_of(
                    y,
                    ars[k].account_key,
                    reached_by(ars[k], r, txns)[n].0,
                    reached_by(ars[k], r, txns)[n].1,
                ),
                lk_source_sum(t, k, ars, r, y, txns),
            ) by {
                let p = reached_by(ars[k], r, txns)[n];
                lemma_reached_key(k, n, txns, ars, r, raws);
                lemma_mvmt_at_same_shape(r, x, ars[k].account_key, p.0, p.1);
                assert(mvmt_of(y, ars[k].account_key, p.0, p.1) == mvmt_of(x, ars[k].account_key, p.0, p.1));
            }
        }
    }
}

/// A transfer done with its scans taken in `r1` is done with them taken in a state `r2`
/// of the same shape.
proof fn lemma_lk_toself_rebase(
    tn: u32,
    home: Seq<char>,
    txns: Map<u32, Transaction>,
    ars: Map<u32, ActionRecord>,
    raws: Map<u16, RawAccount>,
    r1: Map<u16, Account>,
    r2: Map<u16, Account>,
    cur: Map<u16, Account>,
)
    requires
        ready(txns, ars, r1, raws),
        same_shape(r1, r2),
        txns.contains_key(tn),
        txns[tn].action_record_idx_vec@.len() == 2,
        lk_toself_done(txns[tn], 2, home, ars, r1, cur, txns, raws),
    ensures
        lk_toself_done(txns[tn], 2, home, ars, r2, cur, txns, raws),
{
    let t = txns[tn];
    let v = t.action_record_idx_vec@;
    lemma_ar_of_txn(txns, ars, r1, raws, tn, 0);
    lemma_ar_of_txn(txns, ars, r1, raws, tn, 1);
    lemma_same_shape_sym(r1, r2);
    let o = v[0];
    assert(v[0] == t.action_record_idx_vec@[0]);
    let j0 = choose|j: int| scan_stops_at(ar_candidates(ars[o], r1, txns), ars[o].amount, j);
    lemma_reached_same_shape(ars[o], r1, r2, txns, j0);
    assert forall|ii: int| 0 <= ii < 2 implies {
        let k = #[trigger] t.action_record_idx_vec@[ii];
        &&& exists|j: int| scan_stops_at(ar_candidates(ars[k], r2, txns), ars[k].amount, j)
        &&& spec_direction(ars[k].amount) == Polarity::Incoming && !ar_raw(ars, r2, raws, k).is_margin
            && ar_raw(ars, r2, raws, k).ticker@ != home ==> forall|n: int|
            0 <= n < reached_by(ars[k], r2, txns).len() ==> lk_incoming_rule(
                #[trigger] mvmt_of(
                    cur,
                    ars[k].account_key,
                    reached_by(ars[k], r2, txns)[n].0,
                    reached_by(ars[k], r2, txns)[n].1,
                ),
                lk_source_sum(t, k, ars, r2, cur, txns),
            )
    } by {
        let k = v[ii];
        lemma_ar_raw_same_shape(ars, r2, r1, raws, k);
        let j = choose|j: int| scan_stops_at(ar_candidates(ars[k], r1, txns), ars[k].amount, j);
        lemma_reached_same_shape(ars[k], r1, r2, txns, j);
        assert(lk_source_sum(t, k, ars, r2, cur, txns) == lk_source_sum(t, k, ars, r1, cur, txns));
    }
}

/// Carrying over transaction `num` extends the coverage of transfers to oneself to it.
proof fn lemma_lk_toselfs_next(
    home: Seq<char>,
    before: Map<u16, Account>,
    mid: Map<u16, Account>,
    cur: Map<u16, Account>,
    txns: Map<u32, Transaction>,
    ars: Map<u32, ActionRecord>,
    raws: Map<u16, RawAccount>,
    num: u32,
)
    requires
        ready(txns, ars, before, raws),
        same_shape(before, mid),
        same_shape(mid, cur),
        txns.contains_key(num),
        lk_toselfs_cover(home, before, before, txns, ars, raws, num as int),
        only_txn_changed(before, mid, ars, num),
        only_txn_changed(mid, cur, ars, num),
        spec_tx_type(txns[num], ars, before, raws) == Ok::<TxType, CryptoolsError>(TxType::ToSelf)
            ==> lk_toself_done(txns[num], 2, home, ars, before, mid, txns, raws) && cur == mid,
    ensures
        lk_toselfs_cover(home, cur, cur, txns, ars, raws, num + 1),
{
    lemma_ready_same_shape(txns, ars, before, mid, raws);
    lemma_same_shape_trans(before, mid, cur);
    lemma_same_shape_refl(before);
    assert forall|tn: u32|
        #![trigger txns[tn]]
        1 <= tn < num + 1 && txns.contains_key(tn) && spec_tx_type(txns[tn], ars, cur, raws) == Ok::<
            TxType,
            CryptoolsError,
        >(TxType::ToSelf) implies lk_toself_done(txns[tn], 2, home, ars, cur, cur, txns, raws) by {
        lemma_tx_type_same_shape(txns, ars, before, cur, raws, tn);
        assert(txns[tn].action_record_idx_vec@.len() == 2);
        if tn < num {
            assert(lk_toself_done(txns[tn], 2, home, ars, before, before, txns, raws));
            lemma_lk_toself_frame(tn, home, txns, ars, raws, before, before, mid, num);
            lemma_lk_toself_frame(tn, home, txns, ars, raws, before, mid, cur, num);
            lemma_lk_toself_rebase(tn, home, txns, ars, raws, before, cur, cur);
        } else {
            lemma_lk_toself_rebase(tn, home, txns, ars, raws, before, cur, cur);
        }
    }
}

/// Writing the like-kind values of one more position of an incoming action record, by
/// `lk_incoming_rule` from the sum `s`, keeps that rule at every position written so far.
proof fn lemma_lk_in_write(
    before: Map<u16, Account>,
    after: Map<u16, Account>,
    a: u16,
    k: u32,
    ps: Seq<(usize, usize)>,
    idx: int,
    s: Option<Dec>,
)
    requires
        positions_of_ar(ps, before, a, k),
        0 <= idx < ps.len(),
        ({
            let li = ps[idx].0 as int;
            let mi = ps[idx].1 as int;
            &&& lk_incoming_rule(mvmt_of(after, a, li, mi), s)
            &&& forall|b: u16, lj: int, mj: int|
                mvmt_at(before, b, lj, mj) && !(b == a && lj == li && mj == mi) ==> #[trigger] mvmt_of(
                    after,
                    b,
                    lj,
                    mj,
                ) == mvmt_of(before, b, lj, mj)
        }),
        forall|q: int|
            0 <= q < idx ==> lk_incoming_rule(
                #[trigger] mvmt_of(before, a, ps[q].0 as int, ps[q].1 as int),
                s,
            ),
    ensures
        forall|q: int|
            0 <= q < idx + 1 ==> lk_incoming_rule(
                #[trigger] mvmt_of(after, a, ps[q].0 as int, ps[q].1 as int),
                s,
            ),
{
    let li = ps[idx].0 as int;
    let mi = ps[idx].1 as int;
    assert forall|q: int| 0 <= q < idx + 1 implies lk_incoming_rule(
        #[trigger] mvmt_of(after, a, ps[q].0 as int, ps[q].1 as int),
        s,
    ) by {
        let lq = ps[q].0 as int;
        let mq = ps[q].1 as int;
        if !(lq == li && mq == mi) {
            assert(mvmt_at(before, a, lq, mq));
            assert(mvmt_of(after, a, lq, mq) == mvmt_of(before, a, lq, mq));
        }
    }
}

/// The outgoing side's like-kind basis before incoming action record `k` stays the same
/// when only the movements of an action record other than that side change.
proof fn lemma_lk_source_frame(
    t: u32,
    k: u32,
    txns: Map<u32, Transaction>,
    ars: Map<u32, ActionRecord>,
    m0: Map<u16, Account>,
    x: Map<u16, Account>,
    y: Map<u16, Account>,
    raws: Map<u16, RawAccount>,
    kw: u32,
)
    requires
        ready(txns, ars, m0, raws),
        same_shape(m0, x),
        only_ar_changed(x, y, kw),
        txns.contains_key(t),
        txns[t].action_record_idx_vec@.len() == 2 ==> txns[t].action_record_idx_vec@[0] != kw,
    ensures
        lk_source_sum(txns[t], k, ars, m0, x, txns) == lk_source_sum(txns[t], k, ars, m0, y, txns),
{
    let v = txns[t].action_record_idx_vec@;
    if v.len() == 2 && v[1] == k && spec_direction(ars[v[0]].amount) == Polarity::Outgoing {
        let o = v[0];
        let a0 = ars[o].account_key;
        let reach = reached_by(ars[o], m0, txns);
        lemma_ar_of_txn(txns, ars, m0, raws, t, 0);
        assert(v.contains(o));
        assert forall|q: int| 0 <= q < reach.len() implies (#[trigger] mvmt_of(
            y,
            a0,
            reach[q].0,
            reach[q].1,
        )).cost_basis_lk == mvmt_of(x, a0, reach[q].0, reach[q].1).cost_basis_lk by {
            lemma_reached_key(o, q, txns, ars, m0, raws);
            lemma_mvmt_at_same_shape(m0, x, a0, reach[q].0, reach[q].1);
        }
        lemma_lk_basis_sum_frame(x, y, a0, reach);
    }
}

/// Carrying like-kind basis into action record `i` of transaction `tn` may fail, the
/// accounts being `accts`: it fails whatever the values are (`ar_basis_fails_surely`),
/// or it has work to do and makes a checked decimal operation, that is, the record is
/// outgoing (its like-kind basis is a share of its lot's and is added to the running
/// total) or is the incoming side of a transfer to oneself outside the home currency (its
/// like-kind basis is its share of that total).
pub open spec fn lk_carry_may_fail(
    tn: u32,
    i: int,
    home: Seq<char>,
    accts: Map<u16, Account>,
    ars: Map<u32, ActionRecord>,
    raws: Map<u16, RawAccount>,
    txns: Map<u32, Transaction>,
) -> bool {
    let k = txns[tn].action_record_idx_vec@[i];
    ||| ar_basis_fails_surely(tn, i, accts, ars, raws, txns)
    ||| !ar_basis_untouched(tn, i, accts, ars, raws, txns) && (spec_direction(ars[k].amount)
        == Polarity::Outgoing || (spec_tx_type(txns[tn], ars, accts, raws) == Ok::<
        TxType,
        CryptoolsError,
    >(TxType::ToSelf) && ar_raw(ars, accts, raws, k).ticker@ != home))
}

/// Carries like-kind basis from earlier like-kind treatment into transaction `txn_num`:
/// an outgoing movement outside the home currency takes its share of the like-kind basis
/// of its lot (and, in a transfer to oneself, proceeds that cancel it); the like-kind
/// basis of the outgoing movements adds up, and an incoming movement of a transfer to
/// oneself (outside the home currency) takes its share of that total; an incoming
/// movement of a two-record flow gets zero like-kind basis and proceeds.  Movements in
/// margin accounts are left alone.
fn update_current_txn_for_prior_likekind_treatment(
    txn_num: u32,
    settings: &ImportProcessParameters,
    raw_acct_map: &HashMap<u16, RawAccount>,
    acct_map: &mut HashMap<u16, Account>,
    ars: &HashMap<u32, ActionRecord>,
    txns_map: &HashMap<u32, Transaction>,
) -> (r: Result<(), CryptoolsError>)
    requires
        ready(txns_map@, ars@, old(acct_map)@, raw_acct_map@),
        txns_map@.contains_key(txn_num),
        txn_num < u32::MAX,
    ensures
        r is Ok ==> same_shape(old(acct_map)@, final(acct_map)@),
        r is Ok ==> lk_changes(
            old(acct_map)@,
            final(acct_map)@,
            settings.home_currency@,
            txns_map@,
            ars@,
            raw_acct_map@,
        ),
        r is Ok ==> only_txn_changed(old(acct_map)@, final(acct_map)@, ars@, txn_num),
        r is Ok ==> orig_values_kept(old(acct_map)@, final(acct_map)@),
        r is Ok && lots_ordered(
            txns_map@,
            ars@,
            old(acct_map)@,
            raw_acct_map@,
            settings.home_currency@,
        ) && lk_outgoing_cover(
            settings.home_currency@,
            old(acct_map)@,
            old(acct_map)@,
            txns_map@,
            ars@,
            raw_acct_map@,
            |k: u32| processed_before(k, txn_num, 0, txns_map@, ars@),
        ) ==> lk_outgoing_cover(
            settings.home_currency@,
            old(acct_map)@,
            final(acct_map)@,
            txns_map@,
            ars@,
            raw_acct_map@,
            |k: u32| processed_before(k, (txn_num + 1) as u32, 0, txns_map@, ars@),
        ),
        r is Ok && spec_tx_type(txns_map@[txn_num], ars@, old(acct_map)@, raw_acct_map@) == Ok::<
            TxType,
            CryptoolsError,
        >(TxType::ToSelf) ==> lk_toself_done(
            txns_map@[txn_num],
            2,
            settings.home_currency@,
            ars@,
            old(acct_map)@,
            final(acct_map)@,
            txns_map@,
            raw_acct_map@,
        ),
        (exists|i: int|
            0 <= i < txns_map@[txn_num].action_record_idx_vec@.len() && #[trigger] ar_basis_fails_surely(
                txn_num,
                i,
                old(acct_map)@,
                ars@,
                raw_acct_map@,
                txns_map@,
            )) ==> r is Err,
        (forall|i: int|
            0 <= i < txns_map@[txn_num].action_record_idx_vec@.len() ==> #[trigger] ar_basis_untouched(
                txn_num,
                i,
                old(acct_map)@,
                ars@,
                raw_acct_map@,
                txns_map@,
            )) ==> r is Ok && final(acct_map)@ == old(acct_map)@,
        r is Err ==> exists|i: int|
            0 <= i < txns_map@[txn_num].action_record_idx_vec@.len() && #[trigger] lk_carry_may_fail(
                txn_num,
                i,
                settings.home_currency@,
                old(acct_map)@,
                ars@,
                raw_acct_map@,
                txns_map@,
            ),
{
    let ghost m0 = acct_map@;
    let ghost home = settings.home_currency@;
    let ghost start_ok = lots_ordered(txns_map@, ars@, m0, raw_acct_map@, home) && lk_outgoing_cover(
        home,
        m0,
        m0,
        txns_map@,
        ars@,
        raw_acct_map@,
        |k: u32| processed_before(k, txn_num, 0, txns_map@, ars@),
    );
    proof {
        lemma_same_shape_refl(m0);
        lemma_lk_changes_refl(m0, home, txns_map@, ars@, raw_acct_map@);
        assert forall|b: u16, lj: int, mj: int|
            mvmt_at(m0, b, lj, mj) && ars@[mvmt_of(m0, b, lj, mj).action_record_key].tx_key
                != txn_num implies #[trigger] mvmt_of(m0, b, lj, mj) == mvmt_of(m0, b, lj, mj) by {}
    }
    let mut sum_of_outgoing_lk_cost_basis_in_ar = Dec::zero();
    let txn = txns_map.get(&txn_num).unwrap();
    let ghost v = txn.action_record_idx_vec@;
    let ghost is_toself = spec_tx_type(*txn, ars@, m0, raw_acct_map@) == Ok::<TxType, CryptoolsError>(
        TxType::ToSelf,
    );
    proof {
        lemma_ar_of_txn(txns_map@, ars@, m0, raw_acct_map@, txn_num, 0);
        if v.len() == 2 {
            lemma_ar_of_txn(txns_map@, ars@, m0, raw_acct_map@, txn_num, 1);
        }
    }
    let mut i: usize = 0;
    while i < txn.action_record_idx_vec.len()
        invariant
            i <= txn.action_record_idx_vec@.len(),
            txns_map@.contains_key(txn_num),
            *txn == txns_map@[txn_num],
            ready(txns_map@, ars@, acct_map@, raw_acct_map@),
            ready(txns_map@, ars@, m0, raw_acct_map@),
            same_shape(m0, acct_map@),
            m0 == old(acct_map)@,
            home == settings.home_currency@,
            lk_changes(m0, acct_map@, home, txns_map@, ars@, raw_acct_map@),
            orig_values_kept(m0, acct_map@),
            only_txn_changed(m0, acct_map@, ars@, txn_num),
            start_ok ==> lots_ordered(txns_map@, ars@, m0, raw_acct_map@, home),
            start_ok ==> lk_outgoing_cover(
                home,
                m0,
                acct_map@,
                txns_map@,
                ars@,
                raw_acct_map@,
                |k: u32| processed_before(k, txn_num, i as int, txns_map@, ars@),
            ),
            v == txn.action_record_idx_vec@,
            is_toself == (spec_tx_type(*txn, ars@, m0, raw_acct_map@) == Ok::<TxType, CryptoolsError>(
                TxType::ToSelf,
            )),
            is_toself ==> v.len() == 2 && v[0] != v[1] && spec_direction(ars@[v[0]].amount)
                != spec_direction(ars@[v[1]].amount) && ar_raw(ars@, m0, raw_acct_map@, v[0]).is_margin
                == ar_raw(ars@, m0, raw_acct_map@, v[1]).is_margin,
            is_toself ==> lk_toself_done(
                *txn,
                i as int,
                home,
                ars@,
                m0,
                acct_map@,
                txns_map@,
                raw_acct_map@,
            ),
            is_toself && (i == 0 || (i == 1 && !(spec_direction(ars@[v[0]].amount)
                == Polarity::Outgoing && !ar_raw(ars@, m0, raw_acct_map@, v[0]).is_margin)))
                ==> sum_of_outgoing_lk_cost_basis_in_ar == Dec::zero_spec(),
            is_toself && i == 1 && spec_direction(ars@[v[0]].amount) == Polarity::Outgoing
                && !ar_raw(ars@, m0, raw_acct_map@, v[0]).is_margin ==> Some(
                sum_of_outgoing_lk_cost_basis_in_ar,
            ) == lk_basis_sum(
                acct_map@,
                ars@[v[0]].account_key,
                reached_by(ars@[v[0]], m0, txns_map@),
            ),
            forall|ii: int| 0 <= ii < i ==> !#[trigger] ar_basis_fails_surely(
                txn_num,
                ii,
                m0,
                ars@,
                raw_acct_map@,
                txns_map@,
            ),
            (forall|ii: int|
                0 <= ii < txns_map@[txn_num].action_record_idx_vec@.len() ==> #[trigger] ar_basis_untouched(txn_num, ii, m0, ars@, raw_acct_map@, txns_map@)) ==> acct_map@ == m0,
        decreases txn.action_record_idx_vec@.len() - i,
    {
        proof {
            lemma_ar_of_txn(txns_map@, ars@, acct_map@, raw_acct_map@, txn_num, i as int);
        }
        let ghost before_ar = acct_map@;
        let ar_num = txn.action_record_idx_vec[i];
        let ar = ars.get(&ar_num).unwrap();
        let a = ar.account_key;
        let raw_acct = lookup_raw(ar_num, ars, raw_acct_map, acct_map);
        proof {
            lemma_ar_raw_same_shape(ars@, m0, acct_map@, raw_acct_map@, ar_num);
            assert(txn.action_record_idx_vec@[i as int] == ar_num);
        }
        proof {
            lemma_ar_basis_checks_same_shape(txn_num, i as int, m0, acct_map@, ars@, raw_acct_map@, txns_map@);
        }
        let positions = match positions_of(ar, acct_map, txns_map) {
            Ok(x) => x,
            Err(e) => {
                proof {
                    assert(!ar_basis_untouched(txn_num, i as int, acct_map@, ars@, raw_acct_map@, txns_map@));
                    assert(!ar_basis_untouched(txn_num, i as int, m0, ars@, raw_acct_map@, txns_map@));
                    assert(lk_carry_may_fail(txn_num, i as int, home, m0, ars@, raw_acct_map@, txns_map@));
                }
                return Err(e);
            },
        };
        proof {
            let j = choose|j: int| scan_stops_at(ar_candidates(*ar, acct_map@, txns_map@), ar.amount, j);
            lemma_same_shape_sym(m0, acct_map@);
            lemma_reached_same_shape(*ar, acct_map@, m0, txns_map@, j);
        }
        let polarity = ar.direction();
        let is_home_curr = raw_acct.is_home_currency(settings.home_currency.as_str());
        proof {
            lemma_same_shape_refl(before_ar);
            assert forall|b: u16, lj: int, mj: int|
                mvmt_at(before_ar, b, lj, mj) && mvmt_of(before_ar, b, lj, mj).action_record_key
                    != ar_num implies #[trigger] mvmt_of(before_ar, b, lj, mj) == mvmt_of(
                before_ar,
                b,
                lj,
                mj,
            ) by {}
        }
        let ghost sum0 = sum_of_outgoing_lk_cost_basis_in_ar;
        proof {
            let d = txns_map@[ar.tx_key].date.day_num();
            let all = lots_match_pos(before_ar[a].list_of_lots@, 0, ar.self_ar_key, d);
            lemma_match_pos_distinct(before_ar[a].list_of_lots@, 0, ar.self_ar_key, d);
            let reach = reached_by(*ar, before_ar, txns_map@);
            let stop = scan_stop(ar_candidates(*ar, before_ar, txns_map@), ar.amount);
            assert(reach == (if 0 <= stop <= all.len() {
                all.take(stop)
            } else {
                all
            }));
            assert forall|x: int, y: int| 0 <= x < y < positions@.len() implies positions@[x]
                != positions@[y] by {
                assert(reach.len() == positions@.len());
                assert(pos_int(positions@)[x] == reach[x]);
                assert(pos_int(positions@)[y] == reach[y]);
                if 0 <= stop <= all.len() {
                    assert(reach[x] == all[x]);
                    assert(reach[y] == all[y]);
                }
                assert(reach[x] != reach[y]);
            }
            assert(pos_int(positions@).take(0) =~= Seq::<(int, int)>::empty());
            assert(Seq::<(int, int)>::empty().map_values(
                |p: (int, int)| mvmt_of(acct_map@, a, p.0, p.1).cost_basis_lk,
            ) =~= Seq::<Dec>::empty());
        }
        let mut idx: usize = 0;
        while idx < positions.len()
            invariant
                idx <= positions@.len(),
                ready(txns_map@, ars@, acct_map@, raw_acct_map@),
                ready(txns_map@, ars@, m0, raw_acct_map@),
                same_shape(m0, acct_map@),
                positions_of_ar(positions@, acct_map@, a, ar_num),
                txns_map@.contains_key(txn_num),
                *txn == txns_map@[txn_num],
                ars@.contains_key(ar_num),
                *ar == ars@[ar_num],
                a == ar.account_key,
                ar.self_ar_key == ar_num,
                ar.tx_key == txn_num,
                txn.action_record_idx_vec@.contains(ar_num),
                *raw_acct == ar_raw(ars@, m0, raw_acct_map@, ar_num),
                is_home_curr == (raw_acct.ticker@ == home),
                polarity == spec_direction(ar.amount),
                home == settings.home_currency@,
                lk_changes(m0, acct_map@, home, txns_map@, ars@, raw_acct_map@),
                orig_values_kept(m0, acct_map@),
                m0 == old(acct_map)@,
                same_shape(before_ar, acct_map@),
                same_shape(m0, before_ar),
                only_ar_changed(before_ar, acct_map@, ar_num),
                pos_int(positions@) == reached_by(*ar, before_ar, txns_map@),
                txn.action_record_idx_vec@[i as int] == ar_num,
                i < txn.action_record_idx_vec@.len(),
                start_ok ==> lots_ordered(txns_map@, ars@, m0, raw_acct_map@, home),
                start_ok && plain_outgoing(ar_num, home, ars@, m0, raw_acct_map@) ==> forall|q: int|
                    0 <= q < idx ==> lk_outgoing_rule(
                        #[trigger] mvmt_of(acct_map@, a, positions@[q].0 as int, positions@[q].1 as int),
                        mvmt_of(acct_map@, a, positions@[q].0 as int, 0),
                    ),
                v == txn.action_record_idx_vec@,
                is_toself == (spec_tx_type(*txn, ars@, m0, raw_acct_map@) == Ok::<TxType, CryptoolsError>(
                    TxType::ToSelf,
                )),
                is_toself ==> v.len() == 2 && v[0] != v[1] && spec_direction(ars@[v[0]].amount)
                    != spec_direction(ars@[v[1]].amount) && ar_raw(ars@, m0, raw_acct_map@, v[0]).is_margin
                    == ar_raw(ars@, m0, raw_acct_map@, v[1]).is_margin,
                forall|x: int, y: int| 0 <= x < y < positions@.len() ==> positions@[x] != positions@[y],
                exists|j: int| scan_stops_at(ar_candidates(*ar, before_ar, txns_map@), ar.amount, j),
                is_toself ==> lk_toself_done(
                    *txn,
                    i as int,
                    home,
                    ars@,
                    m0,
                    before_ar,
                    txns_map@,
                    raw_acct_map@,
                ),
                !(polarity == Polarity::Outgoing && !raw_acct.is_margin)
                    ==> sum_of_outgoing_lk_cost_basis_in_ar == sum0,
                is_toself && (i == 0 || (i == 1 && !(spec_direction(ars@[v[0]].amount)
                    == Polarity::Outgoing && !ar_raw(ars@, m0, raw_acct_map@, v[0]).is_margin)))
                    ==> sum0 == Dec::zero_spec(),
                is_toself && i == 1 && spec_direction(ars@[v[0]].amount) == Polarity::Outgoing
                    && !ar_raw(ars@, m0, raw_acct_map@, v[0]).is_margin ==> Some(sum0) == lk_basis_sum(
                    before_ar,
                    ars@[v[0]].account_key,
                    reached_by(ars@[v[0]], m0, txns_map@),
                ),
                is_toself && i == 0 && polarity == Polarity::Outgoing && !raw_acct.is_margin ==> Some(
                    sum_of_outgoing_lk_cost_basis_in_ar,
                ) == lk_basis_sum(acct_map@, a, pos_int(positions@).take(idx as int)),
                is_toself && polarity == Polarity::Incoming && !raw_acct.is_margin && !is_home_curr
                    ==> forall|q: int|
                    0 <= q < idx ==> lk_incoming_rule(
                        #[trigger] mvmt_of(acct_map@, a, positions@[q].0 as int, positions@[q].1 as int),
                        Some(sum_of_outgoing_lk_cost_basis_in_ar),
                    ),
                positions@.len() > 0 ==> (raw_acct.is_margin || !ar_basis_untouched(
                    txn_num,
                    i as int,
                    m0,
                    ars@,
                    raw_acct_map@,
                    txns_map@,
                )),
                positions@.len() == reached_by(*ar, m0, txns_map@).len(),
                forall|ii: int| 0 <= ii < i ==> !#[trigger] ar_basis_fails_surely(
                    txn_num,
                    ii,
                    m0,
                    ars@,
                    raw_acct_map@,
                    txns_map@,
                ),
                idx > 0 ==> !ar_basis_fails_surely(txn_num, i as int, m0, ars@, raw_acct_map@, txns_map@),
                exists|j: int| scan_stops_at(ar_candidates(*ar, m0, txns_map@), ar.amount, j),
                (forall|ii: int|
                0 <= ii < txns_map@[txn_num].action_record_idx_vec@.len() ==> #[trigger] ar_basis_untouched(txn_num, ii, m0, ars@, raw_acct_map@, txns_map@)) ==> acct_map@ == m0,
            decreases positions@.len() - idx,
        {
            let tx_type = match txn.transaction_type(ars, raw_acct_map, acct_map) {
                Ok(x) => x,
                Err(e) => {
                    proof {
                        lemma_tx_type_same_shape(txns_map@, ars@, m0, acct_map@, raw_acct_map@, txn_num);
                        assert(ar_basis_fails_surely(txn_num, i as int, m0, ars@, raw_acct_map@, txns_map@));
                        assert(!ar_basis_untouched(txn_num, i as int, m0, ars@, raw_acct_map@, txns_map@));
                        assert(lk_carry_may_fail(txn_num, i as int, home, m0, ars@, raw_acct_map@, txns_map@));
                    }
                    return Err(e);
                },
            };
            proof {
                lemma_tx_type_same_shape(txns_map@, ars@, m0, acct_map@, raw_acct_map@, txn_num);
                assert(!ar_basis_fails_surely(txn_num, i as int, m0, ars@, raw_acct_map@, txns_map@));
            }
            let (li, mi) = positions[idx];
            proof {
                assert(mvmt_at(acct_map@, a, li as int, mi as int));
                lemma_lot_of_position(acct_map@, ars@, a, li as int, mi as int);
                lemma_tx_type_same_shape(txns_map@, ars@, m0, acct_map@, raw_acct_map@, txn_num);
            }
            let mvmt = acct_map.get(&a).unwrap().list_of_lots[li].movements[mi].clone();
            let ghost old_sum = sum_of_outgoing_lk_cost_basis_in_ar;
            if !raw_acct.is_margin {
                proof {
                    if polarity == Polarity::Outgoing || (tx_type == TxType::ToSelf && !is_home_curr) {
                        assert(!ar_basis_untouched(txn_num, i as int, m0, ars@, raw_acct_map@, txns_map@));
                        assert(lk_carry_may_fail(txn_num, i as int, home, m0, ars@, raw_acct_map@, txns_map@));
                    }
                }
                let mut cost_basis_lk = mvmt.cost_basis_lk;
                let mut proceeds_lk = mvmt.proceeds_lk;
                match polarity {
                    Polarity::Outgoing => {
                        if !is_home_curr {
                            let rounded_lk_basis = outgoing_basis_from_lot(
                                &mvmt,
                                acct_map,
                                ars,
                                true,
                            )?;
                            cost_basis_lk = rounded_lk_basis;
                            if tx_type == TxType::ToSelf {
                                proceeds_lk = rounded_lk_basis.neg();
                            }
                        }
                        sum_of_outgoing_lk_cost_basis_in_ar = match sum_of_outgoing_lk_cost_basis_in_ar.checked_add(
                            &cost_basis_lk,
                        ) {
                            Some(x) => x,
                            None => {
                                return Err(CryptoolsError::DecimalOverflow { tx_number: txn_num });
                            },
                        };
                    },
                    Polarity::Incoming => {
                        match tx_type {
                            TxType::Exchange => {},
                            TxType::Flow => {
                                if txn.action_record_idx_vec.len() == 2 {
                                    cost_basis_lk = Dec::zero();
                                    proceeds_lk = Dec::zero();
                                }
                            },
                            TxType::ToSelf => {
                                if !is_home_curr {
                                    let rounded_lk_basis = share_of(
                                        &sum_of_outgoing_lk_cost_basis_in_ar,
                                        &mvmt.ratio_of_amt_to_incoming_mvmts_in_a_r,
                                        txn_num,
                                    )?;
                                    rounded_lk_basis.reveal_valid();
                                    proof {
                                        lemma_negated_twice(rounded_lk_basis);
                                    }
                                    cost_basis_lk = rounded_lk_basis.neg();
                                    proceeds_lk = rounded_lk_basis;
                                }
                            },
                        }
                    },
                }
                let ghost before = acct_map@;
                proof {
                    assert(mvmt == mvmt_of(before, a, li as int, mi as int));
                    assert(mvmt.action_record_key == ar_num);
                }
                set_mvmt_values(
                    acct_map,
                    a,
                    li,
                    mi,
                    mvmt.cost_basis,
                    cost_basis_lk,
                    mvmt.proceeds,
                    proceeds_lk,
                );
                proof {
                    lemma_orig_kept_write(m0, before, acct_map@, a, li as int, mi as int);
                    if start_ok && plain_outgoing(ar_num, home, ars@, m0, raw_acct_map@) {
                        assert(mvmt_at(before, a, li as int, 0));
                        assert(spec_lot_of(mvmt, before, ars@).movements@[0] == mvmt_of(
                            before,
                            a,
                            li as int,
                            0,
                        ));
                        lemma_lk_outgoing_write(
                            txns_map@,
                            ars@,
                            m0,
                            before,
                            acct_map@,
                            raw_acct_map@,
                            home,
                            a,
                            ar_num,
                            positions@,
                            idx as int,
                        );
                    }
                    if is_toself && i == 0 && polarity == Polarity::Outgoing {
                        let ps = pos_int(positions@);
                        assert forall|q: int| 0 <= q < ps.take(idx as int).len() implies (
                        #[trigger] mvmt_of(
                            acct_map@,
                            a,
                            ps.take(idx as int)[q].0,
                            ps.take(idx as int)[q].1,
                        )).cost_basis_lk == mvmt_of(
                            before,
                            a,
                            ps.take(idx as int)[q].0,
                            ps.take(idx as int)[q].1,
                        ).cost_basis_lk by {
                            let pq = ps.take(idx as int)[q];
                            assert(pq == ps[q]);
                            assert(mvmt_at(before, a, positions@[q].0 as int, positions@[q].1 as int));
                            assert(positions@[q] != positions@[idx as int]);
                        }
                        lemma_lk_basis_sum_frame(before, acct_map@, a, ps.take(idx as int));
                        assert(ps.take(idx + 1) =~= ps.take(idx as int).push(ps[idx as int]));
                        lemma_lk_basis_sum_push(acct_map@, a, ps.take(idx as int), ps[idx as int]);
                    }
                    if is_toself && polarity == Polarity::Incoming && !is_home_curr {
                        lemma_lk_in_write(
                            before,
                            acct_map@,
                            a,
                            ar_num,
                            positions@,
                            idx as int,
                            Some(sum_of_outgoing_lk_cost_basis_in_ar),
                        );
                    }
                    lemma_only_ar_step(before_ar, before, acct_map@, ar_num, a, li as int, mi as int);
                    lemma_same_shape_trans(before_ar, before, acct_map@);
                    lemma_same_shape_trans(m0, before, acct_map@);
                    lemma_ready_same_shape(txns_map@, ars@, before, acct_map@, raw_acct_map@);
                    lemma_positions_same_shape(positions@, before, acct_map@, a, ar_num);
                    let n = mvmt_of(acct_map@, a, li as int, mi as int);
                    assert(lk_rule(mvmt, n, home, txns_map@, ars@, m0, raw_acct_map@));
                    lemma_lk_step(
                        m0,
                        before,
                        acct_map@,
                        a,
                        li as int,
                        mi as int,
                        home,
                        txns_map@,
                        ars@,
                        raw_acct_map@,
                    );
                }
            }
            idx = idx + 1;
        }
        proof {
            lemma_only_txn_step(m0, before_ar, acct_map@, ars@, txn_num, ar_num);
            if is_toself {
                let ps = pos_int(positions@);
                assert(ps.take(positions@.len() as int) =~= ps);
                assert(ars@[v[i as int]] == *ar);
                if polarity == Polarity::Incoming && !raw_acct.is_margin && !is_home_curr {
                    assert forall|n: int| 0 <= n < reached_by(ars@[v[i as int]], before_ar, txns_map@).len() implies lk_incoming_rule(
                        #[trigger] mvmt_of(
                            acct_map@,
                            ars@[v[i as int]].account_key,
                            reached_by(ars@[v[i as int]], before_ar, txns_map@)[n].0,
                            reached_by(ars@[v[i as int]], before_ar, txns_map@)[n].1,
                        ),
                        Some(sum_of_outgoing_lk_cost_basis_in_ar),
                    ) by {
                        assert(ps[n] == reached_by(*ar, before_ar, txns_map@)[n]);
                        assert(mvmt_of(acct_map@, a, positions@[n].0 as int, positions@[n].1 as int)
                            == mvmt_of(acct_map@, a, ps[n].0, ps[n].1));
                    }
                    if i == 1 {
                        lemma_lk_source_frame(
                            txn_num,
                            ar_num,
                            txns_map@,
                            ars@,
                            m0,
                            before_ar,
                            acct_map@,
                            raw_acct_map@,
                            ar_num,
                        );
                    }
                }
                lemma_lk_toself_ar_done(
                    txn_num,
                    home,
                    txns_map@,
                    ars@,
                    raw_acct_map@,
                    m0,
                    before_ar,
                    acct_map@,
                    i as int,
                    Some(sum_of_outgoing_lk_cost_basis_in_ar),
                );
                if i == 0 && polarity == Polarity::Outgoing && !raw_acct.is_margin {
                    let j = choose|j: int| scan_stops_at(ar_candidates(*ar, before_ar, txns_map@), ar.amount, j);
                    lemma_same_shape_sym(m0, before_ar);
                    lemma_reached_same_shape(*ar, before_ar, m0, txns_map@, j);
                }
            }
            if start_ok {
                lemma_ar_raw_same_shape(ars@, before_ar, m0, raw_acct_map@, ar_num);
                lemma_lk_cover_ar_step(
                    home,
                    m0,
                    before_ar,
                    acct_map@,
                    txns_map@,
                    ars@,
                    raw_acct_map@,
                    txn_num,
                    i as int,
                );
            }
        }
        i = i + 1;
    }
    proof {
        if start_ok {
            lemma_lk_cover_next_txn(home, m0, acct_map@, txns_map@, ars@, raw_acct_map@, txn_num);
        }
    }
    Ok(())
}

/// The outgoing side's like-kind basis seen from an incoming action record of transaction
/// `tn` is the same while the like-kind basis of the transaction's outgoing movements is
/// kept.
proof fn lemma_lk_source_kept(
    tn: u32,
    k: u32,
    txns: Map<u32, Transaction>,
    ars: Map<u32, ActionRecord>,
    m0: Map<u16, Account>,
    x: Map<u16, Account>,
    raws: Map<u16, RawAccount>,
)
    requires
        ready(txns, ars, m0, raws),
        lk_basis_kept_except(m0, x, txns, ars, raws, tn),
        txns.contains_key(tn),
    ensures
        lk_source_sum(txns[tn], k, ars, m0, x, txns) == lk_source_sum(txns[tn], k, ars, m0, m0, txns),
{
    let v = txns[tn].action_record_idx_vec@;
    if v.len() == 2 && v[1] == k && spec_direction(ars[v[0]].amount) == Polarity::Outgoing {
        let o = v[0];
        let a0 = ars[o].account_key;
        let reach = reached_by(ars[o], m0, txns);
        lemma_ar_of_txn(txns, ars, m0, raws, tn, 0);
        assert(v.contains(o));
        assert forall|q: int| 0 <= q < reach.len() implies (#[trigger] mvmt_of(
            x,
            a0,
            reach[q].0,
            reach[q].1,
        )).cost_basis_lk == mvmt_of(m0, a0, reach[q].0, reach[q].1).cost_basis_lk by {
            lemma_reached_key(o, q, txns, ars, m0, raws);
        }
        lemma_lk_basis_sum_frame(m0, x, a0, reach);
    }
}

/// When the like-kind bases at the first `n` positions do not add up, neither do those at
/// all of them.
proof fn lemma_lk_sum_prefix_none(x: Map<u16, Account>, a: u16, ps: Seq<(int, int)>, n: int)
    requires
        0 <= n <= ps.len(),
        lk_basis_sum(x, a, ps.take(n)) is None,
    ensures
        lk_basis_sum(x, a, ps) is None,
{
    let f = |p: (int, int)| mvmt_of(x, a, p.0, p.1).cost_basis_lk;
    assert(ps.take(n).map_values(f) =~= ps.map_values(f).take(n));
    if lk_basis_sum(x, a, ps) is Some {
        crate::dec::lemma_dec_sum_prefix(Dec::zero_spec(), ps.map_values(f), n);
    }
}

/// Like-kind treatment of side `i` of exchange `t` fails, the accounts being `accts`: an
/// outgoing side's like-kind basis does not add up, or the share of the outgoing side's
/// like-kind basis of a movement of an incoming side does not fit.
pub open spec fn lk_side_fails(
    t: Transaction,
    i: int,
    accts: Map<u16, Account>,
    ars: Map<u32, ActionRecord>,
    txns: Map<u32, Transaction>,
) -> bool {
    let k = t.action_record_idx_vec@[i];
    let ar = ars[k];
    let reach = reached_by(ar, accts, txns);
    if spec_direction(ar.amount) == Polarity::Outgoing {
        lk_basis_sum(accts, ar.account_key, reach) is None
    } else {
        lk_source_sum(t, k, ars, accts, accts, txns) matches Some(s) && exists|n: int|
            0 <= n < reach.len() && spec_share_of(
                s,
                mvmt_of(
                    accts,
                    ar.account_key,
                    (#[trigger] reach[n]).0,
                    reach[n].1,
                ).ratio_of_amt_to_incoming_mvmts_in_a_r,
            ) is None
    }
}

/// Like-kind treatment of transaction `tn` fails, the accounts being `accts`: the kind of
/// the transaction cannot be told; or it is treated (an exchange outside the home
/// currency `home`, or a flow of two action records) and the scan of one of its action
/// records does not stop; or, in an exchange, a side fails (`lk_side_fails`).
pub open spec fn lk_treat_fails(
    tn: u32,
    home: Seq<char>,
    accts: Map<u16, Account>,
    ars: Map<u32, ActionRecord>,
    raws: Map<u16, RawAccount>,
    txns: Map<u32, Transaction>,
) -> bool {
    let t = txns[tn];
    let v = t.action_record_idx_vec@;
    let treated = lk_exchange(t, home, ars, accts, raws) || (spec_tx_type(t, ars, accts, raws)
        == Ok::<TxType, CryptoolsError>(TxType::Flow) && v.len() == 2);
    ||| spec_tx_type(t, ars, accts, raws) is Err
    ||| treated && exists|i: int|
        0 <= i < v.len() && !(exists|j: int|
            scan_stops_at(ar_candidates(ars[#[trigger] v[i]], accts, txns), ars[v[i]].amount, j))
    ||| lk_exchange(t, home, ars, accts, raws) && exists|i: int|
        0 <= i < v.len() && #[trigger] lk_side_fails(t, i, accts, ars, txns)
}

/// A side of transaction `tn` fails alike in two states of the same shape that agree on
/// the like-kind basis of the transaction's movements, when every scan of it stops.
proof fn lemma_lk_side_same(
    tn: u32,
    i: int,
    x: Map<u16, Account>,
    y: Map<u16, Account>,
    ars: Map<u32, ActionRecord>,
    raws: Map<u16, RawAccount>,
    txns: Map<u32, Transaction>,
)
    requires
        ready(txns, ars, x, raws),
        same_shape(x, y),
        txns.contains_key(tn),
        forall|b: u16, lj: int, mj: int|
            mvmt_at(x, b, lj, mj) && ars[mvmt_of(x, b, lj, mj).action_record_key].tx_key == tn
                ==> (#[trigger] mvmt_of(y, b, lj, mj)).cost_basis_lk == mvmt_of(x, b, lj, mj).cost_basis_lk,
        0 <= i < txns[tn].action_record_idx_vec@.len(),
        forall|ii: int|
            0 <= ii < txns[tn].action_record_idx_vec@.len() ==> exists|j: int|
                scan_stops_at(
                    ar_candidates(ars[#[trigger] txns[tn].action_record_idx_vec@[ii]], x, txns),
                    ars[txns[tn].action_record_idx_vec@[ii]].amount,
                    j,
                ),
    ensures
        lk_side_fails(txns[tn], i, x, ars, txns) == lk_side_fails(txns[tn], i, y, ars, txns),
{
    let t = txns[tn];
    let v = t.action_record_idx_vec@;
    lemma_same_shape_sym(x, y);
    lemma_ready_same_shape(txns, ars, x, y, raws);
        let k = v[i];
    let ar = ars[k];
    lemma_ar_of_txn(txns, ars, x, raws, tn, i);
    assert(v.contains(k));
    if exists|j: int| scan_stops_at(ar_candidates(ar, x, txns), ar.amount, j) {
        let j = choose|j: int| scan_stops_at(ar_candidates(ar, x, txns), ar.amount, j);
        lemma_reached_same_shape(ar, x, y, txns, j);
    } else if exists|j: int| scan_stops_at(ar_candidates(ar, y, txns), ar.amount, j) {
        let j = choose|j: int| scan_stops_at(ar_candidates(ar, y, txns), ar.amount, j);
        lemma_reached_same_shape(ar, y, x, txns, j);
    }
    let reach = reached_by(ar, x, txns);
    if exists|j: int| scan_stops_at(ar_candidates(ar, x, txns), ar.amount, j) {
        assert forall|q: int| 0 <= q < reach.len() implies (#[trigger] mvmt_of(
            y,
            ar.account_key,
            reach[q].0,
            reach[q].1,
        )).cost_basis_lk == mvmt_of(x, ar.account_key, reach[q].0, reach[q].1).cost_basis_lk
            && mvmt_of(y, ar.account_key, reach[q].0, reach[q].1).ratio_of_amt_to_incoming_mvmts_in_a_r
            == mvmt_of(x, ar.account_key, reach[q].0, reach[q].1).ratio_of_amt_to_incoming_mvmts_in_a_r by {
            lemma_reached_key(k, q, txns, ars, x, raws);
            lemma_mvmt_at_same_shape(x, y, ar.account_key, reach[q].0, reach[q].1);
        }
        lemma_lk_basis_sum_frame(x, y, ar.account_key, reach);
    }
    if v.len() == 2 && v[1] == k && spec_direction(ars[v[0]].amount) == Polarity::Outgoing {
        let o = v[0];
        lemma_ar_of_txn(txns, ars, x, raws, tn, 0);
        assert(v.contains(o));
        let r0 = reached_by(ars[o], x, txns);
        if exists|j: int| scan_stops_at(ar_candidates(ars[o], x, txns), ars[o].amount, j) {
            let j = choose|j: int| scan_stops_at(ar_candidates(ars[o], x, txns), ars[o].amount, j);
            lemma_reached_same_shape(ars[o], x, y, txns, j);
        } else if exists|j: int| scan_stops_at(ar_candidates(ars[o], y, txns), ars[o].amount, j) {
            let j = choose|j: int| scan_stops_at(ar_candidates(ars[o], y, txns), ars[o].amount, j);
            lemma_reached_same_shape(ars[o], y, x, txns, j);
        }
        if exists|j: int| scan_stops_at(ar_candidates(ars[o], x, txns), ars[o].amount, j) {
            assert forall|q: int| 0 <= q < r0.len() implies (#[trigger] mvmt_of(
                y,
                ars[o].account_key,
                r0[q].0,
                r0[q].1,
            )).cost_basis_lk == mvmt_of(x, ars[o].account_key, r0[q].0, r0[q].1).cost_basis_lk by {
                lemma_reached_key(o, q, txns, ars, x, raws);
            }
            lemma_lk_basis_sum_frame(x, y, ars[o].account_key, r0);
        }
    }
}

/// Whether like-kind treatment of transaction `tn` fails depends only on the shape of the
/// accounts and on the like-kind basis of the transaction's own movements.
#[verifier::rlimit(80)]
proof fn lemma_lk_treat_fails_same(
    tn: u32,
    home: Seq<char>,
    x: Map<u16, Account>,
    y: Map<u16, Account>,
    ars: Map<u32, ActionRecord>,
    raws: Map<u16, RawAccount>,
    txns: Map<u32, Transaction>,
)
    requires
        ready(txns, ars, x, raws),
        same_shape(x, y),
        txns.contains_key(tn),
        forall|b: u16, lj: int, mj: int|
            mvmt_at(x, b, lj, mj) && ars[mvmt_of(x, b, lj, mj).action_record_key].tx_key == tn
                ==> (#[trigger] mvmt_of(y, b, lj, mj)).cost_basis_lk == mvmt_of(x, b, lj, mj).cost_basis_lk,
    ensures
        lk_treat_fails(tn, home, x, ars, raws, txns) == lk_treat_fails(tn, home, y, ars, raws, txns),
{
    let t = txns[tn];
    let v = t.action_record_idx_vec@;
    lemma_tx_type_same_shape(txns, ars, x, y, raws, tn);
    lemma_lk_exchange_same_shape(tn, home, txns, ars, raws, x, y);
    lemma_ready_same_shape(txns, ars, x, y, raws);
    lemma_same_shape_sym(x, y);
    assert forall|i: int| 0 <= i < v.len() implies (exists|j: int|
        scan_stops_at(ar_candidates(ars[#[trigger] v[i]], x, txns), ars[v[i]].amount, j)) == (exists|j: int|
        scan_stops_at(ar_candidates(ars[v[i]], y, txns), ars[v[i]].amount, j)) by {
        let ar = ars[v[i]];
        lemma_ar_of_txn(txns, ars, x, raws, tn, i);
        if exists|j: int| scan_stops_at(ar_candidates(ar, x, txns), ar.amount, j) {
            let j = choose|j: int| scan_stops_at(ar_candidates(ar, x, txns), ar.amount, j);
            lemma_reached_same_shape(ar, x, y, txns, j);
        } else if exists|j: int| scan_stops_at(ar_candidates(ar, y, txns), ar.amount, j) {
            let j = choose|j: int| scan_stops_at(ar_candidates(ar, y, txns), ar.amount, j);
            lemma_reached_same_shape(ar, y, x, txns, j);
        }
    }
    if forall|i: int|
        0 <= i < v.len() ==> exists|j: int|
            scan_stops_at(ar_candidates(ars[#[trigger] v[i]], x, txns), ars[v[i]].amount, j) {
        assert forall|i: int| 0 <= i < v.len() implies lk_side_fails(t, i, x, ars, txns)
            == #[trigger] lk_side_fails(t, i, y, ars, txns) by {
            lemma_lk_side_same(tn, i, x, y, ars, raws, txns);
        }
        assert forall|i: int| 0 <= i < v.len() implies exists|j: int|
            scan_stops_at(ar_candidates(ars[#[trigger] v[i]], y, txns), ars[v[i]].amount, j) by {}
        if exists|i: int| 0 <= i < v.len() && #[trigger] lk_side_fails(t, i, x, ars, txns) {
            let i1 = choose|i: int| 0 <= i < v.len() && #[trigger] lk_side_fails(t, i, x, ars, txns);
            assert(lk_side_fails(t, i1, y, ars, txns));
        }
        if exists|i: int| 0 <= i < v.len() && #[trigger] lk_side_fails(t, i, y, ars, txns) {
            let i1 = choose|i: int| 0 <= i < v.len() && #[trigger] lk_side_fails(t, i, y, ars, txns);
            assert(lk_side_fails(t, i1, x, ars, txns));
        }
    } else {
        let i0 = choose|i: int|
            0 <= i < v.len() && !(exists|j: int|
                scan_stops_at(ar_candidates(ars[#[trigger] v[i]], x, txns), ars[v[i]].amount, j));
        assert(!(exists|j: int| scan_stops_at(ar_candidates(ars[v[i0]], y, txns), ars[v[i0]].amount, j)));
    }
}

/// Like-kind treatment of transaction `txn_num`: in an exchange between two accounts
/// outside the home currency, the outgoing side's like-kind basis is cancelled by its
/// like-kind proceeds and carried over to the incoming side (in proportion, rounded to
/// 2 places); in a two-record flow (a margin profit or loss), the incoming movements
/// get zero basis and proceeds.
#[verifier::rlimit(40)]
fn perform_likekind_treatment_on_txn(
    txn_num: u32,
    settings: &ImportProcessParameters,
    raw_acct_map: &HashMap<u16, RawAccount>,
    acct_map: &mut HashMap<u16, Account>,
    ars: &HashMap<u32, ActionRecord>,
    txns_map: &HashMap<u32, Transaction>,
) -> (r: Result<(), CryptoolsError>)
    requires
        ready(txns_map@, ars@, old(acct_map)@, raw_acct_map@),
        txns_map@.contains_key(txn_num),
    ensures
        r is Ok ==> same_shape(old(acct_map)@, final(acct_map)@),
        r is Ok ==> lk_changes(
            old(acct_map)@,
            final(acct_map)@,
            settings.home_currency@,
            txns_map@,
            ars@,
            raw_acct_map@,
        ),
        r is Ok ==> lk_basis_kept_except(
            old(acct_map)@,
            final(acct_map)@,
            txns_map@,
            ars@,
            raw_acct_map@,
            txn_num,
        ),
        r is Ok ==> only_txn_changed(old(acct_map)@, final(acct_map)@, ars@, txn_num),
        r is Ok && lk_exchange(
            txns_map@[txn_num],
            settings.home_currency@,
            ars@,
            old(acct_map)@,
            raw_acct_map@,
        ) ==> lk_exchange_done(
            txns_map@[txn_num],
            txns_map@[txn_num].action_record_idx_vec@.len() as int,
            ars@,
            old(acct_map)@,
            final(acct_map)@,
            txns_map@,
        ),
        r is Ok && spec_tx_type(txns_map@[txn_num], ars@, old(acct_map)@, raw_acct_map@) == Ok::<
            TxType,
            CryptoolsError,
        >(TxType::ToSelf) ==> final(acct_map)@ == old(acct_map)@,
        r is Err <==> lk_treat_fails(
            txn_num,
            settings.home_currency@,
            old(acct_map)@,
            ars@,
            raw_acct_map@,
            txns_map@,
        ),
{
    let ghost m0 = acct_map@;
    let ghost home = settings.home_currency@;
    proof {
        lemma_same_shape_refl(m0);
        lemma_lk_changes_refl(m0, home, txns_map@, ars@, raw_acct_map@);
        assert forall|b: u16, lj: int, mj: int| mvmt_at(m0, b, lj, mj) implies (
        #[trigger] mvmt_of(m0, b, lj, mj)).cost_basis_lk == mvmt_of(m0, b, lj, mj).cost_basis_lk by {}
        assert(lk_basis_kept_except(m0, m0, txns_map@, ars@, raw_acct_map@, txn_num));
        assert forall|b: u16, lj: int, mj: int|
            mvmt_at(m0, b, lj, mj) && ars@[mvmt_of(m0, b, lj, mj).action_record_key].tx_key
                != txn_num implies #[trigger] mvmt_of(m0, b, lj, mj) == mvmt_of(m0, b, lj, mj) by {}
        lemma_ar_of_txn(txns_map@, ars@, acct_map@, raw_acct_map@, txn_num, 0);
    }
    let txn = txns_map.get(&txn_num).unwrap();
    let tx_type = txn.transaction_type(ars, raw_acct_map, acct_map)?;
    let home_currency = settings.home_currency.as_str();
    let treat_exchange = match tx_type {
        TxType::Exchange => txn.both_exch_ars_are_non_home_curr(
            ars,
            raw_acct_map,
            acct_map,
            home_currency,
        )?,
        _ => false,
    };
    let treat_flow = tx_type == TxType::Flow && txn.action_record_idx_vec.len() == 2;
    if !treat_exchange && !treat_flow {
        return Ok(());
    }
    let mut sum_of_outgoing_lk_cost_basis_in_ar = Dec::zero();
    let ghost v = txn.action_record_idx_vec@;
    let ghost t = *txn;
    proof {
        if v.len() == 2 {
            lemma_ar_of_txn(txns_map@, ars@, m0, raw_acct_map@, txn_num, 1);
        }
    }
    let mut i: usize = 0;
    while i < txn.action_record_idx_vec.len()
        invariant
            i <= txn.action_record_idx_vec@.len(),
            txns_map@.contains_key(txn_num),
            *txn == txns_map@[txn_num],
            ready(txns_map@, ars@, acct_map@, raw_acct_map@),
            ready(txns_map@, ars@, m0, raw_acct_map@),
            same_shape(m0, acct_map@),
            m0 == old(acct_map)@,
            home == settings.home_currency@,
            lk_changes(m0, acct_map@, home, txns_map@, ars@, raw_acct_map@),
            spec_tx_type(*txn, ars@, m0, raw_acct_map@) == Ok::<TxType, CryptoolsError>(tx_type),
            treat_exchange ==> tx_type == TxType::Exchange,
            treat_flow ==> tx_type == TxType::Flow && txn.action_record_idx_vec@.len() == 2,
            treat_exchange || treat_flow,
            lk_basis_kept_except(m0, acct_map@, txns_map@, ars@, raw_acct_map@, txn_num),
            v == txn.action_record_idx_vec@,
            t == *txn,
            treat_exchange == lk_exchange(t, home, ars@, m0, raw_acct_map@),
            treat_exchange ==> v.len() == 2 && v[0] != v[1] && spec_direction(ars@[v[0]].amount)
                != spec_direction(ars@[v[1]].amount),
            treat_exchange ==> lk_exchange_done(t, i as int, ars@, m0, acct_map@, txns_map@),
            only_txn_changed(m0, acct_map@, ars@, txn_num),
            treat_exchange && (i == 0 || (i == 1 && spec_direction(ars@[v[0]].amount)
                == Polarity::Incoming)) ==> sum_of_outgoing_lk_cost_basis_in_ar == Dec::zero_spec(),
            treat_exchange && i == 1 && spec_direction(ars@[v[0]].amount) == Polarity::Outgoing
                ==> Some(sum_of_outgoing_lk_cost_basis_in_ar) == lk_basis_sum(
                acct_map@,
                ars@[v[0]].account_key,
                reached_by(ars@[v[0]], m0, txns_map@),
            ),
            forall|ii: int|
                0 <= ii < i ==> exists|j: int|
                    scan_stops_at(ar_candidates(ars@[#[trigger] v[ii]], m0, txns_map@), ars@[v[ii]].amount, j),
            treat_exchange ==> forall|ii: int| 0 <= ii < i ==> !#[trigger] lk_side_fails(t, ii, m0, ars@, txns_map@),
        decreases txn.action_record_idx_vec@.len() - i,
    {
        proof {
            lemma_ar_of_txn(txns_map@, ars@, acct_map@, raw_acct_map@, txn_num, i as int);
        }
        let ar_num = txn.action_record_idx_vec[i];
        let ar = ars.get(&ar_num).unwrap();
        let a = ar.account_key;
        proof {
            assert(txn.action_record_idx_vec@[i as int] == ar_num);
        }
        let ghost before_ar = acct_map@;
        let positions = match positions_of(ar, acct_map, txns_map) {
            Ok(x) => x,
            Err(e) => {
                proof {
                    if exists|j: int| scan_stops_at(ar_candidates(*ar, m0, txns_map@), ar.amount, j) {
                        let j = choose|j: int| scan_stops_at(ar_candidates(*ar, m0, txns_map@), ar.amount, j);
                        lemma_reached_same_shape(*ar, m0, acct_map@, txns_map@, j);
                    }
                    assert(v[i as int] == ar_num);
                    assert(!(exists|j: int|
                        scan_stops_at(ar_candidates(ars@[v[i as int]], m0, txns_map@), ars@[v[i as int]].amount, j)));
                }
                return Err(e);
            },
        };
        let ghost ps0 = pos_int(positions@);
        proof {
            let j = choose|j: int| scan_stops_at(ar_candidates(*ar, before_ar, txns_map@), ar.amount, j);
            lemma_same_shape_sym(m0, before_ar);
            lemma_reached_same_shape(*ar, before_ar, m0, txns_map@, j);
            if treat_exchange && ar.amount.val() >= 0 {
                lemma_lk_source_kept(txn_num, ar_num, txns_map@, ars@, m0, acct_map@, raw_acct_map@);
            }
        }
        let polarity = ar.direction();
        proof {
            lemma_same_shape_refl(before_ar);
            assert forall|b: u16, lj: int, mj: int|
                mvmt_at(before_ar, b, lj, mj) && mvmt_of(before_ar, b, lj, mj).action_record_key
                    != ar_num implies #[trigger] mvmt_of(before_ar, b, lj, mj) == mvmt_of(
                before_ar,
                b,
                lj,
                mj,
            ) by {}
            assert(pos_int(positions@).take(0) =~= Seq::<(int, int)>::empty());
            assert(Seq::<(int, int)>::empty().map_values(
                |p: (int, int)| mvmt_of(acct_map@, a, p.0, p.1).cost_basis_lk,
            ) =~= Seq::<Dec>::empty());
            if treat_exchange && polarity == Polarity::Incoming && v[1] == ar_num
                && spec_direction(ars@[v[0]].amount) == Polarity::Outgoing {
                assert(i == 1);
            }
        }
        let mut idx: usize = 0;
        while idx < positions.len()
            invariant
                idx <= positions@.len(),
                ready(txns_map@, ars@, acct_map@, raw_acct_map@),
                same_shape(m0, acct_map@),
                positions_of_ar(positions@, acct_map@, a, ar_num),
                ready(txns_map@, ars@, m0, raw_acct_map@),
                txns_map@.contains_key(txn_num),
                *txn == txns_map@[txn_num],
                ars@.contains_key(ar_num),
                *ar == ars@[ar_num],
                a == ar.account_key,
                ar.tx_key == txn_num,
                txn.action_record_idx_vec@.contains(ar_num),
                polarity == spec_direction(ar.amount),
                home == settings.home_currency@,
                lk_changes(m0, acct_map@, home, txns_map@, ars@, raw_acct_map@),
                spec_tx_type(*txn, ars@, m0, raw_acct_map@) == Ok::<TxType, CryptoolsError>(tx_type),
                treat_exchange ==> tx_type == TxType::Exchange,
                treat_flow ==> tx_type == TxType::Flow && txn.action_record_idx_vec@.len() == 2,
                treat_exchange || treat_flow,
                m0 == old(acct_map)@,
                lk_basis_kept_except(m0, acct_map@, txns_map@, ars@, raw_acct_map@, txn_num),
                v == txn.action_record_idx_vec@,
                t == *txn,
                v[i as int] == ar_num,
                i < v.len(),
                same_shape(m0, before_ar),
                same_shape(before_ar, acct_map@),
                only_ar_changed(before_ar, acct_map@, ar_num),
                pos_int(positions@) == reached_by(*ar, before_ar, txns_map@),
                treat_exchange == lk_exchange(t, home, ars@, m0, raw_acct_map@),
                treat_exchange ==> v.len() == 2 && v[0] != v[1] && spec_direction(ars@[v[0]].amount)
                    != spec_direction(ars@[v[1]].amount),
                treat_exchange ==> lk_exchange_done(t, i as int, ars@, m0, before_ar, txns_map@),
                treat_exchange && (i == 0 || spec_direction(ars@[v[0]].amount) == Polarity::Incoming)
                    ==> (polarity == Polarity::Outgoing || sum_of_outgoing_lk_cost_basis_in_ar
                    == Dec::zero_spec()),
                treat_exchange && polarity == Polarity::Outgoing ==> Some(
                    sum_of_outgoing_lk_cost_basis_in_ar,
                ) == lk_basis_sum(acct_map@, a, pos_int(positions@).take(idx as int)),
                treat_exchange && polarity == Polarity::Incoming ==> lk_source_sum(
                    t,
                    ar_num,
                    ars@,
                    m0,
                    acct_map@,
                    txns_map@,
                ) == Some(sum_of_outgoing_lk_cost_basis_in_ar),
                exists|j: int| scan_stops_at(ar_candidates(*ar, before_ar, txns_map@), ar.amount, j),
                ps0 == pos_int(positions@),
                ps0 == reached_by(*ar, m0, txns_map@),
                forall|ii: int|
                    0 <= ii < i ==> exists|j: int|
                        scan_stops_at(ar_candidates(ars@[#[trigger] v[ii]], m0, txns_map@), ars@[v[ii]].amount, j),
                treat_exchange ==> forall|ii: int| 0 <= ii < i ==> !#[trigger] lk_side_fails(t, ii, m0, ars@, txns_map@),
                treat_exchange && polarity == Polarity::Incoming ==> lk_source_sum(t, ar_num, ars@, m0, m0, txns_map@)
                    == Some(sum_of_outgoing_lk_cost_basis_in_ar),
                treat_exchange && polarity == Polarity::Incoming ==> forall|q: int|
                    0 <= q < idx ==> spec_share_of(
                        sum_of_outgoing_lk_cost_basis_in_ar,
                        mvmt_of(m0, a, (#[trigger] ps0[q]).0, ps0[q].1).ratio_of_amt_to_incoming_mvmts_in_a_r,
                    ) is Some,
                treat_exchange && polarity == Polarity::Incoming ==> forall|q: int|
                    0 <= q < idx ==> lk_incoming_rule(
                        #[trigger] mvmt_of(acct_map@, a, positions@[q].0 as int, positions@[q].1 as int),
                        Some(sum_of_outgoing_lk_cost_basis_in_ar),
                    ),
            decreases positions@.len() - idx,
        {
            let (li, mi) = positions[idx];
            proof {
                assert(mvmt_at(acct_map@, a, li as int, mi as int));
                lemma_lot_of_position(acct_map@, ars@, a, li as int, mi as int);
            }
            let mvmt = acct_map.get(&a).unwrap().list_of_lots[li].movements[mi].clone();
            let ghost old_sum = sum_of_outgoing_lk_cost_basis_in_ar;
            let mut cost_basis = mvmt.cost_basis;
            let mut cost_basis_lk = mvmt.cost_basis_lk;
            let mut proceeds = mvmt.proceeds;
            let mut proceeds_lk = mvmt.proceeds_lk;
            if treat_exchange {
                match polarity {
                    Polarity::Outgoing => {
                        let cb = mvmt.cost_basis_lk;
                        sum_of_outgoing_lk_cost_basis_in_ar = match sum_of_outgoing_lk_cost_basis_in_ar.checked_add(
                            &cb,
                        ) {
                            Some(x) => x,
                            None => {
                                proof {
                                    lemma_lk_basis_sum_push(acct_map@, a, ps0.take(idx as int), ps0[idx as int]);
                                    assert(ps0.take(idx + 1) =~= ps0.take(idx as int).push(ps0[idx as int]));
                                    lemma_lk_sum_prefix_none(acct_map@, a, ps0, idx + 1);
                                    assert forall|q: int| 0 <= q < ps0.len() implies (#[trigger] mvmt_of(
                                        acct_map@,
                                        a,
                                        ps0[q].0,
                                        ps0[q].1,
                                    )).cost_basis_lk == mvmt_of(m0, a, ps0[q].0, ps0[q].1).cost_basis_lk by {
                                        lemma_reached_key(ar_num, q, txns_map@, ars@, m0, raw_acct_map@);
                                    }
                                    lemma_lk_basis_sum_frame(m0, acct_map@, a, ps0);
                                    assert(v[i as int] == ar_num);
                                    assert(lk_side_fails(t, i as int, m0, ars@, txns_map@));
                                }
                                return Err(CryptoolsError::DecimalOverflow { tx_number: txn_num });
                            },
                        };
                        proceeds_lk = cb.neg();
                    },
                    Polarity::Incoming => {
                        let rounded_basis = match share_of(
                            &sum_of_outgoing_lk_cost_basis_in_ar,
                            &mvmt.ratio_of_amt_to_incoming_mvmts_in_a_r,
                            txn_num,
                        ) {
                            Ok(x) => x,
                            Err(e) => {
                                proof {
                                    lemma_same_shape_sym(m0, acct_map@);
                                    lemma_mvmt_at_same_shape(acct_map@, m0, a, li as int, mi as int);
                                    assert(ps0[idx as int] == (li as int, mi as int));
                                    assert(v[i as int] == ar_num);
                                    assert(lk_side_fails(t, i as int, m0, ars@, txns_map@));
                                }
                                return Err(e);
                            },
                        };
                        cost_basis_lk = rounded_basis.neg();
                        proceeds_lk = rounded_basis;
                    },
                }
            } else {
                match polarity {
                    Polarity::Outgoing => {},
                    Polarity::Incoming => {
                        cost_basis = Dec::zero();
                        proceeds = Dec::zero();
                    },
                }
            }
            let ghost before = acct_map@;
            let ghost sum_before = old_sum;
            proof {
                assert(mvmt == mvmt_of(before, a, li as int, mi as int));
                assert(mvmt.action_record_key == ar_num);
            }
            set_mvmt_values(acct_map, a, li, mi, cost_basis, cost_basis_lk, proceeds, proceeds_lk);
            proof {
                lemma_only_ar_step(before_ar, before, acct_map@, ar_num, a, li as int, mi as int);
                lemma_same_shape_trans(before_ar, before, acct_map@);
                if treat_exchange && polarity == Polarity::Outgoing {
                    let ps = pos_int(positions@);
                    assert forall|q: int| 0 <= q < ps.take(idx as int).len() implies (
                    #[trigger] mvmt_of(
                        acct_map@,
                        a,
                        ps.take(idx as int)[q].0,
                        ps.take(idx as int)[q].1,
                    )).cost_basis_lk == mvmt_of(
                        before,
                        a,
                        ps.take(idx as int)[q].0,
                        ps.take(idx as int)[q].1,
                    ).cost_basis_lk by {
                        let pq = ps.take(idx as int)[q];
                        assert(pq == ps[q]);
                        assert(mvmt_at(before, a, positions@[q].0 as int, positions@[q].1 as int));
                    }
                    lemma_lk_basis_sum_frame(before, acct_map@, a, ps.take(idx as int));
                    assert(ps.take(idx + 1) =~= ps.take(idx as int).push(ps[idx as int]));
                    lemma_lk_basis_sum_push(acct_map@, a, ps.take(idx as int), ps[idx as int]);
                }
                if treat_exchange && polarity == Polarity::Incoming {
                    if ar_num != v[0] {
                        lemma_lk_source_frame(
                            txn_num,
                            ar_num,
                            txns_map@,
                            ars@,
                            m0,
                            before,
                            acct_map@,
                            raw_acct_map@,
                            ar_num,
                        );
                    }
                    lemma_lk_in_write(
                        before,
                        acct_map@,
                        a,
                        ar_num,
                        positions@,
                        idx as int,
                        Some(sum_of_outgoing_lk_cost_basis_in_ar),
                    );
                }
                lemma_same_shape_trans(m0, before, acct_map@);
                lemma_ready_same_shape(txns_map@, ars@, before, acct_map@, raw_acct_map@);
                lemma_positions_same_shape(positions@, before, acct_map@, a, ar_num);
                let n = mvmt_of(acct_map@, a, li as int, mi as int);
                assert(lk_rule(mvmt, n, home, txns_map@, ars@, m0, raw_acct_map@));
                lemma_lk_step(
                    m0,
                    before,
                    acct_map@,
                    a,
                    li as int,
                    mi as int,
                    home,
                    txns_map@,
                    ars@,
                    raw_acct_map@,
                );
                lemma_lk_kept_step(
                    m0,
                    before,
                    acct_map@,
                    txns_map@,
                    ars@,
                    raw_acct_map@,
                    txn_num,
                    a,
                    li as int,
                    mi as int,
                );
            }
            idx = idx + 1;
        }
        proof {
            lemma_only_txn_step(m0, before_ar, acct_map@, ars@, txn_num, ar_num);
            if treat_exchange {
                let ps = pos_int(positions@);
                assert(ps.take(positions@.len() as int) =~= ps);
                assert(v[i as int] == ar_num);
                if polarity == Polarity::Outgoing {
                    assert forall|q: int| 0 <= q < ps0.len() implies (#[trigger] mvmt_of(
                        acct_map@,
                        a,
                        ps0[q].0,
                        ps0[q].1,
                    )).cost_basis_lk == mvmt_of(m0, a, ps0[q].0, ps0[q].1).cost_basis_lk by {
                        lemma_reached_key(ar_num, q, txns_map@, ars@, m0, raw_acct_map@);
                    }
                    lemma_lk_basis_sum_frame(m0, acct_map@, a, ps0);
                }
                assert(!lk_side_fails(t, i as int, m0, ars@, txns_map@));
                assert(ars@[v[i as int]] == *ar);
                if polarity == Polarity::Incoming {
                    assert forall|n: int| 0 <= n < reached_by(ars@[v[i as int]], before_ar, txns_map@).len() implies lk_incoming_rule(
                        #[trigger] mvmt_of(
                            acct_map@,
                            ars@[v[i as int]].account_key,
                            reached_by(ars@[v[i as int]], before_ar, txns_map@)[n].0,
                            reached_by(ars@[v[i as int]], before_ar, txns_map@)[n].1,
                        ),
                        Some(sum_of_outgoing_lk_cost_basis_in_ar),
                    ) by {
                        assert(ps[n] == reached_by(*ar, before_ar, txns_map@)[n]);
                        assert(mvmt_of(acct_map@, a, positions@[n].0 as int, positions@[n].1 as int)
                            == mvmt_of(acct_map@, a, ps[n].0, ps[n].1));
                    }
                }
                lemma_lk_exchange_ar_done(
                    txn_num,
                    txns_map@,
                    ars@,
                    raw_acct_map@,
                    m0,
                    before_ar,
                    acct_map@,
                    i as int,
                    Some(sum_of_outgoing_lk_cost_basis_in_ar),
                );
                if i == 0 && polarity == Polarity::Outgoing {
                    let j = choose|j: int| scan_stops_at(ar_candidates(*ar, before_ar, txns_map@), ar.amount, j);
                    lemma_same_shape_sym(m0, before_ar);
                    lemma_reached_same_shape(*ar, before_ar, m0, txns_map@, j);
                }
            }
        }
        i = i + 1;
    }
    Ok(())
}

/// Like-kind treatment stops at transaction `t`, the accounts being `pre` (of the same
/// shape as `old`, the earlier transactions treated): carrying like-kind basis into one
/// of its action records may fail (`lk_carry_may_fail`), or it is dated no later than the
/// cut-off date `cutoff` and treating it fails (`lk_treat_fails`).
pub open spec fn lk_fails_at(
    t: u32,
    home: Seq<char>,
    cutoff: int,
    old: Map<u16, Account>,
    pre: Map<u16, Account>,
    ars: Map<u32, ActionRecord>,
    raws: Map<u16, RawAccount>,
    txns: Map<u32, Transaction>,
) -> bool {
    &&& same_shape(old, pre)
    &&& (exists|i: int|
        0 <= i < txns[t].action_record_idx_vec@.len() && #[trigger] lk_carry_may_fail(
            t,
            i,
            home,
            pre,
            ars,
            raws,
            txns,
        )) || (txns[t].date.day_num() <= cutoff && lk_treat_fails(t, home, pre, ars, raws, txns))
}

/// Applies like-kind treatment, transaction by transaction in number order: each first
/// carries over like-kind basis from earlier treatment, and a transaction dated no later
/// than the cut-off date is then treated itself.  Every movement changes only as
/// `lk_changes` allows; with the lots ordered and owned as `create_lots_and_movements`
/// leaves them, every outgoing movement reached (outside margin and the home currency)
/// ends with its share of the like-kind basis of its lot's first movement
/// (`lk_outgoing_cover`); and in every exchange treated (outside the home currency, dated
/// no later than the cut-off date), each incoming movement takes its share of the
/// outgoing side's like-kind basis (`lk_exchanges_cover`), as does each incoming movement
/// of a transfer to oneself outside margin and the home currency (`lk_toselfs_cover`).
/// The movements of transactions dated after the cut-off date keep their cost basis and
/// proceeds (`orig_values_kept_after`); only their like-kind values may change.  On an
/// error, treatment stopped at some transaction (`lk_fails_at`).
pub fn apply_like_kind_treatment(
    settings: &ImportProcessParameters,
    raw_acct_map: &HashMap<u16, RawAccount>,
    acct_map: &mut HashMap<u16, Account>,
    ars: &HashMap<u32, ActionRecord>,
    txns_map: &HashMap<u32, Transaction>,
) -> (r: Result<(), CryptoolsError>)
    requires
        ledger_wf(txns_map@, txns_map@.len() as int, ars@, old(acct_map)@, raw_acct_map@),
        txns_map@.len() < u32::MAX,
    ensures
        r is Ok ==> same_shape(old(acct_map)@, final(acct_map)@),
        r is Ok ==> orig_values_kept_after(
            old(acct_map)@,
            final(acct_map)@,
            txns_map@,
            ars@,
            settings.lk_cutoff_date.day_num(),
        ),
        r is Ok ==> lk_changes(
            old(acct_map)@,
            final(acct_map)@,
            settings.home_currency@,
            txns_map@,
            ars@,
            raw_acct_map@,
        ),
        r is Ok && lots_ordered(
            txns_map@,
            ars@,
            old(acct_map)@,
            raw_acct_map@,
            settings.home_currency@,
        ) && mvmts_owned(txns_map@, ars@, old(acct_map)@) ==> lk_outgoing_cover(
            settings.home_currency@,
            final(acct_map)@,
            final(acct_map)@,
            txns_map@,
            ars@,
            raw_acct_map@,
            |k: u32| ar_of_txns(k, txns_map@.len() as int, txns_map@, ars@),
        ),
        r is Ok ==> lk_exchanges_cover(
            settings.home_currency@,
            settings.lk_cutoff_date.day_num(),
            final(acct_map)@,
            final(acct_map)@,
            txns_map@,
            ars@,
            raw_acct_map@,
            txns_map@.len() as int + 1,
        ),        r is Ok ==> lk_toselfs_cover(
            settings.home_currency@,
            final(acct_map)@,
            final(acct_map)@,
            txns_map@,
            ars@,
            raw_acct_map@,
            txns_map@.len() as int + 1,
        ),
        (exists|t: u32, i: int|
            1 <= t <= txns_map@.len() && 0 <= i < txns_map@[t].action_record_idx_vec@.len()
                && #[trigger] ar_basis_fails_surely(t, i, old(acct_map)@, ars@, raw_acct_map@, txns_map@))
            ==> r is Err,
        (forall|t: u32, i: int|
            1 <= t <= txns_map@.len() && 0 <= i < txns_map@[t].action_record_idx_vec@.len()
                ==> #[trigger] ar_basis_untouched(t, i, old(acct_map)@, ars@, raw_acct_map@, txns_map@))
            && (forall|t: u32|
            1 <= t <= txns_map@.len() && txns_map@[t].date.day_num()
                <= settings.lk_cutoff_date.day_num() ==> !#[trigger] lk_treat_fails(
                t,
                settings.home_currency@,
                old(acct_map)@,
                ars@,
                raw_acct_map@,
                txns_map@,
            )) ==> r is Ok,
        r is Err ==> exists|t: u32, pre: Map<u16, Account>|
            1 <= t <= txns_map@.len() && #[trigger] lk_fails_at(
                t,
                settings.home_currency@,
                settings.lk_cutoff_date.day_num(),
                old(acct_map)@,
                pre,
                ars@,
                raw_acct_map@,
                txns_map@,
            ),
{
    let ghost m0 = acct_map@;
    let ghost home = settings.home_currency@;
    let ghost ok0 = lots_ordered(txns_map@, ars@, m0, raw_acct_map@, home) && mvmts_owned(
        txns_map@,
        ars@,
        m0,
    );
    let length = txns_map.len();
    let cutoff_date = settings.lk_cutoff_date;
    proof {
        lemma_same_shape_refl(m0);
        lemma_lk_changes_refl(m0, home, txns_map@, ars@, raw_acct_map@);
        lemma_lk_cover_none(home, m0, txns_map@, ars@, raw_acct_map@);
        assert(lk_exchanges_cover(home, cutoff_date.day_num(), m0, m0, txns_map@, ars@, raw_acct_map@, 1));
        assert(lk_toselfs_cover(home, m0, m0, txns_map@, ars@, raw_acct_map@, 1));
    }
    let mut num: u32 = 1;
    while (num as usize) <= length
        invariant
            1 <= num <= length + 1,
            length == txns_map@.len(),
            length < u32::MAX,
            forall|t: u32| 1 <= t <= length ==> #[trigger] txns_map@.contains_key(t),
            ready(txns_map@, ars@, acct_map@, raw_acct_map@),
            same_shape(m0, acct_map@),
            m0 == old(acct_map)@,
            ready(txns_map@, ars@, m0, raw_acct_map@),
            home == settings.home_currency@,
            lk_changes(m0, acct_map@, home, txns_map@, ars@, raw_acct_map@),
            cutoff_date == settings.lk_cutoff_date,
            orig_values_kept_after(m0, acct_map@, txns_map@, ars@, cutoff_date.day_num()),
            lk_exchanges_cover(
                home,
                cutoff_date.day_num(),
                acct_map@,
                acct_map@,
                txns_map@,
                ars@,
                raw_acct_map@,
                num as int,
            ),
            lk_toselfs_cover(home, acct_map@, acct_map@, txns_map@, ars@, raw_acct_map@, num as int),
            forall|t: u32, i: int|
                1 <= t < num && 0 <= i < txns_map@[t].action_record_idx_vec@.len() ==> !#[trigger] ar_basis_fails_surely(
                    t,
                    i,
                    m0,
                    ars@,
                    raw_acct_map@,
                    txns_map@,
                ),
            forall|b: u16, lj: int, mj: int|
                mvmt_at(m0, b, lj, mj) && ars@[mvmt_of(m0, b, lj, mj).action_record_key].tx_key >= num
                    ==> #[trigger] mvmt_of(acct_map@, b, lj, mj) == mvmt_of(m0, b, lj, mj),
            ok0 ==> lots_ordered(txns_map@, ars@, acct_map@, raw_acct_map@, home),
            ok0 ==> mvmts_owned(txns_map@, ars@, acct_map@),
            ok0 ==> lk_outgoing_cover(
                home,
                acct_map@,
                acct_map@,
                txns_map@,
                ars@,
                raw_acct_map@,
                |k: u32| processed_before(k, num, 0, txns_map@, ars@),
            ),
        decreases length + 1 - num,
    {
        let txn = txns_map.get(&num).unwrap();
        let ghost before = acct_map@;
        proof {
            assert forall|i: int| 0 <= i < txns_map@[num].action_record_idx_vec@.len() implies ar_basis_fails_surely(
                num,
                i,
                m0,
                ars@,
                raw_acct_map@,
                txns_map@,
            ) == #[trigger] ar_basis_fails_surely(num, i, before, ars@, raw_acct_map@, txns_map@)
                && ar_basis_untouched(num, i, m0, ars@, raw_acct_map@, txns_map@) == ar_basis_untouched(
                num,
                i,
                before,
                ars@,
                raw_acct_map@,
                txns_map@,
            ) by {
                lemma_ar_basis_checks_same_shape(num, i, m0, before, ars@, raw_acct_map@, txns_map@);
            }
        }
        match update_current_txn_for_prior_likekind_treatment(
            num,
            settings,
            raw_acct_map,
            acct_map,
            ars,
            txns_map,
        ) {
            Ok(()) => {},
            Err(e) => {
                proof {
                    if forall|i: int|
                        0 <= i < txns_map@[num].action_record_idx_vec@.len() ==> #[trigger] ar_basis_untouched(
                            num,
                            i,
                            m0,
                            ars@,
                            raw_acct_map@,
                            txns_map@,
                        ) {
                        assert forall|i: int| 0 <= i < txns_map@[num].action_record_idx_vec@.len() implies #[trigger] ar_basis_untouched(
                            num,
                            i,
                            before,
                            ars@,
                            raw_acct_map@,
                            txns_map@,
                        ) by {
                            assert(ar_basis_fails_surely(num, i, before, ars@, raw_acct_map@, txns_map@)
                                == ar_basis_fails_surely(num, i, m0, ars@, raw_acct_map@, txns_map@));
                        }
                    }
                    assert(lk_fails_at(num, home, cutoff_date.day_num(), m0, before, ars@, raw_acct_map@, txns_map@));
                }
                return Err(e);
            },
        }
        proof {
            assert forall|i: int| 0 <= i < txns_map@[num].action_record_idx_vec@.len() implies !#[trigger] ar_basis_fails_surely(
                num,
                i,
                m0,
                ars@,
                raw_acct_map@,
                txns_map@,
            ) by {
                assert(ar_basis_fails_surely(num, i, before, ars@, raw_acct_map@, txns_map@)
                    == ar_basis_fails_surely(num, i, m0, ars@, raw_acct_map@, txns_map@));
            }
        }
        proof {
            lemma_orig_kept_after_step(m0, before, acct_map@, txns_map@, ars@, cutoff_date.day_num(), num);
            lemma_lk_changes_trans(m0, before, acct_map@, home, txns_map@, ars@, raw_acct_map@);
            lemma_same_shape_trans(m0, before, acct_map@);
            lemma_ready_same_shape(txns_map@, ars@, before, acct_map@, raw_acct_map@);
        }
        let ghost after_u = acct_map@;
        if txn.date.le(&cutoff_date) {
            let ghost before2 = acct_map@;
            match perform_likekind_treatment_on_txn(num, settings, raw_acct_map, acct_map, ars, txns_map) {
                Ok(()) => {},
                Err(e) => {
                    proof {
                        if forall|t: u32, i: int|
                            1 <= t <= txns_map@.len() && 0 <= i < txns_map@[t].action_record_idx_vec@.len()
                                ==> #[trigger] ar_basis_untouched(t, i, m0, ars@, raw_acct_map@, txns_map@) {
                            assert forall|i: int| 0 <= i < txns_map@[num].action_record_idx_vec@.len() implies #[trigger] ar_basis_untouched(
                                num,
                                i,
                                before,
                                ars@,
                                raw_acct_map@,
                                txns_map@,
                            ) by {
                                assert(ar_basis_untouched(num, i, m0, ars@, raw_acct_map@, txns_map@));
                                assert(ar_basis_fails_surely(num, i, before, ars@, raw_acct_map@, txns_map@)
                                    == ar_basis_fails_surely(num, i, m0, ars@, raw_acct_map@, txns_map@));
                            }
                            assert(before2 == before);
                            lemma_same_shape_trans(m0, before, before2);
                            assert forall|b: u16, lj: int, mj: int|
                                mvmt_at(m0, b, lj, mj) && ars@[mvmt_of(m0, b, lj, mj).action_record_key].tx_key
                                    == num implies (#[trigger] mvmt_of(before2, b, lj, mj)).cost_basis_lk
                                == mvmt_of(m0, b, lj, mj).cost_basis_lk by {}
                            lemma_lk_treat_fails_same(num, home, m0, before2, ars@, raw_acct_map@, txns_map@);
                        }
                        assert(lk_fails_at(num, home, cutoff_date.day_num(), m0, before2, ars@, raw_acct_map@, txns_map@));
                    }
                    return Err(e);
                },
            }
            proof {
                if ok0 {
                    lemma_same_shape_trans(before, before2, acct_map@);
                    lemma_lk_cover_perform(
                        home,
                        before,
                        before2,
                        acct_map@,
                        txns_map@,
                        ars@,
                        raw_acct_map@,
                        num,
                    );
                }
                lemma_orig_kept_after_step(m0, before2, acct_map@, txns_map@, ars@, cutoff_date.day_num(), num);
                lemma_lk_changes_trans(m0, before2, acct_map@, home, txns_map@, ars@, raw_acct_map@);
                lemma_same_shape_trans(m0, before2, acct_map@);
                lemma_ready_same_shape(txns_map@, ars@, before2, acct_map@, raw_acct_map@);
            }
        }
        proof {
            if !(txn.date.day_num() <= cutoff_date.day_num()) {
                lemma_same_shape_refl(after_u);
                assert forall|b: u16, lj: int, mj: int|
                    mvmt_at(after_u, b, lj, mj) && ars@[mvmt_of(after_u, b, lj, mj).action_record_key].tx_key
                        != num implies #[trigger] mvmt_of(after_u, b, lj, mj) == mvmt_of(after_u, b, lj, mj) by {}
            }
            lemma_tx_type_same_shape(txns_map@, ars@, before, after_u, raw_acct_map@, num);
            lemma_lk_toselfs_next(home, before, after_u, acct_map@, txns_map@, ars@, raw_acct_map@, num);
            lemma_lk_exchanges_next(
                home,
                cutoff_date.day_num(),
                before,
                after_u,
                acct_map@,
                txns_map@,
                ars@,
                raw_acct_map@,
                num,
            );
            if ok0 {
                lemma_same_shape_trans(before, after_u, acct_map@);
                lemma_same_shape_trans(m0, before, acct_map@);
                assert forall|k: u32| #[trigger] processed_before(k, (num + 1) as u32, 0, txns_map@, ars@)
                    implies ars@.contains_key(k) && txns_map@.contains_key(ars@[k].tx_key)
                    && txns_map@[ars@[k].tx_key].action_record_idx_vec@.contains(k) by {
                    let t = ars@[k].tx_key;
                    if t == num + 1 {
                        assert(txns_map@[t].action_record_idx_vec@.take(0).len() == 0);
                    }
                }
                lemma_lk_cover_rebase(
                    home,
                    before,
                    acct_map@,
                    acct_map@,
                    txns_map@,
                    ars@,
                    raw_acct_map@,
                    |k: u32| processed_before(k, (num + 1) as u32, 0, txns_map@, ars@),
                );
                lemma_lots_ordered_same_shape(txns_map@, ars@, m0, acct_map@, raw_acct_map@, home);
                crate::core_functions::lemma_same_shape_keeps_postings(txns_map@, ars@, m0, acct_map@);
            }
        }
        proof {
            assert forall|b: u16, lj: int, mj: int|
                mvmt_at(m0, b, lj, mj) && ars@[mvmt_of(m0, b, lj, mj).action_record_key].tx_key >= num + 1
                    implies #[trigger] mvmt_of(acct_map@, b, lj, mj) == mvmt_of(m0, b, lj, mj) by {
                lemma_mvmt_at_same_shape(m0, before, b, lj, mj);
                assert(mvmt_of(before, b, lj, mj) == mvmt_of(m0, b, lj, mj));
                lemma_mvmt_at_same_shape(m0, after_u, b, lj, mj);
            }
        }
        num = num + 1;
    }
    proof {
        if ok0 {
            lemma_lk_cover_all(home, acct_map@, acct_map@, txns_map@, ars@, raw_acct_map@, num);
        }
    }
    Ok(())
}

} // verus!
