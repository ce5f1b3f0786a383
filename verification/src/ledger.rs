//! The shape of a processed ledger: how lots are numbered, which action record every
//! movement belongs to, and how much each action record has posted.
use vstd::prelude::*;
use crate::account::{Account, Lot, Movement, MvmtField, RawAccount, mvmt_sum, fields_of};
use crate::transaction::{ActionRecord, Polarity, Transaction, txn_resolves, spec_direction};
use crate::dec::{Dec, places8, add_fits, spec_add, lemma_dec_sum_push};

verus! {

/// The total amount that the movements keyed to action record `k` post.
pub open spec fn mvmts_key_sum(ms: Seq<Movement>, k: u32) -> int
    decreases ms.len(),
{
    if ms.len() == 0 {
        0
    } else {
        mvmts_key_sum(ms.drop_last(), k) + if ms.last().action_record_key == k {
            ms.last().amount.val()
        } else {
            0
        }
    }
}

/// The total amount that the movements keyed to action record `k` post, over lots.
pub open spec fn lots_key_sum(lots: Seq<Lot>, k: u32) -> int
    decreases lots.len(),
{
    if lots.len() == 0 {
        0
    } else {
        lots_key_sum(lots.drop_last(), k) + mvmts_key_sum(lots.last().movements@, k)
    }
}

/// A movement as it sits in the lot at index `li`.
pub open spec fn mvmt_ok(m: Movement, li: int) -> bool {
    &&& m.lot_num == li + 1
    &&& places8(m.amount)
    &&& m.amount.valid()
}

/// The lot at index `li` of account `a`: numbered `li + 1`, and so are its movements.
pub open spec fn lot_wf(lot: Lot, a: u16, li: int) -> bool {
    &&& lot.lot_number == li + 1
    &&& lot.account_key == a
    &&& forall|mi: int|
        0 <= mi < lot.movements@.len() ==> mvmt_ok(#[trigger] lot.movements@[mi], li)
}

pub open spec fn lots_wf(lots: Seq<Lot>, a: u16) -> bool {
    &&& lots.len() < 0xffff_ffff
    &&& forall|li: int| 0 <= li < lots.len() ==> lot_wf(#[trigger] lots[li], a, li)
}

/// Account `a` knows its own key and numbers its lots in order from 1.
pub open spec fn acct_wf(acct: Account, a: u16) -> bool {
    &&& acct.raw_key == a
    &&& lots_wf(acct.list_of_lots@, a)
}

pub open spec fn accts_wf(accts: Map<u16, Account>) -> bool {
    forall|a: u16| accts.contains_key(a) ==> acct_wf(#[trigger] accts[a], a)
}

/// Two lots are the same lot, the later one having possibly more movements, each of
/// them keyed to action record `k`.
pub open spec fn lot_extends(old: Lot, new: Lot, k: u32) -> bool {
    &&& new.date_as_string == old.date_as_string
    &&& new.date_of_first_mvmt_in_lot == old.date_of_first_mvmt_in_lot
    &&& new.date_for_basis_purposes == old.date_for_basis_purposes
    &&& new.lot_number == old.lot_number
    &&& new.account_key == old.account_key
    &&& old.movements@.len() <= new.movements@.len()
    &&& forall|mi: int| 0 <= mi < old.movements@.len() ==> new.movements@[mi] == old.movements@[mi]
    &&& forall|mi: int|
        old.movements@.len() <= mi < new.movements@.len()
            ==> (#[trigger] new.movements@[mi]).action_record_key == k
}

/// The later list of lots keeps every earlier lot and movement, and whatever it adds
/// (movements, or whole lots) is keyed to action record `k`.
pub open spec fn lots_extend(old: Seq<Lot>, new: Seq<Lot>, k: u32) -> bool {
    &&& old.len() <= new.len()
    &&& forall|li: int| 0 <= li < old.len() ==> lot_extends(old[li], #[trigger] new[li], k)
    &&& forall|li: int, mi: int|
        old.len() <= li < new.len() && 0 <= mi < new[li].movements@.len()
            ==> (#[trigger] new[li].movements@[mi]).action_record_key == k
}

pub proof fn lemma_mvmts_key_sum_push(ms: Seq<Movement>, m: Movement, k: u32)
    ensures
        mvmts_key_sum(ms.push(m), k) == mvmts_key_sum(ms, k) + if m.action_record_key == k {
            m.amount.val()
        } else {
            0
        },
{
    assert(ms.push(m).drop_last() =~= ms);
}

pub proof fn lemma_lots_key_sum_push(lots: Seq<Lot>, lot: Lot, k: u32)
    ensures
        lots_key_sum(lots.push(lot), k) == lots_key_sum(lots, k) + mvmts_key_sum(
            lot.movements@,
            k,
        ),
{
    assert(lots.push(lot).drop_last() =~= lots);
}

/// A sequence of movements none of which is keyed to `k` posts nothing for `k`.
pub proof fn lemma_mvmts_key_sum_zero(ms: Seq<Movement>, k: u32)
    requires
        forall|mi: int| 0 <= mi < ms.len() ==> (#[trigger] ms[mi]).action_record_key != k,
    ensures
        mvmts_key_sum(ms, k) == 0,
    decreases ms.len(),
{
    if ms.len() > 0 {
        let pre = ms.drop_last();
        assert forall|mi: int| 0 <= mi < pre.len() implies (#[trigger] pre[mi]).action_record_key
            != k by {
            assert(pre[mi] == ms[mi]);
        }
        lemma_mvmts_key_sum_zero(pre, k);
        assert(ms.last() == ms[ms.len() - 1]);
    }
}

/// Movements all keyed to `j` post nothing for any other key.
pub proof fn lemma_mvmts_key_sum_other(ms: Seq<Movement>, j: u32, k: u32)
    requires
        j != k,
        forall|mi: int| 0 <= mi < ms.len() ==> (#[trigger] ms[mi]).action_record_key == j,
    ensures
        mvmts_key_sum(ms, k) == 0,
{
    assert forall|mi: int| 0 <= mi < ms.len() implies (#[trigger] ms[mi]).action_record_key
        != k by {}
    lemma_mvmts_key_sum_zero(ms, k);
}

/// Lots none of whose movements is keyed to `k` post nothing for `k`.
pub proof fn lemma_lots_key_sum_zero(lots: Seq<Lot>, k: u32)
    requires
        forall|li: int, mi: int|
            0 <= li < lots.len() && 0 <= mi < lots[li].movements@.len()
                ==> (#[trigger] lots[li].movements@[mi]).action_record_key != k,
    ensures
        lots_key_sum(lots, k) == 0,
    decreases lots.len(),
{
    if lots.len() > 0 {
        let pre = lots.drop_last();
        assert forall|li: int, mi: int|
            0 <= li < pre.len() && 0 <= mi < pre[li].movements@.len() implies (
            #[trigger] pre[li].movements@[mi]).action_record_key != k by {
            assert(pre[li] == lots[li]);
        }
        lemma_lots_key_sum_zero(pre, k);
        let last = lots[lots.len() - 1];
        assert forall|mi: int| 0 <= mi < last.movements@.len() implies (
        #[trigger] last.movements@[mi]).action_record_key != k by {
            assert(lots[lots.len() - 1].movements@[mi] == last.movements@[mi]);
        }
        lemma_mvmts_key_sum_zero(last.movements@, k);
    }
}

/// Extending a lot with movements keyed to `k` leaves every other key's total alone.
pub proof fn lemma_lot_extends_other(old: Lot, new: Lot, k: u32, j: u32)
    requires
        lot_extends(old, new, k),
        j != k,
    ensures
        mvmts_key_sum(new.movements@, j) == mvmts_key_sum(old.movements@, j),
{
    lemma_seq_extends_other(old.movements@, new.movements@, k, j);
}

/// A sequence that extends another with movements keyed to `k` has the same total for
/// every other key.
pub proof fn lemma_seq_extends_other(o: Seq<Movement>, n: Seq<Movement>, k: u32, j: u32)
    requires
        j != k,
        o.len() <= n.len(),
        forall|mi: int| 0 <= mi < o.len() ==> n[mi] == o[mi],
        forall|mi: int| o.len() <= mi < n.len() ==> (#[trigger] n[mi]).action_record_key == k,
    ensures
        mvmts_key_sum(n, j) == mvmts_key_sum(o, j),
    decreases n.len(),
{
    if n.len() > o.len() {
        let pre = n.drop_last();
        assert forall|mi: int| 0 <= mi < o.len() implies pre[mi] == o[mi] by {
            assert(pre[mi] == n[mi]);
        }
        assert forall|mi: int| o.len() <= mi < pre.len() implies (
        #[trigger] pre[mi]).action_record_key == k by {
            assert(pre[mi] == n[mi]);
        }
        lemma_seq_extends_other(o, pre, k, j);
        assert(n.last() == n[n.len() - 1]);
    } else {
        assert(n =~= o);
    }
}

/// Extending lots with movements and lots keyed to `k` leaves every other key's total
/// alone.
pub proof fn lemma_lots_extend_other(old: Seq<Lot>, new: Seq<Lot>, k: u32, j: u32)
    requires
        lots_extend(old, new, k),
        j != k,
    ensures
        lots_key_sum(new, j) == lots_key_sum(old, j),
    decreases new.len(),
{
    if new.len() > old.len() {
        let pre = new.drop_last();
        assert(lots_extend(old, pre, k)) by {
            assert forall|li: int| 0 <= li < old.len() implies lot_extends(
                old[li],
                #[trigger] pre[li],
                k,
            ) by {
                assert(pre[li] == new[li]);
            }
            assert forall|li: int, mi: int|
                old.len() <= li < pre.len() && 0 <= mi < pre[li].movements@.len() implies (
            #[trigger] pre[li].movements@[mi]).action_record_key == k by {
                assert(pre[li] == new[li]);
            }
        }
        lemma_lots_extend_other(old, pre, k, j);
        let last = new[new.len() - 1];
        assert forall|mi: int| 0 <= mi < last.movements@.len() implies (
        #[trigger] last.movements@[mi]).action_record_key == k by {
            assert(new[new.len() - 1].movements@[mi] == last.movements@[mi]);
        }
        lemma_mvmts_key_sum_other(last.movements@, k, j);
    } else if old.len() > 0 {
        let pre_o = old.drop_last();
        let pre_n = new.drop_last();
        assert(lots_extend(pre_o, pre_n, k)) by {
            assert forall|li: int| 0 <= li < pre_o.len() implies lot_extends(
                pre_o[li],
                #[trigger] pre_n[li],
                k,
            ) by {
                assert(pre_n[li] == new[li]);
                assert(pre_o[li] == old[li]);
            }
        }
        lemma_lots_extend_other(pre_o, pre_n, k, j);
        assert(lot_extends(old[old.len() - 1], new[new.len() - 1], k));
        lemma_lot_extends_other(old[old.len() - 1], new[new.len() - 1], k, j);
    }
}


/// Account `a` gained movements keyed to action record `k`, totalling `total`, and
/// nothing else changed: no other account, and none of the lots and movements that
/// were there already.
pub open spec fn posted(
    old: Map<u16, Account>,
    new: Map<u16, Account>,
    a: u16,
    k: u32,
    total: int,
) -> bool {
    &&& accts_wf(new)
    &&& new.dom() == old.dom()
    &&& old.contains_key(a)
    &&& forall|b: u16| b != a && old.contains_key(b) ==> #[trigger] new[b] == old[b]
    &&& lots_extend(old[a].list_of_lots@, new[a].list_of_lots@, k)
    &&& lots_key_sum(new[a].list_of_lots@, k) == lots_key_sum(old[a].list_of_lots@, k) + total
}

/// Extending is transitive.
pub proof fn lemma_lots_extend_trans(a: Seq<Lot>, b: Seq<Lot>, c: Seq<Lot>, k: u32)
    requires
        lots_extend(a, b, k),
        lots_extend(b, c, k),
    ensures
        lots_extend(a, c, k),
{
    assert forall|li: int| 0 <= li < a.len() implies lot_extends(a[li], #[trigger] c[li], k) by {
        assert(lot_extends(a[li], b[li], k));
        assert(lot_extends(b[li], c[li], k));
        assert forall|mi: int|
            a[li].movements@.len() <= mi < c[li].movements@.len() implies (
        #[trigger] c[li].movements@[mi]).action_record_key == k by {
            if mi < b[li].movements@.len() {
                assert(c[li].movements@[mi] == b[li].movements@[mi]);
            }
        }
    }
    assert forall|li: int, mi: int|
        a.len() <= li < c.len() && 0 <= mi < c[li].movements@.len() implies (
    #[trigger] c[li].movements@[mi]).action_record_key == k by {
        if li < b.len() {
            assert(lot_extends(b[li], c[li], k));
            if mi < b[li].movements@.len() {
                assert(c[li].movements@[mi] == b[li].movements@[mi]);
            }
        }
    }
}

/// Postings to one account for one action record add up.
pub proof fn lemma_posted_trans(
    m0: Map<u16, Account>,
    m1: Map<u16, Account>,
    m2: Map<u16, Account>,
    a: u16,
    k: u32,
    t1: int,
    t2: int,
)
    requires
        posted(m0, m1, a, k, t1),
        posted(m1, m2, a, k, t2),
    ensures
        posted(m0, m2, a, k, t1 + t2),
{
    lemma_lots_extend_trans(m0[a].list_of_lots@, m1[a].list_of_lots@, m2[a].list_of_lots@, k);
    assert forall|b: u16| b != a && m0.contains_key(b) implies #[trigger] m2[b] == m0[b] by {
        assert(m1[b] == m0[b]);
    }
}

/// Posting nothing.
pub proof fn lemma_posted_refl(m: Map<u16, Account>, a: u16, k: u32)
    requires
        accts_wf(m),
        m.contains_key(a),
    ensures
        posted(m, m, a, k, 0),
{
    let lots = m[a].list_of_lots@;
    assert forall|li: int| 0 <= li < lots.len() implies lot_extends(lots[li], #[trigger] lots[li], k) by {}
}


/// A movement keyed to action record `k` and dated no later than day `d`.
pub open spec fn mvmt_matches(m: Movement, k: u32, d: int) -> bool {
    m.date.day_num() <= d && m.action_record_key == k
}

/// The movements of `ms` keyed to `k` and dated no later than day `d`, in order.
pub open spec fn lot_matches(ms: Seq<Movement>, k: u32, d: int) -> Seq<Movement>
    decreases ms.len(),
{
    if ms.len() == 0 {
        Seq::empty()
    } else {
        (if mvmt_matches(ms[0], k, d) {
            seq![ms[0]]
        } else {
            Seq::empty()
        }) + lot_matches(ms.skip(1), k, d)
    }
}

/// The movements of the lots keyed to `k` and dated no later than day `d`, lot by lot.
pub open spec fn lots_matches(lots: Seq<Lot>, k: u32, d: int) -> Seq<Movement>
    decreases lots.len(),
{
    if lots.len() == 0 {
        Seq::empty()
    } else {
        lot_matches(lots[0].movements@, k, d) + lots_matches(lots.skip(1), k, d)
    }
}

/// The positions (lot index `li`, movement index) of the movements of `ms` from index
/// `mi` on that are keyed to `k` and dated no later than day `d`, in order.
pub open spec fn lot_match_pos(ms: Seq<Movement>, li: int, mi: int, k: u32, d: int) -> Seq<(int, int)>
    decreases ms.len() - mi,
{
    if mi < 0 || mi >= ms.len() {
        Seq::empty()
    } else {
        (if mvmt_matches(ms[mi], k, d) {
            seq![(li, mi)]
        } else {
            Seq::empty()
        }) + lot_match_pos(ms, li, mi + 1, k, d)
    }
}

/// The positions of the movements of the lots from index `li` on that are keyed to `k`
/// and dated no later than day `d`, lot by lot.
pub open spec fn lots_match_pos(lots: Seq<Lot>, li: int, k: u32, d: int) -> Seq<(int, int)>
    decreases lots.len() - li,
{
    if li < 0 || li >= lots.len() {
        Seq::empty()
    } else {
        lot_match_pos(lots[li].movements@, li, 0, k, d) + lots_match_pos(lots, li + 1, k, d)
    }
}

/// Positions as integers.
pub open spec fn pos_int(ps: Seq<(usize, usize)>) -> Seq<(int, int)> {
    ps.map_values(|p: (usize, usize)| (p.0 as int, p.1 as int))
}

/// Movements agree pointwise in everything but basis and proceeds.
pub open spec fn mvmts_same_shape(x: Seq<Movement>, y: Seq<Movement>) -> bool {
    &&& x.len() == y.len()
    &&& forall|i: int| 0 <= i < x.len() ==> mvmt_same_shape(#[trigger] x[i], y[i])
}

/// Lots agree pointwise in everything but the basis and proceeds of their movements.
pub open spec fn lots_same_shape(x: Seq<Lot>, y: Seq<Lot>) -> bool {
    &&& x.len() == y.len()
    &&& forall|i: int| 0 <= i < x.len() ==> lot_same_shape(#[trigger] x[i], y[i])
}

pub proof fn lemma_lot_match_pos_same_shape(
    x: Seq<Movement>,
    y: Seq<Movement>,
    li: int,
    mi: int,
    k: u32,
    d: int,
)
    requires
        mvmts_same_shape(x, y),
    ensures
        lot_match_pos(x, li, mi, k, d) == lot_match_pos(y, li, mi, k, d),
    decreases x.len() - mi,
{
    if 0 <= mi < x.len() {
        lemma_lot_match_pos_same_shape(x, y, li, mi + 1, k, d);
        assert(mvmt_same_shape(x[mi], y[mi]));
    }
}

/// Where the movements keyed to `k` sit depends only on the shape of the lots.
pub proof fn lemma_lots_match_pos_same_shape(x: Seq<Lot>, y: Seq<Lot>, li: int, k: u32, d: int)
    requires
        lots_same_shape(x, y),
    ensures
        lots_match_pos(x, li, k, d) == lots_match_pos(y, li, k, d),
    decreases x.len() - li,
{
    if 0 <= li < x.len() {
        lemma_lots_match_pos_same_shape(x, y, li + 1, k, d);
        assert(lot_same_shape(x[li], y[li]));
        lemma_lot_match_pos_same_shape(x[li].movements@, y[li].movements@, li, 0, k, d);
    }
}

pub proof fn lemma_lot_matches_same_shape(x: Seq<Movement>, y: Seq<Movement>, k: u32, d: int)
    requires
        mvmts_same_shape(x, y),
    ensures
        mvmts_same_shape(lot_matches(x, k, d), lot_matches(y, k, d)),
    decreases x.len(),
{
    if x.len() > 0 {
        assert(mvmts_same_shape(x.skip(1), y.skip(1))) by {
            assert forall|i: int| 0 <= i < x.skip(1).len() implies mvmt_same_shape(
                #[trigger] x.skip(1)[i],
                y.skip(1)[i],
            ) by {
                assert(mvmt_same_shape(x[i + 1], y[i + 1]));
            }
        }
        lemma_lot_matches_same_shape(x.skip(1), y.skip(1), k, d);
        assert(mvmt_same_shape(x[0], y[0]));
        let hx = if mvmt_matches(x[0], k, d) {
            seq![x[0]]
        } else {
            Seq::<Movement>::empty()
        };
        let hy = if mvmt_matches(y[0], k, d) {
            seq![y[0]]
        } else {
            Seq::<Movement>::empty()
        };
        let tx = lot_matches(x.skip(1), k, d);
        let ty = lot_matches(y.skip(1), k, d);
        assert forall|i: int| 0 <= i < (hx + tx).len() implies mvmt_same_shape(
            #[trigger] (hx + tx)[i],
            (hy + ty)[i],
        ) by {
            if i < hx.len() {
            } else {
                assert((hx + tx)[i] == tx[i - hx.len()]);
                assert((hy + ty)[i] == ty[i - hy.len()]);
            }
        }
    }
}

/// The movements keyed to `k` agree in shape in lots of the same shape.
pub proof fn lemma_lots_matches_same_shape(x: Seq<Lot>, y: Seq<Lot>, k: u32, d: int)
    requires
        lots_same_shape(x, y),
    ensures
        mvmts_same_shape(lots_matches(x, k, d), lots_matches(y, k, d)),
    decreases x.len(),
{
    if x.len() > 0 {
        assert(lots_same_shape(x.skip(1), y.skip(1))) by {
            assert forall|i: int| 0 <= i < x.skip(1).len() implies lot_same_shape(
                #[trigger] x.skip(1)[i],
                y.skip(1)[i],
            ) by {
                assert(lot_same_shape(x[i + 1], y[i + 1]));
            }
        }
        lemma_lots_matches_same_shape(x.skip(1), y.skip(1), k, d);
        assert(lot_same_shape(x[0], y[0]));
        assert(mvmts_same_shape(x[0].movements@, y[0].movements@));
        lemma_lot_matches_same_shape(x[0].movements@, y[0].movements@, k, d);
        let hx = lot_matches(x[0].movements@, k, d);
        let hy = lot_matches(y[0].movements@, k, d);
        let tx = lots_matches(x.skip(1), k, d);
        let ty = lots_matches(y.skip(1), k, d);
        assert forall|i: int| 0 <= i < (hx + tx).len() implies mvmt_same_shape(
            #[trigger] (hx + tx)[i],
            (hy + ty)[i],
        ) by {
            if i < hx.len() {
                assert(mvmt_same_shape(hx[i], hy[i]));
            } else {
                assert((hx + tx)[i] == tx[i - hx.len()]);
                assert((hy + ty)[i] == ty[i - hy.len()]);
                assert(mvmt_same_shape(tx[i - hx.len()], ty[i - hy.len()]));
            }
        }
    }
}

/// A scan over movements of the same amounts stops at the same place.
pub proof fn lemma_scan_same_amounts(x: Seq<Movement>, y: Seq<Movement>, target: Dec, j: int)
    requires
        mvmts_same_shape(x, y),
        scan_stops_at(x, target, j),
    ensures
        scan_stops_at(y, target, j),
{
    assert forall|i: int| 0 <= i <= x.len() implies #[trigger] mvmt_sum(x.take(i), MvmtField::Amount)
        == mvmt_sum(y.take(i), MvmtField::Amount) by {
        assert(fields_of(x.take(i), MvmtField::Amount) =~= fields_of(y.take(i), MvmtField::Amount)) by {
            assert forall|n: int| 0 <= n < i implies #[trigger] fields_of(x.take(i), MvmtField::Amount)[n]
                == fields_of(y.take(i), MvmtField::Amount)[n] by {
                assert(mvmt_same_shape(x[n], y[n]));
            }
        }
    }
    assert forall|i: int| 1 <= i < j implies (mvmt_sum(#[trigger] y.take(i), MvmtField::Amount) matches Some(
        s,
    ) && s.val() != target.val()) by {
        assert(mvmt_sum(x.take(i), MvmtField::Amount) == mvmt_sum(y.take(i), MvmtField::Amount));
    }
    assert(mvmt_sum(x.take(j), MvmtField::Amount) == mvmt_sum(y.take(j), MvmtField::Amount));
}

/// A scan that adds up the amounts of `cands` one by one stops after `j` of them: at the
/// first total (of at least one amount) that equals `target`, or at the end; every total
/// up to there fits.
pub open spec fn scan_stops_at(cands: Seq<Movement>, target: Dec, j: int) -> bool {
    &&& 0 <= j <= cands.len()
    &&& forall|i: int|
        1 <= i < j ==> (mvmt_sum(#[trigger] cands.take(i), MvmtField::Amount) matches Some(x)
            && x.val() != target.val())
    &&& mvmt_sum(cands.take(j), MvmtField::Amount) is Some
    &&& (j == cands.len() || (j >= 1 && mvmt_sum(cands.take(j), MvmtField::Amount)->0.val()
        == target.val()))
}

/// The same scan gives out at the `j`-th amount: the total stops fitting before it met
/// `target`.
pub open spec fn scan_overflows_at(cands: Seq<Movement>, target: Dec, j: int) -> bool {
    &&& 1 <= j <= cands.len()
    &&& forall|i: int|
        1 <= i < j ==> (mvmt_sum(#[trigger] cands.take(i), MvmtField::Amount) matches Some(x)
            && x.val() != target.val())
    &&& mvmt_sum(cands.take(j), MvmtField::Amount) is None
}

/// A scan that gives out does not stop.
pub proof fn lemma_overflow_no_stop(cands: Seq<Movement>, target: Dec, j: int)
    requires
        scan_overflows_at(cands, target, j),
    ensures
        !(exists|i: int| scan_stops_at(cands, target, i)),
{
    if exists|i: int| scan_stops_at(cands, target, i) {
        let i = choose|i: int| scan_stops_at(cands, target, i);
        if j < i {
            assert(mvmt_sum(cands.take(j), MvmtField::Amount) is Some);
        } else if j == i {
        } else {
            assert(mvmt_sum(cands.take(i), MvmtField::Amount) matches Some(x) && x.val() != target.val());
        }
    }
}

pub proof fn lemma_lot_matches_step(ms: Seq<Movement>, i: int, k: u32, d: int)
    requires
        0 <= i < ms.len(),
    ensures
        lot_matches(ms.skip(i), k, d) == (if mvmt_matches(ms[i], k, d) {
            seq![ms[i]]
        } else {
            Seq::empty()
        }) + lot_matches(ms.skip(i + 1), k, d),
{
    assert(ms.skip(i)[0] == ms[i]);
    assert(ms.skip(i).skip(1) =~= ms.skip(i + 1));
}

pub proof fn lemma_lot_matches_end(ms: Seq<Movement>, k: u32, d: int)
    ensures
        lot_matches(ms.skip(ms.len() as int), k, d) == Seq::<Movement>::empty(),
{
    assert(ms.skip(ms.len() as int) =~= Seq::<Movement>::empty());
}

pub proof fn lemma_lots_matches_step(lots: Seq<Lot>, i: int, k: u32, d: int)
    requires
        0 <= i < lots.len(),
    ensures
        lots_matches(lots.skip(i), k, d) == lot_matches(lots[i].movements@, k, d) + lots_matches(
            lots.skip(i + 1),
            k,
            d,
        ),
{
    assert(lots.skip(i)[0] == lots[i]);
    assert(lots.skip(i).skip(1) =~= lots.skip(i + 1));
}

pub proof fn lemma_lots_matches_end(lots: Seq<Lot>, k: u32, d: int)
    ensures
        lots_matches(lots.skip(lots.len() as int), k, d) == Seq::<Movement>::empty(),
{
    assert(lots.skip(lots.len() as int) =~= Seq::<Lot>::empty());
}

/// Adding one more movement onto the total of a sequence of movements.
pub proof fn lemma_mvmt_sum_push(ms: Seq<Movement>, m: Movement, f: MvmtField)
    ensures
        mvmt_sum(ms.push(m), f) == match mvmt_sum(ms, f) {
            Some(t) => if add_fits(t, crate::account::field_of(m, f)) {
                Some(spec_add(t, crate::account::field_of(m, f)))
            } else {
                None
            },
            None => None,
        },
{
    assert(fields_of(ms.push(m), f) =~= fields_of(ms, f).push(crate::account::field_of(m, f)));
    lemma_dec_sum_push(Dec::zero_spec(), fields_of(ms, f), crate::account::field_of(m, f));
}


/// Transaction `t` as processing expects it: one or two action records, which can be
/// looked up, are keyed by their own key, know their transaction, and (when there are
/// two) are different.
pub open spec fn txn_ok(
    txn: Transaction,
    t: u32,
    ars: Map<u32, ActionRecord>,
    accts: Map<u16, Account>,
    raws: Map<u16, RawAccount>,
) -> bool {
    &&& 1 <= txn.action_record_idx_vec@.len() <= 2
    &&& txn_resolves(txn, ars, accts, raws)
    &&& forall|i: int|
        0 <= i < txn.action_record_idx_vec@.len() ==> {
            &&& ars[#[trigger] txn.action_record_idx_vec@[i]].tx_key == t
            &&& ars[txn.action_record_idx_vec@[i]].self_ar_key == txn.action_record_idx_vec@[i]
        }
    &&& txn.action_record_idx_vec@.len() == 2 ==> txn.action_record_idx_vec@[0]
        != txn.action_record_idx_vec@[1]
}

/// An imported ledger: transactions numbered from 1 to `n`, every transaction as
/// processing expects it, accounts numbering their lots, and raw accounts keyed by their
/// account numbers.
pub open spec fn ledger_wf(
    txns: Map<u32, Transaction>,
    n: int,
    ars: Map<u32, ActionRecord>,
    accts: Map<u16, Account>,
    raws: Map<u16, RawAccount>,
) -> bool {
    &&& forall|t: u32| 1 <= t <= n ==> #[trigger] txns.contains_key(t)
    &&& forall|t: u32| #[trigger] txns.contains_key(t) ==> txn_ok(txns[t], t, ars, accts, raws)
    &&& accts_wf(accts)
    &&& forall|a: u16| #[trigger] raws.contains_key(a) ==> raws[a].account_num == a
}


/// Two movements agree in everything but their basis and proceeds.
pub open spec fn mvmt_same_shape(x: Movement, y: Movement) -> bool {
    &&& x.amount == y.amount
    &&& x.date_as_string == y.date_as_string
    &&& x.date == y.date
    &&& x.transaction_key == y.transaction_key
    &&& x.action_record_key == y.action_record_key
    &&& x.ratio_of_amt_to_incoming_mvmts_in_a_r == y.ratio_of_amt_to_incoming_mvmts_in_a_r
    &&& x.ratio_of_amt_to_outgoing_mvmts_in_a_r == y.ratio_of_amt_to_outgoing_mvmts_in_a_r
    &&& x.lot_num == y.lot_num
}

/// Two lots agree in everything but the basis and proceeds of their movements.
pub open spec fn lot_same_shape(x: Lot, y: Lot) -> bool {
    &&& x.date_as_string == y.date_as_string
    &&& x.date_of_first_mvmt_in_lot == y.date_of_first_mvmt_in_lot
    &&& x.date_for_basis_purposes == y.date_for_basis_purposes
    &&& x.lot_number == y.lot_number
    &&& x.account_key == y.account_key
    &&& x.movements@.len() == y.movements@.len()
    &&& forall|mi: int|
        0 <= mi < x.movements@.len() ==> mvmt_same_shape(
            #[trigger] x.movements@[mi],
            y.movements@[mi],
        )
}

/// The accounts agree in everything but the basis and proceeds of their movements.
pub open spec fn same_shape(old: Map<u16, Account>, new: Map<u16, Account>) -> bool {
    &&& new.dom() == old.dom()
    &&& forall|a: u16| #[trigger]
        old.contains_key(a) ==> {
            &&& new[a].raw_key == old[a].raw_key
            &&& new[a].list_of_lots@.len() == old[a].list_of_lots@.len()
            &&& forall|li: int|
                0 <= li < old[a].list_of_lots@.len() ==> lot_same_shape(
                    #[trigger] old[a].list_of_lots@[li],
                    new[a].list_of_lots@[li],
                )
        }
}

pub proof fn lemma_same_shape_refl(m: Map<u16, Account>)
    ensures
        same_shape(m, m),
{
}

pub proof fn lemma_same_shape_trans(m0: Map<u16, Account>, m1: Map<u16, Account>, m2: Map<u16, Account>)
    requires
        same_shape(m0, m1),
        same_shape(m1, m2),
    ensures
        same_shape(m0, m2),
{
    assert forall|a: u16| #[trigger] m0.contains_key(a) implies {
        &&& m2[a].raw_key == m0[a].raw_key
        &&& m2[a].list_of_lots@.len() == m0[a].list_of_lots@.len()
        &&& forall|li: int|
            0 <= li < m0[a].list_of_lots@.len() ==> lot_same_shape(
                #[trigger] m0[a].list_of_lots@[li],
                m2[a].list_of_lots@[li],
            )
    } by {
        assert(m1.contains_key(a));
        assert forall|li: int| 0 <= li < m0[a].list_of_lots@.len() implies lot_same_shape(
            #[trigger] m0[a].list_of_lots@[li],
            m2[a].list_of_lots@[li],
        ) by {
            assert(lot_same_shape(m0[a].list_of_lots@[li], m1[a].list_of_lots@[li]));
            assert(lot_same_shape(m1[a].list_of_lots@[li], m2[a].list_of_lots@[li]));
            let x = m0[a].list_of_lots@[li];
            let y = m1[a].list_of_lots@[li];
            let z = m2[a].list_of_lots@[li];
            assert forall|mi: int| 0 <= mi < x.movements@.len() implies mvmt_same_shape(
                #[trigger] x.movements@[mi],
                z.movements@[mi],
            ) by {
                assert(mvmt_same_shape(x.movements@[mi], y.movements@[mi]));
                assert(mvmt_same_shape(y.movements@[mi], z.movements@[mi]));
            }
        }
    }
}

/// Changing basis and proceeds keeps the accounts well formed.
pub proof fn lemma_same_shape_wf(old: Map<u16, Account>, new: Map<u16, Account>)
    requires
        same_shape(old, new),
        accts_wf(old),
    ensures
        accts_wf(new),
{
    assert forall|a: u16| new.contains_key(a) implies acct_wf(#[trigger] new[a], a) by {
        assert(old.contains_key(a));
        assert(acct_wf(old[a], a));
        let ol = old[a].list_of_lots@;
        let nl = new[a].list_of_lots@;
        assert forall|li: int| 0 <= li < nl.len() implies lot_wf(#[trigger] nl[li], a, li) by {
            assert(lot_wf(ol[li], a, li));
            assert(lot_same_shape(ol[li], nl[li]));
            assert forall|mi: int| 0 <= mi < nl[li].movements@.len() implies mvmt_ok(
                #[trigger] nl[li].movements@[mi],
                li,
            ) by {
                assert(mvmt_ok(ol[li].movements@[mi], li));
                assert(mvmt_same_shape(ol[li].movements@[mi], nl[li].movements@[mi]));
            }
        }
    }
}

proof fn lemma_mvmts_key_sum_same_shape(x: Seq<Movement>, y: Seq<Movement>, k: u32)
    requires
        x.len() == y.len(),
        forall|mi: int| 0 <= mi < x.len() ==> mvmt_same_shape(#[trigger] x[mi], y[mi]),
    ensures
        mvmts_key_sum(x, k) == mvmts_key_sum(y, k),
    decreases x.len(),
{
    if x.len() > 0 {
        let xp = x.drop_last();
        let yp = y.drop_last();
        assert forall|mi: int| 0 <= mi < xp.len() implies mvmt_same_shape(#[trigger] xp[mi], yp[mi]) by {
            assert(mvmt_same_shape(x[mi], y[mi]));
        }
        lemma_mvmts_key_sum_same_shape(xp, yp, k);
        assert(mvmt_same_shape(x[x.len() - 1], y[y.len() - 1]));
    }
}

/// Changing basis and proceeds leaves what each action record posts alone.
pub proof fn lemma_lots_key_sum_same_shape(x: Seq<Lot>, y: Seq<Lot>, k: u32)
    requires
        x.len() == y.len(),
        forall|li: int| 0 <= li < x.len() ==> lot_same_shape(#[trigger] x[li], y[li]),
    ensures
        lots_key_sum(x, k) == lots_key_sum(y, k),
    decreases x.len(),
{
    if x.len() > 0 {
        let xp = x.drop_last();
        let yp = y.drop_last();
        assert forall|li: int| 0 <= li < xp.len() implies lot_same_shape(#[trigger] xp[li], yp[li]) by {
            assert(lot_same_shape(x[li], y[li]));
        }
        lemma_lots_key_sum_same_shape(xp, yp, k);
        assert(lot_same_shape(x[x.len() - 1], y[y.len() - 1]));
        lemma_mvmts_key_sum_same_shape(
            x[x.len() - 1].movements@,
            y[y.len() - 1].movements@,
            k,
        );
    }
}


/// Every movement knows the lot it sits in: its lot number is the number of that lot,
/// and lots are numbered from 1 in the order they were created.
pub proof fn lemma_mvmts_know_their_lot(accts: Map<u16, Account>)
    requires
        accts_wf(accts),
    ensures
        forall|a: u16, li: int, mi: int|
            accts.contains_key(a) && 0 <= li < accts[a].list_of_lots@.len() && 0 <= mi
                < accts[a].list_of_lots@[li].movements@.len() ==> (#[trigger] accts[a].list_of_lots@[li].movements@[mi]).lot_num
                == accts[a].list_of_lots@[li].lot_number,
        forall|a: u16, li: int|
            accts.contains_key(a) && 0 <= li < accts[a].list_of_lots@.len() ==> (#[trigger] accts[a].list_of_lots@[li]).lot_number
                == li + 1,
{
    assert forall|a: u16, li: int, mi: int|
        accts.contains_key(a) && 0 <= li < accts[a].list_of_lots@.len() && 0 <= mi
            < accts[a].list_of_lots@[li].movements@.len() implies (
    #[trigger] accts[a].list_of_lots@[li].movements@[mi]).lot_num
        == accts[a].list_of_lots@[li].lot_number by {
        assert(acct_wf(accts[a], a));
        assert(lot_wf(accts[a].list_of_lots@[li], a, li));
        assert(mvmt_ok(accts[a].list_of_lots@[li].movements@[mi], li));
    }
    assert forall|a: u16, li: int|
        accts.contains_key(a) && 0 <= li < accts[a].list_of_lots@.len() implies (
    #[trigger] accts[a].list_of_lots@[li]).lot_number == li + 1 by {
        assert(acct_wf(accts[a], a));
        assert(lot_wf(accts[a].list_of_lots@[li], a, li));
    }
}

/// Action record `k` belongs to a transaction numbered from 1 to below `num`, or to
/// transaction `num` among its first `i` action records.
pub open spec fn processed_before(
    k: u32,
    num: u32,
    i: int,
    txns: Map<u32, Transaction>,
    ars: Map<u32, ActionRecord>,
) -> bool {
    &&& ars.contains_key(k)
    &&& txns.contains_key(ars[k].tx_key)
    &&& 1 <= ars[k].tx_key
    &&& ((ars[k].tx_key < num && txns[ars[k].tx_key].action_record_idx_vec@.contains(k)) || (
    ars[k].tx_key == num && txns[num].action_record_idx_vec@.take(i).contains(k)))
}

/// Every movement of every account is keyed to an action record processed before
/// position `i` of transaction `num`.
pub open spec fn mvmts_processed(
    txns: Map<u32, Transaction>,
    ars: Map<u32, ActionRecord>,
    accts: Map<u16, Account>,
    num: u32,
    i: int,
) -> bool {
    forall|a: u16, li: int, mi: int|
        accts.contains_key(a) && 0 <= li < accts[a].list_of_lots@.len() && 0 <= mi
            < accts[a].list_of_lots@[li].movements@.len() ==> processed_before(
            (#[trigger] accts[a].list_of_lots@[li].movements@[mi]).action_record_key,
            num,
            i,
            txns,
            ars,
        )
}

/// Action record `f` comes, in processing order, before action record `k`.
pub open spec fn precedes(
    f: u32,
    k: u32,
    txns: Map<u32, Transaction>,
    ars: Map<u32, ActionRecord>,
) -> bool {
    let v = txns[ars[k].tx_key].action_record_idx_vec@;
    exists|i: int| 0 <= i < v.len() && v[i] == k && #[trigger] processed_before(f, ars[k].tx_key, i, txns, ars)
}

/// Account `a` is neither a margin account nor one in the home currency `home`.
pub open spec fn plain_acct(
    accts: Map<u16, Account>,
    raws: Map<u16, RawAccount>,
    a: u16,
    home: Seq<char>,
) -> bool {
    &&& !raws[accts[a].raw_key].is_margin
    &&& raws[accts[a].raw_key].ticker@ != home
}

/// In every account outside margin and the home currency `home`, each lot starts with a
/// movement of an incoming action record, and that record comes, in processing order,
/// before the record of every other movement of the lot.
pub open spec fn lots_ordered(
    txns: Map<u32, Transaction>,
    ars: Map<u32, ActionRecord>,
    accts: Map<u16, Account>,
    raws: Map<u16, RawAccount>,
    home: Seq<char>,
) -> bool {
    forall|a: u16, li: int, mi: int|
        accts.contains_key(a) && plain_acct(accts, raws, a, home) && 0 <= li
            < accts[a].list_of_lots@.len() && 0 <= mi
            < accts[a].list_of_lots@[li].movements@.len() ==> {
            let lot = accts[a].list_of_lots@[li];
            let f = lot.movements@[0].action_record_key;
            let k = (#[trigger] accts[a].list_of_lots@[li].movements@[mi]).action_record_key;
            &&& spec_direction(ars[f].amount) == Polarity::Incoming
            &&& (k == f || precedes(f, k, txns, ars))
        }
}

/// The later lots start no new lot: as many lots, and an empty one stays empty.
pub open spec fn starts_no_lot(old: Seq<Lot>, new: Seq<Lot>) -> bool {
    &&& new.len() == old.len()
    &&& forall|li: int|
        0 <= li < old.len() && old[li].movements@.len() == 0 ==> (#[trigger] new[li]).movements@.len()
            == 0
}

/// Being processed before a position stays true at any later position.
pub proof fn lemma_processed_before_mono(
    j: u32,
    num: u32,
    i: int,
    num2: u32,
    i2: int,
    txns: Map<u32, Transaction>,
    ars: Map<u32, ActionRecord>,
)
    requires
        processed_before(j, num, i, txns, ars),
        num < num2 || (num == num2 && 0 <= i <= i2),
        txns.contains_key(num) ==> 0 <= i <= txns[num].action_record_idx_vec@.len(),
        num == num2 ==> i2 <= txns[num].action_record_idx_vec@.len(),
    ensures
        processed_before(j, num2, i2, txns, ars),
{
    let t = ars[j].tx_key;
    let v = txns[t].action_record_idx_vec@;
    if t == num {
        let w = txns[num].action_record_idx_vec@;
        let x = choose|x: int| 0 <= x < w.take(i).len() && #[trigger] w.take(i)[x] == j;
        assert(w[x] == j);
        if num == num2 {
            assert(w.take(i2)[x] == j);
        }
    }
}

/// Processing keeps every movement processed, at any later position.
pub proof fn lemma_mvmts_processed_mono(
    txns: Map<u32, Transaction>,
    ars: Map<u32, ActionRecord>,
    accts: Map<u16, Account>,
    num: u32,
    i: int,
    num2: u32,
    i2: int,
)
    requires
        mvmts_processed(txns, ars, accts, num, i),
        num < num2 || (num == num2 && 0 <= i <= i2),
        txns.contains_key(num) ==> 0 <= i <= txns[num].action_record_idx_vec@.len(),
        num == num2 ==> i2 <= txns[num].action_record_idx_vec@.len(),
    ensures
        mvmts_processed(txns, ars, accts, num2, i2),
{
    assert forall|a: u16, li: int, mi: int|
        accts.contains_key(a) && 0 <= li < accts[a].list_of_lots@.len() && 0 <= mi
            < accts[a].list_of_lots@[li].movements@.len() implies processed_before(
        (#[trigger] accts[a].list_of_lots@[li].movements@[mi]).action_record_key,
        num2,
        i2,
        txns,
        ars,
    ) by {
        lemma_processed_before_mono(
            accts[a].list_of_lots@[li].movements@[mi].action_record_key,
            num,
            i,
            num2,
            i2,
            txns,
            ars,
        );
    }
}

/// Posting action record `k`, the `i`-th of transaction `num`, keeps the lots ordered
/// when, in an account outside margin and the home currency, an outgoing record starts
/// no lot; every movement is then processed up to position `i + 1`.
pub proof fn lemma_ordered_step(
    txns: Map<u32, Transaction>,
    ars: Map<u32, ActionRecord>,
    raws: Map<u16, RawAccount>,
    home: Seq<char>,
    old: Map<u16, Account>,
    new: Map<u16, Account>,
    a: u16,
    k: u32,
    total: int,
    num: u32,
    i: int,
)
    requires
        lots_ordered(txns, ars, old, raws, home),
        mvmts_processed(txns, ars, old, num, i),
        accts_wf(old),
        posted(old, new, a, k, total),
        txns.contains_key(num),
        1 <= num,
        0 <= i < txns[num].action_record_idx_vec@.len(),
        txns[num].action_record_idx_vec@[i] == k,
        ars.contains_key(k),
        ars[k].tx_key == num,
        plain_acct(new, raws, a, home) && spec_direction(ars[k].amount) != Polarity::Incoming
            ==> starts_no_lot(old[a].list_of_lots@, new[a].list_of_lots@),
    ensures
        lots_ordered(txns, ars, new, raws, home),
        mvmts_processed(txns, ars, new, num, i + 1),
{
    let v = txns[num].action_record_idx_vec@;
    assert(v.take(i + 1)[i] == k);
    assert(processed_before(k, num, i + 1, txns, ars));
    let ol = old[a].list_of_lots@;
    let nl = new[a].list_of_lots@;
    assert(acct_wf(old[a], a));
    assert(acct_wf(new[a], a));
    assert forall|b: u16, li: int, mi: int|
        new.contains_key(b) && 0 <= li < new[b].list_of_lots@.len() && 0 <= mi
            < new[b].list_of_lots@[li].movements@.len() implies processed_before(
        (#[trigger] new[b].list_of_lots@[li].movements@[mi]).action_record_key,
        num,
        i + 1,
        txns,
        ars,
    ) by {
        if b != a {
            assert(new[b] == old[b]);
            lemma_processed_before_mono(
                old[b].list_of_lots@[li].movements@[mi].action_record_key,
                num,
                i,
                num,
                i + 1,
                txns,
                ars,
            );
        } else if li < ol.len() && mi < ol[li].movements@.len() {
            assert(lot_extends(ol[li], nl[li], k));
            assert(nl[li].movements@[mi] == ol[li].movements@[mi]);
            lemma_processed_before_mono(
                ol[li].movements@[mi].action_record_key,
                num,
                i,
                num,
                i + 1,
                txns,
                ars,
            );
        } else if li < ol.len() {
            assert(lot_extends(ol[li], nl[li], k));
        }
    }
    assert forall|b: u16, li: int, mi: int|
        new.contains_key(b) && plain_acct(new, raws, b, home) && 0 <= li
            < new[b].list_of_lots@.len() && 0 <= mi
            < new[b].list_of_lots@[li].movements@.len() implies {
        let lot = new[b].list_of_lots@[li];
        let f = lot.movements@[0].action_record_key;
        let kk = (#[trigger] new[b].list_of_lots@[li].movements@[mi]).action_record_key;
        &&& spec_direction(ars[f].amount) == Polarity::Incoming
        &&& (kk == f || precedes(f, kk, txns, ars))
    } by {
        if b != a {
            assert(new[b] == old[b]);
            assert(acct_wf(old[b], b));
            assert(acct_wf(new[b], b));
        } else {
            let lot = nl[li];
            let f = lot.movements@[0].action_record_key;
            if li < ol.len() {
                assert(lot_extends(ol[li], nl[li], k));
                if ol[li].movements@.len() > 0 {
                    assert(nl[li].movements@[0] == ol[li].movements@[0]);
                    assert(old[a].list_of_lots@[li].movements@[0] == ol[li].movements@[0]);
                    if mi < ol[li].movements@.len() {
                        assert(nl[li].movements@[mi] == ol[li].movements@[mi]);
                        assert(old[a].list_of_lots@[li].movements@[mi] == ol[li].movements@[mi]);
                    } else {
                        assert(nl[li].movements@[mi].action_record_key == k);
                        assert(processed_before(f, num, i, txns, ars));
                        assert(ars[k].tx_key == num);
                        assert(v[i] == k);
                        assert(precedes(f, k, txns, ars));
                    }
                } else {
                    assert(nl[li].movements@[mi].action_record_key == k);
                    assert(nl[li].movements@[0].action_record_key == k);
                }
            } else {
                assert(nl[li].movements@[mi].action_record_key == k);
                assert(nl[li].movements@[0].action_record_key == k);
            }
        }
    }
}

/// Posting to a margin account keeps the lots ordered, and every movement processed up
/// to a position at which the posted record is processed.
pub proof fn lemma_ordered_margin_step(
    txns: Map<u32, Transaction>,
    ars: Map<u32, ActionRecord>,
    raws: Map<u16, RawAccount>,
    home: Seq<char>,
    old: Map<u16, Account>,
    new: Map<u16, Account>,
    a: u16,
    k: u32,
    total: int,
    num: u32,
    i: int,
)
    requires
        lots_ordered(txns, ars, old, raws, home),
        mvmts_processed(txns, ars, old, num, i),
        accts_wf(old),
        posted(old, new, a, k, total),
        raws[old[a].raw_key].is_margin,
        processed_before(k, num, i, txns, ars),
    ensures
        lots_ordered(txns, ars, new, raws, home),
        mvmts_processed(txns, ars, new, num, i),
{
    let ol = old[a].list_of_lots@;
    let nl = new[a].list_of_lots@;
    assert(acct_wf(old[a], a));
    assert(acct_wf(new[a], a));
    assert forall|b: u16, li: int, mi: int|
        new.contains_key(b) && 0 <= li < new[b].list_of_lots@.len() && 0 <= mi
            < new[b].list_of_lots@[li].movements@.len() implies processed_before(
        (#[trigger] new[b].list_of_lots@[li].movements@[mi]).action_record_key,
        num,
        i,
        txns,
        ars,
    ) by {
        if b != a {
            assert(new[b] == old[b]);
        } else if li < ol.len() && mi < ol[li].movements@.len() {
            assert(lot_extends(ol[li], nl[li], k));
            assert(nl[li].movements@[mi] == ol[li].movements@[mi]);
        } else if li < ol.len() {
            assert(lot_extends(ol[li], nl[li], k));
        }
    }
    assert forall|b: u16, li: int, mi: int|
        new.contains_key(b) && plain_acct(new, raws, b, home) && 0 <= li
            < new[b].list_of_lots@.len() && 0 <= mi
            < new[b].list_of_lots@[li].movements@.len() implies {
        let lot = new[b].list_of_lots@[li];
        let f = lot.movements@[0].action_record_key;
        let kk = (#[trigger] new[b].list_of_lots@[li].movements@[mi]).action_record_key;
        &&& spec_direction(ars[f].amount) == Polarity::Incoming
        &&& (kk == f || precedes(f, kk, txns, ars))
    } by {
        assert(b != a);
        assert(new[b] == old[b]);
        assert(acct_wf(old[b], b));
        assert(acct_wf(new[b], b));
    }
}

/// Changing only basis and proceeds keeps the lots ordered.
pub proof fn lemma_lots_ordered_same_shape(
    txns: Map<u32, Transaction>,
    ars: Map<u32, ActionRecord>,
    x: Map<u16, Account>,
    y: Map<u16, Account>,
    raws: Map<u16, RawAccount>,
    home: Seq<char>,
)
    requires
        lots_ordered(txns, ars, x, raws, home),
        same_shape(x, y),
    ensures
        lots_ordered(txns, ars, y, raws, home),
{
    assert forall|a: u16, li: int, mi: int|
        y.contains_key(a) && plain_acct(y, raws, a, home) && 0 <= li < y[a].list_of_lots@.len() && 0
            <= mi < y[a].list_of_lots@[li].movements@.len() implies {
        let lot = y[a].list_of_lots@[li];
        let f = lot.movements@[0].action_record_key;
        let k = (#[trigger] y[a].list_of_lots@[li].movements@[mi]).action_record_key;
        &&& spec_direction(ars[f].amount) == Polarity::Incoming
        &&& (k == f || precedes(f, k, txns, ars))
    } by {
        assert(x.contains_key(a));
        assert(lot_same_shape(x[a].list_of_lots@[li], y[a].list_of_lots@[li]));
        assert(mvmt_same_shape(
            x[a].list_of_lots@[li].movements@[mi],
            y[a].list_of_lots@[li].movements@[mi],
        ));
        assert(mvmt_same_shape(
            x[a].list_of_lots@[li].movements@[0],
            y[a].list_of_lots@[li].movements@[0],
        ));
    }
}

/// The movements keyed to `k` and dated no later than `d` are the same in movements of
/// the same shape whose movements keyed to `k` are the same.
pub proof fn lemma_lot_matches_frozen(x: Seq<Movement>, y: Seq<Movement>, k: u32, d: int)
    requires
        mvmts_same_shape(x, y),
        forall|i: int| 0 <= i < x.len() && (#[trigger] x[i]).action_record_key == k ==> y[i] == x[i],
    ensures
        lot_matches(x, k, d) == lot_matches(y, k, d),
    decreases x.len(),
{
    if x.len() > 0 {
        assert(mvmts_same_shape(x.skip(1), y.skip(1))) by {
            assert forall|i: int| 0 <= i < x.skip(1).len() implies mvmt_same_shape(
                #[trigger] x.skip(1)[i],
                y.skip(1)[i],
            ) by {
                assert(mvmt_same_shape(x[i + 1], y[i + 1]));
            }
        }
        assert forall|i: int|
            0 <= i < x.skip(1).len() && (#[trigger] x.skip(1)[i]).action_record_key == k implies y.skip(
            1,
        )[i] == x.skip(1)[i] by {
            assert(x.skip(1)[i] == x[i + 1]);
            assert(y.skip(1)[i] == y[i + 1]);
        }
        lemma_lot_matches_frozen(x.skip(1), y.skip(1), k, d);
        assert(mvmt_same_shape(x[0], y[0]));
    }
}

/// The movements keyed to `k` and dated no later than `d` are the same in lots of the
/// same shape whose movements keyed to `k` are the same.
pub proof fn lemma_lots_matches_frozen(x: Seq<Lot>, y: Seq<Lot>, k: u32, d: int)
    requires
        lots_same_shape(x, y),
        forall|li: int, mi: int|
            0 <= li < x.len() && 0 <= mi < x[li].movements@.len() && (
            #[trigger] x[li].movements@[mi]).action_record_key == k ==> y[li].movements@[mi]
                == x[li].movements@[mi],
    ensures
        lots_matches(x, k, d) == lots_matches(y, k, d),
    decreases x.len(),
{
    if x.len() > 0 {
        assert(lots_same_shape(x.skip(1), y.skip(1))) by {
            assert forall|i: int| 0 <= i < x.skip(1).len() implies lot_same_shape(
                #[trigger] x.skip(1)[i],
                y.skip(1)[i],
            ) by {
                assert(lot_same_shape(x[i + 1], y[i + 1]));
            }
        }
        assert forall|li: int, mi: int|
            0 <= li < x.skip(1).len() && 0 <= mi < x.skip(1)[li].movements@.len() && (
            #[trigger] x.skip(1)[li].movements@[mi]).action_record_key == k implies y.skip(
            1,
        )[li].movements@[mi] == x.skip(1)[li].movements@[mi] by {
            assert(x.skip(1)[li] == x[li + 1]);
            assert(y.skip(1)[li] == y[li + 1]);
            assert(x[li + 1].movements@[mi] == x.skip(1)[li].movements@[mi]);
        }
        lemma_lots_matches_frozen(x.skip(1), y.skip(1), k, d);
        assert(lot_same_shape(x[0], y[0]));
        assert(mvmts_same_shape(x[0].movements@, y[0].movements@));
        assert forall|i: int|
            0 <= i < x[0].movements@.len() && (#[trigger] x[0].movements@[i]).action_record_key
                == k implies y[0].movements@[i] == x[0].movements@[i] by {}
        lemma_lot_matches_frozen(x[0].movements@, y[0].movements@, k, d);
    }
}

/// Movements of the same shape and the same cost basis, pointwise.
pub open spec fn mvmts_same_basis(x: Seq<Movement>, y: Seq<Movement>) -> bool {
    &&& x.len() == y.len()
    &&& forall|i: int|
        0 <= i < x.len() ==> mvmt_same_shape(#[trigger] x[i], y[i]) && x[i].cost_basis
            == y[i].cost_basis
}

pub proof fn lemma_lot_matches_same_basis(x: Seq<Movement>, y: Seq<Movement>, k: u32, d: int)
    requires
        mvmts_same_basis(x, y),
    ensures
        mvmts_same_basis(lot_matches(x, k, d), lot_matches(y, k, d)),
    decreases x.len(),
{
    if x.len() > 0 {
        assert(mvmts_same_basis(x.skip(1), y.skip(1))) by {
            assert forall|i: int| 0 <= i < x.skip(1).len() implies mvmt_same_shape(
                #[trigger] x.skip(1)[i],
                y.skip(1)[i],
            ) && x.skip(1)[i].cost_basis == y.skip(1)[i].cost_basis by {
                assert(mvmt_same_shape(x[i + 1], y[i + 1]));
            }
        }
        lemma_lot_matches_same_basis(x.skip(1), y.skip(1), k, d);
        assert(mvmt_same_shape(x[0], y[0]));
        let hx = if mvmt_matches(x[0], k, d) {
            seq![x[0]]
        } else {
            Seq::<Movement>::empty()
        };
        let hy = if mvmt_matches(y[0], k, d) {
            seq![y[0]]
        } else {
            Seq::<Movement>::empty()
        };
        let tx = lot_matches(x.skip(1), k, d);
        let ty = lot_matches(y.skip(1), k, d);
        assert forall|i: int| 0 <= i < (hx + tx).len() implies mvmt_same_shape(
            #[trigger] (hx + tx)[i],
            (hy + ty)[i],
        ) && (hx + tx)[i].cost_basis == (hy + ty)[i].cost_basis by {
            if i < hx.len() {
            } else {
                assert((hx + tx)[i] == tx[i - hx.len()]);
                assert((hy + ty)[i] == ty[i - hy.len()]);
            }
        }
    }
}

/// Lots of the same shape and the same cost basis keep both in the movements keyed to
/// `k`.
pub proof fn lemma_lots_matches_same_basis(x: Seq<Lot>, y: Seq<Lot>, k: u32, d: int)
    requires
        lots_same_shape(x, y),
        forall|li: int, mi: int|
            0 <= li < x.len() && 0 <= mi < x[li].movements@.len() ==> (
            #[trigger] x[li].movements@[mi]).cost_basis == y[li].movements@[mi].cost_basis,
    ensures
        mvmts_same_basis(lots_matches(x, k, d), lots_matches(y, k, d)),
    decreases x.len(),
{
    if x.len() > 0 {
        assert(lots_same_shape(x.skip(1), y.skip(1))) by {
            assert forall|i: int| 0 <= i < x.skip(1).len() implies lot_same_shape(
                #[trigger] x.skip(1)[i],
                y.skip(1)[i],
            ) by {
                assert(lot_same_shape(x[i + 1], y[i + 1]));
            }
        }
        assert forall|li: int, mi: int|
            0 <= li < x.skip(1).len() && 0 <= mi < x.skip(1)[li].movements@.len() implies (
            #[trigger] x.skip(1)[li].movements@[mi]).cost_basis == y.skip(1)[li].movements@[mi].cost_basis by {
            assert(x.skip(1)[li] == x[li + 1]);
            assert(y.skip(1)[li] == y[li + 1]);
            assert(x[li + 1].movements@[mi] == x.skip(1)[li].movements@[mi]);
        }
        lemma_lots_matches_same_basis(x.skip(1), y.skip(1), k, d);
        assert(lot_same_shape(x[0], y[0]));
        assert(mvmts_same_basis(x[0].movements@, y[0].movements@)) by {
            assert forall|i: int| 0 <= i < x[0].movements@.len() implies mvmt_same_shape(
                #[trigger] x[0].movements@[i],
                y[0].movements@[i],
            ) && x[0].movements@[i].cost_basis == y[0].movements@[i].cost_basis by {
                assert(x[0].movements@[i] == x[0].movements@[i]);
            }
        }
        lemma_lot_matches_same_basis(x[0].movements@, y[0].movements@, k, d);
        let hx = lot_matches(x[0].movements@, k, d);
        let hy = lot_matches(y[0].movements@, k, d);
        let tx = lots_matches(x.skip(1), k, d);
        let ty = lots_matches(y.skip(1), k, d);
        assert forall|i: int| 0 <= i < (hx + tx).len() implies mvmt_same_shape(
            #[trigger] (hx + tx)[i],
            (hy + ty)[i],
        ) && (hx + tx)[i].cost_basis == (hy + ty)[i].cost_basis by {
            if i < hx.len() {
                assert(mvmt_same_shape(hx[i], hy[i]));
            } else {
                assert((hx + tx)[i] == tx[i - hx.len()]);
                assert((hy + ty)[i] == ty[i - hy.len()]);
                assert(mvmt_same_shape(tx[i - hx.len()], ty[i - hy.len()]));
            }
        }
    }
}

} // verus!
