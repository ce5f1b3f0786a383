//! The figures of the reports: account and lot totals, movement details, and the
//! per-transaction summaries by term.  Laying them out in files happens elsewhere.
use std::collections::HashMap;
use vstd::prelude::*;
use crate::dec::{Dec, decimal_to_string, negated, spec_add, add_fits};
use crate::date::Date;
use crate::account::{
    Account, Lot, MvmtField, RawAccount, lots_sum, lots_sum_from, mvmt_sum, count_positive_lots,
    sum_field, sum_lots_field,
};
use crate::account::{Movement, Term, field_of, spec_lot_of, lot_of_resolves};
use crate::transaction::{
    ActionRecord, Polarity, Transaction, TxType, spec_direction, spec_tx_type, ar_resolves,
    ar_raw, outgoing_exchange_and_flow_mvmts, AutoMemo, auto_memo_result, counted_ar_fails,
};
use crate::ledger::{ledger_wf, txn_ok, lemma_mvmt_sum_push};
use crate::strings::std_to_lowercase;
use crate::errors::CryptoolsError;
use crate::export_je::{add_or_err, lot_of_found, mvmts_of_term};

verus! {

broadcast use vstd::std_specs::hash::group_hash_axioms;

/// How the reports write a total: `0.00` for zero, otherwise as the decimal writes itself.
pub fn amount_text(d: &Dec) -> (r: String)
    ensures
        r@ == (if d.val() == 0 {
            "0.00"@
        } else {
            decimal_to_string(d.mant(), d.scl() as int)
        }),
{
    if d.is_zero() {
        crate::strings::string_from("0.00")
    } else {
        d.to_string()
    }
}

/// When the running total over lots fits, so does the total of each lot.
pub proof fn lemma_lots_sum_each(acc: Dec, lots: Seq<Lot>, f: MvmtField)
    requires
        lots_sum_from(acc, lots, f) is Some,
    ensures
        forall|i: int| 0 <= i < lots.len() ==> (mvmt_sum(#[trigger] lots[i].movements@, f) is Some),
    decreases lots.len(),
{
    if lots.len() > 0 {
        lemma_lots_sum_each(acc, lots.drop_last(), f);
        assert forall|i: int| 0 <= i < lots.len() implies (mvmt_sum(
            #[trigger] lots[i].movements@,
            f,
        ) is Some) by {
            if i < lots.len() - 1 {
                assert(lots.drop_last()[i] == lots[i]);
            }
        }
    }
}

/// The totals of one lot, as the lot summaries show them.
#[derive(Debug)]
pub struct LotSumRow {
    /// The lot's position in its account, from 1.
    pub lot_number: usize,
    pub created: Date,
    pub basis_date: Date,
    pub balance: Dec,
    pub lk_cost_basis: Dec,
}

/// `row` shows lot `lot`, at index `i` of its account.
pub open spec fn lot_sum_row_of(row: LotSumRow, lot: Lot, i: int) -> bool {
    &&& row.lot_number == i + 1
    &&& row.created == lot.date_of_first_mvmt_in_lot
    &&& row.basis_date == lot.date_for_basis_purposes
    &&& mvmt_sum(lot.movements@, MvmtField::Amount) == Some(row.balance)
    &&& mvmt_sum(lot.movements@, MvmtField::CostBasisLk) == Some(row.lk_cost_basis)
}

/// The totals of one account, with those of its lots.
#[derive(Debug)]
pub struct AccountSumRow {
    pub account_num: u16,
    pub name: String,
    pub ticker: String,
    pub is_margin: bool,
    pub balance: Dec,
    pub lk_cost_basis: Dec,
    pub orig_cost_basis: Dec,
    pub total_lots: usize,
    pub nonzero_lots: u32,
    pub lots: Vec<LotSumRow>,
}

/// Account `j` can be looked up, with its raw account, and its totals fit.
pub open spec fn account_sums_fit(
    j: u16,
    accts: Map<u16, Account>,
    raws: Map<u16, RawAccount>,
) -> bool {
    &&& accts.contains_key(j)
    &&& raws.contains_key(accts[j].raw_key)
    &&& lots_sum(accts[j].list_of_lots@, MvmtField::Amount) is Some
    &&& lots_sum(accts[j].list_of_lots@, MvmtField::CostBasisLk) is Some
    &&& lots_sum(accts[j].list_of_lots@, MvmtField::CostBasis) is Some
    &&& accts[j].list_of_lots@.len() <= u32::MAX
}

/// `row` shows account `j`: its raw account's name, ticker and margin flag, its balance,
/// like-kind and original cost basis, its number of lots and of lots with a positive
/// balance, and each of its lots in order.
pub open spec fn account_sum_row_of(
    row: AccountSumRow,
    j: u16,
    accts: Map<u16, Account>,
    raws: Map<u16, RawAccount>,
) -> bool {
    let acct = accts[j];
    let raw = raws[acct.raw_key];
    let lots = acct.list_of_lots@;
    &&& row.account_num == j
    &&& row.name@ == raw.name@
    &&& row.ticker@ == raw.ticker@
    &&& row.is_margin == raw.is_margin
    &&& lots_sum(lots, MvmtField::Amount) == Some(row.balance)
    &&& lots_sum(lots, MvmtField::CostBasisLk) == Some(row.lk_cost_basis)
    &&& lots_sum(lots, MvmtField::CostBasis) == Some(row.orig_cost_basis)
    &&& row.total_lots == lots.len()
    &&& row.nonzero_lots == count_positive_lots(lots)
    &&& row.lots@.len() == lots.len()
    &&& forall|i: int| 0 <= i < lots.len() ==> lot_sum_row_of(#[trigger] row.lots@[i], lots[i], i)
}

/// The totals of account `j`.
pub fn account_sum_row(
    j: u16,
    raw_acct_map: &HashMap<u16, RawAccount>,
    acct_map: &HashMap<u16, Account>,
) -> (r: Result<AccountSumRow, CryptoolsError>)
    ensures
        r is Ok <==> account_sums_fit(j, acct_map@, raw_acct_map@),
        r matches Ok(row) ==> account_sum_row_of(row, j, acct_map@, raw_acct_map@),
        r matches Err(e) ==> (e == CryptoolsError::MissingAccount { account_num: j } || e
            == CryptoolsError::AccountTotalOverflow { account_num: j }),
{
    let acct = match acct_map.get(&j) {
        Some(a) => a,
        None => {
            return Err(CryptoolsError::MissingAccount { account_num: j });
        },
    };
    let raw = match raw_acct_map.get(&acct.raw_key) {
        Some(x) => x,
        None => {
            return Err(CryptoolsError::MissingAccount { account_num: j });
        },
    };
    let overflow = CryptoolsError::AccountTotalOverflow { account_num: j };
    let balance = match sum_lots_field(&acct.list_of_lots, MvmtField::Amount) {
        Some(x) => x,
        None => {
            return Err(overflow);
        },
    };
    let lk_cost_basis = match sum_lots_field(&acct.list_of_lots, MvmtField::CostBasisLk) {
        Some(x) => x,
        None => {
            return Err(overflow);
        },
    };
    let orig_cost_basis = match sum_lots_field(&acct.list_of_lots, MvmtField::CostBasis) {
        Some(x) => x,
        None => {
            return Err(overflow);
        },
    };
    if acct.list_of_lots.len() > 0xffff_ffff {
        return Err(overflow);
    }
    proof {
        lemma_lots_sum_each(Dec::zero_spec(), acct.list_of_lots@, MvmtField::Amount);
        lemma_lots_sum_each(Dec::zero_spec(), acct.list_of_lots@, MvmtField::CostBasisLk);
    }
    let nonzero_lots = acct.get_num_of_nonzero_lots();
    let mut lots: Vec<LotSumRow> = Vec::new();
    let mut i: usize = 0;
    while i < acct.list_of_lots.len()
        invariant
            i <= acct.list_of_lots@.len(),
            lots@.len() == i,
            forall|k: int|
                0 <= k < acct.list_of_lots@.len() ==> (mvmt_sum(
                    #[trigger] acct.list_of_lots@[k].movements@,
                    MvmtField::Amount,
                ) is Some),
            forall|k: int|
                0 <= k < acct.list_of_lots@.len() ==> (mvmt_sum(
                    #[trigger] acct.list_of_lots@[k].movements@,
                    MvmtField::CostBasisLk,
                ) is Some),
            forall|k: int|
                0 <= k < i ==> lot_sum_row_of(#[trigger] lots@[k], acct.list_of_lots@[k], k),
        decreases acct.list_of_lots@.len() - i,
    {
        let lot = &acct.list_of_lots[i];
        let balance = lot.get_sum_of_amts_in_lot();
        let basis = lot.get_sum_of_lk_basis_in_lot();
        lots.push(
            LotSumRow {
                lot_number: i + 1,
                created: lot.date_of_first_mvmt_in_lot,
                basis_date: lot.date_for_basis_purposes,
                balance,
                lk_cost_basis: basis,
            },
        );
        i = i + 1;
    }
    Ok(
        AccountSumRow {
            account_num: j,
            name: raw.name.clone(),
            ticker: raw.ticker.clone(),
            is_margin: raw.is_margin,
            balance,
            lk_cost_basis,
            orig_cost_basis,
            total_lots: acct.list_of_lots.len(),
            nonzero_lots,
            lots,
        },
    )
}


/// The total of field `f` over the movements whose term is `term` (`ts` holds the terms
/// of `ms`, in order).
pub open spec fn term_total(ms: Seq<Movement>, ts: Seq<Term>, term: Term, f: MvmtField) -> int
    decreases ms.len(),
{
    if ms.len() == 0 || ts.len() == 0 {
        0
    } else {
        term_total(ms.drop_last(), ts.drop_last(), term, f) + if ts.last() == term {
            field_of(ms.last(), f).val()
        } else {
            0
        }
    }
}

/// The first of `ds` whose term in `ts` is `term`.
pub open spec fn first_in_term(ts: Seq<Term>, ds: Seq<Date>, term: Term) -> Option<Date>
    decreases ts.len(),
{
    if ts.len() == 0 || ds.len() == 0 {
        None
    } else {
        match first_in_term(ts.drop_last(), ds.drop_last(), term) {
            Some(d) => Some(d),
            None => if ts.last() == term {
                Some(ds.last())
            } else {
                None
            },
        }
    }
}

/// The last of `ds` whose term in `ts` is `term`.
pub open spec fn last_in_term(ts: Seq<Term>, ds: Seq<Date>, term: Term) -> Option<Date>
    decreases ts.len(),
{
    if ts.len() == 0 || ds.len() == 0 {
        None
    } else if ts.last() == term {
        Some(ds.last())
    } else {
        last_in_term(ts.drop_last(), ds.drop_last(), term)
    }
}

/// The basis dates of the lots of the movements.
pub open spec fn basis_dates(
    ms: Seq<Movement>,
    accts: Map<u16, Account>,
    ars: Map<u32, ActionRecord>,
) -> Seq<Date> {
    Seq::new(ms.len(), |i: int| spec_lot_of(ms[i], accts, ars).date_for_basis_purposes)
}

/// `ts` are terms of the movements `ms`: one each, and for an outgoing movement long-term
/// exactly when more than 365 days separate its lot's basis date from its own date.  (The
/// term of an incoming movement is read off the clock.)
pub open spec fn terms_fit(
    ts: Seq<Term>,
    ms: Seq<Movement>,
    accts: Map<u16, Account>,
    ars: Map<u32, ActionRecord>,
) -> bool {
    &&& ts.len() == ms.len()
    &&& forall|i: int|
        0 <= i < ms.len() && spec_direction(ars[ms[i].action_record_key].amount)
            == Polarity::Outgoing ==> #[trigger] ts[i] == (if ms[i].date.day_num() - spec_lot_of(
            ms[i],
            accts,
            ars,
        ).date_for_basis_purposes.day_num() > 365 {
            Term::LT
        } else {
            Term::ST
        })
}

/// The totals of the movements of one term.
pub struct TermTotals {
    pub amount: Dec,
    pub proceeds: Dec,
    pub cost_basis: Dec,
    /// The basis date of the lot of the first movement of the term.
    pub first_basis_date: Option<Date>,
    /// The basis date of the lot of the last movement of the term.
    pub last_basis_date: Option<Date>,
}

pub open spec fn term_totals_of(
    tt: TermTotals,
    ms: Seq<Movement>,
    ts: Seq<Term>,
    ds: Seq<Date>,
    term: Term,
) -> bool {
    &&& tt.amount.val() == term_total(ms, ts, term, MvmtField::Amount)
    &&& tt.proceeds.val() == term_total(ms, ts, term, MvmtField::ProceedsLk)
    &&& tt.cost_basis.val() == term_total(ms, ts, term, MvmtField::CostBasisLk)
    &&& tt.first_basis_date == first_in_term(ts, ds, term)
    &&& tt.last_basis_date == last_in_term(ts, ds, term)
}

fn empty_totals() -> (r: TermTotals)
    ensures
        r.amount.val() == 0 && r.proceeds.val() == 0 && r.cost_basis.val() == 0,
        r.first_basis_date is None && r.last_basis_date is None,
        r.amount == Dec::zero_spec() && r.proceeds == Dec::zero_spec() && r.cost_basis == Dec::zero_spec(),
{
    proof {
        Dec::lemma_zero_spec();
    }
    TermTotals {
        amount: Dec::zero(),
        proceeds: Dec::zero(),
        cost_basis: Dec::zero(),
        first_basis_date: None,
        last_basis_date: None,
    }
}

/// Adds movement `m`, whose lot has basis date `d`, to the totals of its term.
fn add_to_totals(tt: &mut TermTotals, m: &Movement, d: Date, t: u32) -> (r: Result<(), CryptoolsError>)
    ensures
        r is Ok ==> final(tt).amount.val() == old(tt).amount.val() + m.amount.val(),
        r is Ok ==> final(tt).proceeds.val() == old(tt).proceeds.val() + m.proceeds_lk.val(),
        r is Ok ==> final(tt).cost_basis.val() == old(tt).cost_basis.val() + m.cost_basis_lk.val(),
        r is Ok ==> final(tt).first_basis_date == (match old(tt).first_basis_date {
            Some(f) => Some(f),
            None => Some(d),
        }),
        r is Ok ==> final(tt).last_basis_date == Some(d),
        r is Ok ==> final(tt).amount == spec_add(old(tt).amount, m.amount)
            && final(tt).proceeds == spec_add(old(tt).proceeds, m.proceeds_lk)
            && final(tt).cost_basis == spec_add(old(tt).cost_basis, m.cost_basis_lk),
        r is Ok <==> add_fits(old(tt).amount, m.amount) && add_fits(old(tt).proceeds, m.proceeds_lk)
            && add_fits(old(tt).cost_basis, m.cost_basis_lk),
{
    tt.amount = add_or_err(&tt.amount, &m.amount, t)?;
    tt.proceeds = add_or_err(&tt.proceeds, &m.proceeds_lk, t)?;
    tt.cost_basis = add_or_err(&tt.cost_basis, &m.cost_basis_lk, t)?;
    if tt.first_basis_date.is_none() {
        tt.first_basis_date = Some(d);
    }
    tt.last_basis_date = Some(d);
    Ok(())
}

/// The running totals by term of movements `ms` with terms `ts`: amount, like-kind
/// proceeds, like-kind basis, of the short-term ones, then of the long-term ones.
pub open spec fn term_sums(ms: Seq<Movement>, ts: Seq<Term>) -> Seq<Option<Dec>> {
    let st = mvmts_of_term(ms, ts, Term::ST);
    let lt = mvmts_of_term(ms, ts, Term::LT);
    seq![
        mvmt_sum(st, MvmtField::Amount),
        mvmt_sum(st, MvmtField::ProceedsLk),
        mvmt_sum(st, MvmtField::CostBasisLk),
        mvmt_sum(lt, MvmtField::Amount),
        mvmt_sum(lt, MvmtField::ProceedsLk),
        mvmt_sum(lt, MvmtField::CostBasisLk),
    ]
}

/// The first `n` movements of `ms`, with terms `ts` that fit them (`terms_fit`), cannot be
/// totalled by term: the lot of one of them cannot be looked up, or a running total does
/// not fit.
pub open spec fn term_totals_fail_at(
    ms: Seq<Movement>,
    n: int,
    ts: Seq<Term>,
    accts: Map<u16, Account>,
    ars: Map<u32, ActionRecord>,
) -> bool {
    &&& 0 <= n <= ms.len()
    &&& terms_fit(ts, ms.take(n), accts, ars)
    &&& ((exists|i: int| 0 <= i < n && !lot_of_resolves(#[trigger] ms[i], accts, ars)) || exists|q: int|
        0 <= q < 6 && #[trigger] term_sums(ms.take(n), ts)[q] is None)
}

/// Splits the movements by term and totals each part; also returns the terms and the
/// basis dates of the movements' lots.
fn totals_by_term(
    mvmts: &Vec<Movement>,
    acct_map: &HashMap<u16, Account>,
    ars: &HashMap<u32, ActionRecord>,
    t: u32,
) -> (r: Result<(Vec<Term>, Vec<Date>, TermTotals, TermTotals), CryptoolsError>)
    ensures
        r matches Ok((ts, ds, st, lt)) ==> {
            &&& terms_fit(ts@, mvmts@, acct_map@, ars@)
            &&& ds@ == basis_dates(mvmts@, acct_map@, ars@)
            &&& term_totals_of(st, mvmts@, ts@, ds@, Term::ST)
            &&& term_totals_of(lt, mvmts@, ts@, ds@, Term::LT)
            &&& term_sums(mvmts@, ts@) == seq![
                Some(st.amount),
                Some(st.proceeds),
                Some(st.cost_basis),
                Some(lt.amount),
                Some(lt.proceeds),
                Some(lt.cost_basis),
            ]
        },
        r is Err ==> exists|n: int, ts: Seq<Term>|
            #[trigger] term_totals_fail_at(mvmts@, n, ts, acct_map@, ars@),
        r is Ok ==> forall|i: int| 0 <= i < mvmts@.len() ==> lot_of_resolves(#[trigger] mvmts@[i], acct_map@, ars@),
{
    let mut terms: Vec<Term> = Vec::new();
    let mut dates: Vec<Date> = Vec::new();
    let mut st = empty_totals();
    let mut lt = empty_totals();
    proof {
        let e = mvmts@.take(0);
        assert(e =~= Seq::<Movement>::empty());
        assert(mvmts_of_term(e, terms@, Term::ST) =~= Seq::<Movement>::empty());
        assert(mvmts_of_term(e, terms@, Term::LT) =~= Seq::<Movement>::empty());
        assert(crate::account::fields_of(Seq::<Movement>::empty(), MvmtField::Amount) =~= Seq::<Dec>::empty());
        assert(crate::account::fields_of(Seq::<Movement>::empty(), MvmtField::ProceedsLk) =~= Seq::<Dec>::empty());
        assert(crate::account::fields_of(Seq::<Movement>::empty(), MvmtField::CostBasisLk) =~= Seq::<Dec>::empty());
        assert(term_sums(e, terms@) =~= seq![
            Some(st.amount),
            Some(st.proceeds),
            Some(st.cost_basis),
            Some(lt.amount),
            Some(lt.proceeds),
            Some(lt.cost_basis),
        ]);
    }
    let mut j: usize = 0;
    while j < mvmts.len()
        invariant
            j <= mvmts@.len(),
            terms@.len() == j,
            terms_fit(terms@, mvmts@.take(j as int), acct_map@, ars@),
            dates@ == basis_dates(mvmts@.take(j as int), acct_map@, ars@),
            term_totals_of(st, mvmts@.take(j as int), terms@, dates@, Term::ST),
            term_totals_of(lt, mvmts@.take(j as int), terms@, dates@, Term::LT),
            term_sums(mvmts@.take(j as int), terms@) == seq![
                Some(st.amount),
                Some(st.proceeds),
                Some(st.cost_basis),
                Some(lt.amount),
                Some(lt.proceeds),
                Some(lt.cost_basis),
            ],
            forall|i: int| 0 <= i < j ==> lot_of_resolves(#[trigger] mvmts@[i], acct_map@, ars@),
        decreases mvmts@.len() - j,
    {
        let m = &mvmts[j];
        let ghost ms1 = mvmts@.take(j + 1);
        proof {
            assert(ms1.drop_last() =~= mvmts@.take(j as int));
            assert(ms1.last() == *m);
            assert forall|i: int| 0 <= i < j implies #[trigger] ms1[i] == mvmts@.take(j as int)[i] by {}
        }
        if !lot_of_found(m, acct_map, ars) {
            proof {
                let ts = terms@.push(Term::ST);
                let ot = spec_direction(ars@[m.action_record_key].amount) == Polarity::Outgoing;
                let ts = terms@.push(if m.date.day_num() - spec_lot_of(*m, acct_map@, ars@).date_for_basis_purposes.day_num() > 365 {
                    Term::LT
                } else {
                    Term::ST
                });
                assert(terms_fit(ts, ms1, acct_map@, ars@)) by {
                    assert forall|i: int|
                        0 <= i < ms1.len() && spec_direction(ars@[ms1[i].action_record_key].amount)
                            == Polarity::Outgoing implies #[trigger] ts[i] == (if ms1[i].date.day_num()
                        - spec_lot_of(ms1[i], acct_map@, ars@).date_for_basis_purposes.day_num() > 365 {
                        Term::LT
                    } else {
                        Term::ST
                    }) by {
                        if i < j {
                            assert(mvmts@.take(j as int)[i] == ms1[i]);
                        }
                    }
                }
                assert(mvmts@[j as int] == *m);
                assert(term_totals_fail_at(mvmts@, j + 1, ts, acct_map@, ars@));
            }
            return Err(CryptoolsError::MissingData { tx_number: t });
        }
        let term = m.get_term(acct_map, ars);
        let d = m.get_lot(acct_map, ars).date_for_basis_purposes;
        let ghost ts1 = terms@.push(term);
        proof {
            assert(terms_fit(ts1, ms1, acct_map@, ars@)) by {
                assert forall|i: int|
                    0 <= i < ms1.len() && spec_direction(ars@[ms1[i].action_record_key].amount)
                        == Polarity::Outgoing implies #[trigger] ts1[i] == (if ms1[i].date.day_num()
                    - spec_lot_of(ms1[i], acct_map@, ars@).date_for_basis_purposes.day_num() > 365 {
                    Term::LT
                } else {
                    Term::ST
                }) by {
                    if i < j {
                        assert(mvmts@.take(j as int)[i] == ms1[i]);
                    }
                }
            }
            assert(ts1.drop_last() =~= terms@);
            let st0 = mvmts_of_term(mvmts@.take(j as int), terms@, Term::ST);
            let lt0 = mvmts_of_term(mvmts@.take(j as int), terms@, Term::LT);
            lemma_mvmt_sum_push(st0, *m, MvmtField::Amount);
            lemma_mvmt_sum_push(st0, *m, MvmtField::ProceedsLk);
            lemma_mvmt_sum_push(st0, *m, MvmtField::CostBasisLk);
            lemma_mvmt_sum_push(lt0, *m, MvmtField::Amount);
            lemma_mvmt_sum_push(lt0, *m, MvmtField::ProceedsLk);
            lemma_mvmt_sum_push(lt0, *m, MvmtField::CostBasisLk);
        }
        match term {
            Term::ST => {
                match add_to_totals(&mut st, m, d, t) {
                    Ok(()) => {},
                    Err(e) => {
                        proof {
                            assert(term_sums(ms1, ts1)[0] is None || term_sums(ms1, ts1)[1] is None
                                || term_sums(ms1, ts1)[2] is None);
                            assert(term_totals_fail_at(mvmts@, j + 1, ts1, acct_map@, ars@));
                        }
                        return Err(e);
                    },
                }
            },
            Term::LT => {
                match add_to_totals(&mut lt, m, d, t) {
                    Ok(()) => {},
                    Err(e) => {
                        proof {
                            assert(term_sums(ms1, ts1)[3] is None || term_sums(ms1, ts1)[4] is None
                                || term_sums(ms1, ts1)[5] is None);
                            assert(term_totals_fail_at(mvmts@, j + 1, ts1, acct_map@, ars@));
                        }
                        return Err(e);
                    },
                }
            },
        }
        let ghost ts0 = terms@;
        let ghost ds0 = dates@;
        terms.push(term);
        dates.push(d);
        proof {
            let ms1 = mvmts@.take(j + 1);
            assert(ms1.drop_last() =~= mvmts@.take(j as int));
            assert(terms@.drop_last() =~= ts0);
            assert(dates@.drop_last() =~= ds0);
            assert(dates@ =~= basis_dates(ms1, acct_map@, ars@));
            assert forall|i: int|
                0 <= i < ms1.len() && spec_direction(ars@[ms1[i].action_record_key].amount)
                    == Polarity::Outgoing implies #[trigger] terms@[i] == (if ms1[i].date.day_num()
                - spec_lot_of(ms1[i], acct_map@, ars@).date_for_basis_purposes.day_num() > 365 {
                Term::LT
            } else {
                Term::ST
            }) by {
                if i < j {
                    assert(mvmts@.take(j as int)[i] == ms1[i]);
                    assert(terms@[i] == ts0[i]);
                }
            }
        }
        j = j + 1;
    }
    proof {
        assert(mvmts@.take(mvmts@.len() as int) =~= mvmts@);
    }
    Ok((terms, dates, st, lt))
}


/// How a report names the kind of a transaction for a movement of the given amount (see
/// `Movement::friendly_tx_type`).
pub open spec fn friendly_text(ty: TxType, amount: Dec) -> Seq<char> {
    match ty {
        TxType::Exchange => "Exchange"@,
        TxType::ToSelf => "ToSelf"@,
        TxType::Flow => (if amount.val() > 0 {
            "In"@
        } else {
            "Out"@
        }) + std_to_lowercase("Flow"@),
    }
}

/// The ticker of the account that holds the lot of movement `m`.
pub open spec fn mvmt_ticker(
    m: Movement,
    accts: Map<u16, Account>,
    ars: Map<u32, ActionRecord>,
    raws: Map<u16, RawAccount>,
) -> Seq<char> {
    raws[accts[spec_lot_of(m, accts, ars).account_key].raw_key].ticker@
}

/// The movements of transaction `t` that the reports list: those of
/// `Transaction::get_outgoing_exchange_and_flow_mvmts`.
pub open spec fn reported_mvmts(
    t: u32,
    home: Seq<char>,
    ars: Map<u32, ActionRecord>,
    accts: Map<u16, Account>,
    raws: Map<u16, RawAccount>,
    txns: Map<u32, Transaction>,
) -> Seq<Movement> {
    outgoing_exchange_and_flow_mvmts(
        txns[t],
        txns[t].action_record_idx_vec@.len() as int,
        home,
        ars,
        accts,
        raws,
        txns,
    )
}

/// Listing the movements of transaction `t` fails: its kind cannot be told, or gathering
/// the movements of one of its action records fails (see `counted_ar_fails`).
pub open spec fn reported_fails(
    t: u32,
    home: Seq<char>,
    ars: Map<u32, ActionRecord>,
    accts: Map<u16, Account>,
    raws: Map<u16, RawAccount>,
    txns: Map<u32, Transaction>,
) -> bool {
    ||| spec_tx_type(txns[t], ars, accts, raws) is Err
    ||| exists|i: int|
        0 <= i < txns[t].action_record_idx_vec@.len() && #[trigger] counted_ar_fails(
            txns[t],
            i,
            home,
            ars,
            accts,
            raws,
            txns,
        )
}

/// The detail rows of transaction `t` cannot be made: its movements cannot be listed, or
/// one of them is of another transaction or has no detail row (see `detail_row_fits`).
pub open spec fn detail_fails(
    t: u32,
    home: Seq<char>,
    ars: Map<u32, ActionRecord>,
    accts: Map<u16, Account>,
    raws: Map<u16, RawAccount>,
    txns: Map<u32, Transaction>,
) -> bool {
    let ms = reported_mvmts(t, home, ars, accts, raws, txns);
    ||| reported_fails(t, home, ars, accts, raws, txns)
    ||| exists|j: int|
        0 <= j < ms.len() && ((#[trigger] ms[j]).transaction_key != t || !detail_row_fits(
            ms[j],
            accts,
            ars,
            raws,
        ))
}

/// The kind of transaction `t` and the movements that the reports list.
fn reported_mvmts_of(
    home: &str,
    txn_num: u32,
    ars: &HashMap<u32, ActionRecord>,
    raw_acct_map: &HashMap<u16, RawAccount>,
    acct_map: &HashMap<u16, Account>,
    txns_map: &HashMap<u32, Transaction>,
) -> (r: Result<(TxType, Vec<Movement>), CryptoolsError>)
    requires
        ledger_wf(txns_map@, txns_map@.len() as int, ars@, acct_map@, raw_acct_map@),
        txns_map@.contains_key(txn_num),
    ensures
        r matches Ok((ty, ms)) ==> spec_tx_type(txns_map@[txn_num], ars@, acct_map@, raw_acct_map@)
            == Ok::<TxType, CryptoolsError>(ty) && ms@ == reported_mvmts(
            txn_num,
            home@,
            ars@,
            acct_map@,
            raw_acct_map@,
            txns_map@,
        ),
        r is Err <==> reported_fails(txn_num, home@, ars@, acct_map@, raw_acct_map@, txns_map@),
{
    let txn = txns_map.get(&txn_num).unwrap();
    proof {
        assert(txn_ok(txns_map@[txn_num], txn_num, ars@, acct_map@, raw_acct_map@));
        let v = txn.action_record_idx_vec@;
        assert(ar_resolves(ars@, acct_map@, raw_acct_map@, v[0]));
        if v.len() == 2 {
            assert(ar_resolves(ars@, acct_map@, raw_acct_map@, v[1]));
        }
        assert forall|ii: int| 0 <= ii < v.len() implies txns_map@.contains_key(
            ars@[#[trigger] v[ii]].tx_key,
        ) by {
            assert(ars@[v[ii]].tx_key == txn_num);
        }
    }
    let ty = txn.transaction_type(ars, raw_acct_map, acct_map)?;
    let mvmts = txn.get_outgoing_exchange_and_flow_mvmts(
        home,
        ars,
        raw_acct_map,
        acct_map,
        txns_map,
    )?;
    Ok((ty, mvmts))
}

/// The lot of movement `m`, its account and that account's raw account can be looked up.
pub open spec fn ticker_found(
    m: Movement,
    accts: Map<u16, Account>,
    ars: Map<u32, ActionRecord>,
    raws: Map<u16, RawAccount>,
) -> bool {
    &&& lot_of_resolves(m, accts, ars)
    &&& accts.contains_key(spec_lot_of(m, accts, ars).account_key)
    &&& raws.contains_key(accts[spec_lot_of(m, accts, ars).account_key].raw_key)
}

/// A detail row of movement `m` can be made: its ticker and its account can be looked up,
/// and both gains (proceeds plus cost basis, like-kind and original) fit.
pub open spec fn detail_row_fits(
    m: Movement,
    accts: Map<u16, Account>,
    ars: Map<u32, ActionRecord>,
    raws: Map<u16, RawAccount>,
) -> bool {
    &&& ticker_found(m, accts, ars, raws)
    &&& accts.contains_key(ars[m.action_record_key].account_key)
    &&& raws.contains_key(accts[ars[m.action_record_key].account_key].raw_key)
    &&& add_fits(m.proceeds_lk, m.cost_basis_lk)
    &&& add_fits(m.proceeds, m.cost_basis)
}

/// The ticker of the account that holds the lot of `m`.
fn ticker_of_mvmt(
    m: &Movement,
    ars: &HashMap<u32, ActionRecord>,
    raw_acct_map: &HashMap<u16, RawAccount>,
    acct_map: &HashMap<u16, Account>,
    t: u32,
) -> (r: Result<String, CryptoolsError>)
    ensures
        r matches Ok(s) ==> lot_of_resolves(*m, acct_map@, ars@) && s@ == mvmt_ticker(
            *m,
            acct_map@,
            ars@,
            raw_acct_map@,
        ),
        r is Ok <==> ticker_found(*m, acct_map@, ars@, raw_acct_map@),
{
    if !lot_of_found(m, acct_map, ars) {
        return Err(CryptoolsError::MissingData { tx_number: t });
    }
    let lot = m.get_lot(acct_map, ars);
    match acct_map.get(&lot.account_key) {
        Some(acct) => match raw_acct_map.get(&acct.raw_key) {
            Some(raw) => Ok(raw.ticker.clone()),
            None => Err(CryptoolsError::MissingData { tx_number: t }),
        },
        None => Err(CryptoolsError::MissingData { tx_number: t }),
    }
}

/// One row of the transaction summaries: the movements of one term of a transaction.
#[derive(Debug)]
pub struct TermSummaryRow {
    pub txn_num: u32,
    pub date: Date,
    pub tx_type_text: String,
    pub term: Term,
    pub ticker: String,
    pub amount: Dec,
    pub proceeds: Dec,
    pub cost_basis: Dec,
    pub gain_loss: Dec,
    pub income: Dec,
    pub expense: Dec,
}

/// `row` sums up the movements `ms` of term `term` of transaction `t` of kind `ty`.  An
/// incoming flow shows no proceeds or cost basis and has income of minus its proceeds;
/// an outgoing flow has expense of minus its proceeds; gain or loss is proceeds plus cost
/// basis.  The kind's name and the ticker are those of the first movement.  The amounts
/// are the decimals themselves (with their scale): the running totals of the term's
/// movements (`term_sums`), as added up.
pub open spec fn term_summary_row_of(
    row: TermSummaryRow,
    term: Term,
    t: Transaction,
    ty: TxType,
    ms: Seq<Movement>,
    ts: Seq<Term>,
    ticker: Seq<char>,
) -> bool {
    let proceeds = term_total(ms, ts, term, MvmtField::ProceedsLk);
    let basis = term_total(ms, ts, term, MvmtField::CostBasisLk);
    let incoming_flow = ty == TxType::Flow && ms[0].amount.val() > 0;
    let outgoing_flow = ty == TxType::Flow && !(ms[0].amount.val() > 0);
    let sums = term_sums(ms, ts);
    let q0 = if term == Term::ST {
        0int
    } else {
        3int
    };
    &&& Some(row.amount) == sums[q0]
    &&& sums[q0 + 1] is Some
    &&& !incoming_flow ==> Some(row.proceeds) == sums[q0 + 1] && Some(row.cost_basis) == sums[q0 + 2]
    &&& incoming_flow ==> row.income == negated(sums[q0 + 1]->0)
    &&& outgoing_flow ==> row.expense == negated(sums[q0 + 1]->0)
    &&& row.gain_loss == spec_add(row.proceeds, row.cost_basis)
    &&& row.txn_num == t.tx_number
    &&& row.date == t.date
    &&& row.tx_type_text@ == friendly_text(ty, ms[0].amount)
    &&& row.term == term
    &&& row.ticker@ == ticker
    &&& row.amount.val() == term_total(ms, ts, term, MvmtField::Amount)
    &&& row.proceeds.val() == (if incoming_flow {
        0
    } else {
        proceeds
    })
    &&& row.cost_basis.val() == (if incoming_flow {
        0
    } else {
        basis
    })
    &&& row.gain_loss.val() == row.proceeds.val() + row.cost_basis.val()
    &&& row.income.val() == (if incoming_flow {
        -proceeds
    } else {
        0
    })
    &&& row.expense.val() == (if outgoing_flow {
        -proceeds
    } else {
        0
    })
}

/// The summary rows of a transaction: one for its short-term movements, when there are
/// any, then one for its long-term movements, when there are any.
pub open spec fn summary_rows_ok(
    rows: Seq<TermSummaryRow>,
    t: Transaction,
    ty: TxType,
    ms: Seq<Movement>,
    ts: Seq<Term>,
    ds: Seq<Date>,
    ticker: Seq<char>,
) -> bool {
    let st = first_in_term(ts, ds, Term::ST) is Some;
    let lt = first_in_term(ts, ds, Term::LT) is Some;
    &&& rows.len() == (if st {
        1int
    } else {
        0
    }) + (if lt {
        1int
    } else {
        0
    })
    &&& st ==> term_summary_row_of(rows[0], Term::ST, t, ty, ms, ts, ticker)
    &&& lt ==> term_summary_row_of(
        rows[if st {
            1int
        } else {
            0
        }],
        Term::LT,
        t,
        ty,
        ms,
        ts,
        ticker,
    )
}

/// A term occurs among the terms exactly when the totals of the term saw a movement.
proof fn lemma_first_in_term_len(ts: Seq<Term>, ds: Seq<Date>, term: Term)
    requires
        ts.len() == ds.len(),
    ensures
        first_in_term(ts, ds, term) is Some <==> last_in_term(ts, ds, term) is Some,
        first_in_term(ts, ds, term) is Some ==> ts.len() > 0,
    decreases ts.len(),
{
    if ts.len() > 0 {
        lemma_first_in_term_len(ts.drop_last(), ds.drop_last(), term);
    }
}

/// The summary row of one term.
fn summary_row(
    term: Term,
    tt: &TermTotals,
    txn: &Transaction,
    ty: TxType,
    incoming: bool,
    tx_type_text: String,
    ticker: String,
) -> (r: Result<TermSummaryRow, CryptoolsError>)
    ensures
        r matches Ok(row) ==> {
            let incoming_flow = ty == TxType::Flow && incoming;
            let outgoing_flow = ty == TxType::Flow && !incoming;
            &&& row.txn_num == txn.tx_number
            &&& row.date == txn.date
            &&& row.tx_type_text == tx_type_text
            &&& row.term == term
            &&& row.ticker == ticker
            &&& row.amount == tt.amount
            &&& row.proceeds.val() == (if incoming_flow {
                0
            } else {
                tt.proceeds.val()
            })
            &&& row.cost_basis.val() == (if incoming_flow {
                0
            } else {
                tt.cost_basis.val()
            })
            &&& row.gain_loss.val() == row.proceeds.val() + row.cost_basis.val()
            &&& row.income.val() == (if incoming_flow {
                -tt.proceeds.val()
            } else {
                0
            })
            &&& row.expense.val() == (if outgoing_flow {
                -tt.proceeds.val()
            } else {
                0
            })
            &&& row.proceeds == (if incoming_flow {
                Dec::zero_spec()
            } else {
                tt.proceeds
            })
            &&& row.cost_basis == (if incoming_flow {
                Dec::zero_spec()
            } else {
                tt.cost_basis
            })
            &&& row.income == (if incoming_flow {
                negated(tt.proceeds)
            } else {
                Dec::zero_spec()
            })
            &&& row.expense == (if outgoing_flow {
                negated(tt.proceeds)
            } else {
                Dec::zero_spec()
            })
            &&& row.gain_loss == spec_add(row.proceeds, row.cost_basis)
        },
        r is Ok <==> (if ty == TxType::Flow && incoming {
            true
        } else {
            add_fits(tt.proceeds, tt.cost_basis)
        }),
{
    proof {
        Dec::lemma_zero_spec();
    }
    let mut proceeds = tt.proceeds;
    let mut cost_basis = tt.cost_basis;
    let mut income = Dec::zero();
    let mut expense = Dec::zero();
    if ty == TxType::Flow && incoming {
        income = proceeds.neg();
        proceeds = Dec::zero();
        cost_basis = Dec::zero();
    }
    if ty == TxType::Flow && !incoming {
        expense = proceeds.neg();
    }
    let gain_loss = add_or_err(&proceeds, &cost_basis, txn.tx_number)?;
    Ok(
        TermSummaryRow {
            txn_num: txn.tx_number,
            date: txn.date,
            tx_type_text,
            term,
            ticker,
            amount: tt.amount,
            proceeds,
            cost_basis,
            gain_loss,
            income,
            expense,
        },
    )
}

/// The summary rows of transaction `n` fail whatever the clock says: its movements
/// cannot be listed, the lot of one of them cannot be looked up, or the ticker of the
/// first one cannot.
pub open spec fn summary_fails_surely(
    n: u32,
    home: Seq<char>,
    ars: Map<u32, ActionRecord>,
    accts: Map<u16, Account>,
    raws: Map<u16, RawAccount>,
    txns: Map<u32, Transaction>,
) -> bool {
    let ms = reported_mvmts(n, home, ars, accts, raws, txns);
    ||| reported_fails(n, home, ars, accts, raws, txns)
    ||| exists|i: int| 0 <= i < ms.len() && !lot_of_resolves(#[trigger] ms[i], accts, ars)
    ||| ms.len() > 0 && !ticker_found(ms[0], accts, ars, raws)
}

/// With terms `ts` that fit the movements of transaction `n` (all totals fitting), the
/// gain (proceeds plus basis) of a term that has movements does not fit, the
/// transaction not being an incoming flow.
pub open spec fn summary_gain_fails_with(
    n: u32,
    ts: Seq<Term>,
    home: Seq<char>,
    ars: Map<u32, ActionRecord>,
    accts: Map<u16, Account>,
    raws: Map<u16, RawAccount>,
    txns: Map<u32, Transaction>,
) -> bool {
    let ms = reported_mvmts(n, home, ars, accts, raws, txns);
    let sums = term_sums(ms, ts);
    let ds = basis_dates(ms, accts, ars);
    &&& terms_fit(ts, ms, accts, ars)
    &&& forall|q: int| 0 <= q < 6 ==> #[trigger] sums[q] is Some
    &&& ms.len() > 0
    &&& !(spec_tx_type(txns[n], ars, accts, raws) == Ok::<TxType, CryptoolsError>(TxType::Flow)
        && ms[0].amount.val() > 0)
    &&& ((first_in_term(ts, ds, Term::ST) is Some && !add_fits(sums[1]->Some_0, sums[2]->Some_0))
        || (first_in_term(ts, ds, Term::LT) is Some && !add_fits(sums[4]->Some_0, sums[5]->Some_0)))
}

/// The summary rows of transaction `n` cannot be made: they fail surely, or for terms of
/// its movements that fit them (those of incoming ones being read off the clock) some
/// movements cannot be totalled, or a gain does not fit.
pub open spec fn summary_fails(
    n: u32,
    home: Seq<char>,
    ars: Map<u32, ActionRecord>,
    accts: Map<u16, Account>,
    raws: Map<u16, RawAccount>,
    txns: Map<u32, Transaction>,
) -> bool {
    let ms = reported_mvmts(n, home, ars, accts, raws, txns);
    ||| summary_fails_surely(n, home, ars, accts, raws, txns)
    ||| exists|k: int, ts: Seq<Term>| #[trigger] term_totals_fail_at(ms, k, ts, accts, ars)
    ||| exists|ts: Seq<Term>| #[trigger] summary_gain_fails_with(n, ts, home, ars, accts, raws, txns)
}

/// The Form 8949 rows of transaction `n` fail whatever the clock says: its movements
/// cannot be listed, or the lot of one of them cannot be looked up.
pub open spec fn rows_8949_fail_surely(
    n: u32,
    home: Seq<char>,
    ars: Map<u32, ActionRecord>,
    accts: Map<u16, Account>,
    raws: Map<u16, RawAccount>,
    txns: Map<u32, Transaction>,
) -> bool {
    let ms = reported_mvmts(n, home, ars, accts, raws, txns);
    ||| reported_fails(n, home, ars, accts, raws, txns)
    ||| exists|i: int| 0 <= i < ms.len() && !lot_of_resolves(#[trigger] ms[i], accts, ars)
}

/// With terms `ts` that fit the movements of transaction `n` (all totals fitting), the
/// row of a term that has movements cannot be made: its gain does not fit (for an
/// incoming flow, which is reported only as a margin profit, minus its proceeds).
pub open spec fn gain_8949_fails_with(
    n: u32,
    ts: Seq<Term>,
    home: Seq<char>,
    ars: Map<u32, ActionRecord>,
    accts: Map<u16, Account>,
    raws: Map<u16, RawAccount>,
    txns: Map<u32, Transaction>,
) -> bool {
    let ms = reported_mvmts(n, home, ars, accts, raws, txns);
    let sums = term_sums(ms, ts);
    let ds = basis_dates(ms, accts, ars);
    let inflow = spec_tx_type(txns[n], ars, accts, raws) == Ok::<TxType, CryptoolsError>(TxType::Flow)
        && ms[0].amount.val() > 0;
    &&& terms_fit(ts, ms, accts, ars)
    &&& forall|q: int| 0 <= q < 6 ==> #[trigger] sums[q] is Some
    &&& ms.len() > 0
    &&& !(inflow && txns[n].action_record_idx_vec@.len() != 2)
    &&& ((first_in_term(ts, ds, Term::ST) is Some && !(if inflow {
        add_fits(negated(sums[1]->Some_0), Dec::zero_spec())
    } else {
        add_fits(sums[1]->Some_0, sums[2]->Some_0)
    })) || (first_in_term(ts, ds, Term::LT) is Some && !(if inflow {
        add_fits(negated(sums[4]->Some_0), Dec::zero_spec())
    } else {
        add_fits(sums[4]->Some_0, sums[5]->Some_0)
    })))
}

/// The Form 8949 rows of transaction `n` cannot be made: they fail surely, or for terms
/// of its movements that fit them some movements cannot be totalled, or a row's gain does
/// not fit.
pub open spec fn rows_8949_fail(
    n: u32,
    home: Seq<char>,
    ars: Map<u32, ActionRecord>,
    accts: Map<u16, Account>,
    raws: Map<u16, RawAccount>,
    txns: Map<u32, Transaction>,
) -> bool {
    let ms = reported_mvmts(n, home, ars, accts, raws, txns);
    ||| rows_8949_fail_surely(n, home, ars, accts, raws, txns)
    ||| exists|k: int, ts: Seq<Term>| #[trigger] term_totals_fail_at(ms, k, ts, accts, ars)
    ||| exists|ts: Seq<Term>| #[trigger] gain_8949_fails_with(n, ts, home, ars, accts, raws, txns)
}

/// The summary rows of transaction `txn_num` (see `summary_rows_ok`).
pub fn transaction_mvmt_summary(
    home: &str,
    txn_num: u32,
    ars: &HashMap<u32, ActionRecord>,
    raw_acct_map: &HashMap<u16, RawAccount>,
    acct_map: &HashMap<u16, Account>,
    txns_map: &HashMap<u32, Transaction>,
) -> (r: Result<Vec<TermSummaryRow>, CryptoolsError>)
    requires
        ledger_wf(txns_map@, txns_map@.len() as int, ars@, acct_map@, raw_acct_map@),
        txns_map@.contains_key(txn_num),
    ensures
        r matches Ok(rows) ==> txn_summary_ok(
            rows@,
            txn_num,
            home@,
            ars@,
            acct_map@,
            raw_acct_map@,
            txns_map@,
        ),
        r is Err ==> summary_fails(txn_num, home@, ars@, acct_map@, raw_acct_map@, txns_map@),
        summary_fails_surely(txn_num, home@, ars@, acct_map@, raw_acct_map@, txns_map@) ==> r is Err,
{
    let txn = txns_map.get(&txn_num).unwrap();
    let (ty, mvmts) = reported_mvmts_of(home, txn_num, ars, raw_acct_map, acct_map, txns_map)?;
    let (terms, dates, st, lt) = match totals_by_term(&mvmts, acct_map, ars, txn_num) {
        Ok(x) => x,
        Err(e) => {
            proof {
                assert(summary_fails(txn_num, home@, ars@, acct_map@, raw_acct_map@, txns_map@));
            }
            return Err(e);
        },
    };
    let mut rows: Vec<TermSummaryRow> = Vec::new();
    proof {
        lemma_first_in_term_len(terms@, dates@, Term::ST);
        lemma_first_in_term_len(terms@, dates@, Term::LT);
    }
    if mvmts.len() == 0 {
        proof {
            assert(terms_fit(terms@, mvmts@, acct_map@, ars@));
        }
        return Ok(rows);
    }
    let first = &mvmts[0];
    let ticker = match ticker_of_mvmt(first, ars, raw_acct_map, acct_map, txn_num) {
        Ok(x) => x,
        Err(e) => {
            proof {
                assert(summary_fails(txn_num, home@, ars@, acct_map@, raw_acct_map@, txns_map@));
            }
            return Err(e);
        },
    };
    let incoming = first.amount.is_positive();
    if st.first_basis_date.is_some() {
        let text = first.friendly_tx_type(&ty);
        let row = match summary_row(Term::ST, &st, txn, ty, incoming, text, ticker.clone()) {
            Ok(x) => x,
            Err(e) => {
                proof {
                    assert(summary_gain_fails_with(txn_num, terms@, home@, ars@, acct_map@, raw_acct_map@, txns_map@));
                    assert(summary_fails(txn_num, home@, ars@, acct_map@, raw_acct_map@, txns_map@));
                }
                return Err(e);
            },
        };
        rows.push(row);
    }
    if lt.first_basis_date.is_some() {
        let text = first.friendly_tx_type(&ty);
        let row = match summary_row(Term::LT, &lt, txn, ty, incoming, text, ticker) {
            Ok(x) => x,
            Err(e) => {
                proof {
                    assert(summary_gain_fails_with(txn_num, terms@, home@, ars@, acct_map@, raw_acct_map@, txns_map@));
                    assert(summary_fails(txn_num, home@, ars@, acct_map@, raw_acct_map@, txns_map@));
                }
                return Err(e);
            },
        };
        rows.push(row);
    }
    proof {
        assert(terms_fit(terms@, mvmts@, acct_map@, ars@));
    }
    Ok(rows)
}


/// When the movements of a term were acquired, as Form 8949 states it.
#[derive(Clone, Copy, Debug)]
pub enum Acquired {
    /// Lots with more than one basis date.
    Various,
    On(Date),
}

/// One row of Form 8949: the movements of one term of a transaction.
#[derive(Debug)]
pub struct Form8949Row {
    pub term: Term,
    pub txn_num: u32,
    pub amount: Dec,
    pub acquired: Acquired,
    pub sold: Date,
    pub proceeds: Dec,
    pub cost_basis: Dec,
    pub gain_loss: Dec,
}

/// When the movements of term `term` were acquired: the basis date of the lot of its
/// first movement, or `Various` when that of its last movement differs.
pub open spec fn acquired_in_term(ts: Seq<Term>, ds: Seq<Date>, term: Term) -> Acquired {
    if first_in_term(ts, ds, term) != last_in_term(ts, ds, term) {
        Acquired::Various
    } else {
        Acquired::On(first_in_term(ts, ds, term)->0)
    }
}

/// `row` states the movements `ms` of term `term` of transaction `t` of kind `ty`.  For
/// an incoming flow the proceeds are negated and the cost basis is zero; gain or loss is
/// proceeds plus cost basis.  The amounts are the decimals themselves (with their
/// scale): the running totals of the term's movements (`term_sums`), as added up.
pub open spec fn form_8949_row_of(
    row: Form8949Row,
    term: Term,
    t: Transaction,
    ty: TxType,
    ms: Seq<Movement>,
    ts: Seq<Term>,
    ds: Seq<Date>,
) -> bool {
    let proceeds = term_total(ms, ts, term, MvmtField::ProceedsLk);
    let basis = term_total(ms, ts, term, MvmtField::CostBasisLk);
    let incoming_flow = ty == TxType::Flow && ms[0].amount.val() > 0;
    let sums = term_sums(ms, ts);
    let q0 = if term == Term::ST {
        0int
    } else {
        3int
    };
    &&& row.term == term
    &&& row.txn_num == t.tx_number
    &&& row.amount.val() == term_total(ms, ts, term, MvmtField::Amount)
    &&& row.acquired == acquired_in_term(ts, ds, term)
    &&& row.sold == t.date
    &&& row.proceeds.val() == (if incoming_flow {
        -proceeds
    } else {
        proceeds
    })
    &&& row.cost_basis.val() == (if incoming_flow {
        0
    } else {
        basis
    })
    &&& row.gain_loss.val() == row.proceeds.val() + row.cost_basis.val()
    &&& Some(row.amount) == sums[q0]
    &&& sums[q0 + 1] is Some
    &&& row.proceeds == (if incoming_flow {
        negated(sums[q0 + 1]->0)
    } else {
        sums[q0 + 1]->0
    })
    &&& !incoming_flow ==> Some(row.cost_basis) == sums[q0 + 2]
    &&& incoming_flow ==> row.cost_basis == Dec::zero_spec()
    &&& row.gain_loss == spec_add(row.proceeds, row.cost_basis)
}

/// Whether Form 8949 leaves the transaction out: plain income (an incoming flow of one
/// action record; of two, it is a margin profit, which is reported).
pub open spec fn left_out_of_8949(t: Transaction, ty: TxType, ms: Seq<Movement>) -> bool {
    &&& ty == TxType::Flow
    &&& ms.len() > 0
    &&& ms[0].amount.val() > 0
    &&& t.action_record_idx_vec@.len() != 2
}

/// The Form 8949 rows of a transaction: none when it is left out; otherwise one for its
/// short-term movements, when there are any, then one for its long-term movements, when
/// there are any.
pub open spec fn form_8949_rows_ok(
    rows: Seq<Form8949Row>,
    t: Transaction,
    ty: TxType,
    ms: Seq<Movement>,
    ts: Seq<Term>,
    ds: Seq<Date>,
) -> bool {
    let st = first_in_term(ts, ds, Term::ST) is Some;
    let lt = first_in_term(ts, ds, Term::LT) is Some;
    if left_out_of_8949(t, ty, ms) {
        rows.len() == 0
    } else {
        &&& rows.len() == (if st {
            1int
        } else {
            0
        }) + (if lt {
            1int
        } else {
            0
        })
        &&& st ==> form_8949_row_of(rows[0], Term::ST, t, ty, ms, ts, ds)
        &&& lt ==> form_8949_row_of(
            rows[if st {
                1int
            } else {
                0
            }],
            Term::LT,
            t,
            ty,
            ms,
            ts,
            ds,
        )
    }
}

/// The Form 8949 row of one term.
fn form_8949_row(
    term: Term,
    tt: &TermTotals,
    txn: &Transaction,
    incoming_flow: bool,
) -> (r: Result<Form8949Row, CryptoolsError>)
    requires
        tt.first_basis_date is Some,
    ensures
        r matches Ok(row) ==> {
            &&& row.term == term
            &&& row.txn_num == txn.tx_number
            &&& row.amount == tt.amount
            &&& row.acquired == (if tt.first_basis_date != tt.last_basis_date {
                Acquired::Various
            } else {
                Acquired::On(tt.first_basis_date->0)
            })
            &&& row.sold == txn.date
            &&& row.proceeds.val() == (if incoming_flow {
                -tt.proceeds.val()
            } else {
                tt.proceeds.val()
            })
            &&& row.cost_basis.val() == (if incoming_flow {
                0
            } else {
                tt.cost_basis.val()
            })
            &&& row.gain_loss.val() == row.proceeds.val() + row.cost_basis.val()
            &&& row.proceeds == (if incoming_flow {
                negated(tt.proceeds)
            } else {
                tt.proceeds
            })
            &&& row.cost_basis == (if incoming_flow {
                Dec::zero_spec()
            } else {
                tt.cost_basis
            })
            &&& row.gain_loss == spec_add(row.proceeds, row.cost_basis)
        },
        r is Ok <==> (if incoming_flow {
            add_fits(negated(tt.proceeds), Dec::zero_spec())
        } else {
            add_fits(tt.proceeds, tt.cost_basis)
        }),
{
    proof {
        Dec::lemma_zero_spec();
    }
    let first = tt.first_basis_date.unwrap();
    proof {
        if let Some(last) = tt.last_basis_date {
            Date::lemma_day_num_eq(first, last);
        }
    }
    let various = match tt.last_basis_date {
        Some(last) => !first.eq_date(&last),
        None => true,
    };
    let acquired = if various {
        Acquired::Various
    } else {
        Acquired::On(first)
    };
    let mut proceeds = tt.proceeds;
    let mut cost_basis = tt.cost_basis;
    if incoming_flow {
        proceeds = proceeds.neg();
        cost_basis = Dec::zero();
    }
    let gain_loss = add_or_err(&proceeds, &cost_basis, txn.tx_number)?;
    Ok(
        Form8949Row {
            term,
            txn_num: txn.tx_number,
            amount: tt.amount,
            acquired,
            sold: txn.date,
            proceeds,
            cost_basis,
            gain_loss,
        },
    )
}

/// The Form 8949 rows of transaction `txn_num` (see `form_8949_rows_ok`).
pub fn gain_loss_8949_rows(
    home: &str,
    txn_num: u32,
    ars: &HashMap<u32, ActionRecord>,
    raw_acct_map: &HashMap<u16, RawAccount>,
    acct_map: &HashMap<u16, Account>,
    txns_map: &HashMap<u32, Transaction>,
) -> (r: Result<Vec<Form8949Row>, CryptoolsError>)
    requires
        ledger_wf(txns_map@, txns_map@.len() as int, ars@, acct_map@, raw_acct_map@),
        txns_map@.contains_key(txn_num),
    ensures
        r matches Ok(rows) ==> txn_8949_ok(
            rows@,
            txn_num,
            home@,
            ars@,
            acct_map@,
            raw_acct_map@,
            txns_map@,
        ),
        r is Err ==> rows_8949_fail(txn_num, home@, ars@, acct_map@, raw_acct_map@, txns_map@),
        rows_8949_fail_surely(txn_num, home@, ars@, acct_map@, raw_acct_map@, txns_map@) ==> r is Err,
{
    let txn = txns_map.get(&txn_num).unwrap();
    let (ty, mvmts) = reported_mvmts_of(home, txn_num, ars, raw_acct_map, acct_map, txns_map)?;
    let (terms, dates, st, lt) = match totals_by_term(&mvmts, acct_map, ars, txn_num) {
        Ok(x) => x,
        Err(e) => {
            proof {
                assert(rows_8949_fail(txn_num, home@, ars@, acct_map@, raw_acct_map@, txns_map@));
            }
            return Err(e);
        },
    };
    let mut rows: Vec<Form8949Row> = Vec::new();
    proof {
        lemma_first_in_term_len(terms@, dates@, Term::ST);
        lemma_first_in_term_len(terms@, dates@, Term::LT);
        assert(terms_fit(terms@, mvmts@, acct_map@, ars@));
    }
    if mvmts.len() == 0 {
        return Ok(rows);
    }
    let incoming_flow = ty == TxType::Flow && mvmts[0].amount.is_positive();
    if incoming_flow && txn.action_record_idx_vec.len() != 2 {
        return Ok(rows);
    }
    if st.first_basis_date.is_some() {
        let row = match form_8949_row(Term::ST, &st, txn, incoming_flow) {
            Ok(x) => x,
            Err(e) => {
                proof {
                    assert(gain_8949_fails_with(txn_num, terms@, home@, ars@, acct_map@, raw_acct_map@, txns_map@));
                    assert(rows_8949_fail(txn_num, home@, ars@, acct_map@, raw_acct_map@, txns_map@));
                }
                return Err(e);
            },
        };
        rows.push(row);
    }
    if lt.first_basis_date.is_some() {
        let row = match form_8949_row(Term::LT, &lt, txn, incoming_flow) {
            Ok(x) => x,
            Err(e) => {
                proof {
                    assert(gain_8949_fails_with(txn_num, terms@, home@, ars@, acct_map@, raw_acct_map@, txns_map@));
                    assert(rows_8949_fail(txn_num, home@, ars@, acct_map@, raw_acct_map@, txns_map@));
                }
                return Err(e);
            },
        };
        rows.push(row);
    }
    Ok(rows)
}


/// `term` is a possible term of movement `m` (see `terms_fit`).
pub open spec fn term_fits(
    term: Term,
    m: Movement,
    accts: Map<u16, Account>,
    ars: Map<u32, ActionRecord>,
) -> bool {
    spec_direction(ars[m.action_record_key].amount) == Polarity::Outgoing ==> term == (if m.date.day_num()
        - spec_lot_of(m, accts, ars).date_for_basis_purposes.day_num() > 365 {
        Term::LT
    } else {
        Term::ST
    })
}

/// One row of the movement details.
#[derive(Debug)]
pub struct MvmtDetailRow {
    pub txn_num: u32,
    pub date: Date,
    pub tx_type_text: String,
    pub amount: Dec,
    pub ticker: String,
    pub term: Term,
    pub proceeds_lk: Dec,
    pub cost_basis_lk: Dec,
    pub gain_loss_lk: Dec,
    pub income: Dec,
    pub expense: Dec,
    pub proceeds: Dec,
    pub cost_basis: Dec,
    pub gain_loss: Dec,
}

/// `row` details movement `m` of transaction `t` of kind `ty`.  An incoming movement of a
/// flow shows no proceeds, cost basis or gain (like-kind or original); income and
/// expense are those of `Movement::get_income` and `Movement::get_expense`.
pub open spec fn mvmt_detail_row_of(
    row: MvmtDetailRow,
    m: Movement,
    t: Transaction,
    ty: TxType,
    accts: Map<u16, Account>,
    ars: Map<u32, ActionRecord>,
    raws: Map<u16, RawAccount>,
) -> bool {
    let zeroed = ty == TxType::Flow && m.amount.val() > 0;
    let incoming = spec_direction(ars[m.action_record_key].amount) == Polarity::Incoming;
    &&& row.txn_num == t.tx_number
    &&& row.date == t.date
    &&& row.tx_type_text@ == friendly_text(ty, m.amount)
    &&& row.amount == m.amount
    &&& row.ticker@ == mvmt_ticker(m, accts, ars, raws)
    &&& term_fits(row.term, m, accts, ars)
    &&& row.proceeds_lk == (if zeroed {
        Dec::zero_spec()
    } else {
        m.proceeds_lk
    })
    &&& row.cost_basis_lk == (if zeroed {
        Dec::zero_spec()
    } else {
        m.cost_basis_lk
    })
    &&& row.gain_loss_lk.val() == (if zeroed {
        0
    } else {
        m.proceeds_lk.val() + m.cost_basis_lk.val()
    })
    &&& row.income == (if ty == TxType::Flow && incoming {
        negated(m.proceeds_lk)
    } else {
        Dec::zero_spec()
    })
    &&& row.expense == (if ty == TxType::Flow && !incoming && !ar_raw(
        ars,
        accts,
        raws,
        m.action_record_key,
    ).is_margin {
        negated(m.proceeds_lk)
    } else {
        Dec::zero_spec()
    })
    &&& row.proceeds == (if zeroed {
        Dec::zero_spec()
    } else {
        m.proceeds
    })
    &&& row.cost_basis == (if zeroed {
        Dec::zero_spec()
    } else {
        m.cost_basis
    })
    &&& row.gain_loss.val() == (if zeroed {
        0
    } else {
        m.proceeds.val() + m.cost_basis.val()
    })
}

/// The detail row of movement `m` of transaction `txn`, of kind `ty`.
fn mvmt_detail_row(
    m: &Movement,
    txn: &Transaction,
    ty: TxType,
    ars: &HashMap<u32, ActionRecord>,
    raw_acct_map: &HashMap<u16, RawAccount>,
    acct_map: &HashMap<u16, Account>,
    txns_map: &HashMap<u32, Transaction>,
) -> (r: Result<MvmtDetailRow, CryptoolsError>)
    requires
        ledger_wf(txns_map@, txns_map@.len() as int, ars@, acct_map@, raw_acct_map@),
        txns_map@.contains_key(m.transaction_key),
        spec_tx_type(txns_map@[m.transaction_key], ars@, acct_map@, raw_acct_map@) == Ok::<
            TxType,
            CryptoolsError,
        >(ty),
    ensures
        r matches Ok(row) ==> mvmt_detail_row_of(row, *m, *txn, ty, acct_map@, ars@, raw_acct_map@),
        r is Ok <==> detail_row_fits(*m, acct_map@, ars@, raw_acct_map@),
{
    proof {
        Dec::lemma_zero_spec();
    }
    let t = txn.tx_number;
    let ticker = ticker_of_mvmt(m, ars, raw_acct_map, acct_map, t)?;
    let ar = ars.get(&m.action_record_key).unwrap();
    match acct_map.get(&ar.account_key) {
        Some(acct) => {
            if raw_acct_map.get(&acct.raw_key).is_none() {
                return Err(CryptoolsError::MissingData { tx_number: t });
            }
        },
        None => {
            return Err(CryptoolsError::MissingData { tx_number: t });
        },
    }
    proof {
        let k = m.transaction_key;
        assert(txn_ok(txns_map@[k], k, ars@, acct_map@, raw_acct_map@));
        let v = txns_map@[k].action_record_idx_vec@;
        if v.len() == 2 {
            assert(ar_resolves(ars@, acct_map@, raw_acct_map@, v[0]));
            assert(ar_resolves(ars@, acct_map@, raw_acct_map@, v[1]));
        }
    }
    let term = m.get_term(acct_map, ars);
    let income = m.get_income(ars, raw_acct_map, acct_map, txns_map)?;
    let expense = m.get_expense(ars, raw_acct_map, acct_map, txns_map)?;
    let gain_loss_lk = match m.get_lk_gain_or_loss() {
        Some(x) => x,
        None => {
            return Err(CryptoolsError::DecimalOverflow { tx_number: t });
        },
    };
    let gain_loss = match m.get_orig_gain_or_loss() {
        Some(x) => x,
        None => {
            return Err(CryptoolsError::DecimalOverflow { tx_number: t });
        },
    };
    m.proceeds_lk.reveal_valid();
    m.cost_basis_lk.reveal_valid();
    m.proceeds.reveal_valid();
    m.cost_basis.reveal_valid();
    proof {
        crate::dec::lemma_spec_add_val(m.proceeds_lk, m.cost_basis_lk);
        crate::dec::lemma_spec_add_val(m.proceeds, m.cost_basis);
    }
    let zeroed = ty == TxType::Flow && m.amount.is_positive();
    let tx_type_text = m.friendly_tx_type(&ty);
    if zeroed {
        Ok(
            MvmtDetailRow {
                txn_num: t,
                date: txn.date,
                tx_type_text,
                amount: m.amount,
                ticker,
                term,
                proceeds_lk: Dec::zero(),
                cost_basis_lk: Dec::zero(),
                gain_loss_lk: Dec::zero(),
                income,
                expense,
                proceeds: Dec::zero(),
                cost_basis: Dec::zero(),
                gain_loss: Dec::zero(),
            },
        )
    } else {
        Ok(
            MvmtDetailRow {
                txn_num: t,
                date: txn.date,
                tx_type_text,
                amount: m.amount,
                ticker,
                term,
                proceeds_lk: m.proceeds_lk,
                cost_basis_lk: m.cost_basis_lk,
                gain_loss_lk,
                income,
                expense,
                proceeds: m.proceeds,
                cost_basis: m.cost_basis,
                gain_loss,
            },
        )
    }
}

/// The detail rows of transaction `txn_num`: one for each movement that the reports list,
/// in order.
pub fn transaction_mvmt_detail(
    home: &str,
    txn_num: u32,
    ars: &HashMap<u32, ActionRecord>,
    raw_acct_map: &HashMap<u16, RawAccount>,
    acct_map: &HashMap<u16, Account>,
    txns_map: &HashMap<u32, Transaction>,
) -> (r: Result<Vec<MvmtDetailRow>, CryptoolsError>)
    requires
        ledger_wf(txns_map@, txns_map@.len() as int, ars@, acct_map@, raw_acct_map@),
        txns_map@.contains_key(txn_num),
    ensures
        r matches Ok(rows) ==> txn_detail_ok(
            rows@,
            txn_num,
            home@,
            ars@,
            acct_map@,
            raw_acct_map@,
            txns_map@,
        ),
        r is Err <==> detail_fails(txn_num, home@, ars@, acct_map@, raw_acct_map@, txns_map@),
{
    let txn = txns_map.get(&txn_num).unwrap();
    let (ty, mvmts) = reported_mvmts_of(home, txn_num, ars, raw_acct_map, acct_map, txns_map)?;
    let ghost ms = reported_mvmts(txn_num, home@, ars@, acct_map@, raw_acct_map@, txns_map@);
    let mut rows: Vec<MvmtDetailRow> = Vec::new();
    let mut j: usize = 0;
    while j < mvmts.len()
        invariant
            j <= mvmts@.len(),
            rows@.len() == j,
            ledger_wf(txns_map@, txns_map@.len() as int, ars@, acct_map@, raw_acct_map@),
            txns_map@.contains_key(txn_num),
            *txn == txns_map@[txn_num],
            spec_tx_type(*txn, ars@, acct_map@, raw_acct_map@) == Ok::<TxType, CryptoolsError>(ty),
            forall|i: int|
                0 <= i < j ==> mvmt_detail_row_of(
                    #[trigger] rows@[i],
                    mvmts@[i],
                    *txn,
                    ty,
                    acct_map@,
                    ars@,
                    raw_acct_map@,
                ),
            mvmts@ == ms,
            ms == reported_mvmts(txn_num, home@, ars@, acct_map@, raw_acct_map@, txns_map@),
            !reported_fails(txn_num, home@, ars@, acct_map@, raw_acct_map@, txns_map@),
            forall|i: int|
                0 <= i < j ==> (#[trigger] ms[i]).transaction_key == txn_num && detail_row_fits(
                    ms[i],
                    acct_map@,
                    ars@,
                    raw_acct_map@,
                ),
        decreases mvmts@.len() - j,
    {
        let m = &mvmts[j];
        if m.transaction_key != txn_num {
            proof {
                assert(ms[j as int].transaction_key != txn_num);
            }
            return Err(CryptoolsError::MissingData { tx_number: txn_num });
        }
        let row = match mvmt_detail_row(m, txn, ty, ars, raw_acct_map, acct_map, txns_map) {
            Ok(x) => x,
            Err(e) => {
                proof {
                    assert(!detail_row_fits(ms[j as int], acct_map@, ars@, raw_acct_map@));
                }
                return Err(e);
            },
        };
        rows.push(row);
        j = j + 1;
    }
    Ok(rows)
}


/// The summary rows of transaction `t` (see `summary_rows_ok`), for some terms of its
/// movements.
pub open spec fn txn_summary_ok(
    rows: Seq<TermSummaryRow>,
    t: u32,
    home: Seq<char>,
    ars: Map<u32, ActionRecord>,
    accts: Map<u16, Account>,
    raws: Map<u16, RawAccount>,
    txns: Map<u32, Transaction>,
) -> bool {
    let txn = txns[t];
    let ms = reported_mvmts(t, home, ars, accts, raws, txns);
    &&& spec_tx_type(txn, ars, accts, raws) is Ok
    &&& exists|ts: Seq<Term>|
        terms_fit(ts, ms, accts, ars) && summary_rows_ok(
            rows,
            txn,
            spec_tx_type(txn, ars, accts, raws)->Ok_0,
            ms,
            ts,
            basis_dates(ms, accts, ars),
            mvmt_ticker(ms[0], accts, ars, raws),
        )
}

/// The Form 8949 rows of transaction `t` (see `form_8949_rows_ok`), for some terms of its
/// movements.
pub open spec fn txn_8949_ok(
    rows: Seq<Form8949Row>,
    t: u32,
    home: Seq<char>,
    ars: Map<u32, ActionRecord>,
    accts: Map<u16, Account>,
    raws: Map<u16, RawAccount>,
    txns: Map<u32, Transaction>,
) -> bool {
    let txn = txns[t];
    let ms = reported_mvmts(t, home, ars, accts, raws, txns);
    &&& spec_tx_type(txn, ars, accts, raws) is Ok
    &&& exists|ts: Seq<Term>|
        terms_fit(ts, ms, accts, ars) && form_8949_rows_ok(
            rows,
            txn,
            spec_tx_type(txn, ars, accts, raws)->Ok_0,
            ms,
            ts,
            basis_dates(ms, accts, ars),
        )
}

/// The detail rows of transaction `t`: one for each movement the reports list, in order
/// (see `mvmt_detail_row_of`).
pub open spec fn txn_detail_ok(
    rows: Seq<MvmtDetailRow>,
    t: u32,
    home: Seq<char>,
    ars: Map<u32, ActionRecord>,
    accts: Map<u16, Account>,
    raws: Map<u16, RawAccount>,
    txns: Map<u32, Transaction>,
) -> bool {
    let txn = txns[t];
    let ms = reported_mvmts(t, home, ars, accts, raws, txns);
    &&& spec_tx_type(txn, ars, accts, raws) is Ok
    &&& rows.len() == ms.len()
    &&& forall|i: int|
        0 <= i < ms.len() ==> mvmt_detail_row_of(
            #[trigger] rows[i],
            ms[i],
            txn,
            spec_tx_type(txn, ars, accts, raws)->Ok_0,
            accts,
            ars,
            raws,
        )
}

/// The summary rows of every transaction, by transaction number (index `i` holds those of
/// transaction `i + 1`).
pub fn all_mvmt_summaries(
    home: &str,
    ars: &HashMap<u32, ActionRecord>,
    raw_acct_map: &HashMap<u16, RawAccount>,
    acct_map: &HashMap<u16, Account>,
    txns_map: &HashMap<u32, Transaction>,
) -> (r: Result<Vec<Vec<TermSummaryRow>>, CryptoolsError>)
    requires
        ledger_wf(txns_map@, txns_map@.len() as int, ars@, acct_map@, raw_acct_map@),
        txns_map@.len() < u32::MAX,
    ensures
        r matches Ok(v) ==> v@.len() == txns_map@.len() && forall|i: int|
            0 <= i < v@.len() ==> txn_summary_ok(
                #[trigger] v@[i]@,
                (i + 1) as u32,
                home@,
                ars@,
                acct_map@,
                raw_acct_map@,
                txns_map@,
            ),
        r is Err ==> exists|t: u32|
            1 <= t <= txns_map@.len() && #[trigger] summary_fails(
                t,
                home@,
                ars@,
                acct_map@,
                raw_acct_map@,
                txns_map@,
            ),
        (exists|t: u32|
            1 <= t <= txns_map@.len() && #[trigger] summary_fails_surely(
                t,
                home@,
                ars@,
                acct_map@,
                raw_acct_map@,
                txns_map@,
            )) ==> r is Err,
{
    let length = txns_map.len();
    let mut out: Vec<Vec<TermSummaryRow>> = Vec::new();
    let mut num: u32 = 1;
    while (num as usize) <= length
        invariant
            1 <= num <= length + 1,
            length == txns_map@.len() < u32::MAX,
            ledger_wf(txns_map@, txns_map@.len() as int, ars@, acct_map@, raw_acct_map@),
            out@.len() == num - 1,
            forall|i: int|
                0 <= i < out@.len() ==> txn_summary_ok(
                    #[trigger] out@[i]@,
                    (i + 1) as u32,
                    home@,
                    ars@,
                    acct_map@,
                    raw_acct_map@,
                    txns_map@,
                ),
            forall|t: u32|
                1 <= t < num ==> !#[trigger] summary_fails_surely(
                    t,
                    home@,
                    ars@,
                    acct_map@,
                    raw_acct_map@,
                    txns_map@,
                ),
        decreases length + 1 - num,
    {
        let rows = transaction_mvmt_summary(home, num, ars, raw_acct_map, acct_map, txns_map)?;
        out.push(rows);
        num = num + 1;
    }
    Ok(out)
}

/// The Form 8949 rows of every transaction, by transaction number (index `i` holds those
/// of transaction `i + 1`).
pub fn all_8949_rows(
    home: &str,
    ars: &HashMap<u32, ActionRecord>,
    raw_acct_map: &HashMap<u16, RawAccount>,
    acct_map: &HashMap<u16, Account>,
    txns_map: &HashMap<u32, Transaction>,
) -> (r: Result<Vec<Vec<Form8949Row>>, CryptoolsError>)
    requires
        ledger_wf(txns_map@, txns_map@.len() as int, ars@, acct_map@, raw_acct_map@),
        txns_map@.len() < u32::MAX,
    ensures
        r matches Ok(v) ==> v@.len() == txns_map@.len() && forall|i: int|
            0 <= i < v@.len() ==> txn_8949_ok(
                #[trigger] v@[i]@,
                (i + 1) as u32,
                home@,
                ars@,
                acct_map@,
                raw_acct_map@,
                txns_map@,
            ),
        r is Err ==> exists|t: u32|
            1 <= t <= txns_map@.len() && #[trigger] rows_8949_fail(
                t,
                home@,
                ars@,
                acct_map@,
                raw_acct_map@,
                txns_map@,
            ),
        (exists|t: u32|
            1 <= t <= txns_map@.len() && #[trigger] rows_8949_fail_surely(
                t,
                home@,
                ars@,
                acct_map@,
                raw_acct_map@,
                txns_map@,
            )) ==> r is Err,
{
    let length = txns_map.len();
    let mut out: Vec<Vec<Form8949Row>> = Vec::new();
    let mut num: u32 = 1;
    while (num as usize) <= length
        invariant
            1 <= num <= length + 1,
            length == txns_map@.len() < u32::MAX,
            ledger_wf(txns_map@, txns_map@.len() as int, ars@, acct_map@, raw_acct_map@),
            out@.len() == num - 1,
            forall|i: int|
                0 <= i < out@.len() ==> txn_8949_ok(
                    #[trigger] out@[i]@,
                    (i + 1) as u32,
                    home@,
                    ars@,
                    acct_map@,
                    raw_acct_map@,
                    txns_map@,
                ),
            forall|t: u32|
                1 <= t < num ==> !#[trigger] rows_8949_fail_surely(
                    t,
                    home@,
                    ars@,
                    acct_map@,
                    raw_acct_map@,
                    txns_map@,
                ),
        decreases length + 1 - num,
    {
        let rows = gain_loss_8949_rows(home, num, ars, raw_acct_map, acct_map, txns_map)?;
        out.push(rows);
        num = num + 1;
    }
    Ok(out)
}

/// The detail rows of every transaction, by transaction number (index `i` holds those of
/// transaction `i + 1`).
pub fn all_mvmt_details(
    home: &str,
    ars: &HashMap<u32, ActionRecord>,
    raw_acct_map: &HashMap<u16, RawAccount>,
    acct_map: &HashMap<u16, Account>,
    txns_map: &HashMap<u32, Transaction>,
) -> (r: Result<Vec<Vec<MvmtDetailRow>>, CryptoolsError>)
    requires
        ledger_wf(txns_map@, txns_map@.len() as int, ars@, acct_map@, raw_acct_map@),
        txns_map@.len() < u32::MAX,
    ensures
        r matches Ok(v) ==> v@.len() == txns_map@.len() && forall|i: int|
            0 <= i < v@.len() ==> txn_detail_ok(
                #[trigger] v@[i]@,
                (i + 1) as u32,
                home@,
                ars@,
                acct_map@,
                raw_acct_map@,
                txns_map@,
            ),        r is Err <==> exists|t: u32|
            1 <= t <= txns_map@.len() && #[trigger] detail_fails(
                t,
                home@,
                ars@,
                acct_map@,
                raw_acct_map@,
                txns_map@,
            ),
{
    let length = txns_map.len();
    let mut out: Vec<Vec<MvmtDetailRow>> = Vec::new();
    let mut num: u32 = 1;
    while (num as usize) <= length
        invariant
            1 <= num <= length + 1,
            length == txns_map@.len() < u32::MAX,
            ledger_wf(txns_map@, txns_map@.len() as int, ars@, acct_map@, raw_acct_map@),
            out@.len() == num - 1,
            forall|i: int|
                0 <= i < out@.len() ==> txn_detail_ok(
                    #[trigger] out@[i]@,
                    (i + 1) as u32,
                    home@,
                    ars@,
                    acct_map@,
                    raw_acct_map@,
                    txns_map@,
                ),
            forall|t: u32|
                1 <= t < num ==> !#[trigger] detail_fails(
                    t,
                    home@,
                    ars@,
                    acct_map@,
                    raw_acct_map@,
                    txns_map@,
                ),
        decreases length + 1 - num,
    {
        let rows = transaction_mvmt_detail(home, num, ars, raw_acct_map, acct_map, txns_map)?;
        out.push(rows);
        num = num + 1;
    }
    Ok(out)
}

/// The totals of every account, by account number (index `i` holds those of account
/// `i + 1`).
pub fn account_sums(
    raw_acct_map: &HashMap<u16, RawAccount>,
    acct_map: &HashMap<u16, Account>,
) -> (r: Result<Vec<AccountSumRow>, CryptoolsError>)
    requires
        acct_map@.len() <= u16::MAX,
    ensures
        r is Ok <==> forall|j: u16|
            1 <= j <= acct_map@.len() ==> #[trigger] account_sums_fit(j, acct_map@, raw_acct_map@),
        r matches Ok(v) ==> v@.len() == acct_map@.len() && forall|i: int|
            0 <= i < v@.len() ==> account_sum_row_of(
                #[trigger] v@[i],
                (i + 1) as u16,
                acct_map@,
                raw_acct_map@,
            ),
{
    let length = acct_map.len();
    let mut out: Vec<AccountSumRow> = Vec::new();
    let mut j: usize = 1;
    while j <= length
        invariant
            1 <= j <= length + 1,
            length == acct_map@.len() <= u16::MAX,
            out@.len() == j - 1,
            forall|k: u16| 1 <= k < j ==> #[trigger] account_sums_fit(k, acct_map@, raw_acct_map@),
            forall|i: int|
                0 <= i < out@.len() ==> account_sum_row_of(
                    #[trigger] out@[i],
                    (i + 1) as u16,
                    acct_map@,
                    raw_acct_map@,
                ),
        decreases length + 1 - j,
    {
        let row = account_sum_row(j as u16, raw_acct_map, acct_map)?;
        out.push(row);
        j = j + 1;
    }
    Ok(out)
}

/// Whether the account summary that leaves out empty accounts shows the account: its
/// balance is not zero.
pub fn shown_in_nonzero_sums(row: &AccountSumRow) -> (r: bool)
    ensures
        r == (row.balance.val() != 0),
{
    !row.balance.is_zero()
}

/// Whether the lot summary of non-zero lots shows the account's heading: it has lots and
/// its balance is positive.
pub fn heading_in_positive_lot_summary(row: &AccountSumRow) -> (r: bool)
    ensures
        r == (row.total_lots > 0 && row.balance.val() > 0),
{
    row.total_lots > 0 && row.balance.is_positive()
}

/// Whether the lot summary of non-zero lots passes over the account entirely: it has lots
/// but its balance is not positive.
pub fn skipped_in_positive_lot_summary(row: &AccountSumRow) -> (r: bool)
    ensures
        r == (row.total_lots > 0 && !(row.balance.val() > 0)),
{
    row.total_lots > 0 && !row.balance.is_positive()
}

/// Whether the lot summary of non-zero lots shows the lot: its balance is positive.
pub fn lot_in_positive_lot_summary(lot: &LotSumRow) -> (r: bool)
    ensures
        r == (lot.balance.val() > 0),
{
    lot.balance.is_positive()
}


/// One movement in the detailed lot listing.
#[derive(Debug)]
pub struct LotMvmtLine {
    pub amount: Dec,
    pub txn_num: u32,
    pub tx_type: TxType,
    pub date: Date,
    pub user_memo: String,
    pub proceeds_lk: Dec,
    pub cost_basis_lk: Dec,
    pub term: Term,
    pub gain_loss: Dec,
    pub income: Dec,
    pub expense: Dec,
}

/// `line` lists movement `m` of an account (in the home currency when `is_home`): its
/// transaction's kind and memo, its like-kind proceeds and cost basis, its term, its gain
/// or loss (none in the home currency), and the income and expense of
/// `Movement::get_income` and `Movement::get_expense`.
pub open spec fn lot_mvmt_line_of(
    line: LotMvmtLine,
    m: Movement,
    is_home: bool,
    accts: Map<u16, Account>,
    ars: Map<u32, ActionRecord>,
    raws: Map<u16, RawAccount>,
    txns: Map<u32, Transaction>,
) -> bool {
    let t = txns[m.transaction_key];
    let ty = line.tx_type;
    let incoming = spec_direction(ars[m.action_record_key].amount) == Polarity::Incoming;
    &&& line.amount == m.amount
    &&& line.txn_num == m.transaction_key
    &&& line.date == m.date
    &&& spec_tx_type(t, ars, accts, raws) == Ok::<TxType, CryptoolsError>(ty)
    &&& line.user_memo@ == t.user_memo@
    &&& line.proceeds_lk == m.proceeds_lk
    &&& line.cost_basis_lk == m.cost_basis_lk
    &&& term_fits(line.term, m, accts, ars)
    &&& line.gain_loss.val() == (if is_home {
        0
    } else {
        m.proceeds_lk.val() + m.cost_basis_lk.val()
    })
    &&& line.income == (if ty == TxType::Flow && incoming {
        negated(m.proceeds_lk)
    } else {
        Dec::zero_spec()
    })
    &&& line.expense == (if ty == TxType::Flow && !incoming && !ar_raw(
        ars,
        accts,
        raws,
        m.action_record_key,
    ).is_margin {
        negated(m.proceeds_lk)
    } else {
        Dec::zero_spec()
    })
}

/// The listing line of movement `m` can be made: its transaction, its lot, its action
/// record's account and that account's raw account can be looked up, the kind of its
/// transaction can be told, and (outside the home currency) its gain, like-kind proceeds
/// plus like-kind cost basis, fits.
pub open spec fn line_fits(
    m: Movement,
    is_home: bool,
    accts: Map<u16, Account>,
    ars: Map<u32, ActionRecord>,
    raws: Map<u16, RawAccount>,
    txns: Map<u32, Transaction>,
) -> bool {
    &&& txns.contains_key(m.transaction_key)
    &&& lot_of_resolves(m, accts, ars)
    &&& accts.contains_key(ars[m.action_record_key].account_key)
    &&& raws.contains_key(accts[ars[m.action_record_key].account_key].raw_key)
    &&& spec_tx_type(txns[m.transaction_key], ars, accts, raws) is Ok
    &&& (is_home || add_fits(m.proceeds_lk, m.cost_basis_lk))
}

/// The listing line of movement `m`.
fn lot_mvmt_line(
    m: &Movement,
    is_home: bool,
    ars: &HashMap<u32, ActionRecord>,
    raw_acct_map: &HashMap<u16, RawAccount>,
    acct_map: &HashMap<u16, Account>,
    txns_map: &HashMap<u32, Transaction>,
) -> (r: Result<LotMvmtLine, CryptoolsError>)
    requires
        ledger_wf(txns_map@, txns_map@.len() as int, ars@, acct_map@, raw_acct_map@),
    ensures
        r matches Ok(line) ==> lot_mvmt_line_of(
            line,
            *m,
            is_home,
            acct_map@,
            ars@,
            raw_acct_map@,
            txns_map@,
        ),
        r is Ok <==> line_fits(*m, is_home, acct_map@, ars@, raw_acct_map@, txns_map@),
{
    proof {
        Dec::lemma_zero_spec();
    }
    let t = m.transaction_key;
    let txn = match txns_map.get(&t) {
        Some(x) => x,
        None => {
            return Err(CryptoolsError::MissingData { tx_number: t });
        },
    };
    if !lot_of_found(m, acct_map, ars) {
        return Err(CryptoolsError::MissingData { tx_number: t });
    }
    let ar = ars.get(&m.action_record_key).unwrap();
    match acct_map.get(&ar.account_key) {
        Some(acct) => {
            if raw_acct_map.get(&acct.raw_key).is_none() {
                return Err(CryptoolsError::MissingData { tx_number: t });
            }
        },
        None => {
            return Err(CryptoolsError::MissingData { tx_number: t });
        },
    }
    proof {
        assert(txn_ok(txns_map@[t], t, ars@, acct_map@, raw_acct_map@));
        let v = txns_map@[t].action_record_idx_vec@;
        if v.len() == 2 {
            assert(ar_resolves(ars@, acct_map@, raw_acct_map@, v[0]));
            assert(ar_resolves(ars@, acct_map@, raw_acct_map@, v[1]));
        }
    }
    let tx_type = txn.transaction_type(ars, raw_acct_map, acct_map)?;
    let term = m.get_term(acct_map, ars);
    let income = m.get_income(ars, raw_acct_map, acct_map, txns_map)?;
    let expense = m.get_expense(ars, raw_acct_map, acct_map, txns_map)?;
    let gain_loss = if is_home {
        Dec::zero()
    } else {
        match m.proceeds_lk.checked_add(&m.cost_basis_lk) {
            Some(x) => x,
            None => {
                return Err(CryptoolsError::DecimalOverflow { tx_number: t });
            },
        }
    };
    Ok(
        LotMvmtLine {
            amount: m.amount,
            txn_num: t,
            tx_type,
            date: m.date,
            user_memo: txn.user_memo.clone(),
            proceeds_lk: m.proceeds_lk,
            cost_basis_lk: m.cost_basis_lk,
            term,
            gain_loss,
            income,
            expense,
        },
    )
}

/// The listing lines of the movements of each lot of account `j`, lot by lot (the account
/// being in the home currency `home` or not).
pub fn account_lot_detail(
    home: &str,
    j: u16,
    ars: &HashMap<u32, ActionRecord>,
    raw_acct_map: &HashMap<u16, RawAccount>,
    acct_map: &HashMap<u16, Account>,
    txns_map: &HashMap<u32, Transaction>,
) -> (r: Result<Vec<Vec<LotMvmtLine>>, CryptoolsError>)
    requires
        ledger_wf(txns_map@, txns_map@.len() as int, ars@, acct_map@, raw_acct_map@),
    ensures
        r matches Ok(v) ==> {
            let lots = acct_map@[j].list_of_lots@;
            let is_home = raw_acct_map@[acct_map@[j].raw_key].ticker@ == home@;
            &&& acct_map@.contains_key(j)
            &&& raw_acct_map@.contains_key(acct_map@[j].raw_key)
            &&& v@.len() == lots.len()
            &&& forall|li: int|
                0 <= li < lots.len() ==> (#[trigger] v@[li])@.len() == lots[li].movements@.len()
            &&& forall|li: int, mi: int|
                0 <= li < lots.len() && 0 <= mi < lots[li].movements@.len() ==> lot_mvmt_line_of(
                    #[trigger] v@[li]@[mi],
                    lots[li].movements@[mi],
                    is_home,
                    acct_map@,
                    ars@,
                    raw_acct_map@,
                    txns_map@,
                )
        },
        r is Ok <==> acct_map@.contains_key(j) && raw_acct_map@.contains_key(acct_map@[j].raw_key)
            && forall|li: int, mi: int|
            0 <= li < acct_map@[j].list_of_lots@.len() && 0 <= mi
                < acct_map@[j].list_of_lots@[li].movements@.len() ==> line_fits(
                #[trigger] acct_map@[j].list_of_lots@[li].movements@[mi],
                raw_acct_map@[acct_map@[j].raw_key].ticker@ == home@,
                acct_map@,
                ars@,
                raw_acct_map@,
                txns_map@,
            ),
{
    let acct = match acct_map.get(&j) {
        Some(a) => a,
        None => {
            return Err(CryptoolsError::MissingAccount { account_num: j });
        },
    };
    let raw = match raw_acct_map.get(&acct.raw_key) {
        Some(x) => x,
        None => {
            return Err(CryptoolsError::MissingAccount { account_num: j });
        },
    };
    let is_home = raw.is_home_currency(home);
    let mut out: Vec<Vec<LotMvmtLine>> = Vec::new();
    let mut li: usize = 0;
    while li < acct.list_of_lots.len()
        invariant
            li <= acct.list_of_lots@.len(),
            out@.len() == li,
            ledger_wf(txns_map@, txns_map@.len() as int, ars@, acct_map@, raw_acct_map@),
            forall|k: int|
                0 <= k < li ==> (#[trigger] out@[k])@.len() == acct.list_of_lots@[k].movements@.len(),
            forall|k: int, mi: int|
                0 <= k < li && 0 <= mi < acct.list_of_lots@[k].movements@.len() ==> lot_mvmt_line_of(
                    #[trigger] out@[k]@[mi],
                    acct.list_of_lots@[k].movements@[mi],
                    is_home,
                    acct_map@,
                    ars@,
                    raw_acct_map@,
                    txns_map@,
                ),
            acct_map@.contains_key(j),
            *acct == acct_map@[j],
            is_home == (raw_acct_map@[acct_map@[j].raw_key].ticker@ == home@),
            forall|k: int, mi: int|
                0 <= k < li && 0 <= mi < acct.list_of_lots@[k].movements@.len() ==> line_fits(
                    #[trigger] acct.list_of_lots@[k].movements@[mi],
                    is_home,
                    acct_map@,
                    ars@,
                    raw_acct_map@,
                    txns_map@,
                ),
        decreases acct.list_of_lots@.len() - li,
    {
        let lot = &acct.list_of_lots[li];
        let mut lines: Vec<LotMvmtLine> = Vec::new();
        let mut mi: usize = 0;
        while mi < lot.movements.len()
            invariant
                mi <= lot.movements@.len(),
                lines@.len() == mi,
                ledger_wf(txns_map@, txns_map@.len() as int, ars@, acct_map@, raw_acct_map@),
                forall|k: int|
                    0 <= k < mi ==> lot_mvmt_line_of(
                        #[trigger] lines@[k],
                        lot.movements@[k],
                        is_home,
                        acct_map@,
                        ars@,
                        raw_acct_map@,
                        txns_map@,
                    ),
            acct_map@.contains_key(j),
            *acct == acct_map@[j],
            li < acct.list_of_lots@.len(),
            *lot == acct.list_of_lots@[li as int],
            is_home == (raw_acct_map@[acct_map@[j].raw_key].ticker@ == home@),
            forall|k: int|
                0 <= k < mi ==> line_fits(
                    #[trigger] lot.movements@[k],
                    is_home,
                    acct_map@,
                    ars@,
                    raw_acct_map@,
                    txns_map@,
                ),
            decreases lot.movements@.len() - mi,
        {
            let line = match lot_mvmt_line(
                &lot.movements[mi],
                is_home,
                ars,
                raw_acct_map,
                acct_map,
                txns_map,
            ) {
                Ok(x) => x,
                Err(e) => {
                    proof {
                        assert(!line_fits(
                            acct_map@[j].list_of_lots@[li as int].movements@[mi as int],
                            raw_acct_map@[acct_map@[j].raw_key].ticker@ == home@,
                            acct_map@,
                            ars@,
                            raw_acct_map@,
                            txns_map@,
                        ));
                    }
                    return Err(e);
                },
            };
            lines.push(line);
            mi = mi + 1;
        }
        out.push(lines);
        proof {
            assert forall|k: int, m2: int|
                0 <= k < li + 1 && 0 <= m2 < acct.list_of_lots@[k].movements@.len() implies line_fits(
                #[trigger] acct.list_of_lots@[k].movements@[m2],
                is_home,
                acct_map@,
                ars@,
                raw_acct_map@,
                txns_map@,
            ) by {
                if k == li {
                    assert(acct.list_of_lots@[k] == *lot);
                }
            }
            assert forall|k: int, m2: int|
                0 <= k < li + 1 && 0 <= m2 < acct.list_of_lots@[k].movements@.len() implies lot_mvmt_line_of(
                #[trigger] out@[k]@[m2],
                acct.list_of_lots@[k].movements@[m2],
                is_home,
                acct_map@,
                ars@,
                raw_acct_map@,
                txns_map@,
            ) by {
                if k < li {
                } else {
                    assert(out@[k]@ == lines@);
                }
            }
        }
        li = li + 1;
    }
    Ok(out)
}


/// The automatic memo of transaction `txn_num` (see `Transaction::get_auto_memo`).
pub fn auto_memo_of(
    home: &str,
    txn_num: u32,
    ars: &HashMap<u32, ActionRecord>,
    raw_acct_map: &HashMap<u16, RawAccount>,
    acct_map: &HashMap<u16, Account>,
    txns_map: &HashMap<u32, Transaction>,
) -> (r: Result<AutoMemo, CryptoolsError>)
    requires
        ledger_wf(txns_map@, txns_map@.len() as int, ars@, acct_map@, raw_acct_map@),
        txns_map@.contains_key(txn_num),
    ensures
        auto_memo_result(txns_map@[txn_num], ars@, acct_map@, raw_acct_map@, home@, r),
{
    let txn = txns_map.get(&txn_num).unwrap();
    proof {
        assert(txn_ok(txns_map@[txn_num], txn_num, ars@, acct_map@, raw_acct_map@));
        let v = txn.action_record_idx_vec@;
        assert(ar_resolves(ars@, acct_map@, raw_acct_map@, v[0]));
        if v.len() == 2 {
            assert(ar_resolves(ars@, acct_map@, raw_acct_map@, v[1]));
        }
    }
    txn.get_auto_memo(ars, raw_acct_map, acct_map, home)
}

} // verus!
