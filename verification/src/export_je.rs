//! Bookkeeping journal entries for every transaction (not suited to like-kind
//! treatment).  The entries are computed here; writing them out happens elsewhere.
use std::collections::HashMap;
use vstd::prelude::*;
use crate::dec::{
    Dec, add_fits, spec_add, absolute, negated, dec_sum_from, decimal_to_string,
    lemma_dec_sum_push, lemma_dec_sum_prefix,
};
use crate::date::Date;
use crate::account::{
    Account, Movement, MvmtField, RawAccount, Term, lot_of_resolves, mvmt_sum, spec_lot_of,
};
use crate::transaction::{
    ActionRecord, AutoMemo, Polarity, Transaction, TxType, ar_resolves, lookup_raw, ar_raw,
    ar_candidates, spec_direction, spec_tx_type, outgoing_exchange_and_flow_mvmts,
    auto_memo_result, counted_ar_fails,
};
use crate::errors::CryptoolsError;
use crate::core_functions::ImportProcessParameters;
use crate::ledger::{accts_wf, ledger_wf, txn_ok, lemma_mvmt_sum_push};
use crate::strings::{concat, string_from, u64_to_string, decimal_digits};

verus! {

broadcast use vstd::std_specs::hash::group_hash_axioms;

/// One line of a journal entry: a label and an amount on the debit or the credit side.
#[derive(Debug)]
pub struct JournalLine {
    pub label: String,
    pub debit: Option<Dec>,
    pub credit: Option<Dec>,
}

/// The journal entry of one transaction.  `terms` holds the term (long or short) that
/// each of its counted movements was found to have, in order.
pub struct JournalEntry {
    pub txn_num: u32,
    pub date: Date,
    pub user_memo: String,
    pub auto_memo: AutoMemo,
    pub lines: Vec<JournalLine>,
    pub debits: Dec,
    pub credits: Dec,
    pub terms: Ghost<Seq<Term>>,
}

/// A journal line as plain values: label, debit, credit.
pub open spec fn line_view(l: JournalLine) -> (Seq<char>, Option<Dec>, Option<Dec>) {
    (l.label@, l.debit, l.credit)
}

pub open spec fn lines_view(ls: Seq<JournalLine>) -> Seq<(Seq<char>, Option<Dec>, Option<Dec>)> {
    ls.map_values(|l: JournalLine| line_view(l))
}

/// One line with this label and amounts when `present`; else none.
pub open spec fn line_if(
    present: bool,
    label: Seq<char>,
    debit: Option<Dec>,
    credit: Option<Dec>,
) -> Seq<(Seq<char>, Option<Dec>, Option<Dec>)> {
    if present {
        seq![(label, debit, credit)]
    } else {
        Seq::empty()
    }
}

/// How an account is named in a journal entry: `name - ticker (margin) (#number)`.
pub open spec fn account_label(r: RawAccount) -> Seq<char> {
    r.name@ + " - "@ + r.ticker@ + " ("@ + (if r.is_margin {
        "Margin"@
    } else {
        "Non-margin"@
    }) + ") (#"@ + decimal_digits(r.account_num as nat) + ")"@
}

/// The last action record of `v` on the incoming side (`incoming`) or the outgoing side.
pub open spec fn last_of_side(v: Seq<u32>, ars: Map<u32, ActionRecord>, incoming: bool) -> Option<
    u32,
>
    decreases v.len(),
{
    if v.len() == 0 {
        None
    } else if (spec_direction(ars[v.last()].amount) == Polarity::Incoming) == incoming {
        Some(v.last())
    } else {
        last_of_side(v.drop_last(), ars, incoming)
    }
}

/// The cost basis of an action record's movements, as a positive amount (`None` when
/// the total does not fit).
pub open spec fn ar_basis(
    ar: ActionRecord,
    accts: Map<u16, Account>,
    txns: Map<u32, Transaction>,
) -> Option<Dec> {
    match mvmt_sum(ar_candidates(ar, accts, txns), MvmtField::CostBasis) {
        Some(cb) => Some(absolute(cb)),
        None => None,
    }
}

/// The cost basis of the last action record of `v` on the given side, if there is one.
pub open spec fn side_basis(
    v: Seq<u32>,
    ars: Map<u32, ActionRecord>,
    accts: Map<u16, Account>,
    txns: Map<u32, Transaction>,
    incoming: bool,
) -> Option<Dec> {
    match last_of_side(v, ars, incoming) {
        Some(k) => ar_basis(ars[k], accts, txns),
        None => None,
    }
}

/// The account label of the last action record of `v` on the given side (empty if none).
pub open spec fn side_label(
    v: Seq<u32>,
    ars: Map<u32, ActionRecord>,
    accts: Map<u16, Account>,
    raws: Map<u16, RawAccount>,
    incoming: bool,
) -> Seq<char> {
    match last_of_side(v, ars, incoming) {
        Some(k) => account_label(ar_raw(ars, accts, raws, k)),
        None => Seq::empty(),
    }
}

/// The movements of `ms` whose term (at the same position of `terms`) is `t`, in order.
pub open spec fn mvmts_of_term(ms: Seq<Movement>, terms: Seq<Term>, t: Term) -> Seq<Movement>
    decreases ms.len(),
{
    if ms.len() == 0 || terms.len() == 0 {
        Seq::empty()
    } else {
        let rest = mvmts_of_term(ms.drop_last(), terms.drop_last(), t);
        if terms.last() == t {
            rest.push(ms.last())
        } else {
            rest
        }
    }
}

/// What a movement adds to a journal entry's income: in a flow, an incoming movement
/// adds its like-kind proceeds, negated.
pub open spec fn income_of(
    m: Movement,
    ars: Map<u32, ActionRecord>,
    accts: Map<u16, Account>,
    raws: Map<u16, RawAccount>,
    txns: Map<u32, Transaction>,
) -> Dec {
    if spec_tx_type(txns[m.transaction_key], ars, accts, raws) == Ok::<TxType, CryptoolsError>(
        TxType::Flow,
    ) && spec_direction(ars[m.action_record_key].amount) == Polarity::Incoming {
        negated(m.proceeds_lk)
    } else {
        Dec::zero_spec()
    }
}

/// What a movement adds to a journal entry's expense: in a flow, an outgoing movement
/// outside margin accounts adds its like-kind proceeds, negated.
pub open spec fn expense_of(
    m: Movement,
    ars: Map<u32, ActionRecord>,
    accts: Map<u16, Account>,
    raws: Map<u16, RawAccount>,
    txns: Map<u32, Transaction>,
) -> Dec {
    if spec_tx_type(txns[m.transaction_key], ars, accts, raws) == Ok::<TxType, CryptoolsError>(
        TxType::Flow,
    ) && spec_direction(ars[m.action_record_key].amount) == Polarity::Outgoing && !ar_raw(
        ars,
        accts,
        raws,
        m.action_record_key,
    ).is_margin {
        negated(m.proceeds_lk)
    } else {
        Dec::zero_spec()
    }
}

/// The term of a movement of an outgoing action record: long-term when it comes more
/// than 365 days after its lot's date for basis purposes.
pub open spec fn outgoing_term(m: Movement, accts: Map<u16, Account>, ars: Map<u32, ActionRecord>) -> Term {
    if m.date.day_num() - spec_lot_of(m, accts, ars).date_for_basis_purposes.day_num() > 365 {
        Term::LT
    } else {
        Term::ST
    }
}

/// The gain line (a credit) or loss line (a debit) of a gain or loss `g` from disposing
/// of `a`; none when `g` is zero.
pub open spec fn gain_line(g: Dec, a: Dec, gain: Seq<char>, loss: Seq<char>) -> Seq<
    (Seq<char>, Option<Dec>, Option<Dec>),
> {
    let amount_text = decimal_to_string(absolute(a).mant(), absolute(a).scl() as int);
    if g.val() == 0 {
        Seq::empty()
    } else if g.val() > 0 {
        seq![(gain + amount_text, None, Some(absolute(g)))]
    } else {
        seq![(loss + amount_text, Some(absolute(g)), None)]
    }
}

/// The lines of a journal entry from its amounts: the incoming side's cost basis `ic` as
/// a debit, the outgoing side's `og` as a credit, the long-term and short-term gain or
/// loss, income as a credit and expense as a debit.
pub open spec fn entry_lines(
    ic: Option<Dec>,
    og: Option<Dec>,
    label_ic: Seq<char>,
    label_og: Seq<char>,
    gain_lt: Dec,
    amount_lt: Dec,
    gain_st: Dec,
    amount_st: Dec,
    income: Dec,
    expense: Dec,
) -> Seq<(Seq<char>, Option<Dec>, Option<Dec>)> {
    line_if(ic is Some, label_ic, ic, None) + line_if(og is Some, label_og, None, og) + gain_line(
        gain_lt,
        amount_lt,
        "Long-term gain disposing "@,
        "Long-term loss disposing "@,
    ) + gain_line(gain_st, amount_st, "Short-term gain disposing "@, "Short-term loss disposing "@)
        + line_if(income.val() != 0, "Income"@, None, Some(income)) + line_if(
        expense.val() != 0,
        "Expense"@,
        Some(absolute(expense)),
        None,
    )
}

/// The lines of the journal entry of transaction `t` (home currency `home`), its counted
/// movements having the terms `terms`; `None` when a total does not fit.  In order: the
/// incoming side's cost basis as a debit, the outgoing side's as a credit, the
/// long-term and the short-term gain or loss of the counted movements (like-kind
/// proceeds plus like-kind basis; none in a flow whose first counted movement comes in),
/// income as a credit and expense as a debit; a zero gain, income or expense gets no
/// line.
pub open spec fn je_lines(
    t: Transaction,
    home: Seq<char>,
    ars: Map<u32, ActionRecord>,
    accts: Map<u16, Account>,
    raws: Map<u16, RawAccount>,
    txns: Map<u32, Transaction>,
    terms: Seq<Term>,
) -> Option<Seq<(Seq<char>, Option<Dec>, Option<Dec>)>> {
    let v = t.action_record_idx_vec@;
    let ms = outgoing_exchange_and_flow_mvmts(t, v.len() as int, home, ars, accts, raws, txns);
    let ic = side_basis(v, ars, accts, txns, true);
    let og = side_basis(v, ars, accts, txns, false);
    let zeroed = spec_tx_type(t, ars, accts, raws) == Ok::<TxType, CryptoolsError>(TxType::Flow)
        && ms.len() > 0 && ms[0].amount.val() > 0;
    let lt = mvmts_of_term(ms, terms, Term::LT);
    let st = mvmts_of_term(ms, terms, Term::ST);
    let inc = dec_sum_from(
        Dec::zero_spec(),
        ms.map_values(|m: Movement| income_of(m, ars, accts, raws, txns)),
    );
    let exp = dec_sum_from(
        Dec::zero_spec(),
        ms.map_values(|m: Movement| expense_of(m, ars, accts, raws, txns)),
    );
    if mvmt_sum(lt, MvmtField::Amount) is Some && mvmt_sum(lt, MvmtField::ProceedsLk) is Some
        && mvmt_sum(lt, MvmtField::CostBasisLk) is Some && mvmt_sum(st, MvmtField::Amount) is Some
        && mvmt_sum(st, MvmtField::ProceedsLk) is Some && mvmt_sum(st, MvmtField::CostBasisLk) is Some
        && inc is Some && exp is Some {
        let p_lt = if zeroed {
            Dec::zero_spec()
        } else {
            mvmt_sum(lt, MvmtField::ProceedsLk)->Some_0
        };
        let c_lt = if zeroed {
            Dec::zero_spec()
        } else {
            mvmt_sum(lt, MvmtField::CostBasisLk)->Some_0
        };
        let p_st = if zeroed {
            Dec::zero_spec()
        } else {
            mvmt_sum(st, MvmtField::ProceedsLk)->Some_0
        };
        let c_st = if zeroed {
            Dec::zero_spec()
        } else {
            mvmt_sum(st, MvmtField::CostBasisLk)->Some_0
        };
        let income = inc->Some_0;
        let expense = exp->Some_0;
        if add_fits(p_lt, c_lt) && add_fits(p_st, c_st) {
            Some(
                entry_lines(
                    ic,
                    og,
                    side_label(v, ars, accts, raws, true),
                    side_label(v, ars, accts, raws, false),
                    spec_add(p_lt, c_lt),
                    mvmt_sum(lt, MvmtField::Amount)->Some_0,
                    spec_add(p_st, c_st),
                    mvmt_sum(st, MvmtField::Amount)->Some_0,
                    income,
                    expense,
                ),
            )
        } else {
            None
        }
    } else {
        None
    }
}

/// What the journal entry `e` of transaction `n` holds: its number, date, memos and the
/// lines of `je_lines` for the terms its counted movements were found to have (the
/// rule of `outgoing_term` for every movement of an outgoing action record), with the
/// totals of each side.
pub open spec fn je_of(
    e: JournalEntry,
    n: u32,
    home: Seq<char>,
    ars: Map<u32, ActionRecord>,
    accts: Map<u16, Account>,
    raws: Map<u16, RawAccount>,
    txns: Map<u32, Transaction>,
) -> bool {
    let t = txns[n];
    let ms = outgoing_exchange_and_flow_mvmts(
        t,
        t.action_record_idx_vec@.len() as int,
        home,
        ars,
        accts,
        raws,
        txns,
    );
    &&& e.txn_num == n
    &&& e.date == t.date
    &&& e.user_memo@ == t.user_memo@
    &&& auto_memo_result(t, ars, accts, raws, home, Ok(e.auto_memo))
    &&& e.terms@.len() == ms.len()
    &&& forall|i: int|
        0 <= i < ms.len() && spec_direction(ars[ms[i].action_record_key].amount)
            == Polarity::Outgoing ==> #[trigger] e.terms@[i] == outgoing_term(ms[i], accts, ars)
    &&& je_lines(t, home, ars, accts, raws, txns, e.terms@) == Some(lines_view(e.lines@))
    &&& e.debits.val() == side_total(e.lines@, true)
    &&& e.credits.val() == side_total(e.lines@, false)
}

/// The total of one side of the lines.
pub open spec fn side_total(lines: Seq<JournalLine>, debit: bool) -> int
    decreases lines.len(),
{
    if lines.len() == 0 {
        0
    } else {
        side_total(lines.drop_last(), debit) + match (if debit {
            lines.last().debit
        } else {
            lines.last().credit
        }) {
            Some(x) => x.val(),
            None => 0,
        }
    }
}

/// `a + b`, or the overflow error of transaction `t`.
pub(crate) fn add_or_err(a: &Dec, b: &Dec, t: u32) -> (r: Result<Dec, CryptoolsError>)
    ensures
        r matches Ok(x) ==> x.val() == a.val() + b.val() && x == spec_add(*a, *b),
        r is Err <==> !add_fits(*a, *b),
{
    match a.checked_add(b) {
        Some(x) => Ok(x),
        None => Err(CryptoolsError::DecimalOverflow { tx_number: t }),
    }
}

/// Adds a line, keeping the side totals.
fn push_line(
    lines: &mut Vec<JournalLine>,
    debits: &mut Dec,
    credits: &mut Dec,
    label: String,
    debit: Option<Dec>,
    credit: Option<Dec>,
    t: u32,
) -> (r: Result<(), CryptoolsError>)
    requires
        old(debits).val() == side_total(old(lines)@, true),
        old(credits).val() == side_total(old(lines)@, false),
    ensures
        r is Ok ==> final(debits).val() == side_total(final(lines)@, true),
        r is Ok ==> final(credits).val() == side_total(final(lines)@, false),
        r is Ok ==> final(lines)@ == old(lines)@.push(JournalLine { label, debit, credit }),
        r is Ok ==> *final(debits) == match debit {
            Some(d) => spec_add(*old(debits), d),
            None => *old(debits),
        },
        r is Ok ==> *final(credits) == match credit {
            Some(c) => spec_add(*old(credits), c),
            None => *old(credits),
        },
        r is Err <==> (debit matches Some(d) && !add_fits(*old(debits), d)) || (credit matches Some(c)
            && !add_fits(*old(credits), c)),
{
    let ghost before = lines@;
    if let Some(d) = debit {
        *debits = add_or_err(debits, &d, t)?;
    }
    if let Some(c) = credit {
        *credits = add_or_err(credits, &c, t)?;
    }
    lines.push(JournalLine { label, debit, credit });
    proof {
        assert(lines@.drop_last() =~= before);
    }
    Ok(())
}

/// How an account is named in a journal entry: `name - ticker (margin) (#number)`.
fn account_string(raw_acct: &RawAccount) -> (r: String)
    ensures
        r@ == account_label(*raw_acct),
{
    let a = concat(raw_acct.name.as_str(), " - ");
    let b = concat(a.as_str(), raw_acct.ticker.as_str());
    let c = concat(b.as_str(), " (");
    let d = concat(c.as_str(), raw_acct.margin_string().as_str());
    let e = concat(d.as_str(), ") (#");
    let f = concat(e.as_str(), u64_to_string(raw_acct.account_num as u64).as_str());
    concat(f.as_str(), ")")
}

/// Whether the lot of a movement can be looked up.
pub(crate) fn lot_of_found(
    mvmt: &Movement,
    acct_map: &HashMap<u16, Account>,
    ars: &HashMap<u32, ActionRecord>,
) -> (r: bool)
    ensures
        r == lot_of_resolves(*mvmt, acct_map@, ars@),
{
    match ars.get(&mvmt.action_record_key) {
        Some(ar) => match acct_map.get(&ar.account_key) {
            Some(acct) => 1 <= mvmt.lot_num && (mvmt.lot_num as usize) <= acct.list_of_lots.len(),
            None => false,
        },
        None => false,
    }
}

/// The cost basis and account label of the last incoming and the last outgoing action
/// record of transaction `txn_num`.
fn side_bases(
    txn_num: u32,
    ars: &HashMap<u32, ActionRecord>,
    raw_acct_map: &HashMap<u16, RawAccount>,
    acct_map: &HashMap<u16, Account>,
    txns_map: &HashMap<u32, Transaction>,
) -> (r: Result<(Option<Dec>, Option<Dec>, String, String), CryptoolsError>)
    requires
        txns_map@.contains_key(txn_num),
        txn_ok(txns_map@[txn_num], txn_num, ars@, acct_map@, raw_acct_map@),
    ensures
        r matches Ok((ic, og, label_ic, label_og)) ==> {
            let v = txns_map@[txn_num].action_record_idx_vec@;
            &&& ic == side_basis(v, ars@, acct_map@, txns_map@, true)
            &&& og == side_basis(v, ars@, acct_map@, txns_map@, false)
            &&& label_ic@ == side_label(v, ars@, acct_map@, raw_acct_map@, true)
            &&& label_og@ == side_label(v, ars@, acct_map@, raw_acct_map@, false)
            &&& last_of_side(v, ars@, true) is Some ==> ic is Some
            &&& last_of_side(v, ars@, false) is Some ==> og is Some
        },
        r is Err <==> exists|i: int|
            0 <= i < txns_map@[txn_num].action_record_idx_vec@.len() && ar_basis(
                ars@[#[trigger] txns_map@[txn_num].action_record_idx_vec@[i]],
                acct_map@,
                txns_map@,
            ) is None,
{
    let txn = txns_map.get(&txn_num).unwrap();
    let ghost v = txn.action_record_idx_vec@;
    let mut cost_basis_ic: Option<Dec> = None;
    let mut cost_basis_og: Option<Dec> = None;
    let mut acct_string_ic = string_from("");
    let mut acct_string_og = string_from("");
    proof {
        reveal_strlit("");
        assert(acct_string_ic@ =~= Seq::<char>::empty());
        assert(acct_string_og@ =~= Seq::<char>::empty());
        assert(v.take(0) =~= Seq::<u32>::empty());
    }
    let mut i: usize = 0;
    while i < txn.action_record_idx_vec.len()
        invariant
            i <= txn.action_record_idx_vec@.len(),
            txns_map@.contains_key(txn_num),
            *txn == txns_map@[txn_num],
            v == txn.action_record_idx_vec@,
            txn_ok(txns_map@[txn_num], txn_num, ars@, acct_map@, raw_acct_map@),
            cost_basis_ic == side_basis(v.take(i as int), ars@, acct_map@, txns_map@, true),
            cost_basis_og == side_basis(v.take(i as int), ars@, acct_map@, txns_map@, false),
            acct_string_ic@ == side_label(v.take(i as int), ars@, acct_map@, raw_acct_map@, true),
            acct_string_og@ == side_label(v.take(i as int), ars@, acct_map@, raw_acct_map@, false),
            last_of_side(v.take(i as int), ars@, true) is Some ==> cost_basis_ic is Some,
            last_of_side(v.take(i as int), ars@, false) is Some ==> cost_basis_og is Some,
            forall|ii: int| 0 <= ii < i ==> ar_basis(ars@[#[trigger] v[ii]], acct_map@, txns_map@) is Some,
        decreases txn.action_record_idx_vec@.len() - i,
    {
        let ar_num = txn.action_record_idx_vec[i];
        proof {
            assert(ar_resolves(ars@, acct_map@, raw_acct_map@, txn.action_record_idx_vec@[i as int]));
            assert(ars@[ar_num].tx_key == txn_num);
            assert(v.take(i + 1).drop_last() =~= v.take(i as int));
            assert(v.take(i + 1).last() == ar_num);
        }
        let ar = ars.get(&ar_num).unwrap();
        let raw_acct = lookup_raw(ar_num, ars, raw_acct_map, acct_map);
        let cb = match ar.cost_basis_in_ar(acct_map, txns_map) {
            Some(x) => x,
            None => {
                return Err(CryptoolsError::DecimalOverflow { tx_number: txn_num });
            },
        };
        if ar.direction() == Polarity::Incoming {
            cost_basis_ic = Some(cb);
            acct_string_ic = account_string(raw_acct);
        } else {
            cost_basis_og = Some(cb);
            acct_string_og = account_string(raw_acct);
        }
        i = i + 1;
    }
    proof {
        assert(v.take(v.len() as int) =~= v);
    }
    Ok((cost_basis_ic, cost_basis_og, acct_string_ic, acct_string_og))
}

/// The running totals of a journal entry's counted movements.
struct MvmtTotals {
    polarity: Option<Polarity>,
    amount_lt: Dec,
    proceeds_lt: Dec,
    cost_basis_lt: Dec,
    amount_st: Dec,
    proceeds_st: Dec,
    cost_basis_st: Dec,
    income: Dec,
    expense: Dec,
}

/// The totals are those of movements `ms` with terms `terms`.
spec fn totals_of(
    tot: MvmtTotals,
    ms: Seq<Movement>,
    terms: Seq<Term>,
    ars: Map<u32, ActionRecord>,
    accts: Map<u16, Account>,
    raws: Map<u16, RawAccount>,
    txns: Map<u32, Transaction>,
) -> bool {
    let lt = mvmts_of_term(ms, terms, Term::LT);
    let st = mvmts_of_term(ms, terms, Term::ST);
    &&& tot.polarity == (if ms.len() == 0 {
        None
    } else if ms[0].amount.val() > 0 {
        Some(Polarity::Incoming)
    } else {
        Some(Polarity::Outgoing)
    })
    &&& mvmt_sum(lt, MvmtField::Amount) == Some(tot.amount_lt)
    &&& mvmt_sum(lt, MvmtField::ProceedsLk) == Some(tot.proceeds_lt)
    &&& mvmt_sum(lt, MvmtField::CostBasisLk) == Some(tot.cost_basis_lt)
    &&& mvmt_sum(st, MvmtField::Amount) == Some(tot.amount_st)
    &&& mvmt_sum(st, MvmtField::ProceedsLk) == Some(tot.proceeds_st)
    &&& mvmt_sum(st, MvmtField::CostBasisLk) == Some(tot.cost_basis_st)
    &&& dec_sum_from(
        Dec::zero_spec(),
        ms.map_values(|m: Movement| income_of(m, ars, accts, raws, txns)),
    ) == Some(tot.income)
    &&& dec_sum_from(
        Dec::zero_spec(),
        ms.map_values(|m: Movement| expense_of(m, ars, accts, raws, txns)),
    ) == Some(tot.expense)
}

/// Adding up movements `ms` by the terms `ts` (one for each) fails: a movement's lot,
/// transaction, account or raw account cannot be looked up, or the kind of its
/// transaction cannot be told, or a running total (amount, like-kind proceeds and
/// like-kind basis of each term, income, expense) does not fit.
pub open spec fn totals_fail(
    ms: Seq<Movement>,
    ts: Seq<Term>,
    ars: Map<u32, ActionRecord>,
    accts: Map<u16, Account>,
    raws: Map<u16, RawAccount>,
    txns: Map<u32, Transaction>,
) -> bool {
    let lt = mvmts_of_term(ms, ts, Term::LT);
    let st = mvmts_of_term(ms, ts, Term::ST);
    ||| exists|i: int|
        0 <= i < ms.len() && !{
            let m = #[trigger] ms[i];
            &&& lot_of_resolves(m, accts, ars)
            &&& txns.contains_key(m.transaction_key)
            &&& accts.contains_key(ars[m.action_record_key].account_key)
            &&& raws.contains_key(accts[ars[m.action_record_key].account_key].raw_key)
            &&& spec_tx_type(txns[m.transaction_key], ars, accts, raws) is Ok
        }
    ||| mvmt_sum(lt, MvmtField::Amount) is None
    ||| mvmt_sum(lt, MvmtField::ProceedsLk) is None
    ||| mvmt_sum(lt, MvmtField::CostBasisLk) is None
    ||| mvmt_sum(st, MvmtField::Amount) is None
    ||| mvmt_sum(st, MvmtField::ProceedsLk) is None
    ||| mvmt_sum(st, MvmtField::CostBasisLk) is None
    ||| dec_sum_from(Dec::zero_spec(), ms.map_values(|m: Movement| income_of(m, ars, accts, raws, txns))) is None
    ||| dec_sum_from(Dec::zero_spec(), ms.map_values(|m: Movement| expense_of(m, ars, accts, raws, txns))) is None
}

/// The first `n` movements of `ms`, with terms `ts` that follow `outgoing_term` for every
/// movement of an outgoing action record, cannot be added up (see `totals_fail`).
pub open spec fn totals_fail_at(
    ms: Seq<Movement>,
    n: int,
    ts: Seq<Term>,
    ars: Map<u32, ActionRecord>,
    accts: Map<u16, Account>,
    raws: Map<u16, RawAccount>,
    txns: Map<u32, Transaction>,
) -> bool {
    &&& 0 <= n <= ms.len()
    &&& ts.len() == n
    &&& forall|i: int|
        0 <= i < n && spec_direction(ars[ms[i].action_record_key].amount) == Polarity::Outgoing
            ==> #[trigger] ts[i] == outgoing_term(ms[i], accts, ars)
    &&& totals_fail(ms.take(n), ts, ars, accts, raws, txns)
}

/// Adds up the counted movements of transaction `txn_num` by term, with their income and
/// expense; gives back the terms found.
fn movement_totals(
    mvmts: &Vec<Movement>,
    txn_num: u32,
    ars: &HashMap<u32, ActionRecord>,
    raw_acct_map: &HashMap<u16, RawAccount>,
    acct_map: &HashMap<u16, Account>,
    txns_map: &HashMap<u32, Transaction>,
) -> (r: Result<(MvmtTotals, Ghost<Seq<Term>>), CryptoolsError>)
    requires
        accts_wf(acct_map@),
        forall|t: u32| #[trigger]
            txns_map@.contains_key(t) ==> txn_ok(
                txns_map@[t],
                t,
                ars@,
                acct_map@,
                raw_acct_map@,
            ),
    ensures
        r matches Ok((tot, terms)) ==> {
            &&& terms@.len() == mvmts@.len()
            &&& forall|q: int|
                0 <= q < mvmts@.len() && spec_direction(ars@[mvmts@[q].action_record_key].amount)
                    == Polarity::Outgoing ==> #[trigger] terms@[q] == outgoing_term(
                    mvmts@[q],
                    acct_map@,
                    ars@,
                )
            &&& totals_of(tot, mvmts@, terms@, ars@, acct_map@, raw_acct_map@, txns_map@)
        },
        r is Err ==> exists|n: int, ts: Seq<Term>|
            #[trigger] totals_fail_at(mvmts@, n, ts, ars@, acct_map@, raw_acct_map@, txns_map@),
{
    let ghost ms = mvmts@;
    let mut polarity: Option<Polarity> = None;
    let mut amount_st = Dec::zero();
    let mut proceeds_st = Dec::zero();
    let mut cost_basis_st = Dec::zero();
    let mut amount_lt = Dec::zero();
    let mut proceeds_lt = Dec::zero();
    let mut cost_basis_lt = Dec::zero();
    let mut income = Dec::zero();
    let mut expense = Dec::zero();
    let ghost mut terms: Seq<Term> = Seq::empty();
    let ghost fi = |m: Movement| income_of(m, ars@, acct_map@, raw_acct_map@, txns_map@);
    let ghost fe = |m: Movement| expense_of(m, ars@, acct_map@, raw_acct_map@, txns_map@);
    proof {
        assert(ms.take(0) =~= Seq::<Movement>::empty());
        assert(ms.take(0).map_values(fi) =~= Seq::<Dec>::empty());
        assert(ms.take(0).map_values(fe) =~= Seq::<Dec>::empty());
    }
    let mut j: usize = 0;
    while j < mvmts.len()
        invariant
            j <= mvmts@.len(),
            ms == mvmts@,
            accts_wf(acct_map@),
            forall|t: u32| #[trigger]
                txns_map@.contains_key(t) ==> txn_ok(
                    txns_map@[t],
                    t,
                    ars@,
                    acct_map@,
                    raw_acct_map@,
                ),
            terms.len() == j,
            forall|q: int|
                0 <= q < j && spec_direction(ars@[ms[q].action_record_key].amount)
                    == Polarity::Outgoing ==> #[trigger] terms[q] == outgoing_term(
                    ms[q],
                    acct_map@,
                    ars@,
                ),
            polarity == (if j == 0 {
                None
            } else if ms[0].amount.val() > 0 {
                Some(Polarity::Incoming)
            } else {
                Some(Polarity::Outgoing)
            }),
            mvmt_sum(mvmts_of_term(ms.take(j as int), terms, Term::LT), MvmtField::Amount) == Some(amount_lt),
            mvmt_sum(mvmts_of_term(ms.take(j as int), terms, Term::LT), MvmtField::ProceedsLk) == Some(proceeds_lt),
            mvmt_sum(mvmts_of_term(ms.take(j as int), terms, Term::LT), MvmtField::CostBasisLk) == Some(cost_basis_lt),
            mvmt_sum(mvmts_of_term(ms.take(j as int), terms, Term::ST), MvmtField::Amount) == Some(amount_st),
            mvmt_sum(mvmts_of_term(ms.take(j as int), terms, Term::ST), MvmtField::ProceedsLk) == Some(proceeds_st),
            mvmt_sum(mvmts_of_term(ms.take(j as int), terms, Term::ST), MvmtField::CostBasisLk) == Some(cost_basis_st),
            dec_sum_from(Dec::zero_spec(), ms.take(j as int).map_values(fi)) == Some(income),
            dec_sum_from(Dec::zero_spec(), ms.take(j as int).map_values(fe)) == Some(expense),
            fi == (|m: Movement| income_of(m, ars@, acct_map@, raw_acct_map@, txns_map@)),
            fe == (|m: Movement| expense_of(m, ars@, acct_map@, raw_acct_map@, txns_map@)),
        decreases mvmts@.len() - j,
    {
        let mvmt = &mvmts[j];
        if polarity.is_none() {
            polarity = if mvmt.amount.is_positive() {
                Some(Polarity::Incoming)
            } else {
                Some(Polarity::Outgoing)
            };
        }
        if !lot_of_found(mvmt, acct_map, ars) || txns_map.get(&mvmt.transaction_key).is_none() {
            proof {
                let ts = terms.push(outgoing_term(*mvmt, acct_map@, ars@));
                assert(ms.take(j + 1)[j as int] == *mvmt);
                assert(totals_fail_at(ms, j + 1, ts, ars@, acct_map@, raw_acct_map@, txns_map@));
            }
            return Err(CryptoolsError::MissingData { tx_number: txn_num });
        }
        proof {
            let t = mvmt.transaction_key;
            assert(txn_ok(txns_map@[t], t, ars@, acct_map@, raw_acct_map@));
            let w = txns_map@[t].action_record_idx_vec@;
            if w.len() == 2 {
                assert(ar_resolves(ars@, acct_map@, raw_acct_map@, w[0]));
                assert(ar_resolves(ars@, acct_map@, raw_acct_map@, w[1]));
            }
        }
        let term = mvmt.get_term(acct_map, ars);
        let ghost old_terms = terms;
        proof {
            terms = terms.push(term);
            assert(ms.take(j + 1).drop_last() =~= ms.take(j as int));
            assert(terms.drop_last() =~= old_terms);
            assert(ms.take(j + 1).last() == *mvmt);
            assert(ms.take(j + 1).map_values(fi) =~= ms.take(j as int).map_values(fi).push(fi(*mvmt)));
            assert(ms.take(j + 1).map_values(fe) =~= ms.take(j as int).map_values(fe).push(fe(*mvmt)));
            let lt0 = mvmts_of_term(ms.take(j as int), old_terms, Term::LT);
            let st0 = mvmts_of_term(ms.take(j as int), old_terms, Term::ST);
            lemma_mvmt_sum_push(lt0, *mvmt, MvmtField::Amount);
            lemma_mvmt_sum_push(lt0, *mvmt, MvmtField::ProceedsLk);
            lemma_mvmt_sum_push(lt0, *mvmt, MvmtField::CostBasisLk);
            lemma_mvmt_sum_push(st0, *mvmt, MvmtField::Amount);
            lemma_mvmt_sum_push(st0, *mvmt, MvmtField::ProceedsLk);
            lemma_mvmt_sum_push(st0, *mvmt, MvmtField::CostBasisLk);
            lemma_dec_sum_push(Dec::zero_spec(), ms.take(j as int).map_values(fi), fi(*mvmt));
            lemma_dec_sum_push(Dec::zero_spec(), ms.take(j as int).map_values(fe), fe(*mvmt));
        }
        match term {
            Term::LT => {
                amount_lt = match add_or_err(&amount_lt, &mvmt.amount, txn_num) {
                    Ok(x) => x,
                    Err(e) => {
                        proof {
                            assert(totals_fail_at(ms, j + 1, terms, ars@, acct_map@, raw_acct_map@, txns_map@));
                        }
                        return Err(e);
                    },
                };
                proceeds_lt = match add_or_err(&proceeds_lt, &mvmt.proceeds_lk, txn_num) {
                    Ok(x) => x,
                    Err(e) => {
                        proof {
                            assert(totals_fail_at(ms, j + 1, terms, ars@, acct_map@, raw_acct_map@, txns_map@));
                        }
                        return Err(e);
                    },
                };
                cost_basis_lt = match add_or_err(&cost_basis_lt, &mvmt.cost_basis_lk, txn_num) {
                    Ok(x) => x,
                    Err(e) => {
                        proof {
                            assert(totals_fail_at(ms, j + 1, terms, ars@, acct_map@, raw_acct_map@, txns_map@));
                        }
                        return Err(e);
                    },
                };
            },
            Term::ST => {
                amount_st = match add_or_err(&amount_st, &mvmt.amount, txn_num) {
                    Ok(x) => x,
                    Err(e) => {
                        proof {
                            assert(totals_fail_at(ms, j + 1, terms, ars@, acct_map@, raw_acct_map@, txns_map@));
                        }
                        return Err(e);
                    },
                };
                proceeds_st = match add_or_err(&proceeds_st, &mvmt.proceeds_lk, txn_num) {
                    Ok(x) => x,
                    Err(e) => {
                        proof {
                            assert(totals_fail_at(ms, j + 1, terms, ars@, acct_map@, raw_acct_map@, txns_map@));
                        }
                        return Err(e);
                    },
                };
                cost_basis_st = match add_or_err(&cost_basis_st, &mvmt.cost_basis_lk, txn_num) {
                    Ok(x) => x,
                    Err(e) => {
                        proof {
                            assert(totals_fail_at(ms, j + 1, terms, ars@, acct_map@, raw_acct_map@, txns_map@));
                        }
                        return Err(e);
                    },
                };
            },
        }
        let ar_found = ars.get(&mvmt.action_record_key).unwrap();
        if acct_map.get(&ar_found.account_key).is_none() || raw_acct_map.get(
            &acct_map.get(&ar_found.account_key).unwrap().raw_key,
        ).is_none() {
            proof {
                assert(ms.take(j + 1)[j as int] == *mvmt);
                assert(totals_fail_at(ms, j + 1, terms, ars@, acct_map@, raw_acct_map@, txns_map@));
            }
            return Err(CryptoolsError::MissingData { tx_number: txn_num });
        }
        let inc = match mvmt.get_income(ars, raw_acct_map, acct_map, txns_map) {
            Ok(x) => x,
            Err(e) => {
                proof {
                assert(ms.take(j + 1)[j as int] == *mvmt);
                    assert(totals_fail_at(ms, j + 1, terms, ars@, acct_map@, raw_acct_map@, txns_map@));
                }
                return Err(e);
            },
        };
        income = match add_or_err(&income, &inc, txn_num) {
            Ok(x) => x,
            Err(e) => {
                proof {
                    assert(totals_fail_at(ms, j + 1, terms, ars@, acct_map@, raw_acct_map@, txns_map@));
                }
                return Err(e);
            },
        };
        let exp = match mvmt.get_expense(ars, raw_acct_map, acct_map, txns_map) {
            Ok(x) => x,
            Err(e) => {
                proof {
                assert(ms.take(j + 1)[j as int] == *mvmt);
                    assert(totals_fail_at(ms, j + 1, terms, ars@, acct_map@, raw_acct_map@, txns_map@));
                }
                return Err(e);
            },
        };
        expense = match add_or_err(&expense, &exp, txn_num) {
            Ok(x) => x,
            Err(e) => {
                proof {
                    assert(totals_fail_at(ms, j + 1, terms, ars@, acct_map@, raw_acct_map@, txns_map@));
                }
                return Err(e);
            },
        };
        j = j + 1;
    }
    proof {
        assert(ms.take(ms.len() as int) =~= ms);
    }
    let tot = MvmtTotals {
        polarity,
        amount_lt,
        proceeds_lt,
        cost_basis_lt,
        amount_st,
        proceeds_st,
        cost_basis_st,
        income,
        expense,
    };
    Ok((tot, Ghost(terms)))
}

/// The amounts on one side (debits when `debit`, else credits) of the lines, in order.
pub open spec fn side_amounts(ls: Seq<(Seq<char>, Option<Dec>, Option<Dec>)>, debit: bool) -> Seq<Dec>
    decreases ls.len(),
{
    if ls.len() == 0 {
        Seq::empty()
    } else {
        let rest = side_amounts(ls.drop_last(), debit);
        match (if debit {
            ls.last().1
        } else {
            ls.last().2
        }) {
            Some(x) => rest.push(x),
            None => rest,
        }
    }
}

/// Both sides of the lines add up, line by line from zero, without overflow.
pub open spec fn sides_fit(ls: Seq<(Seq<char>, Option<Dec>, Option<Dec>)>) -> bool {
    &&& dec_sum_from(Dec::zero_spec(), side_amounts(ls, true)) is Some
    &&& dec_sum_from(Dec::zero_spec(), side_amounts(ls, false)) is Some
}

/// The amounts on one side of two runs of lines are those of the first, then the second.
proof fn lemma_side_amounts_add(
    a: Seq<(Seq<char>, Option<Dec>, Option<Dec>)>,
    b: Seq<(Seq<char>, Option<Dec>, Option<Dec>)>,
    debit: bool,
)
    ensures
        side_amounts(a + b, debit) == side_amounts(a, debit) + side_amounts(b, debit),
    decreases b.len(),
{
    if b.len() == 0 {
        assert(a + b =~= a);
        assert(side_amounts(a, debit) + side_amounts(b, debit) =~= side_amounts(a, debit));
    } else {
        lemma_side_amounts_add(a, b.drop_last(), debit);
        assert((a + b).drop_last() =~= a + b.drop_last());
        assert((a + b).last() == b.last());
        let x = side_amounts(a, debit);
        let y = side_amounts(b.drop_last(), debit);
        match (if debit {
            b.last().1
        } else {
            b.last().2
        }) {
            Some(v) => {
                assert((x + y).push(v) =~= x + y.push(v));
            },
            None => {},
        }
    }
}

/// When the sides of some lines fit, so do those of the lines before them.
proof fn lemma_sides_fit_prefix(
    a: Seq<(Seq<char>, Option<Dec>, Option<Dec>)>,
    b: Seq<(Seq<char>, Option<Dec>, Option<Dec>)>,
)
    requires
        sides_fit(a + b),
    ensures
        sides_fit(a),
{
    lemma_side_amounts_add(a, b, true);
    lemma_side_amounts_add(a, b, false);
    let d = side_amounts(a, true) + side_amounts(b, true);
    let c = side_amounts(a, false) + side_amounts(b, false);
    lemma_dec_sum_prefix(Dec::zero_spec(), d, side_amounts(a, true).len() as int);
    lemma_dec_sum_prefix(Dec::zero_spec(), c, side_amounts(a, false).len() as int);
    assert(d.take(side_amounts(a, true).len() as int) =~= side_amounts(a, true));
    assert(c.take(side_amounts(a, false).len() as int) =~= side_amounts(a, false));
}

/// One more line on top of lines whose sides total `deb` and `cred`.
proof fn lemma_sides_push(
    ls: Seq<(Seq<char>, Option<Dec>, Option<Dec>)>,
    l: (Seq<char>, Option<Dec>, Option<Dec>),
    deb: Dec,
    cred: Dec,
)
    requires
        dec_sum_from(Dec::zero_spec(), side_amounts(ls, true)) == Some(deb),
        dec_sum_from(Dec::zero_spec(), side_amounts(ls, false)) == Some(cred),
    ensures
        dec_sum_from(Dec::zero_spec(), side_amounts(ls.push(l), true)) == match l.1 {
            Some(x) => if add_fits(deb, x) {
                Some(spec_add(deb, x))
            } else {
                None
            },
            None => Some(deb),
        },
        dec_sum_from(Dec::zero_spec(), side_amounts(ls.push(l), false)) == match l.2 {
            Some(x) => if add_fits(cred, x) {
                Some(spec_add(cred, x))
            } else {
                None
            },
            None => Some(cred),
        },
{
    assert(ls.push(l).drop_last() =~= ls);
    if let Some(x) = l.1 {
        lemma_dec_sum_push(Dec::zero_spec(), side_amounts(ls, true), x);
    }
    if let Some(x) = l.2 {
        lemma_dec_sum_push(Dec::zero_spec(), side_amounts(ls, false), x);
    }
}

/// The lines `s1` to `s6` of an entry, of which the `k`-th run is the single line
/// `line` and the runs before it are `pre`: when the sides of `pre` and `line` do not
/// fit, neither do those of the whole entry.
proof fn lemma_lines_fail(
    s1: Seq<(Seq<char>, Option<Dec>, Option<Dec>)>,
    s2: Seq<(Seq<char>, Option<Dec>, Option<Dec>)>,
    s3: Seq<(Seq<char>, Option<Dec>, Option<Dec>)>,
    s4: Seq<(Seq<char>, Option<Dec>, Option<Dec>)>,
    s5: Seq<(Seq<char>, Option<Dec>, Option<Dec>)>,
    s6: Seq<(Seq<char>, Option<Dec>, Option<Dec>)>,
    k: int,
    pre: Seq<(Seq<char>, Option<Dec>, Option<Dec>)>,
    line: (Seq<char>, Option<Dec>, Option<Dec>),
)
    requires
        1 <= k <= 6,
        k == 1 ==> pre =~= Seq::empty() && s1 == seq![line],
        k == 2 ==> pre == s1 && s2 == seq![line],
        k == 3 ==> pre == s1 + s2 && s3 == seq![line],
        k == 4 ==> pre == s1 + s2 + s3 && s4 == seq![line],
        k == 5 ==> pre == s1 + s2 + s3 + s4 && s5 == seq![line],
        k == 6 ==> pre == s1 + s2 + s3 + s4 + s5 && s6 == seq![line],
        !sides_fit(pre.push(line)),
    ensures
        !sides_fit(s1 + s2 + s3 + s4 + s5 + s6),
{
    let all = s1 + s2 + s3 + s4 + s5 + s6;
    let tail = if k == 1 {
        s2 + s3 + s4 + s5 + s6
    } else if k == 2 {
        s3 + s4 + s5 + s6
    } else if k == 3 {
        s4 + s5 + s6
    } else if k == 4 {
        s5 + s6
    } else if k == 5 {
        s6
    } else {
        Seq::empty()
    };
    assert(all =~= pre.push(line) + tail);
    if sides_fit(all) {
        lemma_sides_fit_prefix(pre.push(line), tail);
    }
}

/// `push_line`, keeping the sides' totals as the running sums of the lines' amounts.
fn push_tracked(
    lines: &mut Vec<JournalLine>,
    debits: &mut Dec,
    credits: &mut Dec,
    label: String,
    debit: Option<Dec>,
    credit: Option<Dec>,
    t: u32,
) -> (r: Result<(), CryptoolsError>)
    requires
        old(debits).val() == side_total(old(lines)@, true),
        old(credits).val() == side_total(old(lines)@, false),
        dec_sum_from(Dec::zero_spec(), side_amounts(lines_view(old(lines)@), true)) == Some(*old(debits)),
        dec_sum_from(Dec::zero_spec(), side_amounts(lines_view(old(lines)@), false)) == Some(*old(credits)),
    ensures
        r is Ok ==> final(debits).val() == side_total(final(lines)@, true),
        r is Ok ==> final(credits).val() == side_total(final(lines)@, false),
        r is Ok ==> lines_view(final(lines)@) == lines_view(old(lines)@).push((label@, debit, credit)),
        r is Ok ==> dec_sum_from(Dec::zero_spec(), side_amounts(lines_view(final(lines)@), true))
            == Some(*final(debits)),
        r is Ok ==> dec_sum_from(Dec::zero_spec(), side_amounts(lines_view(final(lines)@), false))
            == Some(*final(credits)),
        r is Err <==> !sides_fit(lines_view(old(lines)@).push((label@, debit, credit))),
{
    let ghost pv = lines_view(lines@);
    let ghost lv = label@;
    let ghost pd = *debits;
    let ghost pc = *credits;
    proof {
        lemma_sides_push(pv, (lv, debit, credit), pd, pc);
    }
    let r = push_line(lines, debits, credits, label, debit, credit, t);
    proof {
        if r is Ok {
            assert(lines_view(lines@) =~= pv.push((lv, debit, credit)));
        }
    }
    r
}

/// The lines of a journal entry (see `entry_lines`), with the total of each side.
#[verifier::rlimit(100)]
#[verifier::spinoff_prover]
fn build_lines(
    cost_basis_ic: Option<Dec>,
    cost_basis_og: Option<Dec>,
    acct_string_ic: String,
    acct_string_og: String,
    lt_gain_loss: Dec,
    amount_lt: Dec,
    st_gain_loss: Dec,
    amount_st: Dec,
    income: Dec,
    expense: Dec,
    txn_num: u32,
) -> (r: Result<(Vec<JournalLine>, Dec, Dec), CryptoolsError>)
    ensures
        r matches Ok((lines, debits, credits)) ==> {
            &&& lines_view(lines@) == entry_lines(
                cost_basis_ic,
                cost_basis_og,
                acct_string_ic@,
                acct_string_og@,
                lt_gain_loss,
                amount_lt,
                st_gain_loss,
                amount_st,
                income,
                expense,
            )
            &&& debits.val() == side_total(lines@, true)
            &&& credits.val() == side_total(lines@, false)
        },
        r is Ok <==> sides_fit(
            entry_lines(
                cost_basis_ic,
                cost_basis_og,
                acct_string_ic@,
                acct_string_og@,
                lt_gain_loss,
                amount_lt,
                st_gain_loss,
                amount_st,
                income,
                expense,
            ),
        ),
{
    let mut lines: Vec<JournalLine> = Vec::new();
    let mut debits = Dec::zero();
    let mut credits = Dec::zero();
    let ghost lt_line = gain_line(
        lt_gain_loss,
        amount_lt,
        "Long-term gain disposing "@,
        "Long-term loss disposing "@,
    );
    let ghost st_line = gain_line(
        st_gain_loss,
        amount_st,
        "Short-term gain disposing "@,
        "Short-term loss disposing "@,
    );
    let ghost l1 = line_if(cost_basis_ic is Some, acct_string_ic@, cost_basis_ic, None);
    let ghost l2 = line_if(cost_basis_og is Some, acct_string_og@, None, cost_basis_og);
    let ghost l5 = line_if(income.val() != 0, "Income"@, None, Some(income));
    let ghost l6 = line_if(expense.val() != 0, "Expense"@, Some(absolute(expense)), None);
    let ghost entry = entry_lines(
        cost_basis_ic,
        cost_basis_og,
        acct_string_ic@,
        acct_string_og@,
        lt_gain_loss,
        amount_lt,
        st_gain_loss,
        amount_st,
        income,
        expense,
    );
    proof {
        assert(lines_view(lines@) =~= Seq::empty());
        assert(side_amounts(lines_view(lines@), true) =~= Seq::<Dec>::empty());
        assert(side_amounts(lines_view(lines@), false) =~= Seq::<Dec>::empty());
        assert(entry == l1 + l2 + lt_line + st_line + l5 + l6);
    }
    if let Some(cb) = cost_basis_ic {
        let ghost pv = lines_view(lines@);
        let ghost lv = acct_string_ic@;
        match push_tracked(&mut lines, &mut debits, &mut credits, acct_string_ic, Some(cb), None, txn_num) {
            Ok(()) => {},
            Err(e) => {
                proof {
                        lemma_lines_fail(l1, l2, lt_line, st_line, l5, l6, 1, pv, (lv, Some(cb), None));
                    }
                return Err(e);
            },
        }
    }
    proof {
        assert(lines_view(lines@) =~= l1);
    }
    if let Some(cb) = cost_basis_og {
        let ghost pv = lines_view(lines@);
        let ghost lv = acct_string_og@;
        match push_tracked(&mut lines, &mut debits, &mut credits, acct_string_og, None, Some(cb), txn_num) {
            Ok(()) => {},
            Err(e) => {
                proof {
                        lemma_lines_fail(l1, l2, lt_line, st_line, l5, l6, 2, pv, (lv, None, Some(cb)));
                    }
                return Err(e);
            },
        }
    }
    proof {
        assert(lines_view(lines@) =~= l1 + l2);
    }
    if !lt_gain_loss.is_zero() {
        if lt_gain_loss.is_positive() {
            let label = concat("Long-term gain disposing ", amount_lt.abs().to_string().as_str());
            let gabs = lt_gain_loss.abs();
            let ghost pv = lines_view(lines@);
            let ghost lv = label@;
            match push_tracked(&mut lines, &mut debits, &mut credits, label, None, Some(gabs), txn_num) {
                Ok(()) => {},
                Err(e) => {
                    proof {
                            lemma_lines_fail(l1, l2, lt_line, st_line, l5, l6, 3, pv, (lv, None, Some(gabs)));
                        }
                    return Err(e);
                },
            }
        } else {
            let label = concat("Long-term loss disposing ", amount_lt.abs().to_string().as_str());
            let gabs = lt_gain_loss.abs();
            let ghost pv = lines_view(lines@);
            let ghost lv = label@;
            match push_tracked(&mut lines, &mut debits, &mut credits, label, Some(gabs), None, txn_num) {
                Ok(()) => {},
                Err(e) => {
                    proof {
                            lemma_lines_fail(l1, l2, lt_line, st_line, l5, l6, 3, pv, (lv, Some(gabs), None));
                        }
                    return Err(e);
                },
            }
        }
    }
    proof {
        assert(lines_view(lines@) =~= l1 + l2 + lt_line);
    }
    if !st_gain_loss.is_zero() {
        if st_gain_loss.is_positive() {
            let label = concat("Short-term gain disposing ", amount_st.abs().to_string().as_str());
            let gabs = st_gain_loss.abs();
            let ghost pv = lines_view(lines@);
            let ghost lv = label@;
            match push_tracked(&mut lines, &mut debits, &mut credits, label, None, Some(gabs), txn_num) {
                Ok(()) => {},
                Err(e) => {
                    proof {
                            lemma_lines_fail(l1, l2, lt_line, st_line, l5, l6, 4, pv, (lv, None, Some(gabs)));
                        }
                    return Err(e);
                },
            }
        } else {
            let label = concat("Short-term loss disposing ", amount_st.abs().to_string().as_str());
            let gabs = st_gain_loss.abs();
            let ghost pv = lines_view(lines@);
            let ghost lv = label@;
            match push_tracked(&mut lines, &mut debits, &mut credits, label, Some(gabs), None, txn_num) {
                Ok(()) => {},
                Err(e) => {
                    proof {
                            lemma_lines_fail(l1, l2, lt_line, st_line, l5, l6, 4, pv, (lv, Some(gabs), None));
                        }
                    return Err(e);
                },
            }
        }
    }
    proof {
        assert(lines_view(lines@) =~= l1 + l2 + lt_line + st_line);
    }
    if !income.is_zero() {
        let label = string_from("Income");
        let ghost pv = lines_view(lines@);
        let ghost lv = label@;
        match push_tracked(&mut lines, &mut debits, &mut credits, label, None, Some(income), txn_num) {
            Ok(()) => {},
            Err(e) => {
                proof {
                        lemma_lines_fail(l1, l2, lt_line, st_line, l5, l6, 5, pv, (lv, None, Some(income)));
                    }
                return Err(e);
            },
        }
    }
    proof {
        assert(lines_view(lines@) =~= l1 + l2 + lt_line + st_line + l5);
    }
    if !expense.is_zero() {
        let label = string_from("Expense");
        let gabs = expense.abs();
        let ghost pv = lines_view(lines@);
        let ghost lv = label@;
        match push_tracked(&mut lines, &mut debits, &mut credits, label, Some(gabs), None, txn_num) {
            Ok(()) => {},
            Err(e) => {
                proof {
                        lemma_lines_fail(l1, l2, lt_line, st_line, l5, l6, 6, pv, (lv, Some(gabs), None));
                    }
                return Err(e);
            },
        }
    }
    proof {
        assert(lines_view(lines@) =~= l1 + l2 + lt_line + st_line + l5 + l6);
    }
    Ok((lines, debits, credits))
}

/// The journal entry of transaction `n` fails whatever the clock says: the kind of the
/// transaction cannot be told, the cost basis of one of its action records does not fit,
/// or its counted movements cannot be gathered (see `counted_ar_fails`).
pub open spec fn je_fails_surely(
    n: u32,
    home: Seq<char>,
    ars: Map<u32, ActionRecord>,
    accts: Map<u16, Account>,
    raws: Map<u16, RawAccount>,
    txns: Map<u32, Transaction>,
) -> bool {
    let t = txns[n];
    let v = t.action_record_idx_vec@;
    ||| spec_tx_type(t, ars, accts, raws) is Err
    ||| exists|i: int| 0 <= i < v.len() && ar_basis(ars[#[trigger] v[i]], accts, txns) is None
    ||| exists|i: int|
        0 <= i < v.len() && #[trigger] counted_ar_fails(t, i, home, ars, accts, raws, txns)
}

/// The journal entry of transaction `n` cannot be made: it fails surely
/// (`je_fails_surely`), or, for terms of its counted movements that follow
/// `outgoing_term` for every movement of an outgoing action record (those of incoming
/// ones are read off the clock), some of them cannot be added up (`totals_fail_at`), or
/// its lines have no totals or their sides do not add up (`je_lines`, `sides_fit`).
pub open spec fn je_fails(
    n: u32,
    home: Seq<char>,
    ars: Map<u32, ActionRecord>,
    accts: Map<u16, Account>,
    raws: Map<u16, RawAccount>,
    txns: Map<u32, Transaction>,
) -> bool {
    let t = txns[n];
    let ms = outgoing_exchange_and_flow_mvmts(
        t,
        t.action_record_idx_vec@.len() as int,
        home,
        ars,
        accts,
        raws,
        txns,
    );
    ||| je_fails_surely(n, home, ars, accts, raws, txns)
    ||| exists|k: int, ts: Seq<Term>| #[trigger] totals_fail_at(ms, k, ts, ars, accts, raws, txns)
    ||| exists|ts: Seq<Term>| #[trigger] lines_fail_with(n, ts, home, ars, accts, raws, txns)
}

/// With terms `ts` of the counted movements of transaction `n` that follow `outgoing_term`
/// for every movement of an outgoing action record, the lines of its journal entry have
/// no totals, or their sides do not add up.
pub open spec fn lines_fail_with(
    n: u32,
    ts: Seq<Term>,
    home: Seq<char>,
    ars: Map<u32, ActionRecord>,
    accts: Map<u16, Account>,
    raws: Map<u16, RawAccount>,
    txns: Map<u32, Transaction>,
) -> bool {
    let t = txns[n];
    let ms = outgoing_exchange_and_flow_mvmts(
        t,
        t.action_record_idx_vec@.len() as int,
        home,
        ars,
        accts,
        raws,
        txns,
    );
    &&& ts.len() == ms.len()
    &&& forall|i: int|
        0 <= i < ms.len() && spec_direction(ars[ms[i].action_record_key].amount)
            == Polarity::Outgoing ==> #[trigger] ts[i] == outgoing_term(ms[i], accts, ars)
    &&& (je_lines(t, home, ars, accts, raws, txns, ts) is None || !sides_fit(
        je_lines(t, home, ars, accts, raws, txns, ts)->Some_0,
    ))
}

/// The journal entry of transaction `txn_num` (see `je_of` and `je_lines`).
pub fn journal_entry_for_txn(
    settings: &ImportProcessParameters,
    txn_num: u32,
    ars: &HashMap<u32, ActionRecord>,
    raw_acct_map: &HashMap<u16, RawAccount>,
    acct_map: &HashMap<u16, Account>,
    txns_map: &HashMap<u32, Transaction>,
) -> (r: Result<JournalEntry, CryptoolsError>)
    requires
        txns_map@.contains_key(txn_num),
        accts_wf(acct_map@),
        forall|t: u32| #[trigger]
            txns_map@.contains_key(t) ==> txn_ok(
                txns_map@[t],
                t,
                ars@,
                acct_map@,
                raw_acct_map@,
            ),
    ensures
        r matches Ok(e) ==> je_of(
            e,
            txn_num,
            settings.home_currency@,
            ars@,
            acct_map@,
            raw_acct_map@,
            txns_map@,
        ),
        r is Err ==> je_fails(
            txn_num,
            settings.home_currency@,
            ars@,
            acct_map@,
            raw_acct_map@,
            txns_map@,
        ),
        je_fails_surely(
            txn_num,
            settings.home_currency@,
            ars@,
            acct_map@,
            raw_acct_map@,
            txns_map@,
        ) ==> r is Err,
{
    let txn = txns_map.get(&txn_num).unwrap();
    proof {
        let v = txn.action_record_idx_vec@;
        assert(txn_ok(txns_map@[txn_num], txn_num, ars@, acct_map@, raw_acct_map@));
        assert(ar_resolves(ars@, acct_map@, raw_acct_map@, v[0]));
        if v.len() == 2 {
            assert(ar_resolves(ars@, acct_map@, raw_acct_map@, v[1]));
        }
    }
    let home = settings.home_currency.as_str();
    let auto_memo = match txn.get_auto_memo(ars, raw_acct_map, acct_map, home) {
        Ok(x) => x,
        Err(e) => {
            proof {
                assert(je_fails(txn_num, settings.home_currency@, ars@, acct_map@, raw_acct_map@, txns_map@));
            }
            return Err(e);
        },
    };
    let tx_type = match txn.transaction_type(ars, raw_acct_map, acct_map) {
        Ok(x) => x,
        Err(e) => {
            proof {
                assert(je_fails(txn_num, settings.home_currency@, ars@, acct_map@, raw_acct_map@, txns_map@));
            }
            return Err(e);
        },
    };
    let (cost_basis_ic, cost_basis_og, acct_string_ic, acct_string_og) = match side_bases(
        txn_num,
        ars,
        raw_acct_map,
        acct_map,
        txns_map,
    ) {
        Ok(x) => x,
        Err(e) => {
            proof {
                assert(je_fails(txn_num, settings.home_currency@, ars@, acct_map@, raw_acct_map@, txns_map@));
            }
            return Err(e);
        },
    };
    proof {
        assert forall|ii: int| 0 <= ii < txn.action_record_idx_vec@.len() implies txns_map@.contains_key(
            ars@[#[trigger] txn.action_record_idx_vec@[ii]].tx_key,
        ) by {
            assert(ars@[txn.action_record_idx_vec@[ii]].tx_key == txn_num);
        }
    }
    let mvmts = match txn.get_outgoing_exchange_and_flow_mvmts(
        home,
        ars,
        raw_acct_map,
        acct_map,
        txns_map,
    ) {
        Ok(x) => x,
        Err(e) => {
            proof {
                assert(je_fails(txn_num, settings.home_currency@, ars@, acct_map@, raw_acct_map@, txns_map@));
            }
            return Err(e);
        },
    };
    let (tot, terms) = match movement_totals(&mvmts, txn_num, ars, raw_acct_map, acct_map, txns_map) {
        Ok(x) => x,
        Err(e) => {
            proof {
                assert(je_fails(txn_num, settings.home_currency@, ars@, acct_map@, raw_acct_map@, txns_map@));
            }
            return Err(e);
        },
    };
    let amount_lt = tot.amount_lt;
    let amount_st = tot.amount_st;
    let income = tot.income;
    let expense = tot.expense;
    let mut proceeds_st = tot.proceeds_st;
    let mut cost_basis_st = tot.cost_basis_st;
    let mut proceeds_lt = tot.proceeds_lt;
    let mut cost_basis_lt = tot.cost_basis_lt;
    if tx_type == TxType::Flow && tot.polarity == Some(Polarity::Incoming) {
        proceeds_st = Dec::zero();
        cost_basis_st = Dec::zero();
        proceeds_lt = Dec::zero();
        cost_basis_lt = Dec::zero();
    }
    let lt_gain_loss = match add_or_err(&proceeds_lt, &cost_basis_lt, txn_num) {
        Ok(x) => x,
        Err(e) => {
            proof {
                assert(lines_fail_with(txn_num, terms@, settings.home_currency@, ars@, acct_map@, raw_acct_map@, txns_map@));
                assert(je_fails(txn_num, settings.home_currency@, ars@, acct_map@, raw_acct_map@, txns_map@));
            }
            return Err(e);
        },
    };
    let st_gain_loss = match add_or_err(&proceeds_st, &cost_basis_st, txn_num) {
        Ok(x) => x,
        Err(e) => {
            proof {
                assert(lines_fail_with(txn_num, terms@, settings.home_currency@, ars@, acct_map@, raw_acct_map@, txns_map@));
                assert(je_fails(txn_num, settings.home_currency@, ars@, acct_map@, raw_acct_map@, txns_map@));
            }
            return Err(e);
        },
    };
    let (lines, debits, credits) = match build_lines(
        cost_basis_ic,
        cost_basis_og,
        acct_string_ic,
        acct_string_og,
        lt_gain_loss,
        amount_lt,
        st_gain_loss,
        amount_st,
        income,
        expense,
        txn_num,
    ) {
        Ok(x) => x,
        Err(e) => {
            proof {
                assert(lines_fail_with(txn_num, terms@, settings.home_currency@, ars@, acct_map@, raw_acct_map@, txns_map@));
                assert(je_fails(txn_num, settings.home_currency@, ars@, acct_map@, raw_acct_map@, txns_map@));
            }
            return Err(e);
        },
    };
    Ok(JournalEntry {
        txn_num,
        date: txn.date,
        user_memo: txn.user_memo.clone(),
        auto_memo,
        lines,
        debits,
        credits,
        terms,
    })
}

/// The journal entries of all transactions, in number order.
pub fn prepare_non_lk_journal_entries(
    settings: &ImportProcessParameters,
    ars: &HashMap<u32, ActionRecord>,
    raw_acct_map: &HashMap<u16, RawAccount>,
    acct_map: &HashMap<u16, Account>,
    txns_map: &HashMap<u32, Transaction>,
) -> (r: Result<Vec<JournalEntry>, CryptoolsError>)
    requires
        ledger_wf(txns_map@, txns_map@.len() as int, ars@, acct_map@, raw_acct_map@),
        txns_map@.len() < u32::MAX,
    ensures
        r matches Ok(es) ==> es@.len() == txns_map@.len() && forall|i: int|
            0 <= i < es@.len() ==> je_of(
                #[trigger] es@[i],
                (i + 1) as u32,
                settings.home_currency@,
                ars@,
                acct_map@,
                raw_acct_map@,
                txns_map@,
            ),
        r is Err ==> exists|n: u32|
            1 <= n <= txns_map@.len() && #[trigger] je_fails(
                n,
                settings.home_currency@,
                ars@,
                acct_map@,
                raw_acct_map@,
                txns_map@,
            ),
        (exists|n: u32|
            1 <= n <= txns_map@.len() && #[trigger] je_fails_surely(
                n,
                settings.home_currency@,
                ars@,
                acct_map@,
                raw_acct_map@,
                txns_map@,
            )) ==> r is Err,
{
    let length = txns_map.len();
    let mut entries: Vec<JournalEntry> = Vec::new();
    let mut num: u32 = 1;
    while (num as usize) <= length
        invariant
            1 <= num <= length + 1,
            length == txns_map@.len(),
            length < u32::MAX,
            ledger_wf(txns_map@, txns_map@.len() as int, ars@, acct_map@, raw_acct_map@),
            entries@.len() == num - 1,
            forall|i: int|
                0 <= i < entries@.len() ==> je_of(
                    #[trigger] entries@[i],
                    (i + 1) as u32,
                    settings.home_currency@,
                    ars@,
                    acct_map@,
                    raw_acct_map@,
                    txns_map@,
                ),
            forall|t: u32|
                1 <= t < num ==> !#[trigger] je_fails_surely(
                    t,
                    settings.home_currency@,
                    ars@,
                    acct_map@,
                    raw_acct_map@,
                    txns_map@,
                ),
        decreases length + 1 - num,
    {
        let e = journal_entry_for_txn(settings, num, ars, raw_acct_map, acct_map, txns_map)?;
        entries.push(e);
        num = num + 1;
    }
    Ok(entries)
}

} // verus!
