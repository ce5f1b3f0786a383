//! Transactions and their action records: what each row of the ledger says happened.
use std::collections::HashMap;
use vstd::prelude::*;
use crate::dec::Dec;
use crate::date::Date;
use crate::strings::{before_first, before_first_char, contains_char, str_eq, string_from};
use crate::account::{Account, Lot, Movement, MvmtField, RawAccount, mvmt_sum};
use crate::ledger::{
    lots_wf, lots_matches, lot_match_pos, lots_match_pos, pos_int, lot_matches, mvmt_matches, scan_stops_at, scan_overflows_at,
    lemma_lot_matches_step, lemma_lot_matches_end, lemma_lots_matches_step, lemma_lots_matches_end,
    lemma_mvmt_sum_push,
};
use crate::errors::CryptoolsError;

verus! {

broadcast use vstd::std_specs::hash::group_hash_axioms;

/// One row of the ledger.
#[derive(Debug)]
pub struct Transaction {
    /// Transaction numbers start at 1.
    pub tx_number: u32,
    pub date_as_string: String,
    pub date: Date,
    pub user_memo: String,
    /// The value of the transaction in the home currency.
    pub proceeds: Dec,
    /// The keys of the transaction's action records; an outgoing one comes first.
    pub action_record_idx_vec: Vec<u32>,
}

/// The change a transaction makes to one account.
#[derive(Debug)]
pub struct ActionRecord {
    pub account_key: u16,
    pub amount: Dec,
    pub tx_key: u32,
    pub self_ar_key: u32,
}

impl Clone for ActionRecord {
    fn clone(&self) -> (r: Self)
        ensures
            r == *self,
    {
        ActionRecord {
            account_key: self.account_key,
            amount: self.amount,
            tx_key: self.tx_key,
            self_ar_key: self.self_ar_key,
        }
    }
}

/// The kind of a transaction.
#[derive(Clone, Copy, Debug, PartialEq, Eq, Structural)]
pub enum TxType {
    Exchange,
    ToSelf,
    Flow,
}

/// How many of a transaction's action records are in margin accounts.
#[derive(Clone, Copy, Debug, PartialEq, Eq, Structural)]
pub enum TxHasMargin {
    NoARs,
    OneAR,
    TwoARs,
}

/// Whether an action record takes from its account or adds to it.
#[derive(Clone, Copy, Debug, PartialEq, Eq, Structural)]
pub enum Polarity {
    Outgoing,
    Incoming,
}

/// Ledger problems that have a message of their own.
#[derive(Clone, Copy, Debug, PartialEq, Eq, Structural)]
pub enum VariousErrors {
    MarginNoUnderbar,
}

/// A negative amount is outgoing; zero and positive amounts are incoming.
pub open spec fn spec_direction(amount: Dec) -> Polarity {
    if amount.val() < 0 {
        Polarity::Outgoing
    } else {
        Polarity::Incoming
    }
}

/// Action record `k` exists, and so do its account and that account's raw account.
pub open spec fn ar_resolves(
    ars: Map<u32, ActionRecord>,
    accts: Map<u16, Account>,
    raws: Map<u16, RawAccount>,
    k: u32,
) -> bool {
    &&& ars.contains_key(k)
    &&& accts.contains_key(ars[k].account_key)
    &&& raws.contains_key(accts[ars[k].account_key].raw_key)
}

/// The raw account of action record `k`.
pub open spec fn ar_raw(
    ars: Map<u32, ActionRecord>,
    accts: Map<u16, Account>,
    raws: Map<u16, RawAccount>,
    k: u32,
) -> RawAccount {
    raws[accts[ars[k].account_key].raw_key]
}

/// The action records a transaction names can all be looked up.
pub open spec fn txn_resolves(
    t: Transaction,
    ars: Map<u32, ActionRecord>,
    accts: Map<u16, Account>,
    raws: Map<u16, RawAccount>,
) -> bool {
    forall|i: int|
        0 <= i < t.action_record_idx_vec@.len() ==> ar_resolves(
            ars,
            accts,
            raws,
            #[trigger] t.action_record_idx_vec@[i],
        )
}

/// The base currency of a ticker: the part before an underscore (`BTC_xmr` is `BTC`).
pub open spec fn base_ticker(ticker: Seq<char>) -> Seq<char> {
    before_first(ticker, '_')
}

/// The kind of a transaction: one action record is a flow; two with the same base
/// currency are a transfer to oneself, unless exactly one is a margin account (a flow);
/// two with different currencies are an exchange.
pub open spec fn spec_tx_type(
    t: Transaction,
    ars: Map<u32, ActionRecord>,
    accts: Map<u16, Account>,
    raws: Map<u16, RawAccount>,
) -> Result<TxType, CryptoolsError> {
    let v = t.action_record_idx_vec@;
    if v.len() == 1 {
        Ok(TxType::Flow)
    } else if v.len() == 2 {
        let r1 = ar_raw(ars, accts, raws, v[0]);
        let r2 = ar_raw(ars, accts, raws, v[1]);
        if spec_direction(ars[v[0]].amount) == spec_direction(ars[v[1]].amount) {
            Err(CryptoolsError::SamePolarity { tx_number: t.tx_number })
        } else if base_ticker(r1.ticker@) == base_ticker(r2.ticker@) {
            if r1.is_margin != r2.is_margin {
                Ok(TxType::Flow)
            } else {
                Ok(TxType::ToSelf)
            }
        } else {
            Ok(TxType::Exchange)
        }
    } else if v.len() > 2 {
        Err(CryptoolsError::TooManyActionRecords { tx_number: t.tx_number })
    } else {
        Err(CryptoolsError::NoActionRecords { tx_number: t.tx_number })
    }
}

/// What `transaction_type` looks up can be looked up.
pub open spec fn tx_type_resolves(
    t: Transaction,
    ars: Map<u32, ActionRecord>,
    accts: Map<u16, Account>,
    raws: Map<u16, RawAccount>,
) -> bool {
    t.action_record_idx_vec@.len() == 2 ==> {
        &&& ar_resolves(ars, accts, raws, t.action_record_idx_vec@[0])
        &&& ar_resolves(ars, accts, raws, t.action_record_idx_vec@[1])
    }
}

/// How many of the first two action records are margin accounts (only the first, for a
/// single action record).
pub open spec fn spec_marginness(
    t: Transaction,
    ars: Map<u32, ActionRecord>,
    accts: Map<u16, Account>,
    raws: Map<u16, RawAccount>,
) -> TxHasMargin {
    let v = t.action_record_idx_vec@;
    let m1 = ar_raw(ars, accts, raws, v[0]).is_margin;
    if v.len() == 1 {
        if m1 {
            TxHasMargin::OneAR
        } else {
            TxHasMargin::NoARs
        }
    } else {
        let m2 = ar_raw(ars, accts, raws, v[1]).is_margin;
        if m1 && m2 {
            TxHasMargin::TwoARs
        } else if m1 || m2 {
            TxHasMargin::OneAR
        } else {
            TxHasMargin::NoARs
        }
    }
}

/// What `marginness` looks up can be looked up.
pub open spec fn marginness_resolves(
    t: Transaction,
    ars: Map<u32, ActionRecord>,
    accts: Map<u16, Account>,
    raws: Map<u16, RawAccount>,
) -> bool {
    &&& t.action_record_idx_vec@.len() >= 1
    &&& ar_resolves(ars, accts, raws, t.action_record_idx_vec@[0])
    &&& t.action_record_idx_vec@.len() >= 2 ==> ar_resolves(
        ars,
        accts,
        raws,
        t.action_record_idx_vec@[1],
    )
}

/// The (base, quote) raw account keys of a margin exchange: the quote account's ticker
/// holds an underscore (the first account's ticker is looked at first).
pub open spec fn spec_base_and_quote(
    t: Transaction,
    ars: Map<u32, ActionRecord>,
    accts: Map<u16, Account>,
    raws: Map<u16, RawAccount>,
) -> Result<(u16, u16), CryptoolsError> {
    let v = t.action_record_idx_vec@;
    let k1 = accts[ars[v[0]].account_key].raw_key;
    let k2 = accts[ars[v[1]].account_key].raw_key;
    match spec_tx_type(t, ars, accts, raws) {
        Err(e) => Err(e),
        Ok(_) => if raws[k1].ticker@.contains('_') {
            Ok((k2, k1))
        } else if raws[k2].ticker@.contains('_') {
            Ok((k1, k2))
        } else {
            Err(CryptoolsError::MarginNoUnderbar { tx_number: t.tx_number })
        },
    }
}

impl ActionRecord {
    pub fn direction(&self) -> (r: Polarity)
        ensures
            r == spec_direction(self.amount),
    {
        if self.amount.is_negative() {
            Polarity::Outgoing
        } else {
            Polarity::Incoming
        }
    }

    /// Whether the action record's account is the quote account of a margin pair (its
    /// ticker holds an underscore).
    pub fn is_quote_acct_for_margin_exch(
        &self,
        raw_accts: &HashMap<u16, RawAccount>,
        acct_map: &HashMap<u16, Account>,
    ) -> (r: bool)
        requires
            acct_map@.contains_key(self.account_key),
            raw_accts@.contains_key(acct_map@[self.account_key].raw_key),
        ensures
            r == raw_accts@[acct_map@[self.account_key].raw_key].ticker@.contains('_'),
    {
        let acct = acct_map.get(&self.account_key).unwrap();
        let raw_acct = raw_accts.get(&acct.raw_key).unwrap();
        contains_char(raw_acct.ticker.as_str(), '_')
    }
}

/// Looks up the raw account of action record `k`.
pub fn lookup_raw<'a>(
    k: u32,
    ars: &HashMap<u32, ActionRecord>,
    raw_acct_map: &'a HashMap<u16, RawAccount>,
    acct_map: &HashMap<u16, Account>,
) -> (r: &'a RawAccount)
    requires
        ar_resolves(ars@, acct_map@, raw_acct_map@, k),
    ensures
        *r == ar_raw(ars@, acct_map@, raw_acct_map@, k),
{
    let ar = ars.get(&k).unwrap();
    let acct = acct_map.get(&ar.account_key).unwrap();
    raw_acct_map.get(&acct.raw_key).unwrap()
}

impl Transaction {
    /// The kind of the transaction (see `spec_tx_type`); a transaction with no action
    /// record, more than two, or two of the same polarity is refused.
    pub fn transaction_type(
        &self,
        ars: &HashMap<u32, ActionRecord>,
        raw_acct_map: &HashMap<u16, RawAccount>,
        acct_map: &HashMap<u16, Account>,
    ) -> (r: Result<TxType, CryptoolsError>)
        requires
            tx_type_resolves(*self, ars@, acct_map@, raw_acct_map@),
        ensures
            r == spec_tx_type(*self, ars@, acct_map@, raw_acct_map@),
    {
        let len = self.action_record_idx_vec.len();
        if len == 1 {
            Ok(TxType::Flow)
        } else if len == 2 {
            let k1 = self.action_record_idx_vec[0];
            let k2 = self.action_record_idx_vec[1];
            let first_ar = ars.get(&k1).unwrap();
            let second_ar = ars.get(&k2).unwrap();
            let ar1_raw_acct = lookup_raw(k1, ars, raw_acct_map, acct_map);
            let ar2_raw_acct = lookup_raw(k2, ars, raw_acct_map, acct_map);
            let ar1_ticker = before_first_char(ar1_raw_acct.ticker.as_str(), '_');
            let ar2_ticker = before_first_char(ar2_raw_acct.ticker.as_str(), '_');
            if first_ar.direction() == second_ar.direction() {
                return Err(CryptoolsError::SamePolarity { tx_number: self.tx_number });
            }
            if str_eq(ar1_ticker, ar2_ticker) {
                if ar1_raw_acct.is_margin != ar2_raw_acct.is_margin {
                    Ok(TxType::Flow)
                } else {
                    Ok(TxType::ToSelf)
                }
            } else {
                Ok(TxType::Exchange)
            }
        } else if len > 2 {
            Err(CryptoolsError::TooManyActionRecords { tx_number: self.tx_number })
        } else {
            Err(CryptoolsError::NoActionRecords { tx_number: self.tx_number })
        }
    }

    /// How many of the transaction's action records are margin accounts.
    pub fn marginness(
        &self,
        ars: &HashMap<u32, ActionRecord>,
        raw_acct_map: &HashMap<u16, RawAccount>,
        acct_map: &HashMap<u16, Account>,
    ) -> (r: TxHasMargin)
        requires
            marginness_resolves(*self, ars@, acct_map@, raw_acct_map@),
        ensures
            r == spec_marginness(*self, ars@, acct_map@, raw_acct_map@),
    {
        let first = lookup_raw(self.action_record_idx_vec[0], ars, raw_acct_map, acct_map);
        if self.action_record_idx_vec.len() == 1 {
            if first.is_margin {
                TxHasMargin::OneAR
            } else {
                TxHasMargin::NoARs
            }
        } else {
            let second = lookup_raw(self.action_record_idx_vec[1], ars, raw_acct_map, acct_map);
            if first.is_margin {
                if second.is_margin {
                    TxHasMargin::TwoARs
                } else {
                    TxHasMargin::OneAR
                }
            } else if second.is_margin {
                TxHasMargin::OneAR
            } else {
                TxHasMargin::NoARs
            }
        }
    }

    /// The (base, quote) raw account keys of a margin exchange.  Only an exchange between
    /// two margin accounts may be asked.
    pub fn get_base_and_quote_raw_acct_keys(
        &self,
        ars: &HashMap<u32, ActionRecord>,
        raw_accts: &HashMap<u16, RawAccount>,
        acct_map: &HashMap<u16, Account>,
    ) -> (r: Result<(u16, u16), CryptoolsError>)
        requires
            tx_type_resolves(*self, ars@, acct_map@, raw_accts@),
            spec_tx_type(*self, ars@, acct_map@, raw_accts@) is Ok ==> {
                &&& spec_tx_type(*self, ars@, acct_map@, raw_accts@) == Ok::<
                    TxType,
                    CryptoolsError,
                >(TxType::Exchange)
                &&& ar_raw(ars@, acct_map@, raw_accts@, self.action_record_idx_vec@[0]).is_margin
                &&& ar_raw(ars@, acct_map@, raw_accts@, self.action_record_idx_vec@[1]).is_margin
            },
        ensures
            r == spec_base_and_quote(*self, ars@, acct_map@, raw_accts@),
    {
        let tx_type = self.transaction_type(ars, raw_accts, acct_map);
        match tx_type {
            Err(e) => {
                return Err(e);
            },
            Ok(_) => {},
        }
        let first_ar = ars.get(&self.action_record_idx_vec[0]).unwrap();
        let second_ar = ars.get(&self.action_record_idx_vec[1]).unwrap();
        let first_acct = acct_map.get(&first_ar.account_key).unwrap();
        let second_acct = acct_map.get(&second_ar.account_key).unwrap();
        let first_acct_raw_key = first_acct.raw_key;
        let second_acct_raw_key = second_acct.raw_key;
        let first_raw_acct = raw_accts.get(&first_acct_raw_key).unwrap();
        let second_raw_acct = raw_accts.get(&second_acct_raw_key).unwrap();
        if contains_char(first_raw_acct.ticker.as_str(), '_') {
            Ok((second_acct_raw_key, first_acct_raw_key))
        } else if contains_char(second_raw_acct.ticker.as_str(), '_') {
            Ok((first_acct_raw_key, second_acct_raw_key))
        } else {
            Err(CryptoolsError::MarginNoUnderbar { tx_number: self.tx_number })
        }
    }

    /// Whether neither action record of a two-record transaction is in the home currency.
    pub fn both_exch_ars_are_non_home_curr(
        &self,
        ars: &HashMap<u32, ActionRecord>,
        raw_acct_map: &HashMap<u16, RawAccount>,
        acct_map: &HashMap<u16, Account>,
        home_currency: &str,
    ) -> (r: Result<bool, CryptoolsError>)
        requires
            self.action_record_idx_vec@.len() == 2,
            txn_resolves(*self, ars@, acct_map@, raw_acct_map@),
        ensures
            r == Ok::<bool, CryptoolsError>(
                ar_raw(ars@, acct_map@, raw_acct_map@, self.action_record_idx_vec@[0]).ticker@
                    != home_currency@ && ar_raw(
                    ars@,
                    acct_map@,
                    raw_acct_map@,
                    self.action_record_idx_vec@[1],
                ).ticker@ != home_currency@,
            ),
    {
        let raw_og_acct = lookup_raw(self.action_record_idx_vec[0], ars, raw_acct_map, acct_map);
        let raw_ic_acct = lookup_raw(self.action_record_idx_vec[1], ars, raw_acct_map, acct_map);
        let og_is_home_curr = raw_og_acct.is_home_currency(home_currency);
        let ic_is_home_curr = raw_ic_acct.is_home_currency(home_currency);
        Ok(!ic_is_home_curr && !og_is_home_curr)
    }
}

impl TxType {
    pub fn to_string(&self) -> (r: String)
        ensures
            r@ == (match *self {
                TxType::Exchange => "Exchange"@,
                TxType::ToSelf => "ToSelf"@,
                TxType::Flow => "Flow"@,
            }),
    {
        match *self {
            TxType::Exchange => string_from("Exchange"),
            TxType::ToSelf => string_from("ToSelf"),
            TxType::Flow => string_from("Flow"),
        }
    }
}

impl TxHasMargin {
    pub fn to_string(&self) -> (r: String)
        ensures
            r@ == (match *self {
                TxHasMargin::NoARs => "No actionrecord is a margin account"@,
                TxHasMargin::OneAR => "One actionrecord is a margin account"@,
                TxHasMargin::TwoARs => "Two actionrecords are margin accounts"@,
            }),
    {
        match *self {
            TxHasMargin::NoARs => string_from("No actionrecord is a margin account"),
            TxHasMargin::OneAR => string_from("One actionrecord is a margin account"),
            TxHasMargin::TwoARs => string_from("Two actionrecords are margin accounts"),
        }
    }
}

impl Polarity {
    pub fn to_string(&self) -> (r: String)
        ensures
            r@ == (match *self {
                Polarity::Outgoing => "Outgoing"@,
                Polarity::Incoming => "Incoming"@,
            }),
    {
        match *self {
            Polarity::Outgoing => string_from("Outgoing"),
            Polarity::Incoming => string_from("Incoming"),
        }
    }
}

impl VariousErrors {
    pub fn to_string(&self) -> (r: String)
        ensures
            r@ == (match *self {
                VariousErrors::MarginNoUnderbar => margin_no_underbar_message(),
            }),
    {
        match *self {
            VariousErrors::MarginNoUnderbar => string_from(
                "Neither account ticker contained an underbar '_', so the quote account couldn't be determined.
\t\t\tFor example, for the 'USD/EUR' pair, USD is the base account and EUR is the quote account.
\t\t\tIn order for this software to function correctly, the quote ticker should be denoted as 'EUR_usd'.",
            ),
        }
    }
}

pub open spec fn margin_no_underbar_message() -> Seq<char> {
    "Neither account ticker contained an underbar '_', so the quote account couldn't be determined.
\t\t\tFor example, for the 'USD/EUR' pair, USD is the base account and EUR is the quote account.
\t\t\tIn order for this software to function correctly, the quote ticker should be denoted as 'EUR_usd'."@
}


/// The movements of action record `k` that `get_mvmts_in_ar_in_lot_date_order` looks
/// through: those in its account dated no later than its transaction.
pub open spec fn ar_candidates(
    ar: ActionRecord,
    accts: Map<u16, Account>,
    txns: Map<u32, Transaction>,
) -> Seq<Movement> {
    lots_matches(
        accts[ar.account_key].list_of_lots@,
        ar.self_ar_key,
        txns[ar.tx_key].date.day_num(),
    )
}



/// Where the scan of an action record's candidate movements stops (see
/// `scan_stops_at`, which holds of at most one length).
pub open spec fn scan_stop(cands: Seq<Movement>, target: Dec) -> int {
    choose|j: int| scan_stops_at(cands, target, j)
}

/// The movements of action record `ar` as `get_mvmts_in_ar_in_lot_date_order` finds them.
pub open spec fn ar_mvmts(
    ar: ActionRecord,
    accts: Map<u16, Account>,
    txns: Map<u32, Transaction>,
) -> Seq<Movement> {
    ar_candidates(ar, accts, txns).take(scan_stop(ar_candidates(ar, accts, txns), ar.amount))
}

/// A scan stops at one place only.
pub proof fn lemma_scan_stop_unique(cands: Seq<Movement>, target: Dec, j: int)
    requires
        scan_stops_at(cands, target, j),
    ensures
        scan_stop(cands, target) == j,
{
    let j2 = scan_stop(cands, target);
    assert(scan_stops_at(cands, target, j2));
    if j2 < j {
        assert(j2 != cands.len());
        assert(mvmt_sum(cands.take(j2), MvmtField::Amount) matches Some(x) && x.val() != target.val());
    } else if j < j2 {
        assert(j != cands.len());
        assert(mvmt_sum(cands.take(j), MvmtField::Amount) matches Some(x) && x.val() != target.val());
    }
}

/// Position `p` of the lots holds movement `m`.
pub open spec fn position_ok(p: (usize, usize), lots: Seq<Lot>, m: Movement) -> bool {
    &&& p.0 < lots.len()
    &&& p.1 < lots[p.0 as int].movements@.len()
    &&& lots[p.0 as int].movements@[p.1 as int] == m
}

/// The positions hold the first movements of `ms`, one each, in order.
pub open spec fn positions_hold(ps: Seq<(usize, usize)>, lots: Seq<Lot>, ms: Seq<Movement>) -> bool {
    &&& ps.len() <= ms.len()
    &&& forall|i: int| 0 <= i < ps.len() ==> position_ok(#[trigger] ps[i], lots, ms[i])
}

proof fn lemma_positions_prefix(ps: Seq<(usize, usize)>, lots: Seq<Lot>, v: Seq<Movement>, cands: Seq<Movement>)
    requires
        positions_hold(ps, lots, v),
        ps.len() == v.len(),
        v.len() <= cands.len(),
        cands.take(v.len() as int) == v,
    ensures
        positions_hold(ps, lots, cands),
{
    assert forall|i: int| 0 <= i < ps.len() implies position_ok(#[trigger] ps[i], lots, cands[i]) by {
        assert(cands.take(v.len() as int)[i] == cands[i]);
    }
}

/// The prefix of a sequence of movements that ends with `v` is `v`.
proof fn lemma_take_prefix(v: Seq<Movement>, rest: Seq<Movement>, i: int)
    requires
        0 <= i <= v.len(),
    ensures
        (v + rest).take(i) == v.take(i),
{
    assert((v + rest).take(i) =~= v.take(i));
}

impl ActionRecord {
    /// Where the movements that `get_mvmts_in_ar_in_lot_date_order` gives back sit: (lot
    /// index, movement index) in the action record's account.
    pub fn get_mvmt_positions_in_lot_date_order(
        &self,
        acct_map: &HashMap<u16, Account>,
        txns_map: &HashMap<u32, Transaction>,
    ) -> (r: Option<Vec<(usize, usize)>>)
        requires
            txns_map@.contains_key(self.tx_key),
            acct_map@.contains_key(self.account_key),
            lots_wf(acct_map@[self.account_key].list_of_lots@, self.account_key),
        ensures
            r matches Some(ps) ==> exists|j: int|
                scan_stops_at(ar_candidates(*self, acct_map@, txns_map@), self.amount, j) && ps@.len()
                    == j,
            r matches Some(ps) ==> positions_hold(
                ps@,
                acct_map@[self.account_key].list_of_lots@,
                ar_candidates(*self, acct_map@, txns_map@),
            ),
            r is None ==> exists|j: int|
                scan_overflows_at(ar_candidates(*self, acct_map@, txns_map@), self.amount, j),
            r matches Some(ps) ==> forall|i: int|
                0 <= i < ps@.len() ==> (#[trigger] acct_map@[self.account_key].list_of_lots@[ps@[i].0 as int].movements@[ps@[i].1 as int]).action_record_key
                    == self.self_ar_key,
            r matches Some(ps) ==> ps@.len() <= lots_match_pos(
                acct_map@[self.account_key].list_of_lots@,
                0,
                self.self_ar_key,
                txns_map@[self.tx_key].date.day_num(),
            ).len() && pos_int(ps@) == lots_match_pos(
                acct_map@[self.account_key].list_of_lots@,
                0,
                self.self_ar_key,
                txns_map@[self.tx_key].date.day_num(),
            ).take(ps@.len() as int),
    {
        let txn = txns_map.get(&self.tx_key).unwrap();
        let acct = acct_map.get(&self.account_key).unwrap();
        let lots = &acct.list_of_lots;
        let ghost d = txn.date.day_num();
        let ghost k = self.self_ar_key;
        let ghost cands = lots_matches(lots@, k, d);
        let target = self.amount;
        let mut measure = Dec::zero();
        let ghost mut movements_in_ar: Seq<Movement> = Seq::empty();
        let mut positions: Vec<(usize, usize)> = Vec::new();
        let ghost all_pos = lots_match_pos(lots@, 0, k, d);
        let mut li: usize = 0;
        proof {
            assert(pos_int(positions@) =~= Seq::<(int, int)>::empty());
            assert(all_pos =~= pos_int(positions@) + lots_match_pos(lots@, 0, k, d));
            assert(lots@.skip(0) =~= lots@);
            assert(movements_in_ar + cands =~= cands);
            assert(positions_hold(positions@, lots@, movements_in_ar));
        }
        while li < lots.len()
            invariant
                li <= lots@.len(),
                acct_map@.contains_key(self.account_key),
                txns_map@.contains_key(self.tx_key),
                lots@ == acct_map@[self.account_key].list_of_lots@,
                lots_wf(lots@, self.account_key),
                d == txns_map@[self.tx_key].date.day_num(),
                d == txn.date.day_num(),
                k == self.self_ar_key,
                target == self.amount,
                cands == ar_candidates(*self, acct_map@, txns_map@),
                cands == movements_in_ar + lots_matches(lots@.skip(li as int), k, d),
                all_pos == lots_match_pos(lots@, 0, k, d),
                all_pos == pos_int(positions@) + lots_match_pos(lots@, li as int, k, d),
                mvmt_sum(movements_in_ar, MvmtField::Amount) == Some(measure),
                measure.valid(),
                forall|i: int|
                    1 <= i <= movements_in_ar.len() ==> (mvmt_sum(
                        #[trigger] movements_in_ar.take(i),
                        MvmtField::Amount,
                    ) matches Some(x) && x.val() != target.val()),
                positions_hold(positions@, lots@, movements_in_ar),
                positions@.len() == movements_in_ar.len(),
                forall|i: int|
                    0 <= i < movements_in_ar.len() ==> (#[trigger] movements_in_ar[i]).action_record_key
                        == k,
            decreases lots@.len() - li,
        {
            let lot = &lots[li];
            proof {
                assert(lots_match_pos(lots@, li as int, k, d) == lot_match_pos(
                    lots@[li as int].movements@,
                    li as int,
                    0,
                    k,
                    d,
                ) + lots_match_pos(lots@, li + 1, k, d));
                assert(all_pos =~= pos_int(positions@) + lot_match_pos(
                    lot.movements@,
                    li as int,
                    0,
                    k,
                    d,
                ) + lots_match_pos(lots@, li + 1, k, d));
                lemma_lots_matches_step(lots@, li as int, k, d);
                assert(lot.movements@.skip(0) =~= lot.movements@);
                assert(crate::ledger::lot_wf(lots@[li as int], self.account_key, li as int));
            }
            let mut mi: usize = 0;
            while mi < lot.movements.len()
                invariant
                    li < lots@.len(),
                    mi <= lot.movements@.len(),
                    acct_map@.contains_key(self.account_key),
                    txns_map@.contains_key(self.tx_key),
                    cands == ar_candidates(*self, acct_map@, txns_map@),
                    lots@ == acct_map@[self.account_key].list_of_lots@,
                    *lot == lots@[li as int],
                    crate::ledger::lot_wf(*lot, self.account_key, li as int),
                    d == txn.date.day_num(),
                    k == self.self_ar_key,
                    target == self.amount,
                    cands == movements_in_ar + lot_matches(lot.movements@.skip(mi as int), k, d)
                        + lots_matches(lots@.skip(li + 1), k, d),
                    all_pos == lots_match_pos(lots@, 0, k, d),
                    d == txns_map@[self.tx_key].date.day_num(),
                    all_pos == pos_int(positions@) + lot_match_pos(
                        lot.movements@,
                        li as int,
                        mi as int,
                        k,
                        d,
                    ) + lots_match_pos(lots@, li + 1, k, d),
                    mvmt_sum(movements_in_ar, MvmtField::Amount) == Some(measure),
                    measure.valid(),
                    forall|i: int|
                        1 <= i <= movements_in_ar.len() ==> (mvmt_sum(
                            #[trigger] movements_in_ar.take(i),
                            MvmtField::Amount,
                        ) matches Some(x) && x.val() != target.val()),
                    positions_hold(positions@, lots@, movements_in_ar),
                    positions@.len() == movements_in_ar.len(),
                    forall|i: int|
                        0 <= i < movements_in_ar.len() ==> (
                        #[trigger] movements_in_ar[i]).action_record_key == k,
                decreases lot.movements@.len() - mi,
            {
                let mvmt = &lot.movements[mi];
                proof {
                    lemma_lot_matches_step(lot.movements@, mi as int, k, d);
                    assert(crate::ledger::mvmt_ok(lot.movements@[mi as int], li as int));
                    assert(lot_match_pos(lot.movements@, li as int, mi as int, k, d) == (if mvmt_matches(
                        lot.movements@[mi as int],
                        k,
                        d,
                    ) {
                        seq![(li as int, mi as int)]
                    } else {
                        Seq::empty()
                    }) + lot_match_pos(lot.movements@, li as int, mi + 1, k, d));
                }
                let ghost pos_before = positions@;
                if mvmt.date.le(&txn.date) && mvmt.action_record_key == self.self_ar_key {
                    let ghost before = movements_in_ar;
                    let ghost before_ps = positions@;
                    let ghost rest = lot_matches(lot.movements@.skip(mi + 1), k, d) + lots_matches(
                        lots@.skip(li + 1),
                        k,
                        d,
                    );
                    proof {
                        assert(cands =~= before.push(*mvmt) + rest);
                        lemma_mvmt_sum_push(before, *mvmt, MvmtField::Amount);
                    }
                    match measure.checked_add(&mvmt.amount) {
                        Some(x) => {
                            measure = x;
                        },
                        None => {
                            proof {
                                let j = before.len() + 1int;
                                lemma_take_prefix(before.push(*mvmt), rest, j);
                                assert(before.push(*mvmt).take(j) =~= before.push(*mvmt));
                                assert forall|i: int| 1 <= i < j implies (mvmt_sum(
                                    #[trigger] cands.take(i),
                                    MvmtField::Amount,
                                ) matches Some(x) && x.val() != target.val()) by {
                                    lemma_take_prefix(before.push(*mvmt), rest, i);
                                    assert(before.push(*mvmt).take(i) =~= before.take(i));
                                }
                                assert(scan_overflows_at(cands, target, j));
                            }
                            return None;
                        },
                    }
                    positions.push((li, mi));
                    proof {
                        assert(pos_int(positions@) =~= pos_int(pos_before) + seq![(li as int, mi as int)]);
                        assert(all_pos =~= pos_int(positions@) + lot_match_pos(
                            lot.movements@,
                            li as int,
                            mi + 1,
                            k,
                            d,
                        ) + lots_match_pos(lots@, li + 1, k, d));
                        movements_in_ar = before.push(*mvmt);
                        assert(positions_hold(positions@, lots@, movements_in_ar)) by {
                            assert(positions@ == before_ps.push((li, mi)));
                            assert forall|i: int| 0 <= i < positions@.len() implies position_ok(
                                #[trigger] positions@[i],
                                lots@,
                                movements_in_ar[i],
                            ) by {
                                if i < before_ps.len() {
                                    assert(positions@[i] == before_ps[i]);
                                    assert(movements_in_ar[i] == before[i]);
                                } else {
                                    assert(positions@[i] == (li, mi));
                                    assert(movements_in_ar[i] == *mvmt);
                                    assert(lots@[li as int].movements@[mi as int] == *mvmt);
                                }
                            }
                        }
                        assert forall|i: int| 1 <= i <= movements_in_ar.len() - 1 implies (
                        #[trigger] movements_in_ar.take(i)) == before.take(i) by {
                            assert(movements_in_ar.take(i) =~= before.take(i));
                        }
                        assert(movements_in_ar.take(movements_in_ar.len() as int)
                            =~= movements_in_ar);
                    }
                    if measure.eq_value(&target) {
                        proof {
                            let v = movements_in_ar;
                            let j = v.len() as int;
                            lemma_take_prefix(v, rest, j);
                            assert(v.take(j) =~= v);
                            lemma_positions_prefix(positions@, lots@, v, cands);
                            assert forall|i: int| 1 <= i < j implies (mvmt_sum(
                                #[trigger] cands.take(i),
                                MvmtField::Amount,
                            ) matches Some(x) && x.val() != target.val()) by {
                                lemma_take_prefix(v, rest, i);
                                assert(v.take(i) == before.take(i));
                            }
                            assert(scan_stops_at(cands, target, j) && positions@.len() == j);
                            assert(all_pos.take(positions@.len() as int) =~= pos_int(positions@));
                        }
                        return Some(positions);
                    }
                    proof {
                        assert(cands =~= movements_in_ar + lot_matches(
                            lot.movements@.skip(mi + 1),
                            k,
                            d,
                        ) + lots_matches(lots@.skip(li + 1), k, d));
                    }
                } else {
                    proof {
                        assert(cands =~= movements_in_ar + lot_matches(
                            lot.movements@.skip(mi + 1),
                            k,
                            d,
                        ) + lots_matches(lots@.skip(li + 1), k, d));
                        assert(all_pos =~= pos_int(positions@) + lot_match_pos(
                            lot.movements@,
                            li as int,
                            mi + 1,
                            k,
                            d,
                        ) + lots_match_pos(lots@, li + 1, k, d));
                    }
                }
                mi = mi + 1;
            }
            proof {
                lemma_lot_matches_end(lot.movements@, k, d);
                assert(cands =~= movements_in_ar + lots_matches(lots@.skip(li + 1), k, d));
                assert(lot_match_pos(lot.movements@, li as int, lot.movements@.len() as int, k, d)
                    =~= Seq::<(int, int)>::empty());
                assert(all_pos =~= pos_int(positions@) + lots_match_pos(lots@, li + 1, k, d));
            }
            li = li + 1;
        }
        proof {
            lemma_lots_matches_end(lots@, k, d);
            let v = movements_in_ar;
            let j = v.len() as int;
            assert(cands =~= v);
            assert(positions_hold(positions@, lots@, cands));
            assert(v.take(j) =~= v);
            assert forall|i: int| 1 <= i < j implies (mvmt_sum(
                #[trigger] cands.take(i),
                MvmtField::Amount,
            ) matches Some(x) && x.val() != target.val()) by {}
            assert(scan_stops_at(cands, target, j) && positions@.len() == j);
            assert(lots_match_pos(lots@, lots@.len() as int, k, d) =~= Seq::<(int, int)>::empty());
            assert(all_pos.take(positions@.len() as int) =~= pos_int(positions@));
        }
        Some(positions)
    }

    /// The movements of the action record, found by going through the lots of its
    /// account in order and, in each, the movements in order, taking those keyed to the
    /// action record and dated no later than its transaction, until their amounts add up
    /// to the action record's amount (or the lots end).  `None` when the running total
    /// no longer fits in a decimal before that.
    pub fn get_mvmts_in_ar_in_lot_date_order(
        &self,
        acct_map: &HashMap<u16, Account>,
        txns_map: &HashMap<u32, Transaction>,
    ) -> (r: Option<Vec<Movement>>)
        requires
            txns_map@.contains_key(self.tx_key),
            acct_map@.contains_key(self.account_key),
            lots_wf(acct_map@[self.account_key].list_of_lots@, self.account_key),
        ensures
            r matches Some(v) ==> exists|j: int|
                scan_stops_at(ar_candidates(*self, acct_map@, txns_map@), self.amount, j) && v@
                    == ar_candidates(*self, acct_map@, txns_map@).take(j),
            r matches Some(v) ==> v@ == ar_mvmts(*self, acct_map@, txns_map@),
            r is None ==> exists|j: int|
                scan_overflows_at(ar_candidates(*self, acct_map@, txns_map@), self.amount, j),
            r matches Some(v) ==> forall|i: int|
                0 <= i < v@.len() ==> (#[trigger] v@[i]).action_record_key == self.self_ar_key
                    && 1 <= v@[i].lot_num <= acct_map@[self.account_key].list_of_lots@.len(),
    {
        let ghost cands = ar_candidates(*self, acct_map@, txns_map@);
        let ghost lots = acct_map@[self.account_key].list_of_lots@;
        let positions = match self.get_mvmt_positions_in_lot_date_order(acct_map, txns_map) {
            Some(ps) => ps,
            None => {
                return None;
            },
        };
        let ghost j = positions@.len() as int;
        let acct = acct_map.get(&self.account_key).unwrap();
        let mut movements_in_ar: Vec<Movement> = Vec::new();
        let mut i: usize = 0;
        while i < positions.len()
            invariant
                i <= positions@.len(),
                positions_hold(positions@, acct.list_of_lots@, cands),
                lots == acct.list_of_lots@,
                lots_wf(lots, self.account_key),
                movements_in_ar@ == cands.take(i as int),
                j == positions@.len(),
                j <= cands.len(),
                forall|ii: int| 0 <= ii < positions@.len() ==> (#[trigger] acct.list_of_lots@[positions@[ii].0 as int].movements@[positions@[ii].1 as int]).action_record_key
                    == self.self_ar_key,
            decreases positions@.len() - i,
        {
            let (li, mi) = positions[i];
            proof {
                assert(position_ok(positions@[i as int], acct.list_of_lots@, cands[i as int]));
                assert(movements_in_ar@.push(cands[i as int]) =~= cands.take(i + 1));
            }
            movements_in_ar.push(acct.list_of_lots[li].movements[mi].clone());
            i = i + 1;
        }
        proof {
            assert forall|ii: int| 0 <= ii < movements_in_ar@.len() implies (
            #[trigger] movements_in_ar@[ii]).action_record_key == self.self_ar_key && 1
                <= movements_in_ar@[ii].lot_num <= lots.len() by {
                let p = positions@[ii];
                assert(position_ok(p, lots, cands[ii]));
                assert(crate::ledger::lot_wf(lots[p.0 as int], self.account_key, p.0 as int));
                assert(crate::ledger::mvmt_ok(lots[p.0 as int].movements@[p.1 as int], p.0 as int));
            }
            let jj = choose|jj: int| scan_stops_at(cands, self.amount, jj) && positions@.len() == jj;
            lemma_scan_stop_unique(cands, self.amount, jj);
            assert(movements_in_ar@ == cands.take(jj));
        }
        Some(movements_in_ar)
    }
}


impl ActionRecord {
    /// Every movement of the action record's account keyed to it and dated no later than
    /// its transaction, in lot order.
    fn all_candidates(
        &self,
        acct_map: &HashMap<u16, Account>,
        txns_map: &HashMap<u32, Transaction>,
    ) -> (r: Vec<Movement>)
        requires
            txns_map@.contains_key(self.tx_key),
            acct_map@.contains_key(self.account_key),
        ensures
            r@ == ar_candidates(*self, acct_map@, txns_map@),
    {
        let txn = txns_map.get(&self.tx_key).unwrap();
        let acct = acct_map.get(&self.account_key).unwrap();
        let lots = &acct.list_of_lots;
        let ghost d = txn.date.day_num();
        let ghost k = self.self_ar_key;
        let ghost cands = lots_matches(lots@, k, d);
        let mut found: Vec<Movement> = Vec::new();
        let mut li: usize = 0;
        proof {
            assert(lots@.skip(0) =~= lots@);
            assert(found@ + cands =~= cands);
        }
        while li < lots.len()
            invariant
                li <= lots@.len(),
                d == txn.date.day_num(),
                k == self.self_ar_key,
                cands == found@ + lots_matches(lots@.skip(li as int), k, d),
            decreases lots@.len() - li,
        {
            let lot = &lots[li];
            proof {
                lemma_lots_matches_step(lots@, li as int, k, d);
                assert(lot.movements@.skip(0) =~= lot.movements@);
                assert(cands =~= found@ + lot_matches(lot.movements@.skip(0), k, d) + lots_matches(
                    lots@.skip(li + 1),
                    k,
                    d,
                ));
            }
            let mut mi: usize = 0;
            while mi < lot.movements.len()
                invariant
                    li < lots@.len(),
                    mi <= lot.movements@.len(),
                    *lot == lots@[li as int],
                    d == txn.date.day_num(),
                    k == self.self_ar_key,
                    cands == found@ + lot_matches(lot.movements@.skip(mi as int), k, d)
                        + lots_matches(lots@.skip(li + 1), k, d),
                decreases lot.movements@.len() - mi,
            {
                let mvmt = &lot.movements[mi];
                proof {
                    lemma_lot_matches_step(lot.movements@, mi as int, k, d);
                }
                if mvmt.date.le(&txn.date) && mvmt.action_record_key == self.self_ar_key {
                    let ghost before = found@;
                    found.push(mvmt.clone());
                    proof {
                        assert(cands =~= found@ + lot_matches(lot.movements@.skip(mi + 1), k, d)
                            + lots_matches(lots@.skip(li + 1), k, d));
                    }
                } else {
                    proof {
                        assert(cands =~= found@ + lot_matches(lot.movements@.skip(mi + 1), k, d)
                            + lots_matches(lots@.skip(li + 1), k, d));
                    }
                }
                mi = mi + 1;
            }
            proof {
                lemma_lot_matches_end(lot.movements@, k, d);
                assert(cands =~= found@ + lots_matches(lots@.skip(li + 1), k, d));
            }
            li = li + 1;
        }
        proof {
            lemma_lots_matches_end(lots@, k, d);
            assert(cands =~= found@);
        }
        found
    }

    /// Every movement of the action record's account keyed to it and dated no later than
    /// its transaction, last found first.
    pub fn get_mvmts_in_ar(
        &self,
        acct_map: &HashMap<u16, Account>,
        txns_map: &HashMap<u32, Transaction>,
    ) -> (r: Vec<Movement>)
        requires
            txns_map@.contains_key(self.tx_key),
            acct_map@.contains_key(self.account_key),
        ensures
            r@ == ar_candidates(*self, acct_map@, txns_map@).reverse(),
    {
        let found = self.all_candidates(acct_map, txns_map);
        let mut movements_in_ar: Vec<Movement> = Vec::new();
        let mut i: usize = 0;
        while i < found.len()
            invariant
                i <= found@.len(),
                movements_in_ar@ == found@.take(i as int).reverse(),
            decreases found@.len() - i,
        {
            let ghost before = movements_in_ar@;
            movements_in_ar.insert(0, found[i].clone());
            proof {
                assert(movements_in_ar@ =~= found@.take(i + 1).reverse());
            }
            i = i + 1;
        }
        proof {
            assert(found@.take(found@.len() as int) =~= found@);
        }
        movements_in_ar
    }

    /// The cost basis of the action record's movements (those of `get_mvmts_in_ar`),
    /// added up in lot order, without its sign; `None` when the total does not fit.
    pub fn cost_basis_in_ar(
        &self,
        acct_map: &HashMap<u16, Account>,
        txns_map: &HashMap<u32, Transaction>,
    ) -> (r: Option<Dec>)
        requires
            txns_map@.contains_key(self.tx_key),
            acct_map@.contains_key(self.account_key),
        ensures
            r == match mvmt_sum(ar_candidates(*self, acct_map@, txns_map@), MvmtField::CostBasis) {
                Some(cb) => Some(crate::dec::absolute(cb)),
                None => None,
            },
    {
        let found = self.all_candidates(acct_map, txns_map);
        match crate::account::sum_field(&found, MvmtField::CostBasis) {
            Some(cb) => Some(cb.abs()),
            None => None,
        }
    }
}


/// Whether the movements of action record `k` count as outgoing exchange or flow
/// movements of its transaction: its account is neither in the home currency nor a
/// margin account, and the transaction is a flow, or an exchange from which it goes out.
pub open spec fn counts_as_outgoing_exchange_or_flow(
    k: u32,
    home: Seq<char>,
    ty: Result<TxType, CryptoolsError>,
    ars: Map<u32, ActionRecord>,
    accts: Map<u16, Account>,
    raws: Map<u16, RawAccount>,
) -> bool {
    &&& ar_raw(ars, accts, raws, k).ticker@ != home
    &&& !ar_raw(ars, accts, raws, k).is_margin
    &&& match ty {
        Ok(TxType::Exchange) => spec_direction(ars[k].amount) == Polarity::Outgoing,
        Ok(TxType::Flow) => true,
        _ => false,
    }
}

/// The movements of the first `n` action records of `t` that count (see
/// `counts_as_outgoing_exchange_or_flow`), action record by action record.
pub open spec fn outgoing_exchange_and_flow_mvmts(
    t: Transaction,
    n: int,
    home: Seq<char>,
    ars: Map<u32, ActionRecord>,
    accts: Map<u16, Account>,
    raws: Map<u16, RawAccount>,
    txns: Map<u32, Transaction>,
) -> Seq<Movement>
    decreases n,
{
    if n <= 0 {
        Seq::empty()
    } else {
        let k = t.action_record_idx_vec@[n - 1];
        outgoing_exchange_and_flow_mvmts(t, n - 1, home, ars, accts, raws, txns) + if counts_as_outgoing_exchange_or_flow(
            k,
            home,
            spec_tx_type(t, ars, accts, raws),
            ars,
            accts,
            raws,
        ) {
            ar_mvmts(ars[k], accts, txns)
        } else {
            Seq::empty()
        }
    }
}

/// How an amount is written in an automatic memo: as the decimal writes itself, or with
/// two decimal places (home currency amounts).
#[derive(Clone, Copy, Debug)]
pub enum MemoAmount {
    AsIs(Dec),
    TwoPlaces(Dec),
}

/// What an automatic memo says, to be written out with the home currency.
#[derive(Debug)]
pub enum AutoMemo {
    /// "Paid {og} {og_ticker} for {ic} {ic_ticker}, valued at {proceeds} {home}."
    Paid { og: MemoAmount, og_ticker: String, ic: MemoAmount, ic_ticker: String, proceeds: Dec },
    /// "Transferred {og} {og_ticker} to another account. Received {ic} {ic_ticker}, likely
    /// after a transaction fee."
    Transferred { og: MemoAmount, og_ticker: String, ic: MemoAmount, ic_ticker: String },
    /// "Margin profit or loss valued at {proceeds} {home}."
    MarginProfitOrLoss { proceeds: Dec },
    /// "Received {amount} {ticker} valued at {proceeds} {home}."
    Received { amount: Dec, ticker: String, proceeds: Dec },
    /// "Spent {amount} {ticker} valued at {proceeds} {home}."
    Spent { amount: Dec, ticker: String, proceeds: Dec },
}

/// The amount of action record `k` as a memo writes it.
pub open spec fn memo_amount(
    k: u32,
    home: Seq<char>,
    ars: Map<u32, ActionRecord>,
    accts: Map<u16, Account>,
    raws: Map<u16, RawAccount>,
) -> MemoAmount {
    if ar_raw(ars, accts, raws, k).ticker@ == home {
        MemoAmount::TwoPlaces(ars[k].amount)
    } else {
        MemoAmount::AsIs(ars[k].amount)
    }
}

/// What `Transaction::get_auto_memo` gives back for transaction `t` (the home currency
/// being `home`).
pub open spec fn auto_memo_result(
    t: Transaction,
    ars: Map<u32, ActionRecord>,
    accts: Map<u16, Account>,
    raws: Map<u16, RawAccount>,
    home: Seq<char>,
    r: Result<AutoMemo, CryptoolsError>,
) -> bool {
    let v = t.action_record_idx_vec@;
    if v.len() == 2 {
        match spec_tx_type(t, ars, accts, raws) {
            Err(e) => r == Err::<AutoMemo, CryptoolsError>(e),
            Ok(ty) => {
                let m = spec_marginness(t, ars, accts, raws);
                if m == TxHasMargin::OneAR {
                    r matches Ok(AutoMemo::MarginProfitOrLoss { proceeds }) && proceeds
                        == t.proceeds
                } else if ty == TxType::Exchange {
                    r matches Ok(AutoMemo::Paid { og, og_ticker, ic, ic_ticker, proceeds })
                        && og == memo_amount(v[0], home, ars, accts, raws)
                        && og_ticker@ == ar_raw(ars, accts, raws, v[0]).ticker@
                        && ic == memo_amount(v[1], home, ars, accts, raws)
                        && ic_ticker@ == ar_raw(ars, accts, raws, v[1]).ticker@
                        && proceeds == t.proceeds
                } else {
                    r matches Ok(AutoMemo::Transferred { og, og_ticker, ic, ic_ticker })
                        && og == memo_amount(v[0], home, ars, accts, raws)
                        && og_ticker@ == ar_raw(ars, accts, raws, v[0]).ticker@
                        && ic == memo_amount(v[1], home, ars, accts, raws)
                        && ic_ticker@ == ar_raw(ars, accts, raws, v[1]).ticker@
                }
            },
        }
    } else {
        let amount = ars[v[0]].amount;
        let ticker = ar_raw(ars, accts, raws, v[0]).ticker@;
        if amount.val() > 0 {
            r matches Ok(AutoMemo::Received { amount: a, ticker: tk, proceeds }) && a
                == amount && tk@ == ticker && proceeds == t.proceeds
        } else {
            r matches Ok(AutoMemo::Spent { amount: a, ticker: tk, proceeds }) && a
                == amount && tk@ == ticker && proceeds == t.proceeds
        }
    }
}

/// Gathering the movements of action record `t.action_record_idx_vec[i]`, outside the home
/// currency `home` and outside margin, fails: its scan does not stop (a running total
/// does not fit), or the kind of the transaction cannot be told.
pub open spec fn counted_ar_fails(
    t: Transaction,
    i: int,
    home: Seq<char>,
    ars: Map<u32, ActionRecord>,
    accts: Map<u16, Account>,
    raws: Map<u16, RawAccount>,
    txns: Map<u32, Transaction>,
) -> bool {
    let k = t.action_record_idx_vec@[i];
    &&& ar_raw(ars, accts, raws, k).ticker@ != home
    &&& !ar_raw(ars, accts, raws, k).is_margin
    &&& (!(exists|j: int| scan_stops_at(ar_candidates(ars[k], accts, txns), ars[k].amount, j))
        || spec_tx_type(t, ars, accts, raws) is Err)
}

impl Transaction {
    /// The movements of the transaction's action records outside the home currency and
    /// outside margin accounts: in a flow all of them, in an exchange the outgoing ones.
    pub fn get_outgoing_exchange_and_flow_mvmts(
        &self,
        user_home_currency: &str,
        ars: &HashMap<u32, ActionRecord>,
        raw_acct_map: &HashMap<u16, RawAccount>,
        acct_map: &HashMap<u16, Account>,
        txns_map: &HashMap<u32, Transaction>,
    ) -> (r: Result<Vec<Movement>, CryptoolsError>)
        requires
            txn_resolves(*self, ars@, acct_map@, raw_acct_map@),
            crate::ledger::accts_wf(acct_map@),
            forall|i: int|
                0 <= i < self.action_record_idx_vec@.len() ==> txns_map@.contains_key(
                    ars@[#[trigger] self.action_record_idx_vec@[i]].tx_key,
                ),
        ensures
            r matches Ok(v) ==> v@ == outgoing_exchange_and_flow_mvmts(
                *self,
                self.action_record_idx_vec@.len() as int,
                user_home_currency@,
                ars@,
                acct_map@,
                raw_acct_map@,
                txns_map@,
            ),
            r is Err <==> exists|i: int|
                0 <= i < self.action_record_idx_vec@.len() && #[trigger] counted_ar_fails(
                    *self,
                    i,
                    user_home_currency@,
                    ars@,
                    acct_map@,
                    raw_acct_map@,
                    txns_map@,
                ),
    {
        let mut flow_or_outgoing_exchange_movements: Vec<Movement> = Vec::new();
        let mut i: usize = 0;
        proof {
            if self.action_record_idx_vec@.len() == 2 {
                assert(ar_resolves(ars@, acct_map@, raw_acct_map@, self.action_record_idx_vec@[0]));
                assert(ar_resolves(ars@, acct_map@, raw_acct_map@, self.action_record_idx_vec@[1]));
            }
        }
        while i < self.action_record_idx_vec.len()
            invariant
                i <= self.action_record_idx_vec@.len(),
                txn_resolves(*self, ars@, acct_map@, raw_acct_map@),
                tx_type_resolves(*self, ars@, acct_map@, raw_acct_map@),
                crate::ledger::accts_wf(acct_map@),
                forall|ii: int|
                    0 <= ii < self.action_record_idx_vec@.len() ==> txns_map@.contains_key(
                        ars@[#[trigger] self.action_record_idx_vec@[ii]].tx_key,
                    ),
                flow_or_outgoing_exchange_movements@ == outgoing_exchange_and_flow_mvmts(
                    *self,
                    i as int,
                    user_home_currency@,
                    ars@,
                    acct_map@,
                    raw_acct_map@,
                    txns_map@,
                ),
                forall|ii: int|
                    0 <= ii < i ==> !#[trigger] counted_ar_fails(
                        *self,
                        ii,
                        user_home_currency@,
                        ars@,
                        acct_map@,
                        raw_acct_map@,
                        txns_map@,
                    ),
            decreases self.action_record_idx_vec@.len() - i,
        {
            let ar_num = self.action_record_idx_vec[i];
            proof {
                assert(ar_resolves(ars@, acct_map@, raw_acct_map@, self.action_record_idx_vec@[i as int]));
                assert(crate::ledger::acct_wf(acct_map@[ars@[ar_num].account_key], ars@[ar_num].account_key));
            }
            let ar = ars.get(&ar_num).unwrap();
            let raw_acct = lookup_raw(ar_num, ars, raw_acct_map, acct_map);
            if !raw_acct.is_home_currency(user_home_currency) && !raw_acct.is_margin {
                let movements = match ar.get_mvmts_in_ar_in_lot_date_order(acct_map, txns_map) {
                    Some(v) => v,
                    None => {
                        proof {
                            let j = choose|j: int|
                                scan_overflows_at(ar_candidates(*ar, acct_map@, txns_map@), ar.amount, j);
                            crate::ledger::lemma_overflow_no_stop(
                                ar_candidates(*ar, acct_map@, txns_map@),
                                ar.amount,
                                j,
                            );
                            assert(counted_ar_fails(
                                *self,
                                i as int,
                                user_home_currency@,
                                ars@,
                                acct_map@,
                                raw_acct_map@,
                                txns_map@,
                            ));
                        }
                        return Err(CryptoolsError::DecimalOverflow { tx_number: self.tx_number });
                    },
                };
                let tx_type = match self.transaction_type(ars, raw_acct_map, acct_map) {
                    Ok(x) => x,
                    Err(e) => {
                        proof {
                            assert(counted_ar_fails(
                                *self,
                                i as int,
                                user_home_currency@,
                                ars@,
                                acct_map@,
                                raw_acct_map@,
                                txns_map@,
                            ));
                        }
                        return Err(e);
                    },
                };
                let counts = match tx_type {
                    TxType::Exchange => ar.direction() == Polarity::Outgoing,
                    TxType::Flow => true,
                    TxType::ToSelf => false,
                };
                if counts {
                    let mut j: usize = 0;
                    let ghost before = flow_or_outgoing_exchange_movements@;
                    while j < movements.len()
                        invariant
                            j <= movements@.len(),
                            flow_or_outgoing_exchange_movements@ == before + movements@.take(
                                j as int,
                            ),
                        decreases movements@.len() - j,
                    {
                        flow_or_outgoing_exchange_movements.push(movements[j].clone());
                        proof {
                            assert(flow_or_outgoing_exchange_movements@ =~= before + movements@.take(
                                j + 1,
                            ));
                        }
                        j = j + 1;
                    }
                    proof {
                        assert(movements@.take(movements@.len() as int) =~= movements@);
                    }
                } else {
                    proof {
                        assert(flow_or_outgoing_exchange_movements@ =~= flow_or_outgoing_exchange_movements@ + Seq::<Movement>::empty());
                    }
                }
            } else {
                proof {
                    assert(flow_or_outgoing_exchange_movements@ =~= flow_or_outgoing_exchange_movements@ + Seq::<Movement>::empty());
                }
            }
            i = i + 1;
        }
        Ok(flow_or_outgoing_exchange_movements)
    }

    /// What the automatic memo of the transaction says.  Two action records outside
    /// margin accounts, or both in margin accounts: what was paid for what (an exchange),
    /// or what was transferred and received (otherwise); one of two in a margin account:
    /// a margin profit or loss; a single action record: what was received or spent.
    pub fn get_auto_memo(
        &self,
        ars: &HashMap<u32, ActionRecord>,
        raw_accts: &HashMap<u16, RawAccount>,
        acct_map: &HashMap<u16, Account>,
        home_currency: &str,
    ) -> (r: Result<AutoMemo, CryptoolsError>)
        requires
            marginness_resolves(*self, ars@, acct_map@, raw_accts@),
            tx_type_resolves(*self, ars@, acct_map@, raw_accts@),
        ensures
            auto_memo_result(*self, ars@, acct_map@, raw_accts@, home_currency@, r),
    {
        if self.action_record_idx_vec.len() == 2 {
            let tx_type = self.transaction_type(ars, raw_accts, acct_map)?;
            let marginness = self.marginness(ars, raw_accts, acct_map);
            if marginness == TxHasMargin::NoARs || marginness == TxHasMargin::TwoARs {
                let og_raw_acct = lookup_raw(self.action_record_idx_vec[0], ars, raw_accts, acct_map);
                let ic_raw_acct = lookup_raw(self.action_record_idx_vec[1], ars, raw_accts, acct_map);
                let og_amt = ars.get(&self.action_record_idx_vec[0]).unwrap().amount;
                let ic_amt = ars.get(&self.action_record_idx_vec[1]).unwrap().amount;
                let og = if og_raw_acct.is_home_currency(home_currency) {
                    MemoAmount::TwoPlaces(og_amt)
                } else {
                    MemoAmount::AsIs(og_amt)
                };
                let ic = if ic_raw_acct.is_home_currency(home_currency) {
                    MemoAmount::TwoPlaces(ic_amt)
                } else {
                    MemoAmount::AsIs(ic_amt)
                };
                let og_ticker = og_raw_acct.ticker.clone();
                let ic_ticker = ic_raw_acct.ticker.clone();
                if tx_type == TxType::Exchange {
                    Ok(AutoMemo::Paid { og, og_ticker, ic, ic_ticker, proceeds: self.proceeds })
                } else {
                    Ok(AutoMemo::Transferred { og, og_ticker, ic, ic_ticker })
                }
            } else {
                Ok(AutoMemo::MarginProfitOrLoss { proceeds: self.proceeds })
            }
        } else {
            let amt = ars.get(&self.action_record_idx_vec[0]).unwrap().amount;
            let raw_acct = lookup_raw(self.action_record_idx_vec[0], ars, raw_accts, acct_map);
            let ticker = raw_acct.ticker.clone();
            if amt.is_positive() {
                Ok(AutoMemo::Received { amount: amt, ticker, proceeds: self.proceeds })
            } else {
                Ok(AutoMemo::Spent { amount: amt, ticker, proceeds: self.proceeds })
            }
        }
    }
}

} // verus!
