//! Accounts, their lots, and the movements posted to those lots.
use vstd::prelude::*;
use crate::dec::{
    Dec, add_fits, spec_add, dec_sum_from, lemma_dec_sum_push, lemma_dec_sum_prefix, quotient,
    absolute, negated,
};
use crate::date::{
    Date, TimeOfDay, DAY_EASTERN_TIME_BEGAN, eastern_date_time_to_utc_millis,
    eastern_to_utc_millis, utc_now_millis,
};
use crate::strings::{str_eq, string_from};
use crate::transaction::{
    ActionRecord, Polarity, Transaction, TxType, spec_direction, spec_tx_type, tx_type_resolves,
    ar_resolves, ar_raw,
};
use crate::errors::CryptoolsError;
use crate::strings::{concat, to_lowercase, std_to_lowercase};
use std::collections::HashMap;

verus! {

/// An account as the ledger's four header rows describe it.
#[derive(Debug)]
pub struct RawAccount {
    pub account_num: u16,
    pub name: String,
    pub ticker: String,
    pub is_margin: bool,
}

impl RawAccount {
    /// Whether the account holds the home currency: its ticker is `compare`.
    pub fn is_home_currency(&self, compare: &str) -> (r: bool)
        ensures
            r == (self.ticker@ == compare@),
    {
        str_eq(self.ticker.as_str(), compare)
    }

    /// `"Margin"` for a margin account, `"Non-margin"` otherwise.
    pub fn margin_string(&self) -> (r: String)
        ensures
            r@ == (if self.is_margin {
                "Margin"@
            } else {
                "Non-margin"@
            }),
    {
        if self.is_margin {
            string_from("Margin")
        } else {
            string_from("Non-margin")
        }
    }
}

impl Clone for RawAccount {
    fn clone(&self) -> (r: Self)
        ensures
            r == *self,
    {
        RawAccount {
            account_num: self.account_num,
            name: self.name.clone(),
            ticker: self.ticker.clone(),
            is_margin: self.is_margin,
        }
    }
}

/// A margin pair, by the account numbers of its accounts: always (base, quote).
#[derive(Clone, Copy, Debug)]
pub struct RawMarginPair(pub u16, pub u16);

/// A change of an account's balance, posted to one lot.
#[derive(Debug)]
pub struct Movement {
    pub amount: Dec,
    pub date_as_string: String,
    pub date: Date,
    pub transaction_key: u32,
    pub action_record_key: u32,
    /// Zero until cost basis is added.
    pub cost_basis: Dec,
    /// The movement's share of its incoming action record.
    pub ratio_of_amt_to_incoming_mvmts_in_a_r: Dec,
    /// The movement's share of its outgoing action record.
    pub ratio_of_amt_to_outgoing_mvmts_in_a_r: Dec,
    pub lot_num: u32,
    /// Zero until proceeds are added.
    pub proceeds: Dec,
    pub proceeds_lk: Dec,
    pub cost_basis_lk: Dec,
}

impl Clone for Movement {
    fn clone(&self) -> (r: Self)
        ensures
            r == *self,
    {
        Movement {
            amount: self.amount,
            date_as_string: self.date_as_string.clone(),
            date: self.date,
            transaction_key: self.transaction_key,
            action_record_key: self.action_record_key,
            cost_basis: self.cost_basis,
            ratio_of_amt_to_incoming_mvmts_in_a_r: self.ratio_of_amt_to_incoming_mvmts_in_a_r,
            ratio_of_amt_to_outgoing_mvmts_in_a_r: self.ratio_of_amt_to_outgoing_mvmts_in_a_r,
            lot_num: self.lot_num,
            proceeds: self.proceeds,
            proceeds_lk: self.proceeds_lk,
            cost_basis_lk: self.cost_basis_lk,
        }
    }
}

/// A lot: a holding acquired at one time, and every movement posted to it.
#[derive(Debug)]
pub struct Lot {
    pub date_as_string: String,
    pub date_of_first_mvmt_in_lot: Date,
    pub date_for_basis_purposes: Date,
    /// Lot numbers start at 1.
    pub lot_number: u32,
    pub account_key: u16,
    pub movements: Vec<Movement>,
}

/// An account with its lots, in the order they were created.
#[derive(Debug)]
pub struct Account {
    pub raw_key: u16,
    pub list_of_lots: Vec<Lot>,
}

/// The amounts of a sequence of movements that a sum reads.
#[derive(Clone, Copy, Debug, PartialEq, Eq, Structural)]
pub enum MvmtField {
    Amount,
    CostBasis,
    CostBasisLk,
    Proceeds,
    ProceedsLk,
}

pub open spec fn field_of(m: Movement, f: MvmtField) -> Dec {
    match f {
        MvmtField::Amount => m.amount,
        MvmtField::CostBasis => m.cost_basis,
        MvmtField::CostBasisLk => m.cost_basis_lk,
        MvmtField::Proceeds => m.proceeds,
        MvmtField::ProceedsLk => m.proceeds_lk,
    }
}

pub open spec fn fields_of(mvmts: Seq<Movement>, f: MvmtField) -> Seq<Dec> {
    mvmts.map_values(|m: Movement| field_of(m, f))
}

/// The running total of one field over movements, added in order from zero.
pub open spec fn mvmt_sum(mvmts: Seq<Movement>, f: MvmtField) -> Option<Dec> {
    dec_sum_from(Dec::zero_spec(), fields_of(mvmts, f))
}

/// The running total over lots of each lot's own total; `None` when any total does not fit.
pub open spec fn lots_sum_from(acc: Dec, lots: Seq<Lot>, f: MvmtField) -> Option<Dec>
    decreases lots.len(),
{
    if lots.len() == 0 {
        Some(acc)
    } else {
        match lots_sum_from(acc, lots.drop_last(), f) {
            Some(t) => match mvmt_sum(lots.last().movements@, f) {
                Some(x) => if add_fits(t, x) {
                    Some(spec_add(t, x))
                } else {
                    None
                },
                None => None,
            },
            None => None,
        }
    }
}

pub open spec fn lots_sum(lots: Seq<Lot>, f: MvmtField) -> Option<Dec> {
    lots_sum_from(Dec::zero_spec(), lots, f)
}

/// The total of one field over a vector of movements, added in order.
pub fn sum_field(mvmts: &Vec<Movement>, f: MvmtField) -> (r: Option<Dec>)
    ensures
        r == mvmt_sum(mvmts@, f),
        r matches Some(x) ==> x.valid(),
{
    let mut total = Dec::zero();
    let mut i: usize = 0;
    proof {
        assert(fields_of(mvmts@, f).take(0) =~= Seq::<Dec>::empty());
    }
    while i < mvmts.len()
        invariant
            i <= mvmts.len(),
            dec_sum_from(Dec::zero_spec(), fields_of(mvmts@, f).take(i as int)) == Some(total),
            total.valid(),
        decreases mvmts.len() - i,
    {
        let m = &mvmts[i];
        let x = match f {
            MvmtField::Amount => m.amount,
            MvmtField::CostBasis => m.cost_basis,
            MvmtField::CostBasisLk => m.cost_basis_lk,
            MvmtField::Proceeds => m.proceeds,
            MvmtField::ProceedsLk => m.proceeds_lk,
        };
        proof {
            let vals = fields_of(mvmts@, f);
            assert(vals.take(i + 1) =~= vals.take(i as int).push(x));
            lemma_dec_sum_push(Dec::zero_spec(), vals.take(i as int), x);
        }
        match total.checked_add(&x) {
            Some(t) => {
                total = t;
            },
            None => {
                proof {
                    let vals = fields_of(mvmts@, f);
                    lemma_dec_sum_none_extends(Dec::zero_spec(), vals, i as int + 1);
                    assert(vals.take(i + 1) =~= vals.take(i + 1));
                }
                return None;
            },
        }
        i = i + 1;
    }
    proof {
        assert(fields_of(mvmts@, f).take(mvmts.len() as int) =~= fields_of(mvmts@, f));
    }
    Some(total)
}

/// Once a running total gives out, it stays out for every longer prefix.
pub proof fn lemma_dec_sum_none_extends(acc: Dec, vals: Seq<Dec>, n: int)
    requires
        0 <= n <= vals.len(),
        dec_sum_from(acc, vals.take(n)) is None,
    ensures
        dec_sum_from(acc, vals) is None,
{
    if dec_sum_from(acc, vals) is Some {
        lemma_dec_sum_prefix(acc, vals, n);
    }
}

impl Lot {
    /// The lot's balance: the sum of its movements' amounts.
    pub fn get_sum_of_amts_in_lot(&self) -> (r: Dec)
        requires
            mvmt_sum(self.movements@, MvmtField::Amount) is Some,
        ensures
            Some(r) == mvmt_sum(self.movements@, MvmtField::Amount),
    {
        sum_field(&self.movements, MvmtField::Amount).unwrap()
    }

    /// The sum of the like-kind cost basis of the lot's movements.
    pub fn get_sum_of_lk_basis_in_lot(&self) -> (r: Dec)
        requires
            mvmt_sum(self.movements@, MvmtField::CostBasisLk) is Some,
        ensures
            Some(r) == mvmt_sum(self.movements@, MvmtField::CostBasisLk),
    {
        sum_field(&self.movements, MvmtField::CostBasisLk).unwrap()
    }

    /// The sum of the original cost basis of the lot's movements.
    pub fn get_sum_of_orig_basis_in_lot(&self) -> (r: Dec)
        requires
            mvmt_sum(self.movements@, MvmtField::CostBasis) is Some,
        ensures
            Some(r) == mvmt_sum(self.movements@, MvmtField::CostBasis),
    {
        sum_field(&self.movements, MvmtField::CostBasis).unwrap()
    }
}

/// The total over lots of one field of their movements, lot by lot.
pub fn sum_lots_field(lots: &Vec<Lot>, f: MvmtField) -> (r: Option<Dec>)
    ensures
        r == lots_sum(lots@, f),
        r matches Some(x) ==> x.valid(),
{
    let mut total = Dec::zero();
    let mut i: usize = 0;
    proof {
        assert(lots@.take(0) =~= Seq::<Lot>::empty());
    }
    while i < lots.len()
        invariant
            i <= lots.len(),
            lots_sum_from(Dec::zero_spec(), lots@.take(i as int), f) == Some(total),
            total.valid(),
        decreases lots.len() - i,
    {
        proof {
            assert(lots@.take(i + 1).drop_last() =~= lots@.take(i as int));
            assert(lots@.take(i + 1).last() == lots@[i as int]);
        }
        match sum_field(&lots[i].movements, f) {
            Some(x) => match total.checked_add(&x) {
                Some(t) => {
                    total = t;
                },
                None => {
                    proof {
                        lemma_lots_sum_none_extends(Dec::zero_spec(), lots@, f, i as int + 1);
                    }
                    return None;
                },
            },
            None => {
                proof {
                    lemma_lots_sum_none_extends(Dec::zero_spec(), lots@, f, i as int + 1);
                }
                return None;
            },
        }
        i = i + 1;
    }
    proof {
        assert(lots@.take(lots.len() as int) =~= lots@);
    }
    Some(total)
}

pub proof fn lemma_lots_sum_none_extends(acc: Dec, lots: Seq<Lot>, f: MvmtField, n: int)
    requires
        0 <= n <= lots.len(),
        lots_sum_from(acc, lots.take(n), f) is None,
    ensures
        lots_sum_from(acc, lots, f) is None,
    decreases lots.len() - n,
{
    if n < lots.len() {
        assert(lots.take(n + 1).drop_last() =~= lots.take(n));
        lemma_lots_sum_none_extends(acc, lots, f, n + 1);
    } else {
        assert(lots.take(n) =~= lots);
    }
}

impl Account {
    /// The account balance: the sum of the balances of its lots.
    pub fn get_sum_of_amts_in_lots(&self) -> (r: Dec)
        requires
            lots_sum(self.list_of_lots@, MvmtField::Amount) is Some,
        ensures
            Some(r) == lots_sum(self.list_of_lots@, MvmtField::Amount),
    {
        sum_lots_field(&self.list_of_lots, MvmtField::Amount).unwrap()
    }

    /// The like-kind cost basis held in the account.
    pub fn get_sum_of_lk_basis_in_lots(&self) -> (r: Dec)
        requires
            lots_sum(self.list_of_lots@, MvmtField::CostBasisLk) is Some,
        ensures
            Some(r) == lots_sum(self.list_of_lots@, MvmtField::CostBasisLk),
    {
        sum_lots_field(&self.list_of_lots, MvmtField::CostBasisLk).unwrap()
    }

    /// The original cost basis held in the account.
    pub fn get_sum_of_orig_basis_in_lots(&self) -> (r: Dec)
        requires
            lots_sum(self.list_of_lots@, MvmtField::CostBasis) is Some,
        ensures
            Some(r) == lots_sum(self.list_of_lots@, MvmtField::CostBasis),
    {
        sum_lots_field(&self.list_of_lots, MvmtField::CostBasis).unwrap()
    }

    /// The number of lots with a positive balance.
    pub fn get_num_of_nonzero_lots(&self) -> (r: u32)
        requires
            forall|i: int|
                0 <= i < self.list_of_lots@.len() ==> (mvmt_sum(
                    #[trigger] self.list_of_lots@[i].movements@,
                    MvmtField::Amount,
                ) is Some),
            self.list_of_lots@.len() <= u32::MAX,
        ensures
            r == count_positive_lots(self.list_of_lots@),
    {
        let mut count: u32 = 0;
        let mut i: usize = 0;
        while i < self.list_of_lots.len()
            invariant
                i <= self.list_of_lots@.len() <= u32::MAX,
                count == count_positive_lots(self.list_of_lots@.take(i as int)),
                count <= i,
                forall|j: int|
                    0 <= j < self.list_of_lots@.len() ==> (mvmt_sum(
                        #[trigger] self.list_of_lots@[j].movements@,
                        MvmtField::Amount,
                    ) is Some),
            decreases self.list_of_lots@.len() - i,
        {
            let bal = self.list_of_lots[i].get_sum_of_amts_in_lot();
            proof {
                assert(self.list_of_lots@.take(i + 1).drop_last() =~= self.list_of_lots@.take(
                    i as int,
                ));
            }
            if bal.is_positive() {
                count = count + 1;
            }
            i = i + 1;
        }
        proof {
            assert(self.list_of_lots@.take(self.list_of_lots@.len() as int) =~= self.list_of_lots@);
        }
        count
    }
}

/// The number of lots whose balance is positive.
pub open spec fn count_positive_lots(lots: Seq<Lot>) -> nat
    decreases lots.len(),
{
    if lots.len() == 0 {
        0
    } else {
        count_positive_lots(lots.drop_last()) + if mvmt_sum(
            lots.last().movements@,
            MvmtField::Amount,
        )->0.val() > 0 {
            1nat
        } else {
            0nat
        }
    }
}

/// Whether a movement counts toward long-term or short-term gains.
#[derive(Clone, Copy, Debug, PartialEq, Eq, Structural)]
pub enum Term {
    LT,
    ST,
}

impl Term {
    /// `"LT"` or `"ST"`.
    pub fn abbr_string(&self) -> (r: String)
        ensures
            r@ == (match *self {
                Term::LT => "LT"@,
                Term::ST => "ST"@,
            }),
    {
        match *self {
            Term::LT => string_from("LT"),
            Term::ST => string_from("ST"),
        }
    }

    /// The term as it is displayed: `"LT"` or `"ST"`.
    pub fn to_string(&self) -> (r: String)
        ensures
            r@ == (match *self {
                Term::LT => "LT"@,
                Term::ST => "ST"@,
            }),
    {
        self.abbr_string()
    }
}


/// The lot a movement sits in: lot `lot_num` of the account of its action record.
pub open spec fn spec_lot_of(
    m: Movement,
    accts: Map<u16, Account>,
    ars: Map<u32, ActionRecord>,
) -> Lot {
    accts[ars[m.action_record_key].account_key].list_of_lots@[m.lot_num - 1]
}

/// What `get_lot` needs to find the lot.
pub open spec fn lot_of_resolves(
    m: Movement,
    accts: Map<u16, Account>,
    ars: Map<u32, ActionRecord>,
) -> bool {
    &&& ars.contains_key(m.action_record_key)
    &&& accts.contains_key(ars[m.action_record_key].account_key)
    &&& 1 <= m.lot_num <= accts[ars[m.action_record_key].account_key].list_of_lots@.len()
}

impl Movement {
    /// The lot the movement sits in (lot numbers start at 1, indexes at 0).
    pub fn get_lot<'a>(
        &self,
        acct_map: &'a HashMap<u16, Account>,
        ar_map: &HashMap<u32, ActionRecord>,
    ) -> (r: &'a Lot)
        requires
            lot_of_resolves(*self, acct_map@, ar_map@),
        ensures
            *r == spec_lot_of(*self, acct_map@, ar_map@),
    {
        let ar = ar_map.get(&self.action_record_key).unwrap();
        let acct = acct_map.get(&ar.account_key).unwrap();
        &acct.list_of_lots[(self.lot_num - 1) as usize]
    }

    /// The movement's amount over the amount of the first movement of its lot, without
    /// its sign; `None` when the division fails (a zero first amount, or an overflow).
    pub fn ratio_of_amt_to_lots_first_mvmt(
        &self,
        acct_map: &HashMap<u16, Account>,
        ar_map: &HashMap<u32, ActionRecord>,
    ) -> (r: Option<Dec>)
        requires
            lot_of_resolves(*self, acct_map@, ar_map@),
            spec_lot_of(*self, acct_map@, ar_map@).movements@.len() > 0,
        ensures
            r == match quotient(
                self.amount,
                spec_lot_of(*self, acct_map@, ar_map@).movements@[0].amount,
            ) {
                Some(q) => Some(absolute(q)),
                None => None,
            },
    {
        let lot = self.get_lot(acct_map, ar_map);
        match self.amount.checked_div(&lot.movements[0].amount) {
            Some(ratio) => Some(ratio.abs()),
            None => None,
        }
    }

    /// The like-kind cost basis of the first movement of the movement's lot.
    pub fn get_lk_cost_basis_of_lots_first_mvmt(
        &self,
        acct_map: &HashMap<u16, Account>,
        ar_map: &HashMap<u32, ActionRecord>,
    ) -> (r: Dec)
        requires
            lot_of_resolves(*self, acct_map@, ar_map@),
            spec_lot_of(*self, acct_map@, ar_map@).movements@.len() > 0,
        ensures
            r == spec_lot_of(*self, acct_map@, ar_map@).movements@[0].cost_basis_lk,
    {
        let lot = self.get_lot(acct_map, ar_map);
        lot.movements[0].cost_basis_lk
    }

    /// The cost basis of the first movement of the movement's lot.
    pub fn get_cost_basis_of_lots_first_mvmt(
        &self,
        acct_map: &HashMap<u16, Account>,
        ar_map: &HashMap<u32, ActionRecord>,
    ) -> (r: Dec)
        requires
            lot_of_resolves(*self, acct_map@, ar_map@),
            spec_lot_of(*self, acct_map@, ar_map@).movements@.len() > 0,
        ensures
            r == spec_lot_of(*self, acct_map@, ar_map@).movements@[0].cost_basis,
    {
        let lot = self.get_lot(acct_map, ar_map);
        lot.movements[0].cost_basis
    }

    /// Like-kind proceeds plus like-kind cost basis; `None` when the sum does not fit.
    pub fn get_lk_gain_or_loss(&self) -> (r: Option<Dec>)
        ensures
            r == (if add_fits(self.proceeds_lk, self.cost_basis_lk) {
                Some(spec_add(self.proceeds_lk, self.cost_basis_lk))
            } else {
                None
            }),
    {
        self.proceeds_lk.checked_add(&self.cost_basis_lk)
    }

    /// Proceeds plus cost basis; `None` when the sum does not fit.
    pub fn get_orig_gain_or_loss(&self) -> (r: Option<Dec>)
        ensures
            r == (if add_fits(self.proceeds, self.cost_basis) {
                Some(spec_add(self.proceeds, self.cost_basis))
            } else {
                None
            }),
    {
        self.proceeds.checked_add(&self.cost_basis)
    }

    /// The given day at the given US Eastern local time, in milliseconds since the Unix
    /// epoch (UTC); `None` where that local time falls in a gap or an overlap of the zone.
    pub fn create_date_time_from_atlantic(date: Date, time: TimeOfDay) -> (r: Option<i64>)
        requires
            time.hour < 24,
            time.min < 60,
            time.sec < 60,
            time.milli < 1000,
        ensures
            r is Some <==> eastern_to_utc_millis(
                date.day_num(),
                time.hour as int,
                time.min as int,
                time.sec as int,
                time.milli as int,
            ) is Some,
            r matches Some(v) ==> eastern_to_utc_millis(
                date.day_num(),
                time.hour as int,
                time.min as int,
                time.sec as int,
                time.milli as int,
            ) == Some(v as int),
            (10 <= time.hour < 14 && !(date.day_num() == DAY_EASTERN_TIME_BEGAN && time.hour == 12
                && time.min < 4)) ==> r is Some,
    {
        eastern_date_time_to_utc_millis(&date, &time)
    }

    /// Long-term or short-term at the instant `now_millis` (milliseconds since the Unix
    /// epoch).  An outgoing movement is long-term when more than 365 days passed from its
    /// lot's basis date to its own date, whatever the instant.  An incoming movement is
    /// long-term when more than 365 days passed from its lot's basis date (at 12:34:56.789
    /// US Eastern time) to `now_millis`.
    pub fn term_at(
        &self,
        now_millis: i64,
        acct_map: &HashMap<u16, Account>,
        ar_map: &HashMap<u32, ActionRecord>,
    ) -> (r: Term)
        requires
            lot_of_resolves(*self, acct_map@, ar_map@),
        ensures
            r == spec_term_at(*self, now_millis as int, acct_map@, ar_map@),
    {
        let ar = ar_map.get(&self.action_record_key).unwrap();
        let lot = self.get_lot(acct_map, ar_map);
        match ar.direction() {
            Polarity::Incoming => {
                let utc_lot_date = Self::create_date_time_from_atlantic(
                    lot.date_for_basis_purposes,
                    TimeOfDay { hour: 12, min: 34, sec: 56, milli: 789 },
                );
                match utc_lot_date {
                    Some(then) => term_for_elapsed_millis(now_millis as i128 - then as i128),
                    None => {
                        assert(false);
                        Term::ST
                    },
                }
            },
            Polarity::Outgoing => {
                if self.date.days_since(&lot.date_for_basis_purposes) > 365 {
                    Term::LT
                } else {
                    Term::ST
                }
            },
        }
    }

    /// Long-term or short-term now: `term_at` the instant the clock gives.  An outgoing
    /// movement's term does not depend on the clock: long-term when more than 365 days
    /// passed from its lot's basis date to its own date.  An incoming movement is
    /// long-term when more than 365 days have passed since its lot's basis date (at
    /// 12:34:56.789 US Eastern time) by the clock.
    pub fn get_term(
        &self,
        acct_map: &HashMap<u16, Account>,
        ar_map: &HashMap<u32, ActionRecord>,
    ) -> (r: Term)
        requires
            lot_of_resolves(*self, acct_map@, ar_map@),
        ensures
            spec_direction(ar_map@[self.action_record_key].amount) == Polarity::Outgoing ==> r == (
            if self.date.day_num() - spec_lot_of(
                *self,
                acct_map@,
                ar_map@,
            ).date_for_basis_purposes.day_num() > 365 {
                Term::LT
            } else {
                Term::ST
            }),
            exists|now: i64| r == #[trigger] spec_term_at(*self, now as int, acct_map@, ar_map@),
            spec_direction(ar_map@[self.action_record_key].amount) == Polarity::Incoming ==> (
            exists|now: int| r == #[trigger] term_between(now, eastern_to_utc_millis(
                spec_lot_of(*self, acct_map@, ar_map@).date_for_basis_purposes.day_num(),
                12,
                34,
                56,
                789,
            )->0)),
    {
        let today = utc_now_millis();
        let r = self.term_at(today, acct_map, ar_map);
        proof {
            assert(r == spec_term_at(*self, today as int, acct_map@, ar_map@));
            if spec_direction(ar_map@[self.action_record_key].amount) == Polarity::Incoming {
                assert(r == term_between(today as int, lot_instant(*self, acct_map@, ar_map@)));
            }
        }
        r
    }

    /// Income recognized on the movement: for an incoming movement of a flow, minus its
    /// like-kind proceeds; zero otherwise.
    pub fn get_income(
        &self,
        ar_map: &HashMap<u32, ActionRecord>,
        raw_accts: &HashMap<u16, RawAccount>,
        acct_map: &HashMap<u16, Account>,
        txns_map: &HashMap<u32, Transaction>,
    ) -> (r: Result<Dec, CryptoolsError>)
        requires
            txns_map@.contains_key(self.transaction_key),
            tx_type_resolves(txns_map@[self.transaction_key], ar_map@, acct_map@, raw_accts@),
            ar_map@.contains_key(self.action_record_key),
        ensures
            r == match spec_tx_type(txns_map@[self.transaction_key], ar_map@, acct_map@, raw_accts@) {
                Err(e) => Err(e),
                Ok(TxType::Flow) => Ok(
                    if spec_direction(ar_map@[self.action_record_key].amount) == Polarity::Incoming {
                        negated(self.proceeds_lk)
                    } else {
                        Dec::zero_spec()
                    },
                ),
                Ok(_) => Ok(Dec::zero_spec()),
            },
    {
        let txn = txns_map.get(&self.transaction_key).unwrap();
        match txn.transaction_type(ar_map, raw_accts, acct_map) {
            Err(e) => Err(e),
            Ok(TxType::Flow) => {
                let ar = ar_map.get(&self.action_record_key).unwrap();
                if ar.direction() == Polarity::Incoming {
                    Ok(self.proceeds_lk.neg())
                } else {
                    Ok(Dec::zero())
                }
            },
            Ok(_) => Ok(Dec::zero()),
        }
    }

    /// Expense recognized on the movement: for an outgoing movement of a flow out of a
    /// non-margin account, minus its like-kind proceeds; zero otherwise.
    pub fn get_expense(
        &self,
        ar_map: &HashMap<u32, ActionRecord>,
        raw_accts: &HashMap<u16, RawAccount>,
        acct_map: &HashMap<u16, Account>,
        txns_map: &HashMap<u32, Transaction>,
    ) -> (r: Result<Dec, CryptoolsError>)
        requires
            txns_map@.contains_key(self.transaction_key),
            tx_type_resolves(txns_map@[self.transaction_key], ar_map@, acct_map@, raw_accts@),
            ar_resolves(ar_map@, acct_map@, raw_accts@, self.action_record_key),
        ensures
            r == match spec_tx_type(txns_map@[self.transaction_key], ar_map@, acct_map@, raw_accts@) {
                Err(e) => Err(e),
                Ok(TxType::Flow) => Ok(
                    if spec_direction(ar_map@[self.action_record_key].amount) == Polarity::Outgoing
                        && !ar_raw(ar_map@, acct_map@, raw_accts@, self.action_record_key).is_margin {
                        negated(self.proceeds_lk)
                    } else {
                        Dec::zero_spec()
                    },
                ),
                Ok(_) => Ok(Dec::zero_spec()),
            },
    {
        let txn = txns_map.get(&self.transaction_key).unwrap();
        match txn.transaction_type(ar_map, raw_accts, acct_map) {
            Err(e) => Err(e),
            Ok(TxType::Flow) => {
                let ar = ar_map.get(&self.action_record_key).unwrap();
                if ar.direction() == Polarity::Outgoing {
                    let acct = acct_map.get(&ar.account_key).unwrap();
                    let raw_acct = raw_accts.get(&acct.raw_key).unwrap();
                    if raw_acct.is_margin {
                        Ok(Dec::zero())
                    } else {
                        Ok(self.proceeds_lk.neg())
                    }
                } else {
                    Ok(Dec::zero())
                }
            },
            Ok(_) => Ok(Dec::zero()),
        }
    }

    /// The kind of the movement's transaction for reports: a flow is told apart as
    /// `In` or `Out` followed by the lowercase kind.
    pub fn friendly_tx_type(&self, tx_type: &TxType) -> (r: String)
        ensures
            r@ == match *tx_type {
                TxType::Exchange => "Exchange"@,
                TxType::ToSelf => "ToSelf"@,
                TxType::Flow => (if self.amount.val() > 0 {
                    "In"@
                } else {
                    "Out"@
                }) + std_to_lowercase("Flow"@),
            },
    {
        match tx_type {
            TxType::Exchange => tx_type.to_string(),
            TxType::ToSelf => tx_type.to_string(),
            TxType::Flow => {
                let direction = if self.amount.is_positive() {
                    string_from("In")
                } else {
                    string_from("Out")
                };
                let kind = to_lowercase(tx_type.to_string().as_str());
                concat(direction.as_str(), kind.as_str())
            },
        }
    }
}

/// The instant (milliseconds since the Unix epoch) at which a holding of movement `m`
/// starts: its lot's basis date at 12:34:56.789 US Eastern time.
pub open spec fn lot_instant(m: Movement, accts: Map<u16, Account>, ars: Map<u32, ActionRecord>) -> int {
    eastern_to_utc_millis(
        spec_lot_of(m, accts, ars).date_for_basis_purposes.day_num(),
        12,
        34,
        56,
        789,
    )->0
}

/// The term of movement `m` at instant `now` (see `Movement::term_at`).
pub open spec fn spec_term_at(
    m: Movement,
    now: int,
    accts: Map<u16, Account>,
    ars: Map<u32, ActionRecord>,
) -> Term {
    if spec_direction(ars[m.action_record_key].amount) == Polarity::Outgoing {
        if m.date.day_num() - spec_lot_of(m, accts, ars).date_for_basis_purposes.day_num() > 365 {
            Term::LT
        } else {
            Term::ST
        }
    } else {
        term_between(now, lot_instant(m, accts, ars))
    }
}

/// An incoming movement held more than 365 days at instant `now` (counted from its lot's
/// basis date at 12:34:56.789 US Eastern time) is long-term; held 365 days or less, or not
/// yet held (its lot's instant after `now`), it is short-term.
pub proof fn law_incoming_term_by_time_held(
    m: Movement,
    now: int,
    accts: Map<u16, Account>,
    ars: Map<u32, ActionRecord>,
)
    requires
        spec_direction(ars[m.action_record_key].amount) == Polarity::Incoming,
    ensures
        now >= lot_instant(m, accts, ars) + 365 * 24 * 60 * 60 * 1000 + 1 ==> spec_term_at(m, now, accts, ars) == Term::LT,
        now <= lot_instant(m, accts, ars) + 365 * 24 * 60 * 60 * 1000 ==> spec_term_at(m, now, accts, ars) == Term::ST,
        now <= lot_instant(m, accts, ars) ==> spec_term_at(m, now, accts, ars) == Term::ST,
{
}

/// Time only makes a holding longer: an incoming movement long-term at one instant stays
/// long-term at every later one, and short-term at one instant was short-term at every
/// earlier one.
pub proof fn law_term_grows_with_time(
    m: Movement,
    now1: int,
    now2: int,
    accts: Map<u16, Account>,
    ars: Map<u32, ActionRecord>,
)
    requires
        now1 <= now2,
    ensures
        spec_term_at(m, now1, accts, ars) == Term::LT ==> spec_term_at(m, now2, accts, ars) == Term::LT,
        spec_term_at(m, now2, accts, ars) == Term::ST ==> spec_term_at(m, now1, accts, ars) == Term::ST,
{
}

/// The term of an outgoing movement does not depend on the instant it is asked at: it is
/// long-term exactly when more than 365 days passed from its lot's basis date to its own
/// date.
pub proof fn law_outgoing_term_ignores_clock(
    m: Movement,
    now1: int,
    now2: int,
    accts: Map<u16, Account>,
    ars: Map<u32, ActionRecord>,
)
    requires
        spec_direction(ars[m.action_record_key].amount) == Polarity::Outgoing,
    ensures
        spec_term_at(m, now1, accts, ars) == spec_term_at(m, now2, accts, ars),
        spec_term_at(m, now1, accts, ars) == Term::LT <==> m.date.day_num()
            - spec_lot_of(m, accts, ars).date_for_basis_purposes.day_num() >= 366,
{
}

/// The number of milliseconds in 365 days.
/// The term of a holding from the instant `then` to the instant `now` (milliseconds).
pub open spec fn term_between(now: int, then: int) -> Term {
    if now - then > MILLIS_IN_365_DAYS {
        Term::LT
    } else {
        Term::ST
    }
}

pub const MILLIS_IN_365_DAYS: i128 = 31536000000i128;

/// Long-term when more than 365 days (in milliseconds) have elapsed.
pub fn term_for_elapsed_millis(elapsed: i128) -> (r: Term)
    ensures
        r == (if elapsed > MILLIS_IN_365_DAYS {
            Term::LT
        } else {
            Term::ST
        }),
{
    if elapsed > MILLIS_IN_365_DAYS {
        Term::LT
    } else {
        Term::ST
    }
}

} // verus!
