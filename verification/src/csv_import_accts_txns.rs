//! Accounts and transactions from the CSV input file: its bytes split into a header
//! row and records of fields, and those rows read as accounts and transactions.
use std::collections::HashMap;
use vstd::prelude::*;
use crate::dec::{Dec, rounded, decimal_from_str, from_pair};
use crate::date::{Date, MAX_DAYS_FROM_CE, naive_date_parse};
use crate::account::{Account, Lot, RawAccount};
use crate::transaction::{ActionRecord, Transaction};
use crate::errors::CryptoolsError;
use crate::strings::{
    concat, parse_u16, remove_commas, std_to_lowercase, std_trim, str_eq, string_from,
    to_lowercase, trim, u16_from_str, without_commas,
};

verus! {

broadcast use vstd::std_specs::hash::group_hash_axioms;

/// What `csv::ReaderBuilder::new().has_headers(true).from_reader(..)` (`csv`) reads from
/// the given bytes: the header row and then each record, as fields; `None` when the
/// reader reports an error (malformed CSV, invalid UTF-8, records of unequal length).
pub uninterp spec fn csv_parse(input: Seq<u8>) -> Option<(Seq<Seq<char>>, Seq<Seq<Seq<char>>>)>;

/// The text of each string.
pub open spec fn strings_view(v: Seq<String>) -> Seq<Seq<char>> {
    v.map_values(|s: String| s@)
}

/// The text of each field of each row.
pub open spec fn rows_view(rows: Seq<Vec<String>>) -> Seq<Seq<Seq<char>>> {
    rows.map_values(|row: Vec<String>| strings_view(row@))
}

/// `csv::Reader::headers` and `csv::Reader::records` (`csv`) on a reader with a header
/// row over the given bytes, each field turned into a `String`; the result is named.
#[verifier::external_body]
fn csv_rows(input: &[u8]) -> (r: Option<(Vec<String>, Vec<Vec<String>>)>)
    ensures
        r is Some <==> csv_parse(input@) is Some,
        r matches Some((h, rows)) ==> csv_parse(input@) == Some((strings_view(h@), rows_view(rows@))),
{
    let mut rdr = csv::ReaderBuilder::new().has_headers(true).from_reader(input);
    let header: Vec<String> = match rdr.headers() {
        Ok(h) => h.iter().map(|f| f.to_string()).collect(),
        Err(_) => return None,
    };
    let rows: Result<Vec<Vec<String>>, csv::Error> = rdr
        .records()
        .map(|rec| rec.map(|r| r.iter().map(|f| f.to_string()).collect()))
        .collect();
    match rows {
        Ok(rows) => Some((header, rows)),
        Err(_) => None,
    }
}

/// The header row and the records of the CSV input file whose bytes are given; an error
/// when they are not well-formed CSV.
pub fn read_csv_rows(input: &[u8]) -> (r: Result<(Vec<String>, Vec<Vec<String>>), CryptoolsError>)
    ensures
        r is Err <==> csv_parse(input@) is None,
        r matches Err(e) ==> e == CryptoolsError::CsvUnreadable,
        r matches Ok((h, rows)) ==> csv_parse(input@) == Some((strings_view(h@), rows_view(rows@))),
{
    match csv_rows(input) {
        Some(rows) => Ok(rows),
        None => Err(CryptoolsError::CsvUnreadable),
    }
}

/// What a margin header value (lowercased and trimmed) says: `no`, `non` or `false` for
/// a non-margin account, `yes`, `margin` or `true` for a margin account.
pub open spec fn margin_word(s: Seq<char>) -> Option<bool> {
    let w = std_trim(std_to_lowercase(s));
    if w == "no"@ || w == "non"@ || w == "false"@ {
        Some(false)
    } else if w == "yes"@ || w == "margin"@ || w == "true"@ {
        Some(true)
    } else {
        None
    }
}

/// Account column `c` (the `c`-th after the three leading columns) is well formed: its
/// number is `c + 1`, and the name, ticker and margin rows have a value for it that
/// reads as a margin value.
pub open spec fn account_column_ok(header1: Seq<String>, records: Seq<Vec<String>>, c: int) -> bool {
    &&& u16_from_str(std_trim(header1[c + 3]@)) == Some(((c + 1) as u16))
    &&& records[0]@.len() > c + 3
    &&& records[1]@.len() > c + 3
    &&& records[2]@.len() > c + 3
    &&& margin_word(records[2]@[c + 3]@) is Some
}

/// The raw account that column `c` describes.
pub open spec fn account_of_column(records: Seq<Vec<String>>, c: int, r: RawAccount) -> bool {
    &&& r.account_num == c + 1
    &&& r.name@ == std_trim(records[0]@[c + 3]@)
    &&& r.ticker@ == std_trim(records[1]@[c + 3]@)
    &&& margin_word(records[2]@[c + 3]@) == Some(r.is_margin)
}

/// Reads a margin header value.
fn parse_margin_word(s: &str) -> (r: Option<bool>)
    ensures
        r == margin_word(s@),
{
    let lowered = to_lowercase(s);
    let w = trim(lowered.as_str());
    let ws = w.as_str();
    proof {
        reveal_strlit("no");
        reveal_strlit("non");
        reveal_strlit("false");
        reveal_strlit("yes");
        reveal_strlit("margin");
        reveal_strlit("true");
    }
    if str_eq(ws, "no") || str_eq(ws, "non") || str_eq(ws, "false") {
        Some(false)
    } else if str_eq(ws, "yes") || str_eq(ws, "margin") || str_eq(ws, "true") {
        Some(true)
    } else {
        None
    }
}

/// What `import_accounts` promises of the accounts it fills in from the header row
/// `header1` and the account rows of `records`.
pub open spec fn accounts_imported(
    header1: Seq<String>,
    records: Seq<Vec<String>>,
    raws: Map<u16, RawAccount>,
    accts: Map<u16, Account>,
) -> bool {
    &&& records.len() < 3 ==> raws == Map::<u16, RawAccount>::empty() && accts == Map::<
        u16,
        Account,
    >::empty()
    &&& records.len() >= 3 ==> forall|c: int|
        0 <= c < header1.len() - 3 ==> {
            &&& raws.contains_key(#[trigger] ((c + 1) as u16))
            &&& account_of_column(records, c, raws[((c + 1) as u16)])
        }
    &&& forall|a: u16| #[trigger]
        raws.contains_key(a) ==> raws[a].account_num == a && 1 <= a <= header1.len() - 3
    &&& forall|a: u16| #[trigger] accts.contains_key(a) <==> raws.contains_key(a)
    &&& forall|a: u16| #[trigger]
        accts.contains_key(a) ==> accts[a].raw_key == a && accts[a].list_of_lots@.len() == 0
}

/// Action record `x` comes before `y` in the file: in an earlier row, or in the same row
/// in an earlier column.
pub open spec fn ar_before(x: ActionRecord, y: ActionRecord) -> bool {
    ||| x.tx_key < y.tx_key
    ||| x.tx_key == y.tx_key && x.account_key < y.account_key
}

/// Action records are numbered in file order, row by row and column by column.
pub open spec fn numbered_in_file_order(ars: Map<u32, ActionRecord>) -> bool {
    forall|k1: u32, k2: u32|
        #[trigger] ars.contains_key(k1) && #[trigger] ars.contains_key(k2) && k1 < k2 ==> ar_before(
            ars[k1],
            ars[k2],
        )
}

/// What `import_transactions` promises of the action records `ars` and transactions
/// `txns` it fills in from the rows of `records` from `first` on.
pub open spec fn rows_imported(
    records: Seq<Vec<String>>,
    first: usize,
    proceeds: Seq<Option<Dec>>,
    iso_date_style: bool,
    separator: Seq<char>,
    ars: Map<u32, ActionRecord>,
    txns: Map<u32, Transaction>,
) -> bool {
    &&& numbered_in_file_order(ars)
    &&& txns.len() == (records.len() - first)
    &&& forall|t: u32| #[trigger]
            txns.contains_key(t) <==> 1 <= t <= (records.len() - first)
    &&& forall|t: u32|
            1 <= t <= (records.len() - first) ==> {
                let row = records[first + t - 1]@;
                let txn = #[trigger] txns[t];
                &&& txn.tx_number == t
                &&& txn.date_as_string@ == (if row.len() > 0 {
                    row[0]@
                } else {
                    Seq::<char>::empty()
                })
                &&& txn.user_memo@ == (if row.len() > 2 {
                    row[2]@
                } else {
                    Seq::<char>::empty()
                })
                &&& row.len() > 1 ==> proceeds[t - 1] == Some(txn.proceeds)
                &&& row.len() <= 1 ==> txn.proceeds == Dec::zero_spec()
                &&& txn.date.day_num() == row_day(row, iso_date_style, separator)
            }
    &&& forall|k: u32| #[trigger]
            ars.contains_key(k) ==> {
                let t = ars[k].tx_key;
                let row = records[first + t - 1]@;
                let keys = txns[t].action_record_idx_vec@;
                &&& keys.contains(k)
                &&& field_outgoing(row, ars[k].account_key + 2) ==> keys[0] == k
                &&& ars[k].self_ar_key == k
                &&& crate::dec::places8(ars[k].amount)
                &&& 1 <= ars[k].tx_key <= records.len() - first
                &&& ar_from_row(
                    ars[k],
                    records[first + ars[k].tx_key - 1]@,
                    ars[k].tx_key,
                )
            }
}

/// Creates the accounts that the header rows describe: the first row (`header1`) holds
/// account numbers, which must count up from 1 starting in the fourth column; the next
/// three rows hold each account's name, ticker and margin value.  With fewer than three
/// rows after the first, no account is created.
pub fn import_accounts(
    header1: &Vec<String>,
    records: &Vec<Vec<String>>,
    raw_acct_map: &mut HashMap<u16, RawAccount>,
    acct_map: &mut HashMap<u16, Account>,
) -> (r: Result<(), CryptoolsError>)
    requires
        old(raw_acct_map)@ == Map::<u16, RawAccount>::empty(),
        old(acct_map)@ == Map::<u16, Account>::empty(),
        header1@.len() <= 65538,
    ensures
        r is Ok ==> accounts_imported(header1@, records@, final(raw_acct_map)@, final(acct_map)@),
        r is Ok <==> (records@.len() < 3 || (header1@.len() >= 3 && forall|c: int|
            0 <= c < header1@.len() - 3 ==> #[trigger] account_column_ok(header1@, records@, c))),
        r is Ok && records@.len() < 3 ==> final(raw_acct_map)@ == Map::<u16, RawAccount>::empty()
            && final(acct_map)@ == Map::<u16, Account>::empty(),
        r is Ok && records@.len() >= 3 ==> forall|c: int|
            0 <= c < header1@.len() - 3 ==> {
                &&& final(raw_acct_map)@.contains_key(#[trigger] ((c + 1) as u16))
                &&& account_of_column(records@, c, final(raw_acct_map)@[((c + 1) as u16)])
            },
        r is Ok ==> forall|a: u16| #[trigger]
            final(raw_acct_map)@.contains_key(a) ==> final(raw_acct_map)@[a].account_num == a
                && 1 <= a <= header1@.len() - 3,
        r is Ok ==> forall|a: u16| #[trigger]
            final(acct_map)@.contains_key(a) <==> final(raw_acct_map)@.contains_key(a),
        r is Ok ==> forall|a: u16| #[trigger]
            final(acct_map)@.contains_key(a) ==> final(acct_map)@[a].raw_key == a
                && final(acct_map)@[a].list_of_lots@.len() == 0,
{
    if records.len() < 3 {
        return Ok(());
    }
    let length = header1.len();
    if length < 3 {
        return Err(CryptoolsError::MalformedRow { row: 1 });
    }
    let mut idx: usize = 0;
    while idx < length - 3
        invariant
            3 <= length == header1@.len(),
            length <= 65538,
            records@.len() >= 3,
            idx <= length - 3,
            forall|c: int| 0 <= c < idx ==> #[trigger] account_column_ok(header1@, records@, c),
            forall|c: int|
                0 <= c < idx ==> {
                    &&& raw_acct_map@.contains_key(#[trigger] ((c + 1) as u16))
                    &&& account_of_column(records@, c, raw_acct_map@[((c + 1) as u16)])
                },
            forall|a: u16| #[trigger]
                raw_acct_map@.contains_key(a) ==> raw_acct_map@[a].account_num == a && 1 <= a
                    <= idx,
            forall|a: u16| #[trigger] acct_map@.contains_key(a) <==> raw_acct_map@.contains_key(a),
            forall|a: u16| #[trigger]
                acct_map@.contains_key(a) ==> acct_map@[a].raw_key == a
                    && acct_map@[a].list_of_lots@.len() == 0,
        decreases length - 3 - idx,
    {
        let ind = idx + 3;
        let column = (ind + 1) as u32;
        let field = trim(header1[ind].as_str());
        let account_num = match parse_u16(field.as_str()) {
            Some(n) => n,
            None => {
                proof {
                    assert(!account_column_ok(header1@, records@, idx as int));
                }
                return Err(CryptoolsError::AccountNumberUnparsable { column });
            },
        };
        if account_num != ((idx + 1) as u16) {
            proof {
                assert(!account_column_ok(header1@, records@, idx as int));
            }
            return Err(CryptoolsError::AccountNumberOutOfOrder { column });
        }
        if ind >= records[0].len() || ind >= records[1].len() || ind >= records[2].len() {
            proof {
                assert(!account_column_ok(header1@, records@, idx as int));
            }
            return Err(CryptoolsError::MalformedRow { row: 2 });
        }
        let name = trim(records[0][ind].as_str());
        let ticker = trim(records[1][ind].as_str());
        let is_margin = match parse_margin_word(records[2][ind].as_str()) {
            Some(b) => b,
            None => {
                proof {
                    assert(!account_column_ok(header1@, records@, idx as int));
                }
                return Err(CryptoolsError::MarginValueUnparsable { column });
            },
        };
        let just_account = RawAccount { account_num, name, ticker, is_margin };
        raw_acct_map.insert(account_num, just_account);
        let account = Account { raw_key: account_num, list_of_lots: Vec::new() };
        acct_map.insert(account_num, account);
        proof {
            assert(account_column_ok(header1@, records@, idx as int));
            assert forall|c: int| 0 <= c < idx + 1 implies {
                &&& raw_acct_map@.contains_key(#[trigger] ((c + 1) as u16))
                &&& account_of_column(records@, c, raw_acct_map@[((c + 1) as u16)])
            } by {
                if c < idx {
                    assert(((c + 1) as u16) != account_num);
                }
            }
        }
        idx = idx + 1;
    }
    Ok(())
}


/// The `chrono` date formats a transaction date is read with: two-digit year first, then
/// four-digit year; ISO style is year-month-day, otherwise month-day-year.
pub open spec fn date_formats(iso_date_style: bool, separator: Seq<char>) -> (Seq<char>, Seq<char>) {
    if iso_date_style {
        ("%y"@ + separator + "%m"@ + separator + "%d"@, "%Y"@ + separator + "%m"@ + separator
            + "%d"@)
    } else {
        ("%m"@ + separator + "%d"@ + separator + "%y"@, "%m"@ + separator + "%d"@ + separator
            + "%Y"@)
    }
}

fn date_format_strings(iso_date_style: bool, separator: &String) -> (r: (String, String))
    ensures
        (r.0@, r.1@) == date_formats(iso_date_style, separator@),
{
    let sep = separator.as_str();
    if iso_date_style {
        let yy = concat(concat(concat(concat("%y", sep).as_str(), "%m").as_str(), sep).as_str(), "%d");
        let yyyy = concat(concat(concat(concat("%Y", sep).as_str(), "%m").as_str(), sep).as_str(), "%d");
        (yy, yyyy)
    } else {
        let yy = concat(concat(concat(concat("%m", sep).as_str(), "%d").as_str(), sep).as_str(), "%y");
        let yyyy = concat(concat(concat(concat("%m", sep).as_str(), "%d").as_str(), sep).as_str(), "%Y");
        (yy, yyyy)
    }
}

/// Action record `ar` is what a non-empty field of row `row` (that of transaction `t`)
/// becomes: the field in its account's column (account 1 in the fourth column), read as a
/// decimal without its commas and rounded to 8 places.
pub open spec fn ar_from_row(ar: ActionRecord, row: Seq<String>, t: u32) -> bool {
    let col = ar.account_key + 2;
    &&& ar.tx_key == t
    &&& 3 <= col < row.len()
    &&& row[col]@ != ""@
    &&& decimal_from_str(without_commas(row[col]@)) matches Some(p) && ar.amount == rounded(
        from_pair(p),
        8,
    )
}

/// The amount field at column `col` of a row reads as zero or less (an outgoing amount).
pub open spec fn field_outgoing(row: Seq<String>, col: int) -> bool {
    decimal_from_str(without_commas(row[col]@)) matches Some(p) && p.0 <= 0
}

/// The day number of a transaction row's date: read with the two-digit year format when
/// it reads so, else with the four-digit one.
pub open spec fn row_day(row: Seq<String>, iso_date_style: bool, separator: Seq<char>) -> int {
    let date = if row.len() > 0 {
        row[0]@
    } else {
        Seq::<char>::empty()
    };
    let fmts = date_formats(iso_date_style, separator);
    if date_parses(date, fmts.0) {
        naive_date_parse(date, fmts.0)->0
    } else {
        naive_date_parse(date, fmts.1)->0
    }
}

/// `s` reads as a date in format `fmt`, within the range of dates.
pub open spec fn date_parses(s: Seq<char>, fmt: Seq<char>) -> bool {
    naive_date_parse(s, fmt) matches Some(d) && -MAX_DAYS_FROM_CE <= d <= MAX_DAYS_FROM_CE
}

/// A transaction row cannot be imported (`p` being its proceeds, parsed): it has a
/// proceeds field that does not parse, an amount in a column past the last account
/// number or that does not parse (commas aside), or a date that reads in neither the
/// two-digit nor the four-digit year format.
pub open spec fn row_fails(row: Seq<String>, p: Option<Dec>, iso_date_style: bool, separator: Seq<char>) -> bool {
    let date = if row.len() > 0 {
        row[0]@
    } else {
        Seq::<char>::empty()
    };
    let fmts = date_formats(iso_date_style, separator);
    ||| row.len() > 1 && p is None
    ||| exists|idx: int|
        3 <= idx < row.len() && (#[trigger] row[idx])@ != Seq::<char>::empty() && (idx - 2 > 65535
            || decimal_from_str(without_commas(row[idx]@)) is None)
    ||| !date_parses(date, fmts.0) && !date_parses(date, fmts.1)
}

/// The number of fields of the first `n` transaction rows (from row `first` on).
pub open spec fn cells_upto(records: Seq<Vec<String>>, first: int, n: int) -> int
    decreases n,
{
    if n <= 0 {
        0
    } else {
        cells_upto(records, first, n - 1) + records[first + n - 1]@.len()
    }
}

proof fn lemma_cells_mono(records: Seq<Vec<String>>, first: int, n: int, m: int)
    requires
        0 <= n <= m,
    ensures
        cells_upto(records, first, n) <= cells_upto(records, first, m),
    decreases m - n,
{
    if n < m {
        lemma_cells_mono(records, first, n, m - 1);
    }
}

/// Creates a transaction for each row from row `first` on, numbered from 1 in row order, and an action
/// record for each non-empty account field of a row (numbered from 1 across rows).  The
/// first field of a row is the date, the second the value in the home currency (given
/// already parsed in `proceeds`, one per row), the third a memo; the account fields
/// follow, the first being account 1.  Amounts may hold commas and are rounded to 8
/// places.  A transaction lists its outgoing action record first.
pub fn import_transactions(
    records: &Vec<Vec<String>>,
    first: usize,
    proceeds: &Vec<Option<Dec>>,
    iso_date_style: bool,
    separator: &String,
    action_records: &mut HashMap<u32, ActionRecord>,
    txns_map: &mut HashMap<u32, Transaction>,
) -> (r: Result<(), CryptoolsError>)
    requires
        old(action_records)@ == Map::<u32, ActionRecord>::empty(),
        old(txns_map)@ == Map::<u32, Transaction>::empty(),
        first <= records@.len(),
        records@.len() - first == proceeds@.len(),
        records@.len() < u32::MAX,
    ensures
        r is Ok ==> rows_imported(
            records@,
            first,
            proceeds@,
            iso_date_style,
            separator@,
            final(action_records)@,
            final(txns_map)@,
        ),
        r is Ok ==> numbered_in_file_order(final(action_records)@),
        r is Ok ==> final(txns_map)@.len() == (records@.len() - first),
        r is Ok ==> forall|t: u32| #[trigger]
            final(txns_map)@.contains_key(t) <==> 1 <= t <= (records@.len() - first),
        r is Ok ==> forall|t: u32|
            1 <= t <= (records@.len() - first) ==> {
                let row = records@[first + t - 1]@;
                let txn = #[trigger] final(txns_map)@[t];
                &&& txn.tx_number == t
                &&& txn.date_as_string@ == (if row.len() > 0 {
                    row[0]@
                } else {
                    Seq::<char>::empty()
                })
                &&& txn.user_memo@ == (if row.len() > 2 {
                    row[2]@
                } else {
                    Seq::<char>::empty()
                })
                &&& row.len() > 1 ==> proceeds@[t - 1] == Some(txn.proceeds)
                &&& row.len() <= 1 ==> txn.proceeds == Dec::zero_spec()
                &&& txn.date.day_num() == row_day(row, iso_date_style, separator@)
            },
        r is Ok ==> forall|k: u32| #[trigger]
            final(action_records)@.contains_key(k) ==> {
                let t = final(action_records)@[k].tx_key;
                let row = records@[first + t - 1]@;
                let keys = final(txns_map)@[t].action_record_idx_vec@;
                &&& keys.contains(k)
                &&& field_outgoing(row, final(action_records)@[k].account_key + 2) ==> keys[0] == k
                &&& final(action_records)@[k].self_ar_key == k
                &&& crate::dec::places8(final(action_records)@[k].amount)
                &&& 1 <= final(action_records)@[k].tx_key <= records@.len() - first
                &&& ar_from_row(
                    final(action_records)@[k],
                    records@[first + final(action_records)@[k].tx_key - 1]@,
                    final(action_records)@[k].tx_key,
                )
            },
        (exists|t: int|
            0 <= t < records@.len() - first && #[trigger] row_fails(
                records@[first + t]@,
                proceeds@[t],
                iso_date_style,
                separator@,
            )) ==> r is Err,
        r is Err ==> (exists|t: int|
            0 <= t < records@.len() - first && #[trigger] row_fails(
                records@[first + t]@,
                proceeds@[t],
                iso_date_style,
                separator@,
            )) || cells_upto(records@, first as int, records@.len() - first) >= u32::MAX,
{
    let mut this_tx_number: u32 = 0;
    let mut this_ar_number: u32 = 0;
    let mut r: usize = 0;
    while r < records.len() - first
        invariant
            first <= records@.len(),
            r <= (records@.len() - first) == proceeds@.len(),
            records@.len() < u32::MAX,
            this_tx_number == r,
            txns_map@.len() == r,
            forall|t: u32| #[trigger] txns_map@.contains_key(t) <==> 1 <= t <= r,
            forall|t: u32|
                1 <= t <= r ==> {
                    let row = records@[first + t - 1]@;
                    let txn = #[trigger] txns_map@[t];
                    &&& txn.tx_number == t
                    &&& txn.date_as_string@ == (if row.len() > 0 {
                        row[0]@
                    } else {
                        Seq::<char>::empty()
                    })
                    &&& txn.user_memo@ == (if row.len() > 2 {
                        row[2]@
                    } else {
                        Seq::<char>::empty()
                    })
                    &&& row.len() > 1 ==> proceeds@[t - 1] == Some(txn.proceeds)
                    &&& row.len() <= 1 ==> txn.proceeds == Dec::zero_spec()
                    &&& txn.date.day_num() == row_day(row, iso_date_style, separator@)
                },
            forall|k: u32| #[trigger]
                action_records@.contains_key(k) ==> {
                    let t = action_records@[k].tx_key;
                    let row = records@[first + t - 1]@;
                    let keys = txns_map@[t].action_record_idx_vec@;
                    &&& keys.contains(k)
                    &&& field_outgoing(row, action_records@[k].account_key + 2) ==> keys[0] == k
                    &&& action_records@[k].self_ar_key == k
                    &&& crate::dec::places8(action_records@[k].amount)
                    &&& 1 <= k <= this_ar_number
                    &&& 1 <= action_records@[k].tx_key <= r
                    &&& ar_from_row(
                        action_records@[k],
                        records@[first + action_records@[k].tx_key - 1]@,
                        action_records@[k].tx_key,
                    )
                },
            numbered_in_file_order(action_records@),
            this_ar_number <= cells_upto(records@, first as int, r as int),
            forall|t: int|
                0 <= t < r ==> !#[trigger] row_fails(
                    records@[first + t]@,
                    proceeds@[t],
                    iso_date_style,
                    separator@,
                ),
        decreases (records@.len() - first) - r,
    {
        let record = &records[first + r];
        this_tx_number = this_tx_number + 1;
        let mut this_tx_date = string_from("");
        let mut proceeds_parsed = Dec::zero();
        let mut this_memo = string_from("");
        let mut action_records_map_keys_vec: Vec<u32> = Vec::new();
        let mut outgoing_ar: Option<ActionRecord> = None;
        let mut incoming_ar: Option<ActionRecord> = None;
        proof {
            reveal_strlit("");
        }
        let ghost start = this_ar_number;
        let mut idx: usize = 0;
        while idx < record.len()
            invariant
                numbered_in_file_order(action_records@),
                forall|k: u32| #[trigger] action_records@.contains_key(k) ==> k <= start,
                start <= this_ar_number,
                forall|k: u32| #[trigger] action_records@.contains_key(k) ==> action_records@[k].tx_key < this_tx_number,
                incoming_ar matches Some(a) ==> start < a.self_ar_key && a.account_key + 2 < idx
                    && a.tx_key == this_tx_number,
                outgoing_ar matches Some(a) ==> start < a.self_ar_key && a.account_key + 2 < idx
                    && a.tx_key == this_tx_number,
                incoming_ar matches Some(a) ==> (outgoing_ar matches Some(b) ==> a.self_ar_key != b.self_ar_key
                    && (a.self_ar_key < b.self_ar_key <==> a.account_key < b.account_key)),
                idx <= record@.len(),
                *record == records@[first + r],
                first <= records@.len(),
                r < (records@.len() - first) == proceeds@.len(),
                this_tx_date@ == (if idx > 0 {
                    record@[0]@
                } else {
                    Seq::<char>::empty()
                }),
                this_memo@ == (if idx > 2 {
                    record@[2]@
                } else {
                    Seq::<char>::empty()
                }),
                idx > 1 ==> proceeds@[r as int] == Some(proceeds_parsed),
                idx <= 1 ==> proceeds_parsed == Dec::zero_spec(),
                incoming_ar matches Some(a) ==> a.self_ar_key <= this_ar_number && 1 <= a.self_ar_key
                    && crate::dec::places8(a.amount) && ar_from_row(a, record@, this_tx_number)
                    && action_records_map_keys_vec@.contains(a.self_ar_key) && !field_outgoing(
                    record@,
                    a.account_key + 2,
                ),
                outgoing_ar matches Some(a) ==> action_records_map_keys_vec@.len() > 0
                    && action_records_map_keys_vec@[0] == a.self_ar_key && field_outgoing(
                    record@,
                    a.account_key + 2,
                ),
                outgoing_ar matches Some(a) ==> a.self_ar_key <= this_ar_number && 1 <= a.self_ar_key
                    && crate::dec::places8(a.amount) && ar_from_row(a, record@, this_tx_number),
                this_tx_number == r + 1,
                forall|k: u32| #[trigger]
                    action_records@.contains_key(k) ==> {
                        &&& action_records@[k].self_ar_key == k
                        &&& crate::dec::places8(action_records@[k].amount)
                        &&& 1 <= k <= this_ar_number
                        &&& 1 <= action_records@[k].tx_key <= r
                        &&& ar_from_row(
                            action_records@[k],
                            records@[first + action_records@[k].tx_key - 1]@,
                            action_records@[k].tx_key,
                        )
                    },
                this_ar_number <= cells_upto(records@, first as int, r as int) + idx,
                this_ar_number < u32::MAX || idx >= 0,
                forall|t: int|
                    0 <= t < r ==> !#[trigger] row_fails(
                        records@[first + t]@,
                        proceeds@[t],
                        iso_date_style,
                        separator@,
                    ),
                idx > 1 && record@.len() > 1 ==> proceeds@[r as int] is Some,
                forall|c: int|
                    3 <= c < idx ==> !((#[trigger] record@[c])@ != Seq::<char>::empty() && (c - 2
                        > 65535 || decimal_from_str(without_commas(record@[c]@)) is None)),
            decreases record@.len() - idx,
        {
            let field = record[idx].as_str();
            if idx == 0 {
                this_tx_date = string_from(field);
            } else if idx == 1 {
                proceeds_parsed = match proceeds[r] {
                    Some(x) => x,
                    None => {
                        proof {
                            assert(row_fails(records@[first + r as int]@, proceeds@[r as int], iso_date_style, separator@));
                        }
                        return Err(CryptoolsError::ProceedsUnparsable { tx_number: this_tx_number });
                    },
                };
            } else if idx == 2 {
                this_memo = string_from(field);
            } else if !str_eq(field, "") {
                if this_ar_number == u32::MAX || idx - 2 > 65535 {
                    proof {
                        if idx - 2 > 65535 {
                            reveal_strlit("");
                            assert(""@ =~= Seq::<char>::empty());
                            assert(field@ == record@[idx as int]@);
                            assert(record@[idx as int]@ != Seq::<char>::empty());
                            assert(row_fails(records@[first + r as int]@, proceeds@[r as int], iso_date_style, separator@));
                        } else {
                            lemma_cells_mono(records@, first as int, r + 1, records@.len() - first);
                            assert(cells_upto(records@, first as int, r + 1) == cells_upto(records@, first as int, r as int) + record@.len());
                        }
                    }
                    return Err(CryptoolsError::MalformedRow { row: this_tx_number });
                }
                this_ar_number = this_ar_number + 1;
                let account_key = (idx - 2) as u16;
                let amount_str = remove_commas(field);
                let amount = match Dec::parse(amount_str.as_str()) {
                    Some(x) => x,
                    None => {
                        proof {
                            reveal_strlit("");
                            assert(""@ =~= Seq::<char>::empty());
                            assert(field@ == record@[idx as int]@);
                            assert(record@[idx as int]@ != Seq::<char>::empty());
                            assert(row_fails(records@[first + r as int]@, proceeds@[r as int], iso_date_style, separator@));
                        }
                        return Err(CryptoolsError::AmountUnparsable { tx_number: this_tx_number });
                    },
                };
                amount.reveal_valid();
                let amount_rounded = amount.round_dp(8);
                proof {
                    crate::dec::lemma_round8(amount, amount_rounded);
                    crate::dec::lemma_spec_new_self(amount);
                }
                let action_record = ActionRecord {
                    account_key,
                    amount: amount_rounded,
                    tx_key: this_tx_number,
                    self_ar_key: this_ar_number,
                };
                let ghost keys_before = action_records_map_keys_vec@;
                if amount.is_positive() {
                    incoming_ar = Some(action_record);
                    action_records_map_keys_vec.push(this_ar_number);
                    proof {
                        assert(action_records_map_keys_vec@[keys_before.len() as int] == this_ar_number);
                        if keys_before.len() > 0 {
                            assert(action_records_map_keys_vec@[0] == keys_before[0]);
                        }
                    }
                } else {
                    let ghost prev_in = incoming_ar;
                    outgoing_ar = Some(action_record);
                    action_records_map_keys_vec.insert(0, this_ar_number);
                    proof {
                        if let Some(a) = prev_in {
                            let j = choose|j: int| 0 <= j < keys_before.len() && keys_before[j] == a.self_ar_key;
                            assert(action_records_map_keys_vec@[j + 1] == a.self_ar_key);
                        }
                    }
                }
            }
            proof {
                reveal_strlit("");
                assert(""@ =~= Seq::<char>::empty());
                assert(field@ == record@[idx as int]@);
            }
            idx = idx + 1;
        }
        if let Some(ic) = incoming_ar {
            let x = ic.self_ar_key;
            let ghost before_ic = action_records@;
            action_records.insert(x, ic);
            proof {
                assert forall|k1: u32, k2: u32|
                    #[trigger] action_records@.contains_key(k1) && #[trigger] action_records@.contains_key(k2)
                        && k1 < k2 implies ar_before(action_records@[k1], action_records@[k2]) by {
                    if k2 == x {
                        assert(before_ic.contains_key(k1));
                    } else if k1 != x {
                        assert(before_ic.contains_key(k1) && before_ic.contains_key(k2));
                    }
                }
            }
        }
        if let Some(og) = outgoing_ar {
            let y = og.self_ar_key;
            let ghost before_og = action_records@;
            action_records.insert(y, og);
            proof {
                assert forall|k1: u32, k2: u32|
                    #[trigger] action_records@.contains_key(k1) && #[trigger] action_records@.contains_key(k2)
                        && k1 < k2 implies ar_before(action_records@[k1], action_records@[k2]) by {
                    if k2 == y {
                        if k1 != y && before_og.contains_key(k1) && k1 > start {
                            assert(incoming_ar is Some);
                        }
                    } else if k1 == y {
                        assert(before_og.contains_key(k2));
                        if k2 > start {
                            assert(incoming_ar is Some);
                        }
                    } else {
                        assert(before_og.contains_key(k1) && before_og.contains_key(k2));
                    }
                }
            }
        }
        let (format_yy, format_yyyy) = date_format_strings(iso_date_style, separator);
        let tx_date = match Date::parse_from_str(this_tx_date.as_str(), format_yy.as_str()) {
            Some(d) => d,
            None => match Date::parse_from_str(this_tx_date.as_str(), format_yyyy.as_str()) {
                Some(d) => d,
                None => {
                    proof {
                        assert(row_fails(records@[first + r as int]@, proceeds@[r as int], iso_date_style, separator@));
                    }
                    return Err(CryptoolsError::DateUnparsable { tx_number: this_tx_number });
                },
            },
        };
        let transaction = Transaction {
            tx_number: this_tx_number,
            date_as_string: this_tx_date,
            date: tx_date,
            user_memo: this_memo,
            proceeds: proceeds_parsed,
            action_record_idx_vec: action_records_map_keys_vec,
        };
        txns_map.insert(this_tx_number, transaction);
        proof {
            assert(cells_upto(records@, first as int, r + 1) == cells_upto(records@, first as int, r as int) + record@.len());
            assert(!row_fails(records@[first + r as int]@, proceeds@[r as int], iso_date_style, separator@));
        }
        r = r + 1;
    }
    Ok(())
}

} // verus!
