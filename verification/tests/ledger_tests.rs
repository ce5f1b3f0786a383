use std::collections::HashMap;

use crptls::account::{Account, Movement, RawAccount, Term};
use crptls::csv_import_accts_txns::read_csv_rows;
use crptls::core_functions::{import_and_process_final, ImportProcessParameters};
use crptls::costing_method::InventoryCostingMethod;
use crptls::date::{Date, TimeOfDay};
use crptls::dec::Dec;
use crptls::errors::CryptoolsError;
use crptls::export_je::prepare_non_lk_journal_entries;
use crptls::reports::{
    account_lot_detail, account_sums, all_8949_rows, all_mvmt_details, all_mvmt_summaries,
    amount_text, auto_memo_of, Acquired,
};
use crptls::transaction::{ActionRecord, AutoMemo, Transaction, TxType};

type Ledger = (
    HashMap<u16, RawAccount>,
    HashMap<u16, Account>,
    HashMap<u32, ActionRecord>,
    HashMap<u32, Transaction>,
);

fn d(s: &str) -> Dec {
    Dec::parse(s).unwrap()
}

fn same(a: &Dec, b: &str) -> bool {
    a.eq_value(&d(b))
}

fn row(cells: &[&str]) -> Vec<String> {
    cells.iter().map(|c| c.to_string()).collect()
}

fn settings(method: InventoryCostingMethod) -> ImportProcessParameters {
    ImportProcessParameters {
        input_file_date_separator: "-".to_string(),
        input_file_uses_iso_date_style: false,
        home_currency: "USD".to_string(),
        costing_method: method,
        lk_treatment_enabled: false,
        lk_cutoff_date: Date::parse_from_str("1-1-1", "%y-%m-%d").unwrap(),
        lk_basis_date_preserved: true,
        should_export: false,
        export_path: ".".to_string(),
        print_menu: false,
        journal_entry_export: false,
    }
}

fn header() -> Vec<String> {
    row(&["txDate", "proceeds", "memo", "1", "2", "3", "4", "5"])
}

fn account_rows() -> Vec<Vec<String>> {
    vec![
        row(&["", "", "", "Bank", "Exchange", "Wallet", "Exchange", "Simplewallet"]),
        row(&["", "", "", "USD", "BTC", "BTC", "XMR", "XMR"]),
        row(&["", "", "", "non", "non", "non", "non", "non"]),
    ]
}

/// The sample ledger of the input file documentation.
fn sample_records() -> (Vec<Vec<String>>, Vec<Option<Dec>>) {
    let txns: Vec<(&str, &str, &str, [&str; 5])> = vec![
        ("2-1-16", "0", "Bought", ["-220", "0.25", "", "", ""]),
        ("3-1-16", "250", "Traded", ["", "-0.25", "", "180", ""]),
        ("4-1-16", "0", "Transferred", ["", "", "", "-90", "90"]),
        ("5-1-16", "0", "Transferred", ["", "", "", "90", "-90"]),
        ("5-2-16", "160", "Traded", ["", "0.3", "", "-90", ""]),
        ("6-1-16", "0", "Transferred", ["", "-0.3", "0.3", "", ""]),
        ("7-1-16", "200", "Traded", ["", "0.7", "", "-90", ""]),
        ("8-1-16", "0", "Transferred", ["", "0.3", "-0.3", "", ""]),
        ("9-1-16", "400", "Traded", ["", "-0.5", "", "200", ""]),
        ("10-1-16", "900", "Traded", ["", "1", "", "-200", ""]),
        ("11-1-16", "0", "Transferred", ["", "-1.5", "1.5", "", ""]),
        ("12-1-16", "2000", "Traded", ["", "", "-1.5", "", "400"]),
    ];
    let mut records = account_rows();
    let mut proceeds = Vec::new();
    for (date, p, memo, amts) in txns {
        let mut r = row(&[date, p, memo]);
        for a in amts.iter() {
            r.push(a.to_string());
        }
        records.push(r);
        proceeds.push(Dec::parse(p));
    }
    (records, proceeds)
}

fn sample_ledger(method: InventoryCostingMethod) -> Ledger {
    let (records, proceeds) = sample_records();
    import_and_process_final(&header(), &records, &proceeds, &settings(method)).unwrap()
}

fn small_ledger(rows: Vec<Vec<&str>>) -> Result<Ledger, CryptoolsError> {
    let mut records = vec![
        row(&["", "", "", "Bank", "Exchange"]),
        row(&["", "", "", "USD", "BTC"]),
        row(&["", "", "", "no", "no"]),
    ];
    let mut proceeds = Vec::new();
    for r in rows.iter() {
        records.push(row(r));
        proceeds.push(Dec::parse(&r[1].replace(",", "")));
    }
    let hdr = row(&["txDate", "proceeds", "memo", "1", "2"]);
    import_and_process_final(
        &hdr,
        &records,
        &proceeds,
        &settings(InventoryCostingMethod::LIFObyLotCreationDate),
    )
}

#[test]
fn sample_ledger_imports_every_transaction() {
    let (raws, accts, ars, txns) = sample_ledger(InventoryCostingMethod::LIFObyLotCreationDate);
    assert_eq!(raws.len(), 5);
    assert_eq!(accts.len(), 5);
    assert_eq!(txns.len(), 12);
    assert_eq!(ars.len(), 24);
    assert_eq!(raws[&2].ticker, "BTC");
    assert_eq!(txns[&2].user_memo, "Traded");
}

#[test]
fn movements_add_up_to_their_action_records() {
    let (_raws, accts, ars, _txns) = sample_ledger(InventoryCostingMethod::FIFObyLotBasisDate);
    for (k, ar) in ars.iter() {
        let acct = &accts[&ar.account_key];
        let mut total = Dec::zero();
        for lot in acct.list_of_lots.iter() {
            for m in lot.movements.iter() {
                if m.action_record_key == *k {
                    total = total.checked_add(&m.amount).unwrap();
                }
            }
        }
        assert!(total.eq_value(&ar.amount), "action record {}", k);
    }
}

#[test]
fn movements_know_their_lot() {
    let (_raws, accts, _ars, _txns) = sample_ledger(InventoryCostingMethod::LIFObyLotBasisDate);
    for (_, acct) in accts.iter() {
        for (i, lot) in acct.list_of_lots.iter().enumerate() {
            assert_eq!(lot.lot_number as usize, i + 1);
            for m in lot.movements.iter() {
                assert_eq!(m.lot_num, lot.lot_number);
            }
        }
    }
}

#[test]
fn account_balances_of_the_sample() {
    let (raws, accts, _ars, _txns) = sample_ledger(InventoryCostingMethod::LIFObyLotCreationDate);
    let sums = account_sums(&raws, &accts).unwrap();
    assert_eq!(sums.len(), 5);
    assert_eq!(sums[0].name, "Bank");
    assert!(same(&sums[0].balance, "-220"));
    assert!(same(&sums[1].balance, "0"));
    assert!(same(&sums[2].balance, "0"));
    assert!(same(&sums[3].balance, "0"));
    assert!(same(&sums[4].balance, "400"));
    assert_eq!(sums[4].nonzero_lots, 1);
    assert_eq!(amount_text(&sums[1].balance), "0.00");
    assert_eq!(amount_text(&sums[4].balance), sums[4].balance.to_string());
}

#[test]
fn first_trade_realizes_a_short_term_gain() {
    let (raws, accts, ars, txns) = sample_ledger(InventoryCostingMethod::LIFObyLotCreationDate);
    let details = all_mvmt_details("USD", &ars, &raws, &accts, &txns).unwrap();
    assert_eq!(details.len(), 12);
    let rows = &details[1];
    assert_eq!(rows.len(), 1);
    let r = &rows[0];
    assert_eq!(r.txn_num, 2);
    assert_eq!(r.ticker, "BTC");
    assert_eq!(r.tx_type_text, "Exchange");
    assert_eq!(r.term, Term::ST);
    assert!(same(&r.amount, "-0.25"));
    assert!(same(&r.proceeds_lk, "250"));
    assert!(same(&r.cost_basis_lk, "-220"));
    assert!(same(&r.gain_loss_lk, "30"));
    assert!(same(&r.income, "0"));
    assert!(same(&r.expense, "0"));
}

#[test]
fn transfers_to_self_are_not_listed() {
    let (raws, accts, ars, txns) = sample_ledger(InventoryCostingMethod::LIFObyLotCreationDate);
    let details = all_mvmt_details("USD", &ars, &raws, &accts, &txns).unwrap();
    assert_eq!(details[2].len(), 0);
    let summaries = all_mvmt_summaries("USD", &ars, &raws, &accts, &txns).unwrap();
    assert_eq!(summaries[2].len(), 0);
    assert_eq!(summaries[0].len(), 0);
}

#[test]
fn summary_and_8949_of_the_first_trade() {
    let (raws, accts, ars, txns) = sample_ledger(InventoryCostingMethod::LIFObyLotCreationDate);
    let summaries = all_mvmt_summaries("USD", &ars, &raws, &accts, &txns).unwrap();
    let s = &summaries[1];
    assert_eq!(s.len(), 1);
    assert_eq!(s[0].term, Term::ST);
    assert!(same(&s[0].gain_loss, "30"));
    assert!(same(&s[0].proceeds, "250"));
    let f = all_8949_rows("USD", &ars, &raws, &accts, &txns).unwrap();
    let r = &f[1][0];
    assert_eq!(r.txn_num, 2);
    assert!(same(&r.gain_loss, "30"));
    match r.acquired {
        Acquired::On(date) => assert_eq!(date.to_string(), "2016-02-01"),
        Acquired::Various => panic!("one lot"),
    }
    assert_eq!(r.sold.to_string(), "2016-03-01");
}

#[test]
fn journal_entries_balance() {
    let (raws, accts, ars, txns) = sample_ledger(InventoryCostingMethod::LIFObyLotCreationDate);
    let entries =
        prepare_non_lk_journal_entries(&settings(InventoryCostingMethod::LIFObyLotCreationDate), &ars, &raws, &accts, &txns)
            .unwrap();
    assert_eq!(entries.len(), 12);
    for (i, e) in entries.iter().enumerate() {
        assert_eq!(e.txn_num as usize, i + 1);
    }
    assert!(entries[1].debits.eq_value(&entries[1].credits));
}

#[test]
fn journal_entry_of_a_trade() {
    let (raws, accts, ars, txns) = sample_ledger(InventoryCostingMethod::LIFObyLotCreationDate);
    let entries =
        prepare_non_lk_journal_entries(&settings(InventoryCostingMethod::LIFObyLotCreationDate), &ars, &raws, &accts, &txns)
            .unwrap();
    let e = &entries[1];
    assert_eq!(e.lines.len(), 3);
    assert_eq!(e.lines[0].label, "Exchange - XMR (Non-margin) (#4)");
    assert!(same(e.lines[0].debit.as_ref().unwrap(), "250"));
    assert!(e.lines[0].credit.is_none());
    assert_eq!(e.lines[1].label, "Exchange - BTC (Non-margin) (#2)");
    assert!(e.lines[1].debit.is_none());
    assert!(same(e.lines[1].credit.as_ref().unwrap(), "220"));
    assert!(e.lines[2].label.starts_with("Short-term gain disposing "));
    assert!(same(&d(&e.lines[2].label["Short-term gain disposing ".len()..]), "0.25"));
    assert!(e.lines[2].debit.is_none());
    assert!(same(e.lines[2].credit.as_ref().unwrap(), "30"));
    assert!(same(&e.debits, "250"));
    assert!(same(&e.credits, "250"));
}

#[test]
fn journal_entry_of_a_transfer_has_only_bases() {
    let (raws, accts, ars, txns) = sample_ledger(InventoryCostingMethod::LIFObyLotCreationDate);
    let entries =
        prepare_non_lk_journal_entries(&settings(InventoryCostingMethod::LIFObyLotCreationDate), &ars, &raws, &accts, &txns)
            .unwrap();
    let e = &entries[2];
    assert_eq!(e.lines.len(), 2);
    assert_eq!(e.lines[0].label, "Simplewallet - XMR (Non-margin) (#5)");
    assert_eq!(e.lines[1].label, "Exchange - XMR (Non-margin) (#4)");
    assert!(e.debits.eq_value(&e.credits));
}

#[test]
fn auto_memo_of_a_trade() {
    let (raws, accts, ars, txns) = sample_ledger(InventoryCostingMethod::LIFObyLotCreationDate);
    match auto_memo_of("USD", 2, &ars, &raws, &accts, &txns).unwrap() {
        AutoMemo::Paid { og_ticker, ic_ticker, proceeds, .. } => {
            assert_eq!(og_ticker, "BTC");
            assert_eq!(ic_ticker, "XMR");
            assert!(same(&proceeds, "250"));
        }
        other => panic!("{:?}", other),
    }
    match auto_memo_of("USD", 3, &ars, &raws, &accts, &txns).unwrap() {
        AutoMemo::Transferred { og_ticker, .. } => assert_eq!(og_ticker, "XMR"),
        other => panic!("{:?}", other),
    }
}

#[test]
fn lot_detail_lists_every_movement() {
    let (raws, accts, ars, txns) = sample_ledger(InventoryCostingMethod::LIFObyLotCreationDate);
    let lots = account_lot_detail("USD", 2, &ars, &raws, &accts, &txns).unwrap();
    assert_eq!(lots.len(), accts[&2].list_of_lots.len());
    let first = &lots[0];
    assert_eq!(first[0].txn_num, 1);
    assert_eq!(first[0].tx_type, TxType::Exchange);
    assert!(same(&first[0].amount, "0.25"));
    let bank = account_lot_detail("USD", 1, &ars, &raws, &accts, &txns).unwrap();
    assert!(same(&bank[0][0].gain_loss, "0"));
}

#[test]
fn income_is_minus_the_proceeds_of_an_incoming_flow() {
    let (raws, accts, ars, txns) = small_ledger(vec![vec!["1-1-16", "100", "Mined", "", "0.5"]]).unwrap();
    let details = all_mvmt_details("USD", &ars, &raws, &accts, &txns).unwrap();
    let r = &details[0][0];
    assert_eq!(r.tx_type_text, "Inflow");
    assert!(same(&r.income, "100"));
    assert!(same(&r.proceeds_lk, "0"));
    let f = all_8949_rows("USD", &ars, &raws, &accts, &txns).unwrap();
    assert_eq!(f[0].len(), 0);
}

#[test]
fn outgoing_basis_is_its_share_of_the_lot_basis() {
    let (_raws, accts, _ars, _txns) = small_ledger(vec![
        vec!["1-1-16", "0", "Bought", "-300", "1"],
        vec!["2-1-16", "200", "Sold", "200", "-0.4"],
        vec!["3-1-16", "90", "Sold", "90", "-0.3"],
    ])
    .unwrap();
    let lot = &accts[&2].list_of_lots[0];
    assert_eq!(lot.movements.len(), 3);
    assert!(same(&lot.movements[0].cost_basis, "300"));
    assert!(same(&lot.movements[1].cost_basis, "-120"));
    assert!(same(&lot.movements[2].cost_basis, "-90"));
    assert!(same(&lot.movements[1].proceeds, "200"));
}

#[test]
fn transfer_to_oneself_carries_the_basis_over() {
    let (_raws, accts, _ars, _txns) = sample_ledger(InventoryCostingMethod::LIFObyLotCreationDate);
    let wallet_lot = &accts[&5].list_of_lots[0];
    assert!(same(&wallet_lot.movements[0].amount, "90"));
    assert!(same(&wallet_lot.movements[0].cost_basis, "125"));
    let exchange_lot = &accts[&4].list_of_lots[0];
    assert!(same(&exchange_lot.movements[0].cost_basis, "250"));
    assert!(same(&exchange_lot.movements[1].cost_basis, "-125"));
}

#[test]
fn like_kind_treatment_carries_the_basis_over() {
    let (records, proceeds) = sample_records();
    let mut s = settings(InventoryCostingMethod::LIFObyLotCreationDate);
    s.lk_treatment_enabled = true;
    s.lk_cutoff_date = Date::parse_from_str("17-12-31", "%y-%m-%d").unwrap();
    let (_raws, accts, _ars, _txns) = import_and_process_final(&header(), &records, &proceeds, &s).unwrap();
    let exchange_lot = &accts[&4].list_of_lots[0];
    assert!(same(&exchange_lot.movements[0].cost_basis, "250"));
    assert!(same(&exchange_lot.movements[0].cost_basis_lk, "220"));
    assert!(same(&exchange_lot.movements[0].proceeds_lk, "-220"));
    assert!(same(&exchange_lot.movements[1].cost_basis_lk, "-110"));
    let wallet_lot = &accts[&5].list_of_lots[0];
    assert!(same(&wallet_lot.movements[0].cost_basis_lk, "110"));
}

#[test]
fn expense_is_minus_the_proceeds_of_an_outgoing_flow() {
    let (raws, accts, ars, txns) = small_ledger(vec![
        vec!["1-1-16", "100", "Mined", "", "1"],
        vec!["2-1-16", "60", "Spent", "", "-0.5"],
    ])
    .unwrap();
    let summaries = all_mvmt_summaries("USD", &ars, &raws, &accts, &txns).unwrap();
    let s = &summaries[1][0];
    assert_eq!(s.tx_type_text, "Outflow");
    assert!(same(&s.proceeds, "60"));
    assert!(same(&s.cost_basis, "-50"));
    assert!(same(&s.gain_loss, "10"));
    assert!(same(&s.expense, "-60"));
}

#[test]
fn holding_more_than_a_year_is_long_term() {
    let (raws, accts, ars, txns) = small_ledger(vec![
        vec!["1-1-16", "0", "Bought", "-100", "1"],
        vec!["1-2-17", "300", "Sold", "300", "-1"],
    ])
    .unwrap();
    let summaries = all_mvmt_summaries("USD", &ars, &raws, &accts, &txns).unwrap();
    assert_eq!(summaries[1].len(), 1);
    assert_eq!(summaries[1][0].term, Term::LT);
    assert!(same(&summaries[1][0].gain_loss, "200"));
}

#[test]
fn unparsable_amount_is_refused() {
    let r = small_ledger(vec![vec!["1-1-16", "0", "Bought", "-100", "one"]]);
    assert!(matches!(r, Err(CryptoolsError::AmountUnparsable { tx_number: 1 })));
}

#[test]
fn unparsable_date_is_refused() {
    let r = small_ledger(vec![vec!["2016/01/01", "0", "Bought", "-100", "1"]]);
    assert!(matches!(r, Err(CryptoolsError::DateUnparsable { tx_number: 1 })));
}

#[test]
fn unparsable_proceeds_are_refused() {
    let r = small_ledger(vec![vec!["1-1-16", "lots", "Bought", "-100", "1"]]);
    assert!(matches!(r, Err(CryptoolsError::ProceedsUnparsable { tx_number: 1 })));
}

#[test]
fn two_incoming_amounts_are_refused() {
    let r = small_ledger(vec![vec!["1-1-16", "0", "Both in", "100", "1"]]);
    assert!(r.is_err());
}

fn two_ar_maps(a1: &str, a2: &str, t1: &str, t2: &str, m1: bool, m2: bool) -> (
    HashMap<u32, ActionRecord>,
    HashMap<u16, RawAccount>,
    HashMap<u16, Account>,
    Transaction,
) {
    let mut ars = HashMap::new();
    ars.insert(1, ActionRecord { account_key: 1, amount: d(a1), tx_key: 1, self_ar_key: 1 });
    ars.insert(2, ActionRecord { account_key: 2, amount: d(a2), tx_key: 1, self_ar_key: 2 });
    let mut raws = HashMap::new();
    raws.insert(1, RawAccount { account_num: 1, name: "A".to_string(), ticker: t1.to_string(), is_margin: m1 });
    raws.insert(2, RawAccount { account_num: 2, name: "B".to_string(), ticker: t2.to_string(), is_margin: m2 });
    let mut accts = HashMap::new();
    accts.insert(1, Account { raw_key: 1, list_of_lots: Vec::new() });
    accts.insert(2, Account { raw_key: 2, list_of_lots: Vec::new() });
    let txn = Transaction {
        tx_number: 1,
        date_as_string: "1-1-16".to_string(),
        date: Date::parse_from_str("1-1-16", "%m-%d-%y").unwrap(),
        user_memo: String::new(),
        proceeds: d("0"),
        action_record_idx_vec: vec![1, 2],
    };
    (ars, raws, accts, txn)
}

#[test]
fn same_polarity_is_refused() {
    let (ars, raws, accts, txn) = two_ar_maps("1", "2", "BTC", "XMR", false, false);
    let r = txn.transaction_type(&ars, &raws, &accts);
    assert!(matches!(r, Err(CryptoolsError::SamePolarity { tx_number: 1 })));
}

#[test]
fn kinds_of_two_sided_transactions() {
    let (ars, raws, accts, txn) = two_ar_maps("-1", "2", "BTC", "XMR", false, false);
    assert_eq!(txn.transaction_type(&ars, &raws, &accts).unwrap(), TxType::Exchange);
    let (ars, raws, accts, txn) = two_ar_maps("-1", "1", "BTC", "BTC", false, false);
    assert_eq!(txn.transaction_type(&ars, &raws, &accts).unwrap(), TxType::ToSelf);
    let (ars, raws, accts, txn) = two_ar_maps("-1", "1", "BTC", "BTC_xmr", false, true);
    assert_eq!(txn.transaction_type(&ars, &raws, &accts).unwrap(), TxType::Flow);
}

#[test]
fn margin_exchange_without_underscore_is_refused() {
    let (ars, raws, accts, txn) = two_ar_maps("-1", "2", "BTC", "XMR", true, true);
    let r = txn.get_base_and_quote_raw_acct_keys(&ars, &raws, &accts);
    assert!(matches!(r, Err(CryptoolsError::MarginNoUnderbar { tx_number: 1 })));
    let (ars, raws, accts, txn) = two_ar_maps("-1", "2", "BTC", "XMR_btc", true, true);
    assert_eq!(txn.get_base_and_quote_raw_acct_keys(&ars, &raws, &accts).unwrap(), (1, 2));
}

#[test]
fn spending_what_is_not_held_is_refused() {
    let r = small_ledger(vec![vec!["1-1-16", "10", "Spent", "", "-1"]]);
    assert!(r.is_err());
}

#[test]
fn account_numbers_must_count_up() {
    let hdr = row(&["txDate", "proceeds", "memo", "2"]);
    let records = vec![row(&["", "", "", "Bank"]), row(&["", "", "", "USD"]), row(&["", "", "", "no"])];
    let r = import_and_process_final(&hdr, &records, &Vec::new(), &settings(InventoryCostingMethod::LIFObyLotCreationDate));
    assert!(matches!(r, Err(CryptoolsError::AccountNumberOutOfOrder { .. })));
}

#[test]
fn account_number_must_parse() {
    let hdr = row(&["txDate", "proceeds", "memo", "x"]);
    let records = vec![row(&["", "", "", "Bank"]), row(&["", "", "", "USD"]), row(&["", "", "", "no"])];
    let r = import_and_process_final(&hdr, &records, &Vec::new(), &settings(InventoryCostingMethod::LIFObyLotCreationDate));
    assert!(matches!(r, Err(CryptoolsError::AccountNumberUnparsable { .. })));
}

#[test]
fn margin_value_must_parse() {
    let hdr = row(&["txDate", "proceeds", "memo", "1"]);
    let records = vec![row(&["", "", "", "Bank"]), row(&["", "", "", "USD"]), row(&["", "", "", "maybe"])];
    let r = import_and_process_final(&hdr, &records, &Vec::new(), &settings(InventoryCostingMethod::LIFObyLotCreationDate));
    assert!(matches!(r, Err(CryptoolsError::MarginValueUnparsable { .. })));
}

#[test]
fn missing_account_is_reported() {
    let raws: HashMap<u16, RawAccount> = HashMap::new();
    let mut accts: HashMap<u16, Account> = HashMap::new();
    accts.insert(2, Account { raw_key: 2, list_of_lots: Vec::new() });
    let r = account_sums(&raws, &accts);
    assert!(matches!(r, Err(CryptoolsError::MissingAccount { account_num: 1 })));
}

#[test]
fn costing_methods_agree_on_balances() {
    for m in [
        InventoryCostingMethod::LIFObyLotCreationDate,
        InventoryCostingMethod::LIFObyLotBasisDate,
        InventoryCostingMethod::FIFObyLotCreationDate,
        InventoryCostingMethod::FIFObyLotBasisDate,
    ] {
        let (raws, accts, _ars, _txns) = sample_ledger(m);
        let sums = account_sums(&raws, &accts).unwrap();
        assert!(same(&sums[4].balance, "400"));
        assert!(same(&sums[0].balance, "-220"));
    }
}

fn two_buys_then_a_sale(method: InventoryCostingMethod) -> Ledger {
    let rows = vec![
        vec!["1-1-16", "100", "Bought", "-100", "1"],
        vec!["2-1-16", "200", "Bought", "-200", "1"],
        vec!["3-1-16", "450", "Sold", "", "-1.5"],
    ];
    let mut records = vec![
        row(&["", "", "", "Bank", "Exchange"]),
        row(&["", "", "", "USD", "BTC"]),
        row(&["", "", "", "no", "no"]),
    ];
    let mut proceeds = Vec::new();
    for r in rows.iter() {
        records.push(row(r));
        proceeds.push(Dec::parse(r[1]));
    }
    let hdr = row(&["txDate", "proceeds", "memo", "1", "2"]);
    import_and_process_final(&hdr, &records, &proceeds, &settings(method)).unwrap()
}

fn lot_amounts(accts: &HashMap<u16, Account>, a: u16, li: usize) -> Vec<Dec> {
    accts[&a].list_of_lots[li].movements.iter().map(|m| m.amount).collect()
}

#[test]
fn fifo_takes_from_the_first_lot_first() {
    for method in [InventoryCostingMethod::FIFObyLotCreationDate, InventoryCostingMethod::FIFObyLotBasisDate] {
        let (_raws, accts, _ars, _txns) = two_buys_then_a_sale(method);
        let first = lot_amounts(&accts, 2, 0);
        let second = lot_amounts(&accts, 2, 1);
        assert_eq!(first.len(), 2);
        assert!(same(&first[1], "-1"));
        assert_eq!(second.len(), 2);
        assert!(same(&second[1], "-0.5"));
    }
}

#[test]
fn lifo_takes_from_the_last_lot_first() {
    for method in [InventoryCostingMethod::LIFObyLotCreationDate, InventoryCostingMethod::LIFObyLotBasisDate] {
        let (_raws, accts, _ars, _txns) = two_buys_then_a_sale(method);
        let first = lot_amounts(&accts, 2, 0);
        let second = lot_amounts(&accts, 2, 1);
        assert_eq!(second.len(), 2);
        assert!(same(&second[1], "-1"));
        assert_eq!(first.len(), 2);
        assert!(same(&first[1], "-0.5"));
    }
}

/// A buy into the wallet, a later buy on the exchange, the wallet's coins moved to the
/// exchange, then one coin sold from the exchange.
fn transfer_then_sale(method: InventoryCostingMethod) -> Ledger {
    let rows = vec![
        vec!["1-1-16", "100", "Bought", "-100", "", "1"],
        vec!["2-1-16", "200", "Bought", "-200", "1", ""],
        vec!["3-1-16", "0", "Moved", "", "1", "-1"],
        vec!["4-1-16", "300", "Sold", "300", "-1", ""],
    ];
    let mut records = vec![
        row(&["", "", "", "Bank", "Exchange", "Wallet"]),
        row(&["", "", "", "USD", "BTC", "BTC"]),
        row(&["", "", "", "no", "no", "no"]),
    ];
    let mut proceeds = Vec::new();
    for r in rows.iter() {
        records.push(row(r));
        proceeds.push(Dec::parse(r[1]));
    }
    let hdr = row(&["txDate", "proceeds", "memo", "1", "2", "3"]);
    import_and_process_final(&hdr, &records, &proceeds, &settings(method)).unwrap()
}

#[test]
fn basis_date_methods_follow_the_basis_dates() {
    let day = |s: &str| Date::parse_from_str(s, "%m-%d-%y").unwrap();
    for (method, drained) in [
        (InventoryCostingMethod::FIFObyLotBasisDate, 1usize),
        (InventoryCostingMethod::FIFObyLotCreationDate, 0),
        (InventoryCostingMethod::LIFObyLotBasisDate, 0),
        (InventoryCostingMethod::LIFObyLotCreationDate, 1),
    ] {
        let (_raws, accts, _ars, _txns) = transfer_then_sale(method);
        let lots = &accts[&2].list_of_lots;
        assert_eq!(lots.len(), 2);
        assert_eq!(lots[0].date_for_basis_purposes, day("2-1-16"));
        assert_eq!(lots[1].date_for_basis_purposes, day("1-1-16"));
        assert_eq!(lots[1].date_of_first_mvmt_in_lot, day("3-1-16"));
        let kept = 1 - drained;
        let spent = lot_amounts(&accts, 2, drained);
        assert_eq!(spent.len(), 2);
        assert!(same(&spent[1], "-1"));
        assert_eq!(lot_amounts(&accts, 2, kept).len(), 1);
    }
}

#[test]
fn a_second_transfer_keeps_the_original_basis_date() {
    let rows = vec![
        vec!["1-1-16", "100", "Bought", "-100", "", "1"],
        vec!["2-1-16", "0", "Moved", "", "1", "-1"],
        vec!["3-1-16", "0", "Moved back", "", "-1", "1"],
    ];
    let mut records = vec![
        row(&["", "", "", "Bank", "Exchange", "Wallet"]),
        row(&["", "", "", "USD", "BTC", "BTC"]),
        row(&["", "", "", "no", "no", "no"]),
    ];
    let mut proceeds = Vec::new();
    for r in rows.iter() {
        records.push(row(r));
        proceeds.push(Dec::parse(r[1]));
    }
    let hdr = row(&["txDate", "proceeds", "memo", "1", "2", "3"]);
    let (_raws, accts, _ars, _txns) = import_and_process_final(
        &hdr,
        &records,
        &proceeds,
        &settings(InventoryCostingMethod::LIFObyLotCreationDate),
    )
    .unwrap();
    let day = |s: &str| Date::parse_from_str(s, "%m-%d-%y").unwrap();
    let wallet = &accts[&3].list_of_lots;
    assert_eq!(wallet.len(), 2);
    assert_eq!(wallet[1].date_of_first_mvmt_in_lot, day("3-1-16"));
    assert_eq!(wallet[1].date_for_basis_purposes, day("1-1-16"));
}

#[test]
fn transactions_take_the_date_of_their_row() {
    let (_raws, _accts, _ars, txns) = sample_ledger(InventoryCostingMethod::LIFObyLotCreationDate);
    assert_eq!(txns[&1].date.to_string(), "2016-02-01");
    assert_eq!(txns[&12].date.to_string(), "2016-12-01");
    assert_eq!(txns[&1].action_record_idx_vec, vec![1, 2]);
    assert_eq!(txns[&2].action_record_idx_vec, vec![3, 4]);
}

#[test]
fn csv_bytes_become_rows() {
    let (h, rows) = read_csv_rows(b"txDate,proceeds,memo,1\n,,,Bank\n1-1-16,\"1,000\",x,5\n").unwrap();
    assert_eq!(h, row(&["txDate", "proceeds", "memo", "1"]));
    assert_eq!(rows.len(), 2);
    assert_eq!(rows[1], row(&["1-1-16", "1,000", "x", "5"]));
    assert!(matches!(read_csv_rows(b"a,b\n1,2,3\n"), Err(CryptoolsError::CsvUnreadable)));
}

#[test]
fn eastern_noon_in_utc() {
    let day = Date::parse_from_str("2016-01-01", "%Y-%m-%d").unwrap();
    let t = TimeOfDay { hour: 12, min: 34, sec: 56, milli: 789 };
    assert_eq!(Movement::create_date_time_from_atlantic(day, t), Some(1451669696789));
    let first = Date::parse_from_str("1883-11-18", "%Y-%m-%d").unwrap();
    let later = TimeOfDay { hour: 12, min: 5, sec: 0, milli: 0 };
    assert!(Movement::create_date_time_from_atlantic(first, later).is_some());
}

#[test]
fn lots_outside_the_home_currency_never_go_below_zero() {
    for method in [
        InventoryCostingMethod::LIFObyLotCreationDate,
        InventoryCostingMethod::LIFObyLotBasisDate,
        InventoryCostingMethod::FIFObyLotCreationDate,
        InventoryCostingMethod::FIFObyLotBasisDate,
    ] {
        let (raws, accts, _ars, _txns) = sample_ledger(method);
        for (key, acct) in accts.iter() {
            if raws[key].ticker == "USD" {
                continue;
            }
            for lot in acct.list_of_lots.iter() {
                let mut total = Dec::zero();
                for m in lot.movements.iter() {
                    total = total.checked_add(&m.amount).unwrap();
                }
                assert!(!total.is_negative());
            }
        }
    }
}

#[test]
fn a_transfer_splits_in_proportion_to_the_lots_it_empties() {
    let rows = vec![
        vec!["1-1-16", "50", "Bought", "-50", "", "5"],
        vec!["2-1-16", "450", "Bought", "-450", "", "45"],
        vec!["3-1-16", "0", "Moved", "", "50", "-50"],
    ];
    let mut records = vec![
        row(&["", "", "", "Bank", "Exchange", "Wallet"]),
        row(&["", "", "", "USD", "BTC", "BTC"]),
        row(&["", "", "", "no", "no", "no"]),
    ];
    let mut proceeds = Vec::new();
    for r in rows.iter() {
        records.push(row(r));
        proceeds.push(Dec::parse(r[1]));
    }
    let hdr = row(&["txDate", "proceeds", "memo", "1", "2", "3"]);
    let (_raws, accts, _ars, _txns) = import_and_process_final(
        &hdr,
        &records,
        &proceeds,
        &settings(InventoryCostingMethod::FIFObyLotCreationDate),
    )
    .unwrap();
    let day = |s: &str| Date::parse_from_str(s, "%m-%d-%y").unwrap();
    let lots = &accts[&2].list_of_lots;
    assert_eq!(lots.len(), 2);
    assert!(same(&lots[0].movements[0].amount, "5"));
    assert!(same(&lots[0].movements[0].ratio_of_amt_to_incoming_mvmts_in_a_r, "0.1"));
    assert_eq!(lots[0].date_for_basis_purposes, day("1-1-16"));
    assert!(same(&lots[1].movements[0].amount, "45"));
    assert!(same(&lots[1].movements[0].ratio_of_amt_to_incoming_mvmts_in_a_r, "0.9"));
    assert_eq!(lots[1].date_for_basis_purposes, day("2-1-16"));
}

#[test]
fn movements_carry_their_transaction_and_its_date() {
    let (raws, accts, ars, txns) = sample_ledger(InventoryCostingMethod::FIFObyLotBasisDate);
    for (key, acct) in accts.iter() {
        if raws[key].ticker == "USD" {
            assert!(acct.list_of_lots.len() <= 1);
        }
        for lot in acct.list_of_lots.iter() {
            for m in lot.movements.iter() {
                assert_eq!(m.transaction_key, ars[&m.action_record_key].tx_key);
                assert_eq!(m.date, txns[&m.transaction_key].date);
            }
        }
    }
}

#[test]
fn a_purchase_starts_a_lot_of_its_own() {
    let (_raws, accts, ars, txns) = two_buys_then_a_sale(InventoryCostingMethod::LIFObyLotCreationDate);
    let day = |s: &str| Date::parse_from_str(s, "%m-%d-%y").unwrap();
    let lots = &accts[&2].list_of_lots;
    assert_eq!(lots.len(), 2);
    assert_eq!(lots[1].date_of_first_mvmt_in_lot, day("2-1-16"));
    assert_eq!(lots[1].date_for_basis_purposes, day("2-1-16"));
    let first = &lots[1].movements[0];
    assert!(same(&first.amount, "1"));
    assert_eq!(txns[&ars[&first.action_record_key].tx_key].date, day("2-1-16"));
}

#[test]
fn header_cells_are_read_without_surrounding_spaces() {
    let hdr = row(&["txDate", "proceeds", "memo", " 1 ", "\t2"]);
    let records = vec![
        row(&["", "", "", " Bank ", "Exchange"]),
        row(&["", "", "", "USD", " BTC"]),
        row(&["", "", "", "no", "no"]),
        row(&["1-1-16", "100", "Bought", "-100", "1"]),
    ];
    let proceeds = vec![Dec::parse("100")];
    let (raws, accts, ars, _txns) = import_and_process_final(
        &hdr,
        &records,
        &proceeds,
        &settings(InventoryCostingMethod::LIFObyLotCreationDate),
    )
    .unwrap();
    assert_eq!(raws[&1].name, "Bank");
    assert_eq!(raws[&2].ticker, "BTC");
    assert_eq!(accts.len(), 2);
    assert_eq!(ars.len(), 2);
}

#[test]
fn action_records_are_numbered_row_by_row_and_column_by_column() {
    let (_raws, _accts, ars, _txns) = sample_ledger(InventoryCostingMethod::LIFObyLotCreationDate);
    let mut keys: Vec<u32> = ars.keys().cloned().collect();
    keys.sort();
    for w in keys.windows(2) {
        let (a, b) = (&ars[&w[0]], &ars[&w[1]]);
        assert!(a.tx_key < b.tx_key || (a.tx_key == b.tx_key && a.account_key < b.account_key));
    }
}

#[test]
fn a_home_currency_account_takes_each_record_whole() {
    let rows = vec![
        vec!["1-1-16", "100", "Bought", "-100", "1"],
        vec!["2-1-16", "150", "Sold", "150", "-0.5"],
        vec!["3-1-16", "40", "Bought", "-40", "0.2"],
    ];
    let (_raws, accts, ars, _txns) = small_ledger(rows).unwrap();
    let bank = &accts[&1].list_of_lots;
    assert_eq!(bank.len(), 1);
    assert_eq!(bank[0].movements.len(), 3);
    for m in bank[0].movements.iter() {
        assert!(m.amount.eq_value(&ars[&m.action_record_key].amount));
    }
}
