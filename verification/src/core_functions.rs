//! The settings that drive processing, and the processing of an imported ledger from
//! lots and movements through cost basis, proceeds and like-kind treatment.
use std::collections::HashMap;
use vstd::prelude::*;
use crate::costing_method::InventoryCostingMethod;
use crate::date::Date;
use crate::dec::{Dec, places8};
use crate::account::{Account, RawAccount};
use crate::transaction::{ActionRecord, Transaction, txn_resolves, ar_resolves};
use crate::errors::CryptoolsError;
use crate::ledger::{
    lemma_lots_ordered_same_shape,
    accts_wf, acct_wf, lots_wf, txn_ok, ledger_wf, same_shape, lot_same_shape, mvmt_same_shape,
    lemma_same_shape_wf, lemma_same_shape_trans, lemma_same_shape_refl,
    lemma_lots_key_sum_same_shape,
};
use crate::create_lots_mvmts::{
    fails_at, lots_created,
    ar_in_ledger, ar_posted_total, mvmts_owned, create_lots_and_movements, accts_nonneg,
    lemma_accts_nonneg_same_shape, home_lots_single, lemma_home_single_same_shape, mvmts_dated,
    lemma_dated_same_shape, accts_own_lots_ok, lemma_own_lots_same_shape, accts_inherit_ok,
    lemma_inherit_same_shape, home_mvmts_whole, lemma_home_whole_same_shape,
};
use crate::csv_import_accts_txns::{
    accounts_imported, rows_imported, cells_upto,
    import_accounts, import_transactions, ar_from_row, account_column_ok, row_fails,
};
use crate::import_cost_proceeds_etc::{
    basis_added, proceeds_added, ar_basis_fails, ar_proceeds_fail, lk_fails_at, basis_changes,
    add_cost_basis_to_movements, add_proceeds_to_movements, apply_like_kind_treatment,
    values_cover, ar_of_txns, lemma_values_cover_transport, lemma_basis_cover_through_proceeds,
    lk_after_rules, lk_treated_after_rules, outgoing_cover, lemma_outgoing_cover_transport,
    lemma_outgoing_cover_through_proceeds, toself_cover, lemma_toself_cover_transport,
    lemma_toself_cover_through_proceeds, lk_outgoing_cover, lk_exchanges_cover,
    lk_toselfs_cover,
};

verus! {

broadcast use vstd::std_specs::hash::group_hash_axioms;

/// `ImportProcessParameters` are determined from command-line args, environment variables, and/or wizard input from the user.
/// They are the settings that allow the software to carry out the importing-from-csv of
/// `Account`s and `Transaction`s, creation of `Lot`s and `Movement`s, addition of cost basis and proceeds
/// to `Movement`s, and application of like-kind treatment, in a specific and automated fashion.
pub struct ImportProcessParameters {
    pub input_file_date_separator: String,
    pub input_file_uses_iso_date_style: bool,
    pub home_currency: String,
    pub costing_method: InventoryCostingMethod,
    pub lk_treatment_enabled: bool,
    /// The chosen cut-off date, or the placeholder 2001-01-01 when like-kind treatment is off.
    pub lk_cutoff_date: Date,
    pub lk_basis_date_preserved: bool,
    pub should_export: bool,
    pub export_path: String,
    pub print_menu: bool,
    pub journal_entry_export: bool,
}

/// The like-kind election of the earlier settings layout.
#[derive(Clone, Copy, Debug)]
pub struct LikeKindSettings {
    pub like_kind_cutoff_date: Date,
    pub like_kind_basis_date_preserved: bool,
}


/// Changing basis and proceeds leaves what each action record posts, and which action
/// records the movements belong to, alone.
pub proof fn lemma_same_shape_keeps_postings(
    txns: Map<u32, Transaction>,
    ars: Map<u32, ActionRecord>,
    old: Map<u16, Account>,
    new: Map<u16, Account>,
)
    requires
        same_shape(old, new),
    ensures
        forall|j: u32|
            ar_in_ledger(txns, ars, j) && old.contains_key(ars[j].account_key) ==> #[trigger] ar_posted_total(
                new,
                ars,
                j,
            ) == ar_posted_total(old, ars, j),
        mvmts_owned(txns, ars, old) ==> mvmts_owned(txns, ars, new),
{
    assert forall|j: u32|
        ar_in_ledger(txns, ars, j) && old.contains_key(ars[j].account_key) implies #[trigger] ar_posted_total(
        new,
        ars,
        j,
    ) == ar_posted_total(old, ars, j) by {
        let a = ars[j].account_key;
        assert forall|li: int| 0 <= li < old[a].list_of_lots@.len() implies lot_same_shape(
            #[trigger] old[a].list_of_lots@[li],
            new[a].list_of_lots@[li],
        ) by {}
        lemma_lots_key_sum_same_shape(old[a].list_of_lots@, new[a].list_of_lots@, j);
    }
    if mvmts_owned(txns, ars, old) {
        assert forall|a: u16, li: int, mi: int|
            new.contains_key(a) && 0 <= li < new[a].list_of_lots@.len() && 0 <= mi
                < new[a].list_of_lots@[li].movements@.len() implies {
            let j = (#[trigger] new[a].list_of_lots@[li].movements@[mi]).action_record_key;
            ar_in_ledger(txns, ars, j) && ars[j].account_key == a
        } by {
            assert(old.contains_key(a));
            assert(lot_same_shape(old[a].list_of_lots@[li], new[a].list_of_lots@[li]));
            assert(mvmt_same_shape(
                old[a].list_of_lots@[li].movements@[mi],
                new[a].list_of_lots@[li].movements@[mi],
            ));
        }
    }
}

/// Checks that every transaction of an imported ledger is as processing expects it:
/// one or two action records, which exist, belong to it and lead to existing accounts.
fn validate_ledger(
    txns_map: &HashMap<u32, Transaction>,
    ars: &HashMap<u32, ActionRecord>,
    acct_map: &HashMap<u16, Account>,
    raw_acct_map: &HashMap<u16, RawAccount>,
) -> (r: Result<(), CryptoolsError>)
    requires
        forall|t: u32| #[trigger] txns_map@.contains_key(t) <==> 1 <= t <= txns_map@.len(),
        txns_map@.len() < u32::MAX,
        accts_wf(acct_map@),
        forall|a: u16| #[trigger]
            raw_acct_map@.contains_key(a) ==> raw_acct_map@[a].account_num == a,
    ensures
        r is Ok ==> ledger_wf(
            txns_map@,
            txns_map@.len() as int,
            ars@,
            acct_map@,
            raw_acct_map@,
        ),
        r is Ok <==> ledger_wf(txns_map@, txns_map@.len() as int, ars@, acct_map@, raw_acct_map@),
{
    let length = txns_map.len();
    let mut num: u32 = 1;
    while (num as usize) <= length
        invariant
            1 <= num <= length + 1,
            length == txns_map@.len(),
            length < u32::MAX,
            forall|t: u32| #[trigger] txns_map@.contains_key(t) <==> 1 <= t <= txns_map@.len(),
            forall|t: u32|
                1 <= t < num ==> txn_ok(#[trigger] txns_map@[t], t, ars@, acct_map@, raw_acct_map@),
        decreases length + 1 - num,
    {
        let txn = txns_map.get(&num).unwrap();
        let len = txn.action_record_idx_vec.len();
        proof {
            assert(txns_map@.contains_key(num));
        }
        if len == 0 {
            return Err(CryptoolsError::NoActionRecords { tx_number: num });
        }
        if len > 2 {
            return Err(CryptoolsError::TooManyActionRecords { tx_number: num });
        }
        if len == 2 && txn.action_record_idx_vec[0] == txn.action_record_idx_vec[1] {
            return Err(CryptoolsError::MissingData { tx_number: num });
        }
        let mut i: usize = 0;
        while i < len
            invariant
                i <= len == txn.action_record_idx_vec@.len(),
                forall|ii: int|
                    0 <= ii < i ==> {
                        &&& ar_resolves(
                            ars@,
                            acct_map@,
                            raw_acct_map@,
                            #[trigger] txn.action_record_idx_vec@[ii],
                        )
                        &&& ars@[txn.action_record_idx_vec@[ii]].tx_key == num
                        &&& ars@[txn.action_record_idx_vec@[ii]].self_ar_key
                            == txn.action_record_idx_vec@[ii]
                    },
                txns_map@.contains_key(num),
                *txn == txns_map@[num],
            decreases len - i,
        {
            let k = txn.action_record_idx_vec[i];
            let ar = match ars.get(&k) {
                Some(x) => x,
                None => {
                    proof {
                        assert(!ar_resolves(ars@, acct_map@, raw_acct_map@, txn.action_record_idx_vec@[i as int]));
                        assert(!txn_ok(txns_map@[num], num, ars@, acct_map@, raw_acct_map@));
                    }
                    return Err(CryptoolsError::MissingData { tx_number: num });
                },
            };
            if ar.tx_key != num || ar.self_ar_key != k {
                proof {
                    assert(!txn_ok(txns_map@[num], num, ars@, acct_map@, raw_acct_map@));
                }
                return Err(CryptoolsError::MissingData { tx_number: num });
            }
            let acct = match acct_map.get(&ar.account_key) {
                Some(x) => x,
                None => {
                    proof {
                        assert(!ar_resolves(ars@, acct_map@, raw_acct_map@, txn.action_record_idx_vec@[i as int]));
                        assert(!txn_ok(txns_map@[num], num, ars@, acct_map@, raw_acct_map@));
                    }
                    return Err(CryptoolsError::MissingData { tx_number: num });
                },
            };
            if raw_acct_map.get(&acct.raw_key).is_none() {
                proof {
                    assert(!ar_resolves(ars@, acct_map@, raw_acct_map@, txn.action_record_idx_vec@[i as int]));
                    assert(!txn_ok(txns_map@[num], num, ars@, acct_map@, raw_acct_map@));
                }
                return Err(CryptoolsError::MissingData { tx_number: num });
            }
            i = i + 1;
        }
        proof {
            assert(txn_ok(txns_map@[num], num, ars@, acct_map@, raw_acct_map@));
        }
        num = num + 1;
    }
    Ok(())
}

/// Processing an imported ledger (accounts `m0`, raw accounts `raws`, action records
/// `ars`, transactions `txns`) fails: the ledger is not well formed (`validate_ledger`);
/// or creating lots stops (`fails_at`); or, the lots created (`lots_created`), adding
/// cost basis fails for an action record, from the state the earlier ones left
/// (`ar_basis_fails`); or, the basis added (`basis_added`), adding proceeds fails for an
/// action record (`ar_proceeds_fail`); or, like-kind treatment being enabled and the
/// proceeds added (`proceeds_added`), the treatment stops at a transaction
/// (`lk_fails_at`).
pub open spec fn ledger_processing_fails(
    settings: ImportProcessParameters,
    raws: Map<u16, RawAccount>,
    m0: Map<u16, Account>,
    ars: Map<u32, ActionRecord>,
    txns: Map<u32, Transaction>,
) -> bool {
    let home = settings.home_currency@;
    let n = txns.len();
    ||| !ledger_wf(txns, n as int, ars, m0, raws)
    ||| exists|num: u32, i: int, pre: Map<u16, Account>, fin: Map<u16, Account>| #[trigger]
        fails_at(settings, txns, ars, raws, m0, fin, pre, num, i)
    ||| exists|m1: Map<u16, Account>| #[trigger]
        lots_created(settings, txns, ars, raws, m0, m1) && {
            ||| exists|t: u32, i: int, pre: Map<u16, Account>|
                1 <= t <= n && 0 <= i < txns[t].action_record_idx_vec@.len() && same_shape(m1, pre)
                    && basis_changes(m1, pre, home, txns, ars, raws) && #[trigger] ar_basis_fails(
                    t,
                    i,
                    home,
                    pre,
                    ars,
                    raws,
                    txns,
                )
            ||| exists|m2: Map<u16, Account>| #[trigger]
                basis_added(home, txns, ars, raws, m1, m2) && {
                    ||| exists|t: u32, i: int|
                        1 <= t <= n && 0 <= i < txns[t].action_record_idx_vec@.len()
                            && #[trigger] ar_proceeds_fail(t, i, m2, ars, raws, txns)
                    ||| settings.lk_treatment_enabled && exists|m3: Map<u16, Account>| #[trigger]
                        proceeds_added(txns, ars, raws, m2, m3) && exists|t: u32, pre: Map<u16, Account>|
                            1 <= t <= n && #[trigger] lk_fails_at(
                                t,
                                home,
                                settings.lk_cutoff_date.day_num(),
                                m3,
                                pre,
                                ars,
                                raws,
                                txns,
                            )
                }
        }
}

/// Imports a ledger from the rows of the CSV input file (`header1` being the first row
/// and `records` the rest; `proceeds` holds each transaction row's value, parsed), then
/// creates its lots and movements, adds cost basis and proceeds, and applies like-kind
/// treatment when it is enabled.
///
/// On success every action record's movements sit in its own account and add up to its
/// amount, the accounts number their lots and movements in order, every action record is
/// the rounded amount of its field in its row, and (without like-kind treatment) every
/// movement that an action record's scan reaches carries the basis of `basis_rule` and
/// the proceeds of `proceeds_rule`, an outgoing one (outside margin and the home currency)
/// its share of the basis of its lot's first movement (`outgoing_cover`), an incoming one
/// of a transfer to oneself the basis of its outgoing counterpart (`toself_cover`); with
/// like-kind treatment, the accounts are what `lk_changes` allows of such a state, and
/// every outgoing movement reached (outside margin and the home currency) carries its
/// share of the like-kind basis of its lot's first movement (`lk_outgoing_cover`), and
/// the incoming side of every exchange treated, and of every transfer to oneself
/// (outside margin and the home currency), takes its share of the outgoing side's
/// like-kind basis (`lk_exchanges_cover`, `lk_toselfs_cover`).  Lots started by transfers
/// to oneself keep a basis date of the lots the coins came from (`accts_inherit_ok`).
///
/// On an error, the header row or a row fails to import, or processing the imported
/// ledger fails at one of its stages (`ledger_processing_fails`).
pub fn import_and_process_final(
    header1: &Vec<String>,
    records: &Vec<Vec<String>>,
    proceeds: &Vec<Option<Dec>>,
    settings: &ImportProcessParameters,
) -> (r: Result<
    (
        HashMap<u16, RawAccount>,
        HashMap<u16, Account>,
        HashMap<u32, ActionRecord>,
        HashMap<u32, Transaction>,
    ),
    CryptoolsError,
>)
    requires
        header1@.len() <= 65538,
        records@.len() < u32::MAX,
        proceeds@.len() == (if records@.len() >= 3 {
            records@.len() - 3
        } else {
            0
        }),
    ensures
        r matches Ok((raws, accts, ars, txns)) ==> {
            &&& ledger_wf(txns@, txns@.len() as int, ars@, accts@, raws@)
            &&& home_lots_single(accts@, raws@, settings.home_currency@)
            &&& mvmts_dated(accts@, txns@, ars@)
            &&& accts_own_lots_ok(
                accts@,
                txns@,
                ars@,
                raws@,
                settings.home_currency@,
                settings.lk_basis_date_preserved,
                settings.lk_cutoff_date.day_num(),
            )
            &&& home_mvmts_whole(accts@, ars@, raws@, settings.home_currency@)
            &&& accts_inherit_ok(
                accts@,
                txns@,
                ars@,
                raws@,
                settings.home_currency@,
                settings.lk_basis_date_preserved,
                settings.lk_cutoff_date.day_num(),
            )
            &&& accts_nonneg(
                accts@,
                txns@,
                ars@,
                raws@,
                settings.home_currency@,
                settings.lk_basis_date_preserved,
                settings.lk_cutoff_date.day_num(),
            )
            &&& mvmts_owned(txns@, ars@, accts@)
            &&& forall|j: u32| #[trigger]
                ar_in_ledger(txns@, ars@, j) ==> ar_posted_total(accts@, ars@, j)
                    == ars@[j].amount.val()
            &&& forall|t: u32| #[trigger] txns@.contains_key(t) <==> 1 <= t <= txns@.len()
            &&& forall|k: u32| #[trigger]
                ars@.contains_key(k) ==> 1 <= ars@[k].tx_key <= txns@.len() && ar_from_row(
                    ars@[k],
                    records@[3 + ars@[k].tx_key - 1]@,
                    ars@[k].tx_key,
                )
            &&& !settings.lk_treatment_enabled ==> values_cover(
                true,
                settings.home_currency@,
                accts@,
                accts@,
                txns@,
                ars@,
                raws@,
                |k: u32| ar_of_txns(k, txns@.len() as int, txns@, ars@),
            )
            &&& !settings.lk_treatment_enabled ==> values_cover(
                false,
                Seq::<char>::empty(),
                accts@,
                accts@,
                txns@,
                ars@,
                raws@,
                |k: u32| ar_of_txns(k, txns@.len() as int, txns@, ars@),
            )
            &&& !settings.lk_treatment_enabled ==> outgoing_cover(
                settings.home_currency@,
                accts@,
                accts@,
                txns@,
                ars@,
                raws@,
                |k: u32| ar_of_txns(k, txns@.len() as int, txns@, ars@),
            )
            &&& !settings.lk_treatment_enabled ==> toself_cover(
                settings.home_currency@,
                accts@,
                accts@,
                txns@,
                ars@,
                raws@,
                |k: u32| ar_of_txns(k, txns@.len() as int, txns@, ars@),
            )
            &&& settings.lk_treatment_enabled ==> lk_outgoing_cover(
                settings.home_currency@,
                accts@,
                accts@,
                txns@,
                ars@,
                raws@,
                |k: u32| ar_of_txns(k, txns@.len() as int, txns@, ars@),
            )
            &&& settings.lk_treatment_enabled ==> lk_exchanges_cover(
                settings.home_currency@,
                settings.lk_cutoff_date.day_num(),
                accts@,
                accts@,
                txns@,
                ars@,
                raws@,
                txns@.len() as int + 1,
            )
            &&& settings.lk_treatment_enabled ==> lk_toselfs_cover(
                settings.home_currency@,
                accts@,
                accts@,
                txns@,
                ars@,
                raws@,
                txns@.len() as int + 1,
            )
            &&& settings.lk_treatment_enabled ==> lk_treated_after_rules(
                accts@,
                settings.home_currency@,
                txns@,
                ars@,
                raws@,
            )
        },
        !(records@.len() < 3 || (header1@.len() >= 3 && forall|c: int|
            0 <= c < header1@.len() - 3 ==> #[trigger] account_column_ok(header1@, records@, c)))
            ==> r is Err,
        records@.len() >= 3 && (exists|t: int|
            0 <= t < records@.len() - 3 && #[trigger] row_fails(
                records@[3 + t]@,
                proceeds@[t],
                settings.input_file_uses_iso_date_style,
                settings.input_file_date_separator@,
            )) ==> r is Err,
        r is Err ==> {
            ||| !(records@.len() < 3 || (header1@.len() >= 3 && forall|c: int|
                0 <= c < header1@.len() - 3 ==> #[trigger] account_column_ok(header1@, records@, c)))
            ||| records@.len() >= 3 && (exists|t: int|
                0 <= t < records@.len() - 3 && #[trigger] row_fails(
                    records@[3 + t]@,
                    proceeds@[t],
                    settings.input_file_uses_iso_date_style,
                    settings.input_file_date_separator@,
                ))
            ||| records@.len() >= 3 && cells_upto(records@, 3, records@.len() - 3) >= u32::MAX
            ||| exists|raws: Map<u16, RawAccount>, m0: Map<u16, Account>, ars: Map<u32, ActionRecord>, txns: Map<u32, Transaction>|
                accounts_imported(header1@, records@, raws, m0) && rows_imported(
                    records@,
                    3,
                    proceeds@,
                    settings.input_file_uses_iso_date_style,
                    settings.input_file_date_separator@,
                    ars,
                    txns,
                ) && #[trigger] ledger_processing_fails(*settings, raws, m0, ars, txns)
        },
{
    let mut transactions_map: HashMap<u32, Transaction> = HashMap::new();
    let mut action_records_map: HashMap<u32, ActionRecord> = HashMap::new();
    let mut raw_account_map: HashMap<u16, RawAccount> = HashMap::new();
    let mut account_map: HashMap<u16, Account> = HashMap::new();
    import_accounts(header1, records, &mut raw_account_map, &mut account_map)?;
    let first: usize = if records.len() >= 3 {
        3
    } else {
        records.len()
    };
    import_transactions(
        records,
        first,
        proceeds,
        settings.input_file_uses_iso_date_style,
        &settings.input_file_date_separator,
        &mut action_records_map,
        &mut transactions_map,
    )?;
    proof {
        assert forall|a: u16| account_map@.contains_key(a) implies acct_wf(
            #[trigger] account_map@[a],
            a,
        ) by {}
    }
    let ghost m0 = account_map@;
    let ghost txns0 = transactions_map@;
    let ghost raws = raw_account_map@;
    let ghost ars = action_records_map@;
    match validate_ledger(&transactions_map, &action_records_map, &account_map, &raw_account_map) {
        Ok(()) => {},
        Err(e) => {
            proof {
                assert(ledger_processing_fails(*settings, raws, m0, ars, txns0));
            }
            return Err(e);
        },
    }
    transactions_map = match create_lots_and_movements(
        settings,
        &raw_account_map,
        &mut account_map,
        &action_records_map,
        transactions_map,
    ) {
        Ok(t) => t,
        Err(e) => {
            proof {
                assert(ledger_processing_fails(*settings, raws, m0, ars, txns0));
            }
            return Err(e);
        },
    };
    let ghost m1 = account_map@;
    proof {
        assert(transactions_map@ == txns0);
        crate::create_lots_mvmts::lemma_txn_ok_frame(
            transactions_map@,
            action_records_map@,
            m0,
            m1,
            raw_account_map@,
        );
    }
    match add_cost_basis_to_movements(
        settings,
        &raw_account_map,
        &mut account_map,
        &action_records_map,
        &transactions_map,
    ) {
        Ok(()) => {},
        Err(e) => {
            proof {
                assert(lots_created(*settings, txns0, ars, raws, m0, m1));
                assert(ledger_processing_fails(*settings, raws, m0, ars, txns0));
            }
            return Err(e);
        },
    }
    let ghost m2 = account_map@;
    let ghost sel = |k: u32| ar_of_txns(k, transactions_map@.len() as int, transactions_map@, action_records_map@);
    proof {
        lemma_same_shape_wf(m1, m2);
        crate::import_cost_proceeds_etc::lemma_txn_ok_same_shape(
            transactions_map@,
            action_records_map@,
            m1,
            m2,
            raw_account_map@,
        );
        lemma_values_cover_transport(
            true,
            settings.home_currency@,
            m1,
            m2,
            transactions_map@,
            action_records_map@,
            raw_account_map@,
            sel,
        );
        lemma_outgoing_cover_transport(
            settings.home_currency@,
            m1,
            m2,
            transactions_map@,
            action_records_map@,
            raw_account_map@,
            sel,
        );
        lemma_toself_cover_transport(
            settings.home_currency@,
            m1,
            m2,
            transactions_map@,
            action_records_map@,
            raw_account_map@,
            sel,
        );
    }
    match add_proceeds_to_movements(
        &raw_account_map,
        &mut account_map,
        &action_records_map,
        &transactions_map,
    ) {
        Ok(()) => {},
        Err(e) => {
            proof {
                assert(lots_created(*settings, txns0, ars, raws, m0, m1));
                assert(basis_added(settings.home_currency@, txns0, ars, raws, m1, m2));
                assert(ledger_processing_fails(*settings, raws, m0, ars, txns0));
            }
            return Err(e);
        },
    }
    let ghost m3 = account_map@;
    proof {
        lemma_same_shape_trans(m1, m2, m3);
        lemma_same_shape_wf(m2, m3);
        crate::import_cost_proceeds_etc::lemma_txn_ok_same_shape(
            transactions_map@,
            action_records_map@,
            m2,
            m3,
            raw_account_map@,
        );
        lemma_basis_cover_through_proceeds(
            settings.home_currency@,
            m2,
            m3,
            transactions_map@,
            action_records_map@,
            raw_account_map@,
            sel,
        );
        lemma_outgoing_cover_through_proceeds(
            settings.home_currency@,
            m2,
            m3,
            transactions_map@,
            action_records_map@,
            raw_account_map@,
            sel,
        );
        lemma_toself_cover_through_proceeds(
            settings.home_currency@,
            m2,
            m3,
            transactions_map@,
            action_records_map@,
            raw_account_map@,
        );
        lemma_toself_cover_transport(
            settings.home_currency@,
            m2,
            m3,
            transactions_map@,
            action_records_map@,
            raw_account_map@,
            sel,
        );
        lemma_outgoing_cover_transport(
            settings.home_currency@,
            m2,
            m3,
            transactions_map@,
            action_records_map@,
            raw_account_map@,
            sel,
        );
        lemma_values_cover_transport(
            true,
            settings.home_currency@,
            m2,
            m3,
            transactions_map@,
            action_records_map@,
            raw_account_map@,
            sel,
        );
        lemma_values_cover_transport(
            false,
            Seq::<char>::empty(),
            m2,
            m3,
            transactions_map@,
            action_records_map@,
            raw_account_map@,
            sel,
        );
    }
    proof {
        lemma_same_shape_trans(m1, m2, m3);
        lemma_lots_ordered_same_shape(
            transactions_map@,
            action_records_map@,
            m1,
            m3,
            raw_account_map@,
            settings.home_currency@,
        );
        lemma_same_shape_keeps_postings(transactions_map@, action_records_map@, m1, m3);
    }
    if settings.lk_treatment_enabled {
        match apply_like_kind_treatment(
            settings,
            &raw_account_map,
            &mut account_map,
            &action_records_map,
            &transactions_map,
        ) {
            Ok(()) => {},
            Err(e) => {
                proof {
                    assert(lots_created(*settings, txns0, ars, raws, m0, m1));
                    assert(basis_added(settings.home_currency@, txns0, ars, raws, m1, m2));
                    assert(proceeds_added(txns0, ars, raws, m2, m3));
                    assert(ledger_processing_fails(*settings, raws, m0, ars, txns0));
                }
                return Err(e);
            },
        }
        proof {
            lemma_same_shape_trans(m1, m3, account_map@);
            assert(lk_after_rules(
                m3,
                account_map@,
                settings.home_currency@,
                transactions_map@,
                action_records_map@,
                raw_account_map@,
            ));
        }
    }
    proof {
        let m4 = account_map@;
        lemma_same_shape_wf(m1, m4);
        lemma_home_single_same_shape(m1, m4, raw_account_map@, settings.home_currency@);
        lemma_dated_same_shape(m1, m4, transactions_map@, action_records_map@);
        lemma_home_whole_same_shape(m1, m4, action_records_map@, raw_account_map@, settings.home_currency@);
        lemma_inherit_same_shape(
            m1,
            m4,
            transactions_map@,
            action_records_map@,
            raw_account_map@,
            settings.home_currency@,
            settings.lk_basis_date_preserved,
            settings.lk_cutoff_date.day_num(),
        );
        lemma_own_lots_same_shape(
            m1,
            m4,
            transactions_map@,
            action_records_map@,
            raw_account_map@,
            settings.home_currency@,
            settings.lk_basis_date_preserved,
            settings.lk_cutoff_date.day_num(),
        );
        lemma_accts_nonneg_same_shape(
            m1,
            m4,
            transactions_map@,
            action_records_map@,
            raw_account_map@,
            settings.home_currency@,
            settings.lk_basis_date_preserved,
            settings.lk_cutoff_date.day_num(),
        );
        crate::import_cost_proceeds_etc::lemma_txn_ok_same_shape(
            transactions_map@,
            action_records_map@,
            m1,
            m4,
            raw_account_map@,
        );
        lemma_same_shape_keeps_postings(transactions_map@, action_records_map@, m1, m4);
        assert forall|j: u32| #[trigger]
            ar_in_ledger(transactions_map@, action_records_map@, j) implies ar_posted_total(
            m4,
            action_records_map@,
            j,
        ) == action_records_map@[j].amount.val() by {
            let t = action_records_map@[j].tx_key;
            assert(transactions_map@.contains_key(t));
            assert(txn_ok(transactions_map@[t], t, action_records_map@, m0, raw_account_map@));
            let i = choose|i: int|
                0 <= i < transactions_map@[t].action_record_idx_vec@.len()
                    && #[trigger] transactions_map@[t].action_record_idx_vec@[i] == j;
            assert(ar_resolves(
                action_records_map@,
                m0,
                raw_account_map@,
                transactions_map@[t].action_record_idx_vec@[i],
            ));
            assert(places8(action_records_map@[j].amount));
        }
    }
    Ok((raw_account_map, account_map, action_records_map, transactions_map))
}

} // verus!
