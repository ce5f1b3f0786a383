use crptls::cli_user_choices::{
    answer, begins_with_tilde, costing_answer, costing_method_from_arg, inv_costing_from_cmd_arg,
    trim_newline, Answer, CostingAnswer,
};
use crptls::costing_method::InventoryCostingMethod;
use crptls::errors::CryptoolsError;
use crptls::setup::{
    cfg_from_env_values, iso_date_env_is_true, parse_lk_cutoff_date, settings_from_choices,
    skip_wizard, slash_env_is_true, ArgsForImportVarsTBD, Cli,
};
use crptls::wizard::{wizard, wizard_or_not, Say, Stage, WizardOrNot};

fn cli() -> Cli {
    Cli {
        accept_args: false,
        journal_entries_only: false,
        print_menu: false,
        suppress_reports: false,
        output_dir_path: ".".to_string(),
        iso_date: false,
        date_separator_is_slash: false,
        file_to_import: None,
    }
}

fn args(costing: &str, lk: Option<&str>) -> ArgsForImportVarsTBD {
    ArgsForImportVarsTBD {
        inv_costing_method_arg: costing.to_string(),
        lk_cutoff_date_arg: lk.map(|s| s.to_string()),
        output_dir_path: "out".to_string(),
        suppress_reports: false,
    }
}

#[test]
fn trim_newline_drops_one_line_break() {
    let mut s = "2019-06-01\r\n".to_string();
    trim_newline(&mut s);
    assert_eq!(s, "2019-06-01");
    let mut t = "abc\n\n".to_string();
    trim_newline(&mut t);
    assert_eq!(t, "abc\n");
    let mut u = "abc".to_string();
    trim_newline(&mut u);
    assert_eq!(u, "abc");
}

#[test]
fn costing_methods_by_number() {
    assert_eq!(costing_method_from_arg(" 3 "), Some(InventoryCostingMethod::FIFObyLotCreationDate));
    assert_eq!(costing_method_from_arg("4"), Some(InventoryCostingMethod::FIFObyLotBasisDate));
    assert_eq!(costing_method_from_arg("5"), None);
    assert_eq!(
        inv_costing_from_cmd_arg("2".to_string()),
        Ok(InventoryCostingMethod::LIFObyLotBasisDate)
    );
    assert_eq!(
        inv_costing_from_cmd_arg("nonsense".to_string()),
        Ok(InventoryCostingMethod::LIFObyLotCreationDate)
    );
}

#[test]
fn answers_at_the_prompts() {
    assert_eq!(answer(" YES\n"), Answer::Yes);
    assert_eq!(answer(""), Answer::Yes);
    assert_eq!(answer("No"), Answer::No);
    assert_eq!(answer("c"), Answer::Change);
    assert_eq!(answer("maybe"), Answer::Invalid);
    assert_eq!(costing_answer("\n"), CostingAnswer::KeepDefault);
    assert_eq!(costing_answer("1"), CostingAnswer::Method(InventoryCostingMethod::LIFObyLotCreationDate));
    assert_eq!(costing_answer("9"), CostingAnswer::Invalid);
    assert!(begins_with_tilde("~/Documents"));
    assert!(!begins_with_tilde("/home/~x"));
}

#[test]
fn environment_flags() {
    assert!(iso_date_env_is_true("TRUE"));
    assert!(iso_date_env_is_true("1"));
    assert!(!iso_date_env_is_true("0"));
    assert!(slash_env_is_true("true"));
    assert!(!slash_env_is_true("yes"));
    let cfg = cfg_from_env_values(&cli(), Some("true".to_string()), None, Some("eur".to_string()), None, None);
    assert!(cfg.iso_date);
    assert!(!cfg.date_separator_is_slash);
    assert_eq!(cfg.home_currency, "EUR");
    assert_eq!(cfg.inv_costing_method, "1");
    assert_eq!(cfg.lk_cutoff_date, None);
}

#[test]
fn skip_wizard_takes_the_arguments() {
    let (m, lk, date, export, dir) = skip_wizard(args("4", Some("2017-12-31"))).unwrap();
    assert_eq!(m, InventoryCostingMethod::FIFObyLotBasisDate);
    assert!(lk);
    assert_eq!(date, "2017-12-31");
    assert!(export);
    assert_eq!(dir, "out");
    let (_, lk2, date2, _, _) = skip_wizard(args("1", None)).unwrap();
    assert!(!lk2);
    assert_eq!(date2, "1-1-1");
}

#[test]
fn cutoff_dates_parse_in_either_year_style() {
    assert_eq!(parse_lk_cutoff_date("17-12-31").unwrap().to_string(), "2017-12-31");
    assert_eq!(parse_lk_cutoff_date("2017-12-31").unwrap().to_string(), "2017-12-31");
    assert!(parse_lk_cutoff_date("12/31/2017").is_none());
}

#[test]
fn settings_refuse_an_unparsable_cutoff_date() {
    let cfg = cfg_from_env_values(&cli(), None, Some("1".to_string()), None, None, None);
    let r = settings_from_choices(
        &cli(),
        &cfg,
        InventoryCostingMethod::LIFObyLotCreationDate,
        true,
        "someday",
        true,
        ".".to_string(),
    );
    assert!(matches!(r, Err(CryptoolsError::LkCutoffDateUnparsable)));
    let s = settings_from_choices(
        &cli(),
        &cfg,
        InventoryCostingMethod::LIFObyLotCreationDate,
        false,
        "",
        true,
        ".".to_string(),
    )
    .unwrap();
    assert_eq!(s.input_file_date_separator, "/");
    assert_eq!(s.home_currency, "USD");
    assert!(!s.lk_treatment_enabled);
}

#[test]
fn wizard_with_default_answers() {
    let (mut w, says) = wizard(args("2", None));
    assert_eq!(says, vec![Say::AskProceed]);
    assert_eq!(w.step("\n"), vec![Say::AskCostingMethod]);
    assert_eq!(w.step("\n"), vec![Say::AskContinueWithoutLk]);
    assert_eq!(w.step(""), vec![Say::ProceedingWithoutLk, Say::AskExport]);
    assert_eq!(w.step("y"), Vec::<Say>::new());
    assert_eq!(w.stage, Stage::Finished);
    let (m, lk, date, export, dir) = w.choices();
    assert_eq!(m, InventoryCostingMethod::LIFObyLotBasisDate);
    assert!(!lk);
    assert_eq!(date, "1-1-1");
    assert!(export);
    assert_eq!(dir, "out");
}

#[test]
fn wizard_repairs_a_bad_cutoff_date_and_changes_the_directory() {
    let (mut w, _) = wizard(args("1", Some("bad")));
    assert_eq!(w.step("yes"), vec![Say::AskCostingMethod]);
    assert_eq!(w.step("7"), vec![Say::InvalidCostingChoice]);
    assert_eq!(w.step("3"), vec![Say::LkDateArgInvalid, Say::DateFormatHint]);
    assert_eq!(w.step("still bad\n"), vec![Say::DateFormatHint]);
    let says = w.step("2017-12-31\n");
    assert_eq!(says.len(), 1);
    assert!(matches!(says[0], Say::AskUseLkThrough(_)));
    assert_eq!(w.step("what"), vec![Say::AnswerYesNoOrChange]);
    let says = w.step("y");
    assert!(matches!(says[0], Say::UsingLkThrough(_)));
    assert_eq!(w.step("c"), vec![Say::AskExportDir]);
    assert_eq!(w.step("~/reports"), vec![Say::TildeNotAllowed, Say::AskExportDir]);
    assert_eq!(w.step("/tmp/reports"), Vec::<Say>::new());
    let (m, lk, date, export, dir) = w.choices();
    assert_eq!(m, InventoryCostingMethod::FIFObyLotCreationDate);
    assert!(lk);
    assert_eq!(date, "2017-12-31");
    assert!(export);
    assert_eq!(dir, "/tmp/reports");
}

#[test]
fn wizard_can_be_declined() {
    let (mut w, _) = wizard(args("1", None));
    assert_eq!(w.step("c"), vec![Say::AnswerYesOrNo]);
    assert_eq!(w.step("n"), vec![Say::NotProceeding]);
    assert_eq!(w.stage, Stage::Quit);
    assert_eq!(w.step("y"), Vec::<Say>::new());
    assert_eq!(w.stage, Stage::Quit);
}

#[test]
fn wizard_chooses_a_date_and_no_reports() {
    let (mut w, _) = wizard(args("1", None));
    w.step("y");
    w.step("");
    assert_eq!(w.step("n"), vec![Say::AskLkDate]);
    let says = w.step("18-06-30\n");
    assert_eq!(says.len(), 2);
    assert_eq!(says[1], Say::AskExport);
    assert_eq!(w.step("no"), vec![Say::NoReports]);
    let (_, lk, date, export, _) = w.choices();
    assert!(lk);
    assert_eq!(date, "18-06-30");
    assert!(!export);
}

#[test]
fn wizard_or_not_follows_accept_args() {
    match wizard_or_not(true, args("3", None)) {
        WizardOrNot::Skipped(m, lk, _, export, _) => {
            assert_eq!(m, InventoryCostingMethod::FIFObyLotCreationDate);
            assert!(!lk);
            assert!(export);
        }
        WizardOrNot::Started(..) => panic!("the wizard was to be skipped"),
    }
    match wizard_or_not(false, args("3", None)) {
        WizardOrNot::Started(w, says) => {
            assert_eq!(w.stage, Stage::Proceed);
            assert_eq!(says, vec![Say::AskProceed]);
        }
        WizardOrNot::Skipped(..) => panic!("the wizard was to run"),
    }
}

#[test]
fn settings_keep_the_cutoff_date_chosen() {
    let cfg = cfg_from_env_values(&cli(), None, Some("1".to_string()), None, None, None);
    let s = settings_from_choices(
        &cli(),
        &cfg,
        InventoryCostingMethod::LIFObyLotCreationDate,
        true,
        "17-12-31",
        true,
        ".".to_string(),
    )
    .unwrap();
    assert!(s.lk_treatment_enabled);
    assert_eq!(s.lk_cutoff_date.to_string(), "2017-12-31");
    let t = settings_from_choices(
        &cli(),
        &cfg,
        InventoryCostingMethod::LIFObyLotCreationDate,
        true,
        "2016-06-30",
        true,
        ".".to_string(),
    )
    .unwrap();
    assert_eq!(t.lk_cutoff_date.to_string(), "2016-06-30");
}

#[test]
fn settings_without_like_kind_treatment_take_a_placeholder_cutoff() {
    let cfg = cfg_from_env_values(&cli(), None, None, None, None, None);
    let s = settings_from_choices(
        &cli(),
        &cfg,
        InventoryCostingMethod::FIFObyLotCreationDate,
        false,
        "",
        false,
        ".".to_string(),
    )
    .unwrap();
    assert!(!s.lk_treatment_enabled);
    assert_eq!(s.lk_cutoff_date.to_string(), "2001-01-01");
}
