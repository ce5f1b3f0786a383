//! The program's settings: the command line, the environment, and the choices made in
//! the wizard (or assumed without it), turned into the parameters of processing.
use vstd::prelude::*;
use crate::costing_method::InventoryCostingMethod;
use crate::core_functions::ImportProcessParameters;
use crate::cli_user_choices::{costing_method_named, inv_costing_from_cmd_arg};
use crate::date::{Date, naive_date_parse};
use crate::errors::CryptoolsError;
use crate::strings::{
    std_to_ascii_lowercase, std_to_lowercase, std_to_uppercase, str_eq, string_from,
    to_ascii_lowercase, to_lowercase, to_uppercase,
};

verus! {

/// The command line.
#[derive(Debug)]
pub struct Cli {
    /// Skip the data entry wizard.
    pub accept_args: bool,
    /// Export only the journal entries.
    pub journal_entries_only: bool,
    /// Present the report menu.
    pub print_menu: bool,
    /// Write no reports (only with `accept_args`).
    pub suppress_reports: bool,
    /// Where reports are written.
    pub output_dir_path: String,
    /// Dates in the input file are year first.
    pub iso_date: bool,
    /// Dates in the input file are separated by slashes.
    pub date_separator_is_slash: bool,
    /// The input file.
    pub file_to_import: Option<String>,
}

/// What the environment (or a `.env` file) can set.
#[derive(Debug)]
pub struct Cfg {
    pub iso_date: bool,
    pub date_separator_is_slash: bool,
    pub home_currency: String,
    pub lk_cutoff_date: Option<String>,
    pub inv_costing_method: String,
}

/// The settings the wizard may change.
#[derive(Debug)]
pub struct ArgsForImportVarsTBD {
    pub inv_costing_method_arg: String,
    pub lk_cutoff_date_arg: Option<String>,
    pub output_dir_path: String,
    pub suppress_reports: bool,
}

/// `ISO_DATE` is set when it is `1` or, in lowercase, `true`.
pub fn iso_date_env_is_true(val: &str) -> (r: bool)
    ensures
        r == (val@ == "1"@ || std_to_lowercase(val@) == "true"@),
{
    proof {
        reveal_strlit("1");
        reveal_strlit("true");
    }
    str_eq(val, "1") || str_eq(to_lowercase(val).as_str(), "true")
}

/// `DATE_SEPARATOR_IS_SLASH` is set when it is `1` or, in ASCII lowercase, `true`.
pub fn slash_env_is_true(val: &str) -> (r: bool)
    ensures
        r == (val@ == "1"@ || std_to_ascii_lowercase(val@) == "true"@),
{
    proof {
        reveal_strlit("1");
        reveal_strlit("true");
    }
    str_eq(val, "1") || str_eq(to_ascii_lowercase(val).as_str(), "true")
}

/// The settings from the command line flags and the values of the environment
/// variables `ISO_DATE`, `DATE_SEPARATOR_IS_SLASH`, `HOME_CURRENCY`, `LK_CUTOFF_DATE`
/// and `INV_COSTING_METHOD` (`None` when unset).  A flag wins over its variable; the
/// home currency is uppercased (default `USD`); the costing method defaults to `1`.
pub fn cfg_from_env_values(
    cmd_args: &Cli,
    iso_date_var: Option<String>,
    date_separator_var: Option<String>,
    home_currency_var: Option<String>,
    lk_cutoff_date_var: Option<String>,
    inv_costing_method_var: Option<String>,
) -> (r: Cfg)
    ensures
        r.iso_date == (cmd_args.iso_date || (iso_date_var matches Some(v) && (v@ == "1"@
            || std_to_lowercase(v@) == "true"@))),
        r.date_separator_is_slash == (cmd_args.date_separator_is_slash || (
        date_separator_var matches Some(v) && (v@ == "1"@ || std_to_ascii_lowercase(v@)
            == "true"@))),
        r.home_currency@ == match home_currency_var {
            Some(v) => std_to_uppercase(v@),
            None => "USD"@,
        },
        r.lk_cutoff_date == lk_cutoff_date_var,
        r.inv_costing_method@ == match inv_costing_method_var {
            Some(v) => v@,
            None => "1"@,
        },
{
    let iso_date = if cmd_args.iso_date {
        true
    } else {
        match &iso_date_var {
            Some(v) => iso_date_env_is_true(v.as_str()),
            None => false,
        }
    };
    let date_separator_is_slash = if cmd_args.date_separator_is_slash {
        true
    } else {
        match &date_separator_var {
            Some(v) => slash_env_is_true(v.as_str()),
            None => false,
        }
    };
    let home_currency = match &home_currency_var {
        Some(v) => to_uppercase(v.as_str()),
        None => string_from("USD"),
    };
    let inv_costing_method = match inv_costing_method_var {
        Some(v) => v,
        None => string_from("1"),
    };
    Cfg {
        iso_date,
        date_separator_is_slash,
        home_currency,
        lk_cutoff_date: lk_cutoff_date_var,
        inv_costing_method,
    }
}

/// The choices made without the wizard: the costing method named on the command line
/// (or the default), like-kind treatment exactly when a cut-off date is given (the
/// placeholder date `1-1-1` otherwise), and exports unless suppressed.
pub fn skip_wizard(args: ArgsForImportVarsTBD) -> (r: Result<
    (InventoryCostingMethod, bool, String, bool, String),
    &'static str,
>)
    ensures
        r matches Ok((m, lk, date, export, dir)) && m == match costing_method_named(
            args.inv_costing_method_arg@,
        ) {
            Some(m) => m,
            None => InventoryCostingMethod::LIFObyLotCreationDate,
        } && lk == (args.lk_cutoff_date_arg is Some) && date@ == match args.lk_cutoff_date_arg {
            Some(d) => d@,
            None => "1-1-1"@,
        } && export == !args.suppress_reports && dir@ == args.output_dir_path@,
{
    let costing_method_choice = inv_costing_from_cmd_arg(args.inv_costing_method_arg)?;
    let like_kind_election;
    let like_kind_cutoff_date_string: String;
    if let Some(date) = args.lk_cutoff_date_arg {
        like_kind_election = true;
        like_kind_cutoff_date_string = date;
    } else {
        like_kind_election = false;
        like_kind_cutoff_date_string = string_from("1-1-1");
    }
    let should_export = !args.suppress_reports;
    Ok((
        costing_method_choice,
        like_kind_election,
        like_kind_cutoff_date_string,
        should_export,
        args.output_dir_path,
    ))
}

/// A like-kind cut-off date as the user may write it: `%y-%m-%d`, else `%Y-%m-%d`.
pub fn parse_lk_cutoff_date(s: &str) -> (r: Option<Date>)
    ensures
        r is Some <==> (Date::parses(s@, "%y-%m-%d"@) || Date::parses(s@, "%Y-%m-%d"@)),
        r matches Some(d) ==> (if Date::parses(s@, "%y-%m-%d"@) {
            naive_date_parse(s@, "%y-%m-%d"@) == Some(d.day_num())
        } else {
            naive_date_parse(s@, "%Y-%m-%d"@) == Some(d.day_num())
        }),
{
    match Date::parse_from_str(s, "%y-%m-%d") {
        Some(d) => Some(d),
        None => Date::parse_from_str(s, "%Y-%m-%d"),
    }
}

/// The day number of 2001-01-01, the like-kind cut-off date used when like-kind treatment
/// is not chosen (what `1-1-1` reads as with the format `%y-%m-%d`).
pub const PLACEHOLDER_CUTOFF_DAY: i32 = 730486;

/// The parameters of processing from the settings and the choices made: the date
/// separator is `/` or `-`; the like-kind cut-off date is parsed when like-kind
/// treatment is chosen (else the placeholder 2001-01-01, `1-1-1` read as `%y-%m-%d`); the home
/// currency is uppercased; basis dates are preserved.
pub fn settings_from_choices(
    cmd_args: &Cli,
    cfg: &Cfg,
    costing_method_choice: InventoryCostingMethod,
    like_kind_election: bool,
    like_kind_cutoff_date_string: &str,
    should_export: bool,
    output_dir_path: String,
) -> (r: Result<ImportProcessParameters, CryptoolsError>)
    ensures
        r matches Ok(s) ==> {
            &&& s.input_file_uses_iso_date_style == cfg.iso_date
            &&& s.input_file_date_separator@ == (if cfg.date_separator_is_slash {
                "/"@
            } else {
                "-"@
            })
            &&& s.home_currency@ == std_to_uppercase(cfg.home_currency@)
            &&& s.costing_method == costing_method_choice
            &&& s.lk_treatment_enabled == like_kind_election
            &&& s.lk_basis_date_preserved
            &&& s.should_export == should_export
            &&& s.export_path@ == output_dir_path@
            &&& s.print_menu == cmd_args.print_menu
            &&& s.journal_entry_export == cmd_args.journal_entries_only
        },
        like_kind_election ==> (r is Err <==> !(Date::parses(like_kind_cutoff_date_string@, "%y-%m-%d"@)
            || Date::parses(like_kind_cutoff_date_string@, "%Y-%m-%d"@))),
        like_kind_election ==> (r matches Ok(s) ==> (if Date::parses(
            like_kind_cutoff_date_string@,
            "%y-%m-%d"@,
        ) {
            naive_date_parse(like_kind_cutoff_date_string@, "%y-%m-%d"@) == Some(
                s.lk_cutoff_date.day_num(),
            )
        } else {
            naive_date_parse(like_kind_cutoff_date_string@, "%Y-%m-%d"@) == Some(
                s.lk_cutoff_date.day_num(),
            )
        })),
        !like_kind_election ==> r is Ok,
        !like_kind_election ==> (r matches Ok(s) ==> s.lk_cutoff_date.day_num() == PLACEHOLDER_CUTOFF_DAY),
{
    let date_separator = if cfg.date_separator_is_slash {
        string_from("/")
    } else {
        string_from("-")
    };
    let like_kind_cutoff_date = if like_kind_election {
        match parse_lk_cutoff_date(like_kind_cutoff_date_string) {
            Some(d) => d,
            None => {
                return Err(CryptoolsError::LkCutoffDateUnparsable);
            },
        }
    } else {
        Date::from_num_days_from_ce(PLACEHOLDER_CUTOFF_DAY).unwrap()
    };
    Ok(ImportProcessParameters {
        input_file_uses_iso_date_style: cfg.iso_date,
        input_file_date_separator: date_separator,
        home_currency: to_uppercase(cfg.home_currency.as_str()),
        costing_method: costing_method_choice,
        lk_treatment_enabled: like_kind_election,
        lk_cutoff_date: like_kind_cutoff_date,
        lk_basis_date_preserved: true,
        should_export,
        export_path: output_dir_path,
        print_menu: cmd_args.print_menu,
        journal_entry_export: cmd_args.journal_entries_only,
    })
}

} // verus!
