//! The data-entry wizard as a state machine: it is handed each line the user types and
//! answers with what to say next.  Reading the lines and printing happens at the terminal.
use vstd::prelude::*;
use crate::costing_method::InventoryCostingMethod;
use crate::cli_user_choices::{
    Answer, CostingAnswer, answer, answer_of, begins_with_tilde, costing_answer,
    costing_method_named, inv_costing_from_cmd_arg, without_newline,
};
use crate::date::{Date, naive_date_parse};
use crate::setup::{ArgsForImportVarsTBD, parse_lk_cutoff_date, skip_wizard};
use crate::strings::{std_trim, string_from};

verus! {

/// Where the wizard stands: which question the next line answers.
#[derive(Clone, Copy, Debug, PartialEq, Eq, Structural)]
pub enum Stage {
    /// "Shall we proceed?"
    Proceed,
    /// Which lot inventory costing method.
    Costing,
    /// The cut-off date given on the command line did not parse: a new one is awaited.
    FixLkDateArg,
    /// "Use like-kind exchange treatment through this date?"
    ConfirmLkDate(Date),
    /// No cut-off date was given: "Continue without like-kind exchange treatment?"
    NoLkDate,
    /// A cut-off date of the user's choosing is awaited.
    ChooseLkDate,
    /// "Export reports to the selected directory?"
    ConfirmExport,
    /// A directory for the reports is awaited.
    ChooseExportDir,
    /// All choices are made.
    Finished,
    /// The user chose not to proceed.
    Quit,
}

/// Something the wizard says to the user.
#[derive(Clone, Copy, Debug, PartialEq, Eq, Structural)]
pub enum Say {
    AskProceed,
    NotProceeding,
    AnswerYesOrNo,
    /// The costing method menu, with the method given on the command line as default.
    AskCostingMethod,
    InvalidCostingChoice,
    /// The cut-off date given on the command line has an invalid format.
    LkDateArgInvalid,
    DateFormatHint,
    AskUseLkThrough(Date),
    AnswerYesNoOrChange,
    AskContinueWithoutLk,
    AskLkDate,
    UsingLkThrough(Date),
    ProceedingWithoutLk,
    /// Where reports would go, and whether to export them there.
    AskExport,
    NoReports,
    AskExportDir,
    TildeNotAllowed,
}

/// The wizard's state: its stage, what it was started with, and the choices so far.
#[derive(Debug)]
pub struct Wizard {
    pub stage: Stage,
    /// The costing method named on the command line or in the environment.
    pub costing_default: String,
    /// The like-kind cut-off date given on the command line or in the environment.
    pub lk_date_arg: Option<String>,
    pub costing: InventoryCostingMethod,
    pub like_kind: bool,
    pub lk_date: String,
    pub should_export: bool,
    pub output_dir: String,
}

/// The costing method the command line names, or the default.
pub open spec fn default_costing(arg: Seq<char>) -> InventoryCostingMethod {
    match costing_method_named(arg) {
        Some(m) => m,
        None => InventoryCostingMethod::LIFObyLotCreationDate,
    }
}

/// A date the user typed parses (as `%y-%m-%d`, else `%Y-%m-%d`).
pub open spec fn date_parses(s: Seq<char>) -> bool {
    Date::parses(s, "%y-%m-%d"@) || Date::parses(s, "%Y-%m-%d"@)
}

/// The wizard's first words: it asks whether to proceed.
pub fn wizard(args: ArgsForImportVarsTBD) -> (r: (Wizard, Vec<Say>))
    ensures
        r.0.stage == Stage::Proceed,
        r.0.costing_default@ == args.inv_costing_method_arg@,
        r.0.lk_date_arg == args.lk_cutoff_date_arg,
        r.0.output_dir@ == args.output_dir_path@,
        r.1@ == seq![Say::AskProceed],
        wizard_wf(r.0),
{
    let w = Wizard {
        stage: Stage::Proceed,
        costing_default: args.inv_costing_method_arg,
        lk_date_arg: args.lk_cutoff_date_arg,
        costing: InventoryCostingMethod::LIFObyLotCreationDate,
        like_kind: false,
        lk_date: string_from("1-1-1"),
        should_export: true,
        output_dir: args.output_dir_path,
    };
    let mut says: Vec<Say> = Vec::new();
    says.push(Say::AskProceed);
    (w, says)
}


/// The day a date the user typed names, when it parses (see `date_parses`).
pub open spec fn parsed_day(s: Seq<char>) -> int {
    if Date::parses(s, "%y-%m-%d"@) {
        naive_date_parse(s, "%y-%m-%d"@)->0
    } else {
        naive_date_parse(s, "%Y-%m-%d"@)->0
    }
}

/// What is settled once the wizard is started: its settings from the command line.
pub open spec fn keeps_settings(old: Wizard, new: Wizard) -> bool {
    &&& new.costing_default@ == old.costing_default@
    &&& new.lk_date_arg == old.lk_date_arg
}

/// The like-kind choice so far is kept.
pub open spec fn keeps_lk(old: Wizard, new: Wizard) -> bool {
    &&& new.like_kind == old.like_kind
    &&& new.lk_date@ == old.lk_date@
}

/// The wizard stands still: the same state, and `says` said.
pub open spec fn stays(old: Wizard, new: Wizard) -> bool {
    &&& new.stage == old.stage
    &&& keeps_settings(old, new)
    &&& new.costing == old.costing
    &&& new.like_kind == old.like_kind
    &&& new.lk_date@ == old.lk_date@
    &&& new.should_export == old.should_export
    &&& new.output_dir@ == old.output_dir@
}

/// On to the export question, the like-kind choice being `like_kind` through `lk_date`.
pub open spec fn to_export(old: Wizard, new: Wizard, like_kind: bool, lk_date: Seq<char>) -> bool {
    &&& new.stage == Stage::ConfirmExport
    &&& keeps_settings(old, new)
    &&& new.costing == old.costing
    &&& new.like_kind == like_kind
    &&& new.lk_date@ == lk_date
    &&& new.output_dir@ == old.output_dir@
}

/// After the costing method `m` is chosen: the like-kind question.  A cut-off date given
/// on the command line is offered when it parses, and asked for again when it does not;
/// without one, the user is asked whether to go on without like-kind treatment.
pub open spec fn to_like_kind(
    old: Wizard,
    new: Wizard,
    m: InventoryCostingMethod,
    says: Seq<Say>,
) -> bool {
    &&& keeps_settings(old, new)
    &&& new.costing == m
    &&& new.like_kind == old.like_kind
    &&& new.output_dir@ == old.output_dir@
    &&& match old.lk_date_arg {
        Some(a) => if date_parses(a@) {
            &&& new.stage matches Stage::ConfirmLkDate(d) && d.day_num() == parsed_day(a@)
                && says == seq![Say::AskUseLkThrough(d)]
            &&& new.lk_date@ == a@
        } else {
            &&& new.stage == Stage::FixLkDateArg
            &&& new.lk_date@ == old.lk_date@
            &&& says == seq![Say::LkDateArgInvalid, Say::DateFormatHint]
        },
        None => new.stage == Stage::NoLkDate && new.lk_date@ == old.lk_date@ && says == seq![
            Say::AskContinueWithoutLk,
        ],
    }
}

/// What the wizard does with the line `line` (see `Wizard::step`).
pub open spec fn step_ok(old: Wizard, new: Wizard, line: Seq<char>, says: Seq<Say>) -> bool {
    let a = answer_of(line);
    let typed = without_newline(line);
    match old.stage {
        Stage::Proceed => if a == Answer::Yes {
            &&& new.stage == Stage::Costing
            &&& keeps_settings(old, new)
            &&& keeps_lk(old, new)
            &&& new.output_dir@ == old.output_dir@
            &&& says == seq![Say::AskCostingMethod]
        } else if a == Answer::No {
            new.stage == Stage::Quit && keeps_settings(old, new) && keeps_lk(old, new) && says
                == seq![Say::NotProceeding]
        } else {
            stays(old, new) && says == seq![Say::AnswerYesOrNo]
        },
        Stage::Costing => if std_trim(line) == ""@ {
            to_like_kind(old, new, default_costing(old.costing_default@), says)
        } else {
            match costing_method_named(line) {
                Some(m) => to_like_kind(old, new, m, says),
                None => stays(old, new) && says == seq![Say::InvalidCostingChoice],
            }
        },
        Stage::FixLkDateArg => if date_parses(typed) {
            &&& new.stage matches Stage::ConfirmLkDate(d) && d.day_num() == parsed_day(typed)
                && says == seq![Say::AskUseLkThrough(d)]
            &&& keeps_settings(old, new)
            &&& new.costing == old.costing
            &&& new.like_kind == old.like_kind
            &&& new.lk_date@ == typed
            &&& new.output_dir@ == old.output_dir@
        } else {
            stays(old, new) && says == seq![Say::DateFormatHint]
        },
        Stage::ConfirmLkDate(d) => if a == Answer::Yes {
            to_export(old, new, true, old.lk_date@) && says == seq![
                Say::UsingLkThrough(d),
                Say::AskExport,
            ]
        } else if a == Answer::No {
            to_export(old, new, false, "1-1-1"@) && says == seq![
                Say::ProceedingWithoutLk,
                Say::AskExport,
            ]
        } else if a == Answer::Change {
            &&& new.stage == Stage::ChooseLkDate
            &&& keeps_settings(old, new)
            &&& keeps_lk(old, new)
            &&& new.costing == old.costing
            &&& new.output_dir@ == old.output_dir@
            &&& says == seq![Say::AskLkDate]
        } else {
            stays(old, new) && says == seq![Say::AnswerYesNoOrChange]
        },
        Stage::NoLkDate => if a == Answer::Yes {
            to_export(old, new, false, "1-1-1"@) && says == seq![
                Say::ProceedingWithoutLk,
                Say::AskExport,
            ]
        } else if a == Answer::No {
            &&& new.stage == Stage::ChooseLkDate
            &&& keeps_settings(old, new)
            &&& keeps_lk(old, new)
            &&& new.costing == old.costing
            &&& new.output_dir@ == old.output_dir@
            &&& says == seq![Say::AskLkDate]
        } else {
            stays(old, new) && says == seq![Say::AnswerYesOrNo]
        },
        Stage::ChooseLkDate => if date_parses(typed) {
            &&& to_export(old, new, true, typed)
            &&& exists|d: Date| d.day_num() == parsed_day(typed) && says == seq![
                Say::UsingLkThrough(d),
                Say::AskExport,
            ]
        } else {
            stays(old, new) && says == seq![Say::DateFormatHint]
        },
        Stage::ConfirmExport => if a == Answer::Yes {
            &&& new.stage == Stage::Finished
            &&& keeps_settings(old, new)
            &&& new.costing == old.costing
            &&& new.like_kind == old.like_kind
            &&& new.lk_date@ == old.lk_date@
            &&& new.should_export
            &&& new.output_dir@ == old.output_dir@
            &&& says == Seq::<Say>::empty()
        } else if a == Answer::No {
            &&& new.stage == Stage::Finished
            &&& keeps_settings(old, new)
            &&& new.costing == old.costing
            &&& new.like_kind == old.like_kind
            &&& new.lk_date@ == old.lk_date@
            &&& !new.should_export
            &&& new.output_dir@ == old.output_dir@
            &&& says == seq![Say::NoReports]
        } else if a == Answer::Change {
            &&& new.stage == Stage::ChooseExportDir
            &&& keeps_settings(old, new)
            &&& new.costing == old.costing
            &&& new.like_kind == old.like_kind
            &&& new.lk_date@ == old.lk_date@
            &&& new.output_dir@ == old.output_dir@
            &&& says == seq![Say::AskExportDir]
        } else {
            stays(old, new) && says == seq![Say::AnswerYesNoOrChange]
        },
        Stage::ChooseExportDir => if line.len() > 0 && line[0] == '~' {
            stays(old, new) && says == seq![Say::TildeNotAllowed, Say::AskExportDir]
        } else {
            &&& new.stage == Stage::Finished
            &&& keeps_settings(old, new)
            &&& new.costing == old.costing
            &&& new.like_kind == old.like_kind
            &&& new.lk_date@ == old.lk_date@
            &&& new.should_export
            &&& new.output_dir@ == line
            &&& says == Seq::<Say>::empty()
        },
        Stage::Finished => stays(old, new) && says == Seq::<Say>::empty(),
        Stage::Quit => stays(old, new) && says == Seq::<Say>::empty(),
    }
}

impl Wizard {
    /// Leaves the wizard where it is.
    fn stay(&mut self, s: Say) -> (says: Vec<Say>)
        ensures
            stays(*old(self), *final(self)),
            says@ == seq![s],
    {
        let mut says: Vec<Say> = Vec::new();
        says.push(s);
        says
    }

    /// Moves on to the like-kind question, the costing method being `m`.
    fn choose_costing(&mut self, m: InventoryCostingMethod) -> (says: Vec<Say>)
        ensures
            to_like_kind(*old(self), *final(self), m, says@),
    {
        self.costing = m;
        let mut says: Vec<Say> = Vec::new();
        match &self.lk_date_arg {
            Some(a) => match parse_lk_cutoff_date(a.as_str()) {
                Some(d) => {
                    self.lk_date = a.clone();
                    self.stage = Stage::ConfirmLkDate(d);
                    says.push(Say::AskUseLkThrough(d));
                },
                None => {
                    self.stage = Stage::FixLkDateArg;
                    says.push(Say::LkDateArgInvalid);
                    says.push(Say::DateFormatHint);
                    assert(says@ =~= seq![Say::LkDateArgInvalid, Say::DateFormatHint]);
                },
            },
            None => {
                self.stage = Stage::NoLkDate;
                says.push(Say::AskContinueWithoutLk);
            },
        }
        says
    }

    /// Moves on to the export question.
    fn to_export_question(&mut self, like_kind: bool, lk_date: String, first: Say) -> (says: Vec<Say>)
        ensures
            to_export(*old(self), *final(self), like_kind, lk_date@),
            says@ == seq![first, Say::AskExport],
    {
        self.like_kind = like_kind;
        self.lk_date = lk_date;
        self.stage = Stage::ConfirmExport;
        let mut says: Vec<Say> = Vec::new();
        says.push(first);
        says.push(Say::AskExport);
        assert(says@ =~= seq![first, Say::AskExport]);
        says
    }

    /// Takes the line the user typed in answer to the current question, and gives what
    /// to say next (see `step_ok`).
    pub fn step(&mut self, line: &str) -> (says: Vec<Say>)
        ensures
            step_ok(*old(self), *final(self), line@, says@),
    {
        match self.stage {
            Stage::Proceed => match answer(line) {
                Answer::Yes => {
                    self.stage = Stage::Costing;
                    let mut says: Vec<Say> = Vec::new();
                    says.push(Say::AskCostingMethod);
                    says
                },
                Answer::No => {
                    self.stage = Stage::Quit;
                    let mut says: Vec<Say> = Vec::new();
                    says.push(Say::NotProceeding);
                    says
                },
                _ => self.stay(Say::AnswerYesOrNo),
            },
            Stage::Costing => match costing_answer(line) {
                CostingAnswer::KeepDefault => {
                    let m = match inv_costing_from_cmd_arg(self.costing_default.clone()) {
                        Ok(m) => m,
                        Err(_) => InventoryCostingMethod::LIFObyLotCreationDate,
                    };
                    self.choose_costing(m)
                },
                CostingAnswer::Method(m) => self.choose_costing(m),
                CostingAnswer::Invalid => self.stay(Say::InvalidCostingChoice),
            },
            Stage::FixLkDateArg => {
                let mut typed = string_from(line);
                crate::cli_user_choices::trim_newline(&mut typed);
                match parse_lk_cutoff_date(typed.as_str()) {
                    Some(d) => {
                        self.lk_date = typed;
                        self.stage = Stage::ConfirmLkDate(d);
                        let mut says: Vec<Say> = Vec::new();
                        says.push(Say::AskUseLkThrough(d));
                        says
                    },
                    None => self.stay(Say::DateFormatHint),
                }
            },
            Stage::ConfirmLkDate(d) => match answer(line) {
                Answer::Yes => {
                    let date = self.lk_date.clone();
                    self.to_export_question(true, date, Say::UsingLkThrough(d))
                },
                Answer::No => self.to_export_question(
                    false,
                    string_from("1-1-1"),
                    Say::ProceedingWithoutLk,
                ),
                Answer::Change => {
                    self.stage = Stage::ChooseLkDate;
                    let mut says: Vec<Say> = Vec::new();
                    says.push(Say::AskLkDate);
                    says
                },
                Answer::Invalid => self.stay(Say::AnswerYesNoOrChange),
            },
            Stage::NoLkDate => match answer(line) {
                Answer::Yes => self.to_export_question(
                    false,
                    string_from("1-1-1"),
                    Say::ProceedingWithoutLk,
                ),
                Answer::No => {
                    self.stage = Stage::ChooseLkDate;
                    let mut says: Vec<Say> = Vec::new();
                    says.push(Say::AskLkDate);
                    says
                },
                _ => self.stay(Say::AnswerYesOrNo),
            },
            Stage::ChooseLkDate => {
                let mut typed = string_from(line);
                crate::cli_user_choices::trim_newline(&mut typed);
                match parse_lk_cutoff_date(typed.as_str()) {
                    Some(d) => self.to_export_question(true, typed, Say::UsingLkThrough(d)),
                    None => self.stay(Say::DateFormatHint),
                }
            },
            Stage::ConfirmExport => match answer(line) {
                Answer::Yes => {
                    self.should_export = true;
                    self.stage = Stage::Finished;
                    Vec::new()
                },
                Answer::No => {
                    self.should_export = false;
                    self.stage = Stage::Finished;
                    let mut says: Vec<Say> = Vec::new();
                    says.push(Say::NoReports);
                    says
                },
                Answer::Change => {
                    self.stage = Stage::ChooseExportDir;
                    let mut says: Vec<Say> = Vec::new();
                    says.push(Say::AskExportDir);
                    says
                },
                Answer::Invalid => self.stay(Say::AnswerYesNoOrChange),
            },
            Stage::ChooseExportDir => {
                if begins_with_tilde(line) {
                    let mut says: Vec<Say> = Vec::new();
                    says.push(Say::TildeNotAllowed);
                    says.push(Say::AskExportDir);
                    assert(says@ =~= seq![Say::TildeNotAllowed, Say::AskExportDir]);
                    says
                } else {
                    self.output_dir = string_from(line);
                    self.should_export = true;
                    self.stage = Stage::Finished;
                    Vec::new()
                }
            },
            Stage::Finished => Vec::new(),
            Stage::Quit => Vec::new(),
        }
    }
}


/// The wizard's choices hang together: like-kind treatment is chosen only with a cut-off
/// date that parses, and a date offered for confirmation is the one held.
pub open spec fn wizard_wf(w: Wizard) -> bool {
    &&& w.like_kind ==> date_parses(w.lk_date@)
    &&& w.stage matches Stage::ConfirmLkDate(d) ==> date_parses(w.lk_date@) && d.day_num()
        == parsed_day(w.lk_date@)
}

/// Every step keeps the wizard's choices hanging together, so that a finished wizard
/// never hands on a like-kind election with a cut-off date that does not parse.
pub proof fn lemma_step_keeps_wf(old: Wizard, new: Wizard, line: Seq<char>, says: Seq<Say>)
    requires
        wizard_wf(old),
        step_ok(old, new, line, says),
    ensures
        wizard_wf(new),
{
}

/// Once finished (or quit), the wizard stays so, whatever it is told.
pub proof fn lemma_done_is_final(old: Wizard, new: Wizard, line: Seq<char>, says: Seq<Say>)
    requires
        old.stage == Stage::Finished || old.stage == Stage::Quit,
        step_ok(old, new, line, says),
    ensures
        new.stage == old.stage,
        says.len() == 0,
{
}

impl Wizard {
    /// The choices of a finished wizard: costing method, like-kind election, cut-off date,
    /// whether to export, and where.
    pub fn choices(self) -> (r: (InventoryCostingMethod, bool, String, bool, String))
        ensures
            r.0 == self.costing,
            r.1 == self.like_kind,
            r.2@ == self.lk_date@,
            r.3 == self.should_export,
            r.4@ == self.output_dir@,
    {
        (self.costing, self.like_kind, self.lk_date, self.should_export, self.output_dir)
    }
}

/// Either the choices made without the wizard, or a wizard just started.
#[derive(Debug)]
pub enum WizardOrNot {
    Skipped(InventoryCostingMethod, bool, String, bool, String),
    Started(Wizard, Vec<Say>),
}

/// With `accept_args`, the choices of `skip_wizard`; otherwise the wizard, started.
pub fn wizard_or_not(accept_args: bool, args: ArgsForImportVarsTBD) -> (r: WizardOrNot)
    ensures
        accept_args ==> (r matches WizardOrNot::Skipped(m, lk, date, export, dir) && m
            == default_costing(args.inv_costing_method_arg@) && lk == (args.lk_cutoff_date_arg is Some)
            && date@ == match args.lk_cutoff_date_arg {
            Some(d) => d@,
            None => "1-1-1"@,
        } && export == !args.suppress_reports && dir@ == args.output_dir_path@),
        !accept_args ==> (r matches WizardOrNot::Started(w, says) && w.stage == Stage::Proceed
            && w.costing_default@ == args.inv_costing_method_arg@ && w.lk_date_arg
            == args.lk_cutoff_date_arg && w.output_dir@ == args.output_dir_path@ && wizard_wf(w)
            && says@ == seq![Say::AskProceed]),
{
    if accept_args {
        match skip_wizard(args) {
            Ok((m, lk, date, export, dir)) => WizardOrNot::Skipped(m, lk, date, export, dir),
            Err(_) => WizardOrNot::Skipped(
                InventoryCostingMethod::LIFObyLotCreationDate,
                false,
                string_from("1-1-1"),
                false,
                string_from("."),
            ),
        }
    } else {
        let (w, says) = wizard(args);
        WizardOrNot::Started(w, says)
    }
}

} // verus!
