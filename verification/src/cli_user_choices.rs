//! What the user's answers at the prompts mean.  The prompting itself happens at the
//! terminal, outside this library.
use vstd::prelude::*;
use crate::costing_method::InventoryCostingMethod;
use crate::strings::{
    std_to_ascii_lowercase, std_trim, str_eq, string_from, to_ascii_lowercase, trim,
};

verus! {

/// The string without a final line break (`\n`, or `\r\n`).
pub open spec fn without_newline(s: Seq<char>) -> Seq<char> {
    if s.len() > 0 && s.last() == '\n' {
        let t = s.drop_last();
        if t.len() > 0 && t.last() == '\r' {
            t.drop_last()
        } else {
            t
        }
    } else {
        s
    }
}

/// Removes a final line break (`\n`, or `\r\n`).
pub fn trim_newline(s: &mut String)
    ensures
        final(s)@ == without_newline(old(s)@),
{
    let n = s.as_str().unicode_len();
    if n > 0 && s.as_str().get_char(n - 1) == '\n' {
        let t = string_from(s.as_str().substring_char(0, n - 1));
        proof {
            assert(t@ =~= old(s)@.drop_last());
        }
        *s = t;
        let m = s.as_str().unicode_len();
        if m > 0 && s.as_str().get_char(m - 1) == '\r' {
            let u = string_from(s.as_str().substring_char(0, m - 1));
            proof {
                assert(u@ =~= s@.drop_last());
            }
            *s = u;
        }
    }
}

/// The costing method a number names (`1` to `4`, around which white space is ignored).
pub open spec fn costing_method_named(arg: Seq<char>) -> Option<InventoryCostingMethod> {
    let t = std_trim(arg);
    if t == "1"@ {
        Some(InventoryCostingMethod::LIFObyLotCreationDate)
    } else if t == "2"@ {
        Some(InventoryCostingMethod::LIFObyLotBasisDate)
    } else if t == "3"@ {
        Some(InventoryCostingMethod::FIFObyLotCreationDate)
    } else if t == "4"@ {
        Some(InventoryCostingMethod::FIFObyLotBasisDate)
    } else {
        None
    }
}

/// The costing method a number names, if it names one.
pub fn costing_method_from_arg(arg: &str) -> (r: Option<InventoryCostingMethod>)
    ensures
        r == costing_method_named(arg@),
{
    let t = trim(arg);
    let ts = t.as_str();
    proof {
        reveal_strlit("1");
        reveal_strlit("2");
        reveal_strlit("3");
        reveal_strlit("4");
    }
    if str_eq(ts, "1") {
        Some(InventoryCostingMethod::LIFObyLotCreationDate)
    } else if str_eq(ts, "2") {
        Some(InventoryCostingMethod::LIFObyLotBasisDate)
    } else if str_eq(ts, "3") {
        Some(InventoryCostingMethod::FIFObyLotCreationDate)
    } else if str_eq(ts, "4") {
        Some(InventoryCostingMethod::FIFObyLotBasisDate)
    } else {
        None
    }
}

/// The costing method the command line (or environment) names; anything else means the
/// default, last in first out by lot creation date.
pub fn inv_costing_from_cmd_arg(arg: String) -> (r: Result<InventoryCostingMethod, &'static str>)
    ensures
        r == Ok::<InventoryCostingMethod, &'static str>(
            match costing_method_named(arg@) {
                Some(m) => m,
                None => InventoryCostingMethod::LIFObyLotCreationDate,
            },
        ),
{
    match costing_method_from_arg(arg.as_str()) {
        Some(m) => Ok(m),
        None => Ok(InventoryCostingMethod::LIFObyLotCreationDate),
    }
}

/// An answer at the costing method prompt.
#[derive(Clone, Copy, Debug, PartialEq, Eq, Structural)]
pub enum CostingAnswer {
    /// An empty answer: keep the method given on the command line.
    KeepDefault,
    Method(InventoryCostingMethod),
    Invalid,
}

/// What an answer at the costing method prompt means: empty keeps the default, `1` to
/// `4` name a method (white space around it ignored).
pub fn costing_answer(input: &str) -> (r: CostingAnswer)
    ensures
        std_trim(input@) == ""@ ==> r == CostingAnswer::KeepDefault,
        std_trim(input@) != ""@ ==> r == match costing_method_named(input@) {
            Some(m) => CostingAnswer::Method(m),
            None => CostingAnswer::Invalid,
        },
{
    let t = trim(input);
    proof {
        reveal_strlit("");
    }
    if str_eq(t.as_str(), "") {
        return CostingAnswer::KeepDefault;
    }
    match costing_method_from_arg(input) {
        Some(m) => CostingAnswer::Method(m),
        None => CostingAnswer::Invalid,
    }
}

/// An answer to a yes/no (or change) question.
#[derive(Clone, Copy, Debug, PartialEq, Eq, Structural)]
pub enum Answer {
    Yes,
    No,
    Change,
    Invalid,
}

/// What an answer means, read trimmed and in lowercase: `y`, `ye`, `yes` or nothing is
/// yes; `n` or `no` is no; `c` or `change` is change.
pub open spec fn answer_of(input: Seq<char>) -> Answer {
    let w = std_to_ascii_lowercase(std_trim(input));
    if w == "y"@ || w == "ye"@ || w == "yes"@ || w == ""@ {
        Answer::Yes
    } else if w == "n"@ || w == "no"@ {
        Answer::No
    } else if w == "c"@ || w == "change"@ {
        Answer::Change
    } else {
        Answer::Invalid
    }
}

pub fn answer(input: &str) -> (r: Answer)
    ensures
        r == answer_of(input@),
{
    let t = trim(input);
    let w = to_ascii_lowercase(t.as_str());
    let ws = w.as_str();
    proof {
        reveal_strlit("y");
        reveal_strlit("ye");
        reveal_strlit("yes");
        reveal_strlit("");
        reveal_strlit("n");
        reveal_strlit("no");
        reveal_strlit("c");
        reveal_strlit("change");
    }
    if str_eq(ws, "y") || str_eq(ws, "ye") || str_eq(ws, "yes") || str_eq(ws, "") {
        Answer::Yes
    } else if str_eq(ws, "n") || str_eq(ws, "no") {
        Answer::No
    } else if str_eq(ws, "c") || str_eq(ws, "change") {
        Answer::Change
    } else {
        Answer::Invalid
    }
}

/// Whether a path starts with a tilde (which is not taken as the home directory).
pub fn begins_with_tilde(unchecked_path: &str) -> (r: bool)
    ensures
        r == (unchecked_path@.len() > 0 && unchecked_path@[0] == '~'),
{
    unchecked_path.unicode_len() > 0 && unchecked_path.get_char(0) == '~'
}

} // verus!
