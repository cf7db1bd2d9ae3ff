//! Choosing an engine and reporting what it found.

use crate::builtin::{builtin_compile, builtin_error_text, builtin_find_all, successive_pieces};
use crate::custom_regex::{find_all, spec_compile, texts, CustomRegex, RegexError};
use crate::text::{contains_text, debug_list, debug_text, occurs_in, same_text};
use vstd::prelude::*;
use vstd::string::StringExecFns;

verus! {

/// The engines that can be asked for by name.
#[derive(Debug, Clone, Copy, PartialEq, Eq)]
pub enum EngineChoice {
    Builtin,
    Custom,
    Dfa,
    Hybrid,
    Onepass,
    Boundedbacktracker,
    Pikevm,
    Meta,
    Custommeta,
}

/// The engine called `name`; an unknown name means the builtin engine.
pub open spec fn spec_engine_choice(name: Seq<char>) -> EngineChoice {
    if name == "builtin"@ {
        EngineChoice::Builtin
    } else if name == "custom"@ {
        EngineChoice::Custom
    } else if name == "dfa"@ {
        EngineChoice::Dfa
    } else if name == "hybrid"@ {
        EngineChoice::Hybrid
    } else if name == "onepass"@ {
        EngineChoice::Onepass
    } else if name == "boundedbacktracker"@ {
        EngineChoice::Boundedbacktracker
    } else if name == "pikevm"@ {
        EngineChoice::Pikevm
    } else if name == "meta"@ {
        EngineChoice::Meta
    } else if name == "custommeta"@ {
        EngineChoice::Custommeta
    } else {
        EngineChoice::Builtin
    }
}

/// The engine called `engine_str`; an unknown name means the builtin engine.
pub fn parse_engine_choice(engine_str: &str) -> (choice: EngineChoice)
    ensures
        choice == spec_engine_choice(engine_str@),
{
    if same_text(engine_str, "builtin") {
        EngineChoice::Builtin
    } else if same_text(engine_str, "custom") {
        EngineChoice::Custom
    } else if same_text(engine_str, "dfa") {
        EngineChoice::Dfa
    } else if same_text(engine_str, "hybrid") {
        EngineChoice::Hybrid
    } else if same_text(engine_str, "onepass") {
        EngineChoice::Onepass
    } else if same_text(engine_str, "boundedbacktracker") {
        EngineChoice::Boundedbacktracker
    } else if same_text(engine_str, "pikevm") {
        EngineChoice::Pikevm
    } else if same_text(engine_str, "meta") {
        EngineChoice::Meta
    } else if same_text(engine_str, "custommeta") {
        EngineChoice::Custommeta
    } else {
        EngineChoice::Builtin
    }
}

/// The report of a search that found `found`.
pub open spec fn spec_report(found: Seq<Seq<char>>) -> Seq<char> {
    if found.len() == 0 {
        "No matches found."@
    } else {
        "Matches: "@ + debug_text(found)
    }
}

/// The report of a pattern that was rejected with `message`.
pub open spec fn spec_invalid(message: Seq<char>) -> Seq<char> {
    "Invalid pattern: "@ + message
}

/// Reports the matches `found`: `No matches found.` where there are none,
/// else `Matches: ` and the list.
pub fn report_matches(found: &Vec<&str>) -> (out: String)
    ensures
        out@ == spec_report(texts(found@)),
{
    if found.len() == 0 {
        String::from_str("No matches found.")
    } else {
        let list = debug_list(found);
        let mut out = String::from_str("Matches: ");
        out.append(list.as_str());
        assert(texts(found@) =~= Seq::new(found@.len(), |i: int| found@[i]@));
        out
    }
}

/// Reports a pattern that was rejected with `message`.
pub fn report_invalid(message: &str) -> (out: String)
    ensures
        out@ == spec_invalid(message@),
{
    let mut out = String::from_str("Invalid pattern: ");
    out.append(message);
    out
}

/// What the builtin engine may report on `text`: for a pattern that it
/// compiles, the report of successive pieces of the text; for any other,
/// that the pattern is invalid, with some message. Which of the two, and
/// which pieces, is for the `regex` crate to say.
pub open spec fn builtin_report(text: Seq<char>, out: Seq<char>) -> bool {
    ||| exists|found: Seq<Seq<char>>| successive_pieces(found, text) && out == spec_report(found)
    ||| exists|message: Seq<char>| out == spec_invalid(message)
}

/// Searches `text` with the builtin engine and reports the outcome.
pub fn apply_pattern_builtin(pattern: &str, text: &str) -> (out: String)
    ensures
        builtin_report(text@, out@),
{
    match builtin_compile(pattern) {
        Ok(regex) => {
            let found = builtin_find_all(&regex, text);
            let out = report_matches(&found);
            assert(successive_pieces(texts(found@), text@) && out@ == spec_report(texts(found@)));
            out
        },
        Err(error) => {
            let message = builtin_error_text(&error);
            let out = report_invalid(message.as_str());
            assert(out@ == spec_invalid(message@));
            out
        },
    }
}

/// What this library's engine finds for `pattern` in `text`.
pub open spec fn custom_outcome(pattern: Seq<char>, text: Seq<char>) -> Result<
    Seq<Seq<char>>,
    RegexError,
> {
    match spec_compile(pattern) {
        Ok(ast) => Ok(find_all(ast, text)),
        Err(e) => Err(e),
    }
}

/// What this library's engine reports for `pattern` and `text`.
pub open spec fn custom_report(pattern: Seq<char>, text: Seq<char>) -> Seq<char> {
    match custom_outcome(pattern, text) {
        Ok(found) => spec_report(found),
        Err(e) => spec_invalid(e.spec_message()),
    }
}

/// Searches `text` with this library's engine and reports the outcome.
pub fn apply_pattern_custom(pattern: &str, text: &str) -> (out: String)
    ensures
        out@ == custom_report(pattern@, text@),
{
    match CustomRegex::new(pattern) {
        Ok(engine) => {
            let found = engine.find_iter(text);
            report_matches(&found)
        },
        Err(e) => {
            let message = e.message();
            report_invalid(message.as_str())
        },
    }
}

/// Searches `text` with this library's deterministic automaton and reports
/// the outcome.
pub fn apply_pattern_dfa(pattern: &str, text: &str) -> (out: String)
    ensures
        out@ == custom_report(pattern@, text@),
{
    apply_pattern_custom(pattern, text)
}

/// What the cross-checking engine reports, given what this library's engine
/// found and what the builtin engine reported.
///
/// The builtin report wins whenever this library's engine rejected the
/// pattern, and whenever the builtin report speaks of an invalid pattern or
/// of no matches. Otherwise the matches of this library's engine are
/// reported.
pub open spec fn spec_custommeta(
    custom: Result<Seq<Seq<char>>, RegexError>,
    builtin: Seq<char>,
) -> Seq<char> {
    match custom {
        Err(_) => builtin,
        Ok(found) => if occurs_in(builtin, "No matches found"@) || occurs_in(
            builtin,
            "Invalid pattern"@,
        ) {
            builtin
        } else {
            spec_report(found)
        },
    }
}

/// The verdict of the cross-checking engine on what this library's engine
/// found (`custom`) and what the builtin engine reported (`builtin`).
pub fn custommeta_verdict(custom: &Result<Vec<&str>, RegexError>, builtin: String) -> (out: String)
    ensures
        out@ == spec_custommeta(
            match custom {
                Ok(found) => Ok(texts(found@)),
                Err(e) => Err(*e),
            },
            builtin@,
        ),
{
    match custom {
        Err(_) => builtin,
        Ok(found) => {
            if contains_text(builtin.as_str(), "No matches found") || contains_text(
                builtin.as_str(),
                "Invalid pattern",
            ) {
                builtin
            } else {
                report_matches(found)
            }
        },
    }
}

/// What the cross-checking engine may report for `pattern` and `text`.
pub open spec fn custommeta_report(pattern: Seq<char>, text: Seq<char>, out: Seq<char>) -> bool {
    exists|builtin: Seq<char>|
        builtin_report(text, builtin) && out == spec_custommeta(
            custom_outcome(pattern, text),
            builtin,
        )
}

/// Searches `text` with this library's engine, checks the outcome against
/// the builtin engine and reports.
pub fn apply_pattern_custommeta(pattern: &str, text: &str) -> (out: String)
    ensures
        custommeta_report(pattern@, text@, out@),
{
    let compiled = CustomRegex::new(pattern);
    let builtin = apply_pattern_builtin(pattern, text);
    let ghost reported = builtin@;
    let out = match &compiled {
        Ok(engine) => custommeta_verdict(&Ok(engine.find_iter(text)), builtin),
        Err(e) => custommeta_verdict(&Err(*e), builtin),
    };
    assert(builtin_report(text@, reported) && out@ == spec_custommeta(
        custom_outcome(pattern@, text@),
        reported,
    ));
    out
}

/// What `apply_pattern` may report for `pattern` and `text` with the engine
/// `choice`.
pub open spec fn applied(
    pattern: Seq<char>,
    text: Seq<char>,
    choice: EngineChoice,
    out: Seq<char>,
) -> bool {
    match choice {
        EngineChoice::Builtin => builtin_report(text, out),
        EngineChoice::Custom => out == custom_report(pattern, text),
        EngineChoice::Dfa => builtin_report(text, out),
        EngineChoice::Hybrid => out == "Hybrid (placeholder)"@,
        EngineChoice::Meta => out == "Meta (placeholder)"@,
        EngineChoice::Onepass => out == "One-pass (placeholder)"@,
        EngineChoice::Boundedbacktracker => out == "Bounded backtracking (placeholder)"@,
        EngineChoice::Pikevm => out == "Pikevm (placeholder)"@,
        EngineChoice::Custommeta => custommeta_report(pattern, text, out),
    }
}

/// Searches `text` for `pattern` with the chosen engine and reports the
/// outcome as one line of text.
pub fn apply_pattern(pattern: &str, text: &str, engine_choice: &EngineChoice) -> (out: String)
    ensures
        applied(pattern@, text@, *engine_choice, out@),
{
    match engine_choice {
        EngineChoice::Builtin => apply_pattern_builtin(pattern, text),
        EngineChoice::Custom => apply_pattern_custom(pattern, text),
        EngineChoice::Dfa => apply_pattern_builtin(pattern, text),
        EngineChoice::Hybrid => String::from_str("Hybrid (placeholder)"),
        EngineChoice::Meta => String::from_str("Meta (placeholder)"),
        EngineChoice::Onepass => String::from_str("One-pass (placeholder)"),
        EngineChoice::Boundedbacktracker => String::from_str("Bounded backtracking (placeholder)"),
        EngineChoice::Pikevm => String::from_str("Pikevm (placeholder)"),
        EngineChoice::Custommeta => apply_pattern_custommeta(pattern, text),
    }
}

} // verus!
