//! Classification of raw pitch labels into a canonical pitch name and a
//! category.
//!
//! A label is trimmed, then matched against a table of short codes by its
//! uppercase form, then against an ordered list of keywords by its lowercase
//! form; the first rule that applies decides. A label that no rule knows
//! passes through unchanged.

use crate::text::{
    chars_contain, chars_of, chars_spell, has_substring, is_whitespace, lemma_trimmed_blank,
    lowercased, occurs_at, to_lower, to_upper, trim, trimmed, uppercased,
};
use vstd::prelude::*;

verus! {

/// The pitch name that a short code stands for. `upper` is the label in
/// uppercase; only a whole-label match counts.
pub open spec fn code_name(upper: Seq<char>) -> Option<Seq<char>> {
    if upper == "FF"@ || upper == "FA"@ || upper == "FT"@ || upper == "FF/FT"@ {
        Some("fastball"@)
    } else if upper == "SI"@ {
        Some("sinker"@)
    } else if upper == "SL"@ {
        Some("slider"@)
    } else if upper == "CU"@ || upper == "KC"@ {
        Some("curveball"@)
    } else if upper == "CH"@ {
        Some("changeup"@)
    } else if upper == "FC"@ {
        Some("cutter"@)
    } else if upper == "FS"@ {
        Some("splitter"@)
    } else if upper == "IN"@ {
        Some("intentional"@)
    } else {
        None
    }
}

/// The name and category given by the first keyword that occurs in `lower`,
/// the label in lowercase. The keywords are tried in this order.
pub open spec fn keyword_rule(lower: Seq<char>) -> Option<(Seq<char>, Seq<char>)> {
    if has_substring(lower, "fast"@) {
        Some(("fastball"@, "heater"@))
    } else if has_substring(lower, "slider"@) {
        Some(("slider"@, "breaking ball"@))
    } else if has_substring(lower, "curve"@) {
        Some(("curveball"@, "breaking ball"@))
    } else if has_substring(lower, "change"@) {
        Some(("changeup"@, "offspeed"@))
    } else if has_substring(lower, "sinker"@) {
        Some(("sinker"@, "heater"@))
    } else if has_substring(lower, "cutter"@) {
        Some(("cutter"@, "heater"@))
    } else if has_substring(lower, "splitter"@) {
        Some(("splitter"@, "offspeed"@))
    } else if has_substring(lower, "sweeper"@) {
        Some(("sweeper"@, "breaking ball"@))
    } else if has_substring(lower, "knuckle curve"@) {
        Some(("knuckle curve"@, "breaking ball"@))
    } else if has_substring(lower, "knuckleball"@) {
        Some(("knuckleball"@, "other"@))
    } else {
        None
    }
}

/// The name and category of a trimmed, non-empty label, given its uppercase
/// and lowercase forms.
pub open spec fn classify_forms(label: Seq<char>, upper: Seq<char>, lower: Seq<char>) -> (
    Seq<char>,
    Seq<char>,
) {
    match code_name(upper) {
        Some(name) => (name, name),
        None => match keyword_rule(lower) {
            Some(pair) => pair,
            None => (label, label),
        },
    }
}

/// The canonical `(name, category)` of a raw label.
pub open spec fn classification(raw: Seq<char>) -> (Seq<char>, Seq<char>) {
    let label = trimmed(raw);
    if label.len() == 0 {
        ("unknown"@, "unknown"@)
    } else {
        classify_forms(label, uppercased(label), lowercased(label))
    }
}

/// Looks `upper` up in the code table.
pub fn find_code(upper: &str) -> (r: Option<&'static str>)
    ensures
        match r {
            Some(name) => code_name(upper@) == Some(name@),
            None => code_name(upper@) is None,
        },
{
    let u = chars_of(upper);
    if chars_spell(&u, "FF") || chars_spell(&u, "FA") || chars_spell(&u, "FT") || chars_spell(
        &u,
        "FF/FT",
    ) {
        Some("fastball")
    } else if chars_spell(&u, "SI") {
        Some("sinker")
    } else if chars_spell(&u, "SL") {
        Some("slider")
    } else if chars_spell(&u, "CU") || chars_spell(&u, "KC") {
        Some("curveball")
    } else if chars_spell(&u, "CH") {
        Some("changeup")
    } else if chars_spell(&u, "FC") {
        Some("cutter")
    } else if chars_spell(&u, "FS") {
        Some("splitter")
    } else if chars_spell(&u, "IN") {
        Some("intentional")
    } else {
        None
    }
}

/// Finds the first keyword rule that applies to `lower`.
pub fn find_keyword(lower: &str) -> (r: Option<(&'static str, &'static str)>)
    ensures
        match r {
            Some(pair) => keyword_rule(lower@) == Some((pair.0@, pair.1@)),
            None => keyword_rule(lower@) is None,
        },
{
    let l = chars_of(lower);
    if chars_contain(&l, "fast") {
        Some(("fastball", "heater"))
    } else if chars_contain(&l, "slider") {
        Some(("slider", "breaking ball"))
    } else if chars_contain(&l, "curve") {
        Some(("curveball", "breaking ball"))
    } else if chars_contain(&l, "change") {
        Some(("changeup", "offspeed"))
    } else if chars_contain(&l, "sinker") {
        Some(("sinker", "heater"))
    } else if chars_contain(&l, "cutter") {
        Some(("cutter", "heater"))
    } else if chars_contain(&l, "splitter") {
        Some(("splitter", "offspeed"))
    } else if chars_contain(&l, "sweeper") {
        Some(("sweeper", "breaking ball"))
    } else if chars_contain(&l, "knuckle curve") {
        Some(("knuckle curve", "breaking ball"))
    } else if chars_contain(&l, "knuckleball") {
        Some(("knuckleball", "other"))
    } else {
        None
    }
}

/// Classifies a trimmed, non-empty label from its uppercase and lowercase
/// forms: the code table first, then the keywords, then the label itself.
pub fn classify_label(label: &str, upper: &str, lower: &str) -> (r: (String, String))
    ensures
        (r.0@, r.1@) == classify_forms(label@, upper@, lower@),
{
    if let Some(name) = find_code(upper) {
        return (name.to_owned(), name.to_owned());
    }
    if let Some(pair) = find_keyword(lower) {
        return (pair.0.to_owned(), pair.1.to_owned());
    }
    (label.to_owned(), label.to_owned())
}

/// Maps a raw pitch label to its canonical `(name, category)`. Total: every
/// label has a classification.
pub fn normalize_pitch_type(raw: &str) -> (r: (String, String))
    ensures
        (r.0@, r.1@) == classification(raw@),
{
    let code = trim(raw);
    if code.is_empty() {
        return ("unknown".to_owned(), "unknown".to_owned());
    }
    let up = to_upper(code);
    let low = to_lower(code);
    classify_label(code, up.as_str(), low.as_str())
}

/// A label whose uppercase form is one of the codes is classified by the
/// code table alone, and its category is its name.
pub proof fn lemma_code_decides(raw: Seq<char>)
    requires
        trimmed(raw).len() > 0,
        code_name(uppercased(trimmed(raw))) is Some,
    ensures
        classification(raw) == (
            code_name(uppercased(trimmed(raw)))->0,
            code_name(uppercased(trimmed(raw)))->0,
        ),
{
}

/// An empty label, or one of white space only, is classified as unknown.
pub proof fn lemma_blank_is_unknown(raw: Seq<char>)
    requires
        forall|i: int| 0 <= i < raw.len() ==> is_whitespace(#[trigger] raw[i]),
    ensures
        classification(raw) == ("unknown"@, "unknown"@),
{
    lemma_trimmed_blank(raw);
}

/// A label that matches no code and holds no keyword passes through: its
/// trimmed form is both its name and its category.
pub proof fn lemma_unmatched_passes_through(raw: Seq<char>)
    requires
        trimmed(raw).len() > 0,
        code_name(uppercased(trimmed(raw))) is None,
        keyword_rule(lowercased(trimmed(raw))) is None,
    ensures
        classification(raw) == (trimmed(raw), trimmed(raw)),
{
}

/// The name of a classification is never empty.
pub proof fn lemma_name_not_empty(raw: Seq<char>)
    ensures
        classification(raw).0.len() > 0,
{
    reveal_strlit("unknown");
    reveal_strlit("fastball");
    reveal_strlit("sinker");
    reveal_strlit("slider");
    reveal_strlit("curveball");
    reveal_strlit("changeup");
    reveal_strlit("cutter");
    reveal_strlit("splitter");
    reveal_strlit("intentional");
    reveal_strlit("sweeper");
    reveal_strlit("knuckle curve");
    reveal_strlit("knuckleball");
}

/// Every text that holds "knuckle curve" holds "curve", whose rule comes
/// first: such a label is a curveball.
pub proof fn lemma_knuckle_curve_is_curveball(lower: Seq<char>)
    requires
        has_substring(lower, "knuckle curve"@),
    ensures
        has_substring(lower, "curve"@),
        keyword_rule(lower) matches Some(pair) && pair.0 != "knuckle curve"@,
{
    reveal_strlit("knuckle curve");
    reveal_strlit("curve");
    reveal_strlit("fastball");
    reveal_strlit("slider");
    reveal_strlit("curveball");
    let at = choose|at: int| occurs_at(lower, "knuckle curve"@, at);
    let whole = lower.subrange(at, at + 13);
    assert(whole == "knuckle curve"@);
    assert(lower.subrange(at + 8, at + 13) =~= whole.subrange(8, 13));
    assert(whole.subrange(8, 13) =~= "curve"@);
    assert(occurs_at(lower, "curve"@, at + 8));
}

} // verus!
