//! Matching engine: anchors a step definition's pattern according to the
//! match mode and tests it against a scenario-step body with the regex
//! engine. A pattern that does not compile simply never matches.

use vstd::prelude::*;
use crate::step_index::{clone_entry, StepEntry, StepEntryV, StepKind};
use crate::text::{append_chars, chars_to_string, spec_trim, str_eq, str_to_chars, trim_chars};

verus! {

/// Whether the regex engine accepts this pattern (under its default limits).
pub uninterp spec fn regex_compiles(p: Seq<char>) -> bool;

/// Whether the compiled pattern matches anywhere in the text.
pub uninterp spec fn regex_matches(p: Seq<char>, t: Seq<char>) -> bool;

/// Relies on `regex::Regex::new` for whether the pattern compiles and on
/// `regex::Regex::is_match` for whether it matches anywhere in the text;
/// both results depend on the pattern and the text alone.
#[verifier::external_body]
fn regex_try_match(pattern: &str, text: &str) -> (r: Option<bool>)
    ensures
        (r is Some) == regex_compiles(pattern@),
        r matches Some(m) ==> m == regex_matches(pattern@, text@),
{
    match regex::Regex::new(pattern) {
        Ok(re) => Some(re.is_match(text)),
        Err(_) => None,
    }
}

/// The pattern with `^` prepended when absent and `$` appended when absent.
pub open spec fn anchored_pattern(r: Seq<char>) -> Seq<char> {
    let p = if r.len() > 0 && r[0] == '^' {
        r
    } else {
        seq!['^'] + r
    };
    if p.len() > 0 && p.last() == '$' {
        p
    } else {
        p.push('$')
    }
}

/// A pattern already anchored at either end is kept; a fully unanchored one
/// is wrapped as `^…$`.
pub open spec fn smart_pattern(r: Seq<char>) -> Seq<char> {
    if (r.len() > 0 && r[0] == '^') || (r.len() > 0 && r.last() == '$') {
        r
    } else {
        seq!['^'] + r + seq!['$']
    }
}

/// The pattern actually handed to the regex engine for each mode; an
/// unknown mode yields nothing.
pub open spec fn pattern_for_mode_spec(r: Seq<char>, mode: Seq<char>) -> Option<Seq<char>> {
    if mode == "anchored"@ {
        Some(anchored_pattern(r))
    } else if mode == "smart"@ {
        Some(smart_pattern(r))
    } else if mode == "substring"@ {
        Some(r)
    } else {
        None
    }
}

/// Transforms a step definition's pattern according to the match mode:
/// `anchored` forces both anchors, `smart` wraps only fully unanchored
/// patterns, `substring` keeps the pattern verbatim.
pub fn pattern_for_mode(regex: &str, mode: &str) -> (r: Option<String>)
    ensures
        r.deep_view() == pattern_for_mode_spec(regex@, mode@),
{
    let rv = str_to_chars(regex);
    if str_eq(mode, "anchored") {
        let mut p: Vec<char> = Vec::new();
        if !(rv.len() > 0 && rv[0] == '^') {
            p.push('^');
        }
        append_chars(&mut p, &rv);
        proof {
            if rv@.len() > 0 && rv@[0] == '^' {
                assert(p@ =~= rv@);
            } else {
                assert(p@ =~= seq!['^'] + rv@);
            }
        }
        if !(p.len() > 0 && p[p.len() - 1] == '$') {
            p.push('$');
        }
        proof {
            assert(p@ =~= anchored_pattern(regex@));
        }
        Some(chars_to_string(&p))
    } else if str_eq(mode, "smart") {
        let already = (rv.len() > 0 && rv[0] == '^') || (rv.len() > 0 && rv[rv.len() - 1] == '$');
        if already {
            Some(chars_to_string(&rv))
        } else {
            let mut p: Vec<char> = Vec::new();
            p.push('^');
            append_chars(&mut p, &rv);
            p.push('$');
            proof {
                assert(p@ =~= smart_pattern(regex@));
            }
            Some(chars_to_string(&p))
        }
    } else if str_eq(mode, "substring") {
        Some(chars_to_string(&rv))
    } else {
        None
    }
}

/// Whether one step definition matches the (already trimmed) body under the
/// given kind and mode.
pub open spec fn entry_matches(e: StepEntryV, kind: StepKind, norm: Seq<char>, mode: Seq<char>) -> bool {
    &&& e.kind == kind
    &&& match pattern_for_mode_spec(e.regex, mode) {
        Some(p) => regex_compiles(p) && regex_matches(p, norm),
        None => false,
    }
}

pub open spec fn match_filter_from(
    steps: Seq<StepEntryV>,
    i: int,
    kind: StepKind,
    norm: Seq<char>,
    mode: Seq<char>,
) -> Seq<StepEntryV>
    decreases steps.len() - i,
{
    if i < 0 || i >= steps.len() {
        Seq::empty()
    } else {
        (if entry_matches(steps[i], kind, norm, mode) {
            seq![steps[i]]
        } else {
            Seq::empty()
        }) + match_filter_from(steps, i + 1, kind, norm, mode)
    }
}

/// The sublist of steps whose kind equals the target and whose transformed
/// pattern matches the trimmed body.
pub open spec fn matching_steps(
    steps: Seq<StepEntryV>,
    kind: StepKind,
    body: Seq<char>,
    mode: Seq<char>,
) -> Seq<StepEntryV> {
    match_filter_from(steps, 0, kind, spec_trim(body), mode)
}

/// Returns the steps of the given kind whose pattern (anchored per `mode`)
/// matches the trimmed body, in input order.
pub fn match_one(steps: &Vec<StepEntry>, kind: StepKind, body: &str, mode: &str) -> (out: Vec<
    StepEntry,
>)
    ensures
        out.deep_view() == matching_steps(steps.deep_view(), kind, body@, mode@),
{
    let ghost sdv = steps.deep_view();
    let bv = str_to_chars(body);
    let trimmed = trim_chars(&bv);
    let norm = chars_to_string(&trimmed);
    let ghost normv = norm@;
    let mut out: Vec<StepEntry> = Vec::new();
    let mut i: usize = 0;
    while i < steps.len()
        invariant
            i <= steps.len(),
            sdv == steps.deep_view(),
            normv == spec_trim(body@),
            norm@ == normv,
            out.deep_view() + match_filter_from(sdv, i as int, kind, normv, mode@)
                == match_filter_from(sdv, 0, kind, normv, mode@),
        decreases steps.len() - i,
    {
        proof {
            assert(sdv[i as int] == steps@[i as int]@);
        }
        let ghost tail = match_filter_from(sdv, i as int + 1, kind, normv, mode@);
        let e = &steps[i];
        let is_match: bool = if e.kind == kind {
            match pattern_for_mode(e.regex.as_str(), mode) {
                Some(p) => match regex_try_match(p.as_str(), norm.as_str()) {
                    Some(m) => m,
                    None => false,
                },
                None => false,
            }
        } else {
            false
        };
        proof {
            assert(is_match == entry_matches(sdv[i as int], kind, normv, mode@));
        }
        if is_match {
            let ghost d0 = out.deep_view();
            out.push(clone_entry(e));
            proof {
                assert(out.deep_view() =~~= d0 + seq![sdv[i as int]]);
                assert((d0 + seq![sdv[i as int]]) + tail =~= d0 + (seq![sdv[i as int]] + tail));
            }
        } else {
            proof {
                assert(Seq::<StepEntryV>::empty() + tail =~= tail);
            }
        }
        i = i + 1;
    }
    proof {
        assert(out.deep_view() + Seq::<StepEntryV>::empty() =~= out.deep_view());
        assert(out.deep_view() =~~= match_filter_from(sdv, 0, kind, normv, mode@));
    }
    out
}

/// Matching is idempotent: the same steps, kind, body and mode always yield
/// the same list of matches, so running it twice changes nothing.
pub proof fn lemma_match_idempotent(
    steps: Seq<StepEntryV>,
    kind: StepKind,
    body: Seq<char>,
    mode: Seq<char>,
    r1: Seq<StepEntryV>,
    r2: Seq<StepEntryV>,
)
    requires
        r1 == matching_steps(steps, kind, body, mode),
        r2 == matching_steps(steps, kind, body, mode),
    ensures
        r1 == r2,
{
}

/// The step kind named by its serialized form; anything that is neither
/// `Given` nor `When` counts as `Then`.
pub open spec fn kind_from_name_spec(s: Seq<char>) -> StepKind {
    if s == "Given"@ {
        StepKind::Given
    } else if s == "When"@ {
        StepKind::When
    } else {
        StepKind::Then
    }
}

pub fn step_kind_from_name(s: &str) -> (k: StepKind)
    ensures
        k == kind_from_name_spec(s@),
{
    if str_eq(s, "Given") {
        StepKind::Given
    } else if str_eq(s, "When") {
        StepKind::When
    } else {
        StepKind::Then
    }
}

} // verus!
