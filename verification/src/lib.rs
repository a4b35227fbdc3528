//! Static analysis core for BDD tooling: extracts a step index from source
//! files, matches scenario steps against step definitions, and produces
//! diagnostics for Gherkin-style feature files.

#![verifier::loop_isolation(false)]

use vstd::prelude::*;

pub mod dialect;
pub mod feature;
pub mod literal;
pub mod matching;
pub mod step_index;
pub mod strip;
pub mod text;

verus! {

/// Returns the crate version.
pub fn version() -> (r: &'static str)
    ensures
        r@ == "0.1.0"@,
{
    "0.1.0"
}

/// Normalizes a scenario-step body: leading and trailing whitespace is
/// removed, nothing else changes.
pub fn normalize_step_text(input: &str) -> (r: String)
    ensures
        r@ == crate::text::spec_trim(input@),
{
    let v = crate::text::str_to_chars(input);
    let t = crate::text::trim_chars(&v);
    crate::text::chars_to_string(&t)
}

} // verus!
