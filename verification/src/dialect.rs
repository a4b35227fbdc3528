//! Dialect table: locale-indexed keyword sets for step lines, dialect
//! auto-detection from a `# language:` directive, and the keyword parse of
//! one feature line.

use vstd::prelude::*;
use vstd::string::StringExecFns;
use crate::step_index::StepKind;
use crate::text::{char_is_word, chars_eq_str, chars_match_str_at, has_prefix_at, is_word_char,
    lemma_skip_ws_from, lower_chars, lower_seq, skip_ws, skip_ws_from, split_ch, split_chars,
    str_eq, str_to_chars};

verus! {

/// Keyword lists of one locale.
pub struct Dialect {
    pub given_kws: Vec<String>,
    pub when_kws: Vec<String>,
    pub then_kws: Vec<String>,
    pub and_kws: Vec<String>,
    pub but_kws: Vec<String>,
}

#[verifier::ext_equal]
pub struct DialectV {
    pub given_kws: Seq<Seq<char>>,
    pub when_kws: Seq<Seq<char>>,
    pub then_kws: Seq<Seq<char>>,
    pub and_kws: Seq<Seq<char>>,
    pub but_kws: Seq<Seq<char>>,
}

impl View for Dialect {
    type V = DialectV;

    open spec fn view(&self) -> DialectV {
        DialectV {
            given_kws: self.given_kws.deep_view(),
            when_kws: self.when_kws.deep_view(),
            then_kws: self.then_kws.deep_view(),
            and_kws: self.and_kws.deep_view(),
            but_kws: self.but_kws.deep_view(),
        }
    }
}

pub open spec fn en_dialect() -> DialectV {
    DialectV {
        given_kws: seq!["Given"@],
        when_kws: seq!["When"@],
        then_kws: seq!["Then"@],
        and_kws: seq!["And"@],
        but_kws: seq!["But"@],
    }
}

pub open spec fn es_dialect() -> DialectV {
    DialectV {
        given_kws: seq!["Dado"@, "Dada"@],
        when_kws: seq!["Cuando"@],
        then_kws: seq!["Entonces"@],
        and_kws: seq!["Y"@],
        but_kws: seq!["Pero"@],
    }
}

/// The keyword lists of a dialect code: `es` is Spanish, everything else is
/// English.
pub open spec fn spec_dialect(code: Seq<char>) -> DialectV {
    if code == "es"@ {
        es_dialect()
    } else {
        en_dialect()
    }
}

fn push_word(v: &mut Vec<String>, w: &str)
    ensures
        final(v).deep_view() == old(v).deep_view().push(w@),
{
    let ghost d0 = old(v).deep_view();
    v.push(String::from_str(w));
    proof {
        assert(v.deep_view() =~~= d0.push(w@));
    }
}

pub(crate) fn get_dialect(code: &str) -> (d: Dialect)
    ensures
        d@ == spec_dialect(code@),
{
    if str_eq(code, "es") {
        let mut given_kws: Vec<String> = Vec::new();
        push_word(&mut given_kws, "Dado");
        push_word(&mut given_kws, "Dada");
        let mut when_kws: Vec<String> = Vec::new();
        push_word(&mut when_kws, "Cuando");
        let mut then_kws: Vec<String> = Vec::new();
        push_word(&mut then_kws, "Entonces");
        let mut and_kws: Vec<String> = Vec::new();
        push_word(&mut and_kws, "Y");
        let mut but_kws: Vec<String> = Vec::new();
        push_word(&mut but_kws, "Pero");
        let d = Dialect { given_kws, when_kws, then_kws, and_kws, but_kws };
        proof {
            assert(d@.given_kws =~~= es_dialect().given_kws);
            assert(d@.when_kws =~~= es_dialect().when_kws);
            assert(d@.then_kws =~~= es_dialect().then_kws);
            assert(d@.and_kws =~~= es_dialect().and_kws);
            assert(d@.but_kws =~~= es_dialect().but_kws);
            assert(d@ =~~= es_dialect());
        }
        d
    } else {
        let mut given_kws: Vec<String> = Vec::new();
        push_word(&mut given_kws, "Given");
        let mut when_kws: Vec<String> = Vec::new();
        push_word(&mut when_kws, "When");
        let mut then_kws: Vec<String> = Vec::new();
        push_word(&mut then_kws, "Then");
        let mut and_kws: Vec<String> = Vec::new();
        push_word(&mut and_kws, "And");
        let mut but_kws: Vec<String> = Vec::new();
        push_word(&mut but_kws, "But");
        let d = Dialect { given_kws, when_kws, then_kws, and_kws, but_kws };
        proof {
            assert(d@.given_kws =~~= en_dialect().given_kws);
            assert(d@.when_kws =~~= en_dialect().when_kws);
            assert(d@.then_kws =~~= en_dialect().then_kws);
            assert(d@.and_kws =~~= en_dialect().and_kws);
            assert(d@.but_kws =~~= en_dialect().but_kws);
            assert(d@ =~~= en_dialect());
        }
        d
    }
}

/// A character of a language code: letters, digits, underscore or dash.
pub open spec fn is_lang_char(c: char) -> bool {
    is_word_char(c) || c == '-'
}

pub open spec fn lang_run_end(s: Seq<char>, i: int) -> int
    decreases s.len() - i,
{
    if i < 0 {
        lang_run_end(s, 0)
    } else if i >= s.len() {
        s.len() as int
    } else if is_lang_char(s[i]) {
        lang_run_end(s, i + 1)
    } else {
        i
    }
}

pub proof fn lemma_lang_run_end(s: Seq<char>, i: int)
    ensures
        lang_run_end(s, i) <= s.len(),
        i <= lang_run_end(s, i) || i < 0 || i > s.len(),
        0 <= lang_run_end(s, i),
    decreases s.len() - i,
{
    if i < 0 {
        lemma_lang_run_end(s, 0);
    } else if i >= s.len() {
    } else if is_lang_char(s[i]) {
        lemma_lang_run_end(s, i + 1);
    } else {
    }
}

fn lang_run(v: &Vec<char>, i: usize) -> (r: usize)
    requires
        i <= v.len(),
    ensures
        r == lang_run_end(v@, i as int),
        i <= r <= v.len(),
{
    let mut j: usize = i;
    loop
        invariant
            i <= j <= v.len(),
            lang_run_end(v@, i as int) == lang_run_end(v@, j as int),
        decreases v.len() - j,
    {
        if j >= v.len() {
            return j;
        }
        let c = v[j];
        if !(char_is_word(c) || c == '-') {
            return j;
        }
        j = j + 1;
    }
}

/// The language code of a `# language: <code>` directive line, if the line
/// is one.
pub open spec fn lang_code_of_line(line: Seq<char>) -> Option<Seq<char>> {
    let a = skip_ws_from(line, 0);
    if a < line.len() && line[a] == '#' {
        let b = skip_ws_from(line, a + 1);
        if has_prefix_at(line, b, "language:"@) {
            let c = skip_ws_from(line, b + "language:"@.len() as int);
            let e = lang_run_end(line, c);
            if e > c {
                Some(line.subrange(c, e))
            } else {
                None
            }
        } else {
            None
        }
    } else {
        None
    }
}

fn lang_code_exec(line: &Vec<char>) -> (r: Option<Vec<char>>)
    ensures
        (r is Some) == (lang_code_of_line(line@) is Some),
        r matches Some(code) ==> lang_code_of_line(line@) == Some(code@),
{
    proof {
        lemma_skip_ws_from(line@, 0);
    }
    let a = skip_ws(line, 0);
    if !(a < line.len()) {
        return None;
    }
    if line[a] != '#' {
        return None;
    }
    let b = skip_ws(line, a + 1);
    if !chars_match_str_at(line, b, "language:") {
        return None;
    }
    let c = skip_ws(line, b + "language:".unicode_len());
    let e = lang_run(line, c);
    if e > c {
        Some(crate::text::copy_range(line, c, e))
    } else {
        None
    }
}

/// The code of the first line carrying a language directive.
pub open spec fn first_lang_code(lines: Seq<Seq<char>>, i: int) -> Option<Seq<char>>
    decreases lines.len() - i,
{
    if i < 0 || i >= lines.len() {
        None
    } else {
        match lang_code_of_line(lines[i]) {
            Some(code) => Some(code),
            None => first_lang_code(lines, i + 1),
        }
    }
}

/// The dialect code in force: the configured one when it is not `auto`,
/// otherwise the one a `# language:` directive selects, defaulting to
/// English.
pub open spec fn dialect_code(text: Seq<char>, configured: Seq<char>) -> Seq<char> {
    if configured != "auto"@ {
        if configured == "es"@ {
            "es"@
        } else {
            "en"@
        }
    } else {
        match first_lang_code(split_ch(text, '\n'), 0) {
            Some(code) => if has_prefix_at(lower_seq(code), 0, "es"@) {
                "es"@
            } else {
                "en"@
            },
            None => "en"@,
        }
    }
}

pub(crate) fn detect_dialect(text: &str, configured: &str) -> (r: &'static str)
    ensures
        r@ == dialect_code(text@, configured@),
{
    if !str_eq(configured, "auto") {
        if str_eq(configured, "es") {
            return "es";
        }
        return "en";
    }
    let tv = str_to_chars(text);
    let lines = split_chars(&tv, '\n');
    let ghost ldv = lines.deep_view();
    let mut i: usize = 0;
    loop
        invariant
            i <= lines.len(),
            ldv == lines.deep_view(),
            ldv == split_ch(text@, '\n'),
            first_lang_code(ldv, 0) == first_lang_code(ldv, i as int),
        decreases lines.len() - i,
    {
        if i >= lines.len() {
            return "en";
        }
        proof {
            assert(ldv[i as int] == lines@[i as int]@);
        }
        match lang_code_exec(&lines[i]) {
            Some(code) => {
                let lo = lower_chars(&code);
                if chars_match_str_at(&lo, 0, "es") {
                    return "es";
                }
                return "en";
            },
            None => {
                i = i + 1;
            },
        }
    }
}

/// Whether one of the keywords equals `kw`.
pub open spec fn seq_contains_str(l: Seq<Seq<char>>, kw: Seq<char>) -> bool {
    exists|i: int| 0 <= i < l.len() && l[i] == kw
}

pub(crate) fn vec_contains_chars(l: &Vec<String>, kw: &Vec<char>) -> (r: bool)
    ensures
        r == seq_contains_str(l.deep_view(), kw@),
{
    let mut i: usize = 0;
    while i < l.len()
        invariant
            i <= l.len(),
            forall|j: int| 0 <= j < i ==> #[trigger] l.deep_view()[j] != kw@,
        decreases l.len() - i,
    {
        proof {
            assert(l.deep_view()[i as int] == l@[i as int]@);
        }
        if chars_eq_str(kw, l[i].as_str()) {
            return true;
        }
        i = i + 1;
    }
    false
}

/// The step kind a keyword names directly, if any.
pub open spec fn kind_from_keyword_spec(kw: Seq<char>, d: DialectV) -> Option<StepKind> {
    if seq_contains_str(d.given_kws, kw) {
        Some(StepKind::Given)
    } else if seq_contains_str(d.when_kws, kw) {
        Some(StepKind::When)
    } else if seq_contains_str(d.then_kws, kw) {
        Some(StepKind::Then)
    } else {
        None
    }
}

pub(crate) fn kind_from_keyword(kw: &Vec<char>, d: &Dialect) -> (r: Option<StepKind>)
    ensures
        r == kind_from_keyword_spec(kw@, d@),
{
    if vec_contains_chars(&d.given_kws, kw) {
        Some(StepKind::Given)
    } else if vec_contains_chars(&d.when_kws, kw) {
        Some(StepKind::When)
    } else if vec_contains_chars(&d.then_kws, kw) {
        Some(StepKind::Then)
    } else {
        None
    }
}

/// The first keyword of the list that stands at index `a` of the line.
pub open spec fn first_kw_in(l: Seq<Seq<char>>, s: Seq<char>, a: int, i: int) -> Option<Seq<char>>
    decreases l.len() - i,
{
    if i < 0 || i >= l.len() {
        None
    } else if has_prefix_at(s, a, l[i]) {
        Some(l[i])
    } else {
        first_kw_in(l, s, a, i + 1)
    }
}

/// The keyword found at index `a`, trying the lists in the order
/// given, when, then, and, but.
pub open spec fn step_kw(line: Seq<char>, a: int, d: DialectV) -> Option<Seq<char>> {
    match first_kw_in(d.given_kws, line, a, 0) {
        Some(k) => Some(k),
        None => match first_kw_in(d.when_kws, line, a, 0) {
            Some(k) => Some(k),
            None => match first_kw_in(d.then_kws, line, a, 0) {
                Some(k) => Some(k),
                None => match first_kw_in(d.and_kws, line, a, 0) {
                    Some(k) => Some(k),
                    None => first_kw_in(d.but_kws, line, a, 0),
                },
            },
        },
    }
}

fn find_kw_in_list(l: &Vec<String>, line: &Vec<char>, a: usize) -> (r: Option<Vec<char>>)
    ensures
        (r is Some) == (first_kw_in(l.deep_view(), line@, a as int, 0) is Some),
        r matches Some(kw) ==> first_kw_in(l.deep_view(), line@, a as int, 0) == Some(kw@),
{
    let mut i: usize = 0;
    loop
        invariant
            i <= l.len(),
            first_kw_in(l.deep_view(), line@, a as int, 0) == first_kw_in(
                l.deep_view(),
                line@,
                a as int,
                i as int,
            ),
        decreases l.len() - i,
    {
        if i >= l.len() {
            return None;
        }
        proof {
            assert(l.deep_view()[i as int] == l@[i as int]@);
        }
        let kw = str_to_chars(l[i].as_str());
        if chars_match_str_at(line, a, l[i].as_str()) {
            return Some(kw);
        }
        i = i + 1;
    }
}

fn find_step_kw(line: &Vec<char>, a: usize, d: &Dialect) -> (r: Option<Vec<char>>)
    ensures
        (r is Some) == (step_kw(line@, a as int, d@) is Some),
        r matches Some(kw) ==> step_kw(line@, a as int, d@) == Some(kw@),
{
    match find_kw_in_list(&d.given_kws, line, a) {
        Some(k) => Some(k),
        None => match find_kw_in_list(&d.when_kws, line, a) {
            Some(k) => Some(k),
            None => match find_kw_in_list(&d.then_kws, line, a) {
                Some(k) => Some(k),
                None => match find_kw_in_list(&d.and_kws, line, a) {
                    Some(k) => Some(k),
                    None => find_kw_in_list(&d.but_kws, line, a),
                },
            },
        },
    }
}

/// The keyword and body of a step line: optional leading whitespace, a
/// keyword of the dialect, at least one whitespace character, and a
/// non-empty body reaching the end of the line.
pub open spec fn parse_step_line(line: Seq<char>, d: DialectV) -> Option<(Seq<char>, Seq<char>)> {
    let a = skip_ws_from(line, 0);
    match step_kw(line, a, d) {
        Some(kw) => {
            let e = a + kw.len() as int;
            let w = skip_ws_from(line, e);
            if w == e {
                None
            } else if w < line.len() {
                Some((kw, line.skip(w)))
            } else if line.len() - e >= 2 {
                Some((kw, line.subrange(line.len() - 1, line.len() as int)))
            } else {
                None
            }
        },
        None => None,
    }
}

pub(crate) fn parse_step_line_exec(line: &Vec<char>, d: &Dialect) -> (r: Option<(Vec<char>, Vec<
    char,
>)>)
    ensures
        (r is Some) == (parse_step_line(line@, d@) is Some),
        r matches Some(p) ==> parse_step_line(line@, d@) == Some((p.0@, p.1@)),
{
    proof {
        lemma_skip_ws_from(line@, 0);
    }
    let a = skip_ws(line, 0);
    match find_step_kw(line, a, d) {
        None => None,
        Some(kw) => {
            proof {
                assert(step_kw(line@, a as int, d@) == Some(kw@));
                lemma_step_kw_prefix(line@, a as int, d@);
            }
            let e = a + kw.len();
            let w = skip_ws(line, e);
            if w == e {
                None
            } else if w < line.len() {
                Some((kw, crate::text::copy_range(line, w, line.len())))
            } else if line.len() - e >= 2 {
                Some((kw, crate::text::copy_range(line, line.len() - 1, line.len())))
            } else {
                None
            }
        },
    }
}

proof fn lemma_first_kw_prefix(l: Seq<Seq<char>>, s: Seq<char>, a: int, i: int)
    ensures
        first_kw_in(l, s, a, i) matches Some(kw) ==> has_prefix_at(s, a, kw),
    decreases l.len() - i,
{
    if 0 <= i < l.len() && !has_prefix_at(s, a, l[i]) {
        lemma_first_kw_prefix(l, s, a, i + 1);
    }
}

proof fn lemma_step_kw_prefix(s: Seq<char>, a: int, d: DialectV)
    ensures
        step_kw(s, a, d) matches Some(kw) ==> has_prefix_at(s, a, kw) && a + kw.len() <= s.len(),
{
    lemma_first_kw_prefix(d.given_kws, s, a, 0);
    lemma_first_kw_prefix(d.when_kws, s, a, 0);
    lemma_first_kw_prefix(d.then_kws, s, a, 0);
    lemma_first_kw_prefix(d.and_kws, s, a, 0);
    lemma_first_kw_prefix(d.but_kws, s, a, 0);
}

} // verus!
