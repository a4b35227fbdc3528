//! Feature scanner and diagnostics engine: walks a feature text line by
//! line, tracks step-kind inheritance across And/But, resolves Scenario
//! Outline placeholders against Examples tables, and classifies each step
//! line as defined, undefined or ambiguous against a step index.

use vstd::prelude::*;
use vstd::string::StringExecFns;
use crate::dialect::{detect_dialect, dialect_code, get_dialect, kind_from_keyword,
    kind_from_keyword_spec, parse_step_line, parse_step_line_exec, seq_contains_str, spec_dialect,
    vec_contains_chars, DialectV};
use crate::matching::{match_one, matching_steps};
use crate::step_index::{StepEntry, StepEntryV, StepKind};
use crate::text::{append_chars, chars_contain, chars_eq, chars_match_str_at, chars_to_string,
    contains_ch, copy_range, find_ch_from, find_char, has_prefix_at, lemma_find_ch_from,
    lower_chars, lower_seq, spec_trim, split_ch, split_chars, str_to_chars, trim_chars};

verus! {

/// One diagnostic: a 0-based line index, a message, and a severity that is
/// always `warning`.
#[derive(Clone, Debug)]
pub struct Diagnostic {
    pub line: usize,
    pub message: String,
    pub severity: String,
}

pub struct DiagnosticV {
    pub line: nat,
    pub message: Seq<char>,
    pub severity: Seq<char>,
}

impl View for Diagnostic {
    type V = DiagnosticV;

    open spec fn view(&self) -> DiagnosticV {
        DiagnosticV { line: self.line as nat, message: self.message@, severity: self.severity@ }
    }
}

impl DeepView for Diagnostic {
    type V = DiagnosticV;

    open spec fn deep_view(&self) -> DiagnosticV {
        self.view()
    }
}

pub open spec fn mk_diag(line: nat, msg: Seq<char>) -> DiagnosticV {
    DiagnosticV { line: line, message: msg, severity: "warning"@ }
}

/// The line of the enclosing `Scenario Outline:`, walking upward from `i`;
/// a `Scenario:` or `Feature:` line ends the walk without one.
pub open spec fn outline_start(lines: Seq<Seq<char>>, i: int) -> Option<int>
    decreases i + 1,
{
    if i < 0 || i >= lines.len() {
        None
    } else {
        let t = lower_seq(spec_trim(lines[i]));
        if has_prefix_at(t, 0, "scenario outline:"@) {
            Some(i)
        } else if has_prefix_at(t, 0, "scenario:"@) || has_prefix_at(t, 0, "feature:"@) {
            None
        } else {
            outline_start(lines, i - 1)
        }
    }
}

/// The nearest `Examples:` line after the outline header; another scenario
/// line ends the walk without one.
pub open spec fn examples_start(lines: Seq<Seq<char>>, i: int) -> Option<int>
    decreases lines.len() - i,
{
    if i < 0 || i >= lines.len() {
        None
    } else {
        let t = lower_seq(spec_trim(lines[i]));
        if has_prefix_at(t, 0, "examples:"@) {
            Some(i)
        } else if has_prefix_at(t, 0, "scenario"@) {
            None
        } else {
            examples_start(lines, i + 1)
        }
    }
}

/// First index at or after `i` that is not a `|`.
pub open spec fn skip_pipes_from(s: Seq<char>, i: int) -> int
    decreases s.len() - i,
{
    if i < 0 {
        skip_pipes_from(s, 0)
    } else if i >= s.len() {
        s.len() as int
    } else if s[i] == '|' {
        skip_pipes_from(s, i + 1)
    } else {
        i
    }
}

/// End index after removing trailing `|` characters before `j`.
pub open spec fn pipe_end_idx(s: Seq<char>, j: int) -> int
    decreases j,
{
    if j <= 0 {
        0
    } else if s[j - 1] == '|' {
        pipe_end_idx(s, j - 1)
    } else {
        j
    }
}

proof fn lemma_skip_pipes(s: Seq<char>, i: int)
    ensures
        0 <= i <= s.len() ==> i <= skip_pipes_from(s, i),
        skip_pipes_from(s, i) <= s.len(),
        0 <= skip_pipes_from(s, i),
    decreases s.len() - i,
{
    if i < 0 {
        lemma_skip_pipes(s, 0);
    } else if 0 <= i && i < s.len() && s[i] == '|' {
        lemma_skip_pipes(s, i + 1);
    }
}

proof fn lemma_pipe_end(s: Seq<char>, j: int)
    ensures
        0 <= pipe_end_idx(s, j),
        pipe_end_idx(s, j) <= j || j < 0,
    decreases j,
{
    if j > 0 && s[j - 1] == '|' {
        lemma_pipe_end(s, j - 1);
    }
}

/// The cells of one table row: outer pipes removed, the rest split on `|`,
/// each cell trimmed.
pub open spec fn parse_cells(t: Seq<char>) -> Seq<Seq<char>> {
    let a = skip_pipes_from(t, 0);
    let b = pipe_end_idx(t, t.len() as int);
    let u = if a >= b {
        Seq::<char>::empty()
    } else {
        t.subrange(a, b)
    };
    split_ch(u, '|').map_values(|c: Seq<char>| spec_trim(c))
}

/// Reads the Examples table beginning at line `j`: the first pipe row is
/// the header, each later pipe row is a data row padded or truncated to the
/// header's width; blank lines are tolerated, anything else ends the table.
pub open spec fn table_from(lines: Seq<Seq<char>>, j: int, header: Option<Seq<Seq<char>>>) -> (
    Option<Seq<Seq<char>>>,
    Seq<Seq<Seq<char>>>,
)
    decreases lines.len() - j,
{
    if j < 0 || j >= lines.len() {
        (header, Seq::empty())
    } else {
        let t = spec_trim(lines[j]);
        if t.len() == 0 {
            table_from(lines, j + 1, header)
        } else if t[0] != '|' {
            (header, Seq::empty())
        } else {
            let cells = parse_cells(t);
            match header {
                None => table_from(lines, j + 1, Some(cells)),
                Some(h) => {
                    let row = Seq::new(
                        h.len(),
                        |c: int|
                            if 0 <= c < cells.len() {
                                cells[c]
                            } else {
                                Seq::<char>::empty()
                            },
                    );
                    let rec = table_from(lines, j + 1, Some(h));
                    (rec.0, seq![row] + rec.1)
                },
            }
        }
    }
}

/// The outline context of a step line: whether it stands in a Scenario
/// Outline, and the header and rows of the nearest Examples table.
pub struct OutlineCtxV {
    pub is_outline: bool,
    pub header: Seq<Seq<char>>,
    pub rows: Seq<Seq<Seq<char>>>,
}

pub open spec fn outline_ctx(lines: Seq<Seq<char>>, i: int) -> OutlineCtxV {
    match outline_start(lines, i) {
        None => OutlineCtxV { is_outline: false, header: Seq::empty(), rows: Seq::empty() },
        Some(st) => match examples_start(lines, st + 1) {
            None => OutlineCtxV { is_outline: true, header: Seq::empty(), rows: Seq::empty() },
            Some(ex) => {
                let tb = table_from(lines, ex + 1, None);
                OutlineCtxV {
                    is_outline: true,
                    header: match tb.0 {
                        Some(h) => h,
                        None => Seq::empty(),
                    },
                    rows: tb.1,
                }
            },
        },
    }
}

/// The value of the cell under the last header column named `name`.
pub open spec fn last_header_idx(header: Seq<Seq<char>>, name: Seq<char>, n: int) -> Option<int>
    decreases n,
{
    if n <= 0 {
        None
    } else if header[n - 1] == name {
        Some(n - 1)
    } else {
        last_header_idx(header, name, n - 1)
    }
}

pub open spec fn lookup_cell(header: Seq<Seq<char>>, row: Seq<Seq<char>>, name: Seq<char>) -> Option<
    Seq<char>,
> {
    match last_header_idx(header, name, header.len() as int) {
        Some(j) => Some(row[j]),
        None => None,
    }
}

/// The body with every `<name>` placeholder replaced by the row's value for
/// `name`; a name the header does not carry stays as the literal `<name>`.
pub open spec fn resolve_from(
    body: Seq<char>,
    i: int,
    header: Seq<Seq<char>>,
    row: Seq<Seq<char>>,
) -> Seq<char>
    decreases body.len() - i,
    via resolve_from_decreases
{
    if i < 0 || i >= body.len() {
        Seq::empty()
    } else if body[i] == '<' {
        let gt = find_ch_from(body, '>', i + 1);
        if gt < body.len() && gt >= i + 2 {
            let name = body.subrange(i + 1, gt);
            let rep = match lookup_cell(header, row, name) {
                Some(v) => v,
                None => seq!['<'] + name + seq!['>'],
            };
            rep + resolve_from(body, gt + 1, header, row)
        } else {
            seq![body[i]] + resolve_from(body, i + 1, header, row)
        }
    } else {
        seq![body[i]] + resolve_from(body, i + 1, header, row)
    }
}

#[via_fn]
proof fn resolve_from_decreases(body: Seq<char>, i: int, header: Seq<Seq<char>>, row: Seq<Seq<char>>) {
    lemma_find_ch_from(body, '>', i + 1);
}

/// How many steps match the body after substituting one Examples row.
pub open spec fn row_match_count(
    steps: Seq<StepEntryV>,
    kind: StepKind,
    body: Seq<char>,
    header: Seq<Seq<char>>,
    row: Seq<Seq<char>>,
    mode: Seq<char>,
) -> nat {
    matching_steps(steps, kind, resolve_from(body, 0, header, row), mode).len()
}

pub open spec fn any_row_ok(
    steps: Seq<StepEntryV>,
    kind: StepKind,
    body: Seq<char>,
    oc: OutlineCtxV,
    mode: Seq<char>,
) -> bool {
    exists|r: int|
        0 <= r < oc.rows.len() && #[trigger] row_match_count(
            steps,
            kind,
            body,
            oc.header,
            oc.rows[r],
            mode,
        ) >= 1
}

pub open spec fn any_row_amb(
    steps: Seq<StepEntryV>,
    kind: StepKind,
    body: Seq<char>,
    oc: OutlineCtxV,
    mode: Seq<char>,
) -> bool {
    exists|r: int|
        0 <= r < oc.rows.len() && #[trigger] row_match_count(
            steps,
            kind,
            body,
            oc.header,
            oc.rows[r],
            mode,
        ) >= 2
}

/// The diagnostic of one step line, if any: an outlined step with a
/// placeholder is judged across all Examples rows, every other step
/// directly against the index.
pub open spec fn line_diag(
    lines: Seq<Seq<char>>,
    i: int,
    kind: StepKind,
    body: Seq<char>,
    steps: Seq<StepEntryV>,
    mode: Seq<char>,
) -> Option<DiagnosticV> {
    let oc = outline_ctx(lines, i);
    if oc.is_outline && oc.rows.len() > 0 && contains_ch(body, '<') && contains_ch(body, '>') {
        if !any_row_ok(steps, kind, body, oc, mode) {
            Some(mk_diag(i as nat, "Undefined step (none of the Examples values match)"@))
        } else if any_row_amb(steps, kind, body, oc, mode) {
            Some(
                mk_diag(
                    i as nat,
                    "Ambiguous step (one or more Examples values have multiple matches)"@,
                ),
            )
        } else {
            None
        }
    } else {
        let n = matching_steps(steps, kind, body, mode).len();
        if n == 0 {
            Some(mk_diag(i as nat, "Undefined step"@))
        } else if n > 1 {
            Some(mk_diag(i as nat, "Ambiguous step"@))
        } else {
            None
        }
    }
}

/// The diagnostics of all step lines at or after `i`, threading the last
/// explicit kind through And/But inheritance.
pub open spec fn diags_from(
    lines: Seq<Seq<char>>,
    i: int,
    last: Option<StepKind>,
    steps: Seq<StepEntryV>,
    mode: Seq<char>,
    d: DialectV,
) -> Seq<DiagnosticV>
    decreases lines.len() - i,
{
    if i < 0 || i >= lines.len() {
        Seq::empty()
    } else {
        match parse_step_line(lines[i], d) {
            None => diags_from(lines, i + 1, last, steps, mode, d),
            Some(kb) => {
                let k0 = match kind_from_keyword_spec(kb.0, d) {
                    Some(k) => k,
                    None => StepKind::Given,
                };
                let is_conj = seq_contains_str(d.and_kws, kb.0) || seq_contains_str(
                    d.but_kws,
                    kb.0,
                );
                let kind = if is_conj {
                    match last {
                        Some(p) => p,
                        None => k0,
                    }
                } else {
                    k0
                };
                let last2 = if is_conj {
                    last
                } else {
                    Some(kind)
                };
                (match line_diag(lines, i, kind, kb.1, steps, mode) {
                    Some(dg) => seq![dg],
                    None => Seq::empty(),
                }) + diags_from(lines, i + 1, last2, steps, mode, d)
            },
        }
    }
}

/// The diagnostics of a whole feature text under a configured dialect and
/// match mode.
pub open spec fn feature_diags_spec(
    text: Seq<char>,
    configured: Seq<char>,
    mode: Seq<char>,
    steps: Seq<StepEntryV>,
) -> Seq<DiagnosticV> {
    let d = spec_dialect(dialect_code(text, configured));
    diags_from(split_ch(text, '\n'), 0, None, steps, mode, d)
}


/// Diagnostics are emitted in ascending source-line order: every diagnostic
/// of the suffix starting at line `i` lies at or after `i`, and any two lie
/// on strictly increasing lines.
pub proof fn lemma_diags_ascending(
    lines: Seq<Seq<char>>,
    i: int,
    last: Option<StepKind>,
    steps: Seq<StepEntryV>,
    mode: Seq<char>,
    d: DialectV,
)
    ensures
        forall|k: int|
            0 <= k < diags_from(lines, i, last, steps, mode, d).len() ==> (#[trigger] diags_from(
                lines,
                i,
                last,
                steps,
                mode,
                d,
            )[k]).line >= i,
        forall|a: int, b: int|
            0 <= a < b < diags_from(lines, i, last, steps, mode, d).len() ==> (#[trigger] diags_from(
                lines,
                i,
                last,
                steps,
                mode,
                d,
            )[a]).line < (#[trigger] diags_from(lines, i, last, steps, mode, d)[b]).line,
    decreases lines.len() - i,
{
    if i < 0 || i >= lines.len() {
    } else {
        let out = diags_from(lines, i, last, steps, mode, d);
        match parse_step_line(lines[i], d) {
            None => {
                lemma_diags_ascending(lines, i + 1, last, steps, mode, d);
                let tail = diags_from(lines, i + 1, last, steps, mode, d);
                assert(out == tail);
                assert forall|k: int|
                    0 <= k < diags_from(lines, i, last, steps, mode, d).len() implies (
                #[trigger] diags_from(lines, i, last, steps, mode, d)[k]).line >= i by {
                    assert(diags_from(lines, i, last, steps, mode, d)[k] == tail[k]);
                    assert((tail[k]).line >= i + 1);
                }
                assert forall|a: int, b: int|
                    0 <= a < b < diags_from(lines, i, last, steps, mode, d).len() implies (
                #[trigger] diags_from(lines, i, last, steps, mode, d)[a]).line < (
                #[trigger] diags_from(lines, i, last, steps, mode, d)[b]).line by {
                    assert(diags_from(lines, i, last, steps, mode, d)[a] == tail[a]);
                    assert(diags_from(lines, i, last, steps, mode, d)[b] == tail[b]);
                    assert((tail[a]).line < (tail[b]).line);
                }
            },
            Some(kb) => {
                let k0 = match kind_from_keyword_spec(kb.0, d) {
                    Some(k) => k,
                    None => StepKind::Given,
                };
                let is_conj = seq_contains_str(d.and_kws, kb.0) || seq_contains_str(
                    d.but_kws,
                    kb.0,
                );
                let kind = if is_conj {
                    match last {
                        Some(p) => p,
                        None => k0,
                    }
                } else {
                    k0
                };
                let last2 = if is_conj {
                    last
                } else {
                    Some(kind)
                };
                lemma_diags_ascending(lines, i + 1, last2, steps, mode, d);
                let tail = diags_from(lines, i + 1, last2, steps, mode, d);
                let head: Seq<DiagnosticV> = match line_diag(lines, i, kind, kb.1, steps, mode) {
                    Some(dg) => seq![dg],
                    None => Seq::empty(),
                };
                assert(out == head + tail);
                assert(forall|k: int| 0 <= k < head.len() ==> (#[trigger] head[k]).line == i);
                assert forall|k: int|
                    0 <= k < diags_from(lines, i, last, steps, mode, d).len() implies (
                #[trigger] diags_from(lines, i, last, steps, mode, d)[k]).line >= i by {
                    if k < head.len() {
                        assert(diags_from(lines, i, last, steps, mode, d)[k] == head[k]);
                    } else {
                        assert(diags_from(lines, i, last, steps, mode, d)[k] == tail[
                            k - head.len()]);
                        assert((tail[k - head.len()]).line >= i + 1);
                    }
                }
                assert forall|a: int, b: int|
                    0 <= a < b < diags_from(lines, i, last, steps, mode, d).len() implies (
                #[trigger] diags_from(lines, i, last, steps, mode, d)[a]).line < (
                #[trigger] diags_from(lines, i, last, steps, mode, d)[b]).line by {
                    assert(diags_from(lines, i, last, steps, mode, d)[b] == tail[b - head.len()]);
                    assert((tail[b - head.len()]).line >= i + 1);
                    if a < head.len() {
                        assert(diags_from(lines, i, last, steps, mode, d)[a] == head[a]);
                    } else {
                        assert(diags_from(lines, i, last, steps, mode, d)[a] == tail[
                            a - head.len()]);
                        assert((tail[a - head.len()]).line < (tail[b - head.len()]).line);
                    }
                }
            },
        }
    }
}

fn find_outline_start(lines: &Vec<Vec<char>>, i: usize) -> (r: Option<usize>)
    requires
        i < lines.len(),
    ensures
        (r is Some) == (outline_start(lines.deep_view(), i as int) is Some),
        r matches Some(st) ==> outline_start(lines.deep_view(), i as int) == Some(st as int) && st
            < lines.len(),
{
    let ghost ldv = lines.deep_view();
    let mut j: usize = i;
    loop
        invariant
            j <= i < lines.len(),
            ldv == lines.deep_view(),
            outline_start(ldv, i as int) == outline_start(ldv, j as int),
        decreases j,
    {
        proof {
            assert(ldv[j as int] == lines@[j as int]@);
        }
        let t = lower_chars(&trim_chars(&lines[j]));
        if chars_match_str_at(&t, 0, "scenario outline:") {
            return Some(j);
        }
        if chars_match_str_at(&t, 0, "scenario:") || chars_match_str_at(&t, 0, "feature:") {
            return None;
        }
        if j == 0 {
            proof {
                assert(outline_start(ldv, 0) == outline_start(ldv, -1));
                assert(outline_start(ldv, -1) is None);
            }
            return None;
        }
        j = j - 1;
    }
}

fn find_examples_start(lines: &Vec<Vec<char>>, start: usize) -> (r: Option<usize>)
    requires
        start <= lines.len(),
    ensures
        (r is Some) == (examples_start(lines.deep_view(), start as int) is Some),
        r matches Some(ex) ==> examples_start(lines.deep_view(), start as int) == Some(ex as int)
            && ex < lines.len(),
{
    let ghost ldv = lines.deep_view();
    let mut j: usize = start;
    loop
        invariant
            start <= j <= lines.len(),
            ldv == lines.deep_view(),
            examples_start(ldv, start as int) == examples_start(ldv, j as int),
        decreases lines.len() - j,
    {
        if j >= lines.len() {
            return None;
        }
        proof {
            assert(ldv[j as int] == lines@[j as int]@);
        }
        let t = lower_chars(&trim_chars(&lines[j]));
        if chars_match_str_at(&t, 0, "examples:") {
            return Some(j);
        }
        if chars_match_str_at(&t, 0, "scenario") {
            return None;
        }
        j = j + 1;
    }
}

fn parse_cells_exec(t: &Vec<char>) -> (r: Vec<Vec<char>>)
    ensures
        r.deep_view() == parse_cells(t@),
{
    proof {
        lemma_skip_pipes(t@, 0);
        lemma_pipe_end(t@, t@.len() as int);
    }
    let mut a: usize = 0;
    while a < t.len() && t[a] == '|'
        invariant
            a <= t.len(),
            skip_pipes_from(t@, 0) == skip_pipes_from(t@, a as int),
        decreases t.len() - a,
    {
        a = a + 1;
    }
    let mut b: usize = t.len();
    loop
        invariant
            b <= t.len(),
            pipe_end_idx(t@, t@.len() as int) == pipe_end_idx(t@, b as int),
        decreases b,
    {
        if b == 0 {
            break ;
        }
        if t[b - 1] != '|' {
            break ;
        }
        b = b - 1;
    }
    let u: Vec<char> = if a >= b {
        Vec::new()
    } else {
        copy_range(t, a, b)
    };
    proof {
        assert(u@ == (if skip_pipes_from(t@, 0) >= pipe_end_idx(t@, t@.len() as int) {
            Seq::<char>::empty()
        } else {
            t@.subrange(skip_pipes_from(t@, 0), pipe_end_idx(t@, t@.len() as int))
        }));
    }
    let pieces = split_chars(&u, '|');
    let ghost target = parse_cells(t@);
    let mut out: Vec<Vec<char>> = Vec::new();
    let mut i: usize = 0;
    proof {
        assert(target.len() == pieces.deep_view().len());
    }
    while i < pieces.len()
        invariant
            i <= pieces.len(),
            pieces.deep_view() == split_ch(u@, '|'),
            target == parse_cells(t@),
            target == split_ch(u@, '|').map_values(|c: Seq<char>| spec_trim(c)),
            out.deep_view() == target.take(i as int),
        decreases pieces.len() - i,
    {
        proof {
            assert(pieces.deep_view()[i as int] == pieces@[i as int]@);
            assert(target[i as int] == spec_trim(pieces.deep_view()[i as int]));
        }
        let cell = trim_chars(&pieces[i]);
        out.push(cell);
        i = i + 1;
        proof {
            assert(out.deep_view() =~~= target.take(i as int));
        }
    }
    proof {
        assert(out.deep_view() =~~= target);
    }
    out
}

fn normalize_row(header_len: usize, cells: &Vec<Vec<char>>) -> (row: Vec<Vec<char>>)
    ensures
        row.deep_view() == Seq::new(
            header_len as nat,
            |c: int|
                if 0 <= c < cells.deep_view().len() {
                    cells.deep_view()[c]
                } else {
                    Seq::<char>::empty()
                },
        ),
        row.len() == header_len,
{
    let ghost target = Seq::new(
        header_len as nat,
        |c: int|
            if 0 <= c < cells.deep_view().len() {
                cells.deep_view()[c]
            } else {
                Seq::<char>::empty()
            },
    );
    let mut row: Vec<Vec<char>> = Vec::new();
    let mut c: usize = 0;
    while c < header_len
        invariant
            c <= header_len,
            target == Seq::new(
                header_len as nat,
                |x: int|
                    if 0 <= x < cells.deep_view().len() {
                        cells.deep_view()[x]
                    } else {
                        Seq::<char>::empty()
                    },
            ),
            row.deep_view() == target.take(c as int),
            row.len() == c,
        decreases header_len - c,
    {
        if c < cells.len() {
            proof {
                assert(cells.deep_view()[c as int] == cells@[c as int]@);
            }
            row.push(copy_range(&cells[c], 0, cells[c].len()));
        } else {
            let empty_cell: Vec<char> = Vec::new();
            row.push(empty_cell);
        }
        c = c + 1;
        proof {
            assert(row.deep_view() =~~= target.take(c as int));
        }
    }
    proof {
        assert(row.deep_view() =~~= target);
    }
    row
}

fn scan_table(lines: &Vec<Vec<char>>, start: usize) -> (r: (Vec<Vec<char>>, Vec<Vec<Vec<char>>>))
    requires
        start <= lines.len(),
    ensures
        ({
            let tb = table_from(lines.deep_view(), start as int, None);
            &&& r.0.deep_view() == (match tb.0 {
                Some(h) => h,
                None => Seq::<Seq<char>>::empty(),
            })
            &&& r.1.deep_view() == tb.1
            &&& forall|t: int| 0 <= t < r.1@.len() ==> (#[trigger] r.1@[t]@).len() == r.0@.len()
        }),
{
    let ghost ldv = lines.deep_view();
    let mut header: Vec<Vec<char>> = Vec::new();
    let mut have_header = false;
    let mut rows: Vec<Vec<Vec<char>>> = Vec::new();
    let mut j: usize = start;
    loop
        invariant
            start <= j <= lines.len(),
            ldv == lines.deep_view(),
            have_header ==> table_from(ldv, start as int, None) == ({
                let rec = table_from(ldv, j as int, Some(header.deep_view()));
                (rec.0, rows.deep_view() + rec.1)
            }),
            !have_header ==> rows.len() == 0 && header.len() == 0 && table_from(
                ldv,
                start as int,
                None,
            ) == table_from(ldv, j as int, None),
            forall|t: int| 0 <= t < rows@.len() ==> (#[trigger] rows@[t]@).len() == header@.len(),
        decreases lines.len() - j,
    {
        if j >= lines.len() {
            break ;
        }
        proof {
            assert(ldv[j as int] == lines@[j as int]@);
        }
        let t = trim_chars(&lines[j]);
        if t.len() == 0 {
            j = j + 1;
            continue ;
        }
        if t[0] != '|' {
            break ;
        }
        let cells = parse_cells_exec(&t);
        if !have_header {
            header = cells;
            have_header = true;
            j = j + 1;
        } else {
            let ghost rows0 = rows.deep_view();
            let row = normalize_row(header.len(), &cells);
            let ghost rowdv = row.deep_view();
            rows.push(row);
            j = j + 1;
            proof {
                assert(rows.deep_view() =~~= rows0.push(rowdv));
                let rec = table_from(ldv, j as int, Some(header.deep_view()));
                assert((rows0 + (seq![rowdv] + rec.1)) =~~= (rows0.push(rowdv) + rec.1));
            }
        }
    }
    if !have_header {
        proof {
            assert(table_from(ldv, start as int, None).1 =~~= rows.deep_view());
        }
        return (header, rows);
    }
    proof {
        assert(table_from(ldv, start as int, None).1 =~~= rows.deep_view() + Seq::<
            Seq<Seq<char>>,
        >::empty());
        assert(rows.deep_view() + Seq::<Seq<Seq<char>>>::empty() =~~= rows.deep_view());
    }
    (header, rows)
}

fn outline_ctx_exec(lines: &Vec<Vec<char>>, i: usize) -> (r: (bool, Vec<Vec<char>>, Vec<Vec<Vec<char>>>))
    requires
        i < lines.len(),
    ensures
        ({
            let oc = outline_ctx(lines.deep_view(), i as int);
            &&& r.0 == oc.is_outline
            &&& r.1.deep_view() == oc.header
            &&& r.2.deep_view() == oc.rows
            &&& forall|t: int| 0 <= t < r.2@.len() ==> (#[trigger] r.2@[t]@).len() == r.1@.len()
        }),
{
    let empty_header: Vec<Vec<char>> = Vec::new();
    let empty_rows: Vec<Vec<Vec<char>>> = Vec::new();
    match find_outline_start(lines, i) {
        None => (false, empty_header, empty_rows),
        Some(st) => {
            match find_examples_start(lines, st + 1) {
                None => (true, empty_header, empty_rows),
                Some(ex) => {
                    let (header, rows) = scan_table(lines, ex + 1);
                    (true, header, rows)
                },
            }
        },
    }
}

fn lookup_cell_exec(header: &Vec<Vec<char>>, row: &Vec<Vec<char>>, name: &Vec<char>) -> (r: Option<
    Vec<char>,
>)
    requires
        row.len() == header.len(),
    ensures
        r.deep_view() == lookup_cell(header.deep_view(), row.deep_view(), name@),
{
    let ghost hdv = header.deep_view();
    let mut j: usize = header.len();
    loop
        invariant
            j <= header.len(),
            row.len() == header.len(),
            hdv == header.deep_view(),
            last_header_idx(hdv, name@, header.len() as int) == last_header_idx(
                hdv,
                name@,
                j as int,
            ),
        decreases j,
    {
        if j == 0 {
            return None;
        }
        proof {
            assert(hdv[j as int - 1] == header@[j as int - 1]@);
            assert(row.deep_view()[j as int - 1] == row@[j as int - 1]@);
        }
        if chars_eq(&header[j - 1], name) {
            return Some(copy_range(&row[j - 1], 0, row[j - 1].len()));
        }
        j = j - 1;
    }
}

fn resolve_exec(body: &Vec<char>, header: &Vec<Vec<char>>, row: &Vec<Vec<char>>) -> (out: Vec<char>)
    requires
        row.len() == header.len(),
    ensures
        out@ == resolve_from(body@, 0, header.deep_view(), row.deep_view()),
{
    let ghost hdv = header.deep_view();
    let ghost rdv = row.deep_view();
    let mut out: Vec<char> = Vec::new();
    let mut p: usize = 0;
    loop
        invariant
            p <= body.len(),
            hdv == header.deep_view(),
            rdv == row.deep_view(),
            row.len() == header.len(),
            out@ + resolve_from(body@, p as int, hdv, rdv) == resolve_from(body@, 0, hdv, rdv),
        decreases body.len() - p,
    {
        if p >= body.len() {
            proof {
                assert(out@ + Seq::<char>::empty() =~= out@);
            }
            return out;
        }
        let ghost out0 = out@;
        if body[p] == '<' {
            let gt = find_char(body, '>', p + 1);
            if gt < body.len() && gt >= p + 2 {
                let name = copy_range(body, p + 1, gt);
                let ghost rest = resolve_from(body@, gt as int + 1, hdv, rdv);
                let rep: Vec<char> = match lookup_cell_exec(header, row, &name) {
                    Some(v) => v,
                    None => {
                        let mut t: Vec<char> = Vec::new();
                        t.push('<');
                        append_chars(&mut t, &name);
                        t.push('>');
                        proof {
                            assert(t@ =~= seq!['<'] + name@ + seq!['>']);
                        }
                        t
                    },
                };
                append_chars(&mut out, &rep);
                proof {
                    assert((out0 + rep@) + rest =~= out0 + (rep@ + rest));
                }
                p = gt + 1;
            } else {
                out.push(body[p]);
                proof {
                    let rest = resolve_from(body@, p as int + 1, hdv, rdv);
                    assert(out@ =~= out0 + seq![body@[p as int]]);
                    assert((out0 + seq![body@[p as int]]) + rest =~= out0 + (seq![body@[p as int]]
                        + rest));
                }
                p = p + 1;
            }
        } else {
            out.push(body[p]);
            proof {
                let rest = resolve_from(body@, p as int + 1, hdv, rdv);
                assert(out@ =~= out0 + seq![body@[p as int]]);
                assert((out0 + seq![body@[p as int]]) + rest =~= out0 + (seq![body@[p as int]]
                    + rest));
            }
            p = p + 1;
        }
    }
}

fn line_diag_exec(
    lines: &Vec<Vec<char>>,
    i: usize,
    kind: StepKind,
    body: &Vec<char>,
    steps: &Vec<StepEntry>,
    mode: &str,
) -> (r: Option<Diagnostic>)
    requires
        i < lines.len(),
    ensures
        r.deep_view() == line_diag(
            lines.deep_view(),
            i as int,
            kind,
            body@,
            steps.deep_view(),
            mode@,
        ),
{
    let ghost ldv = lines.deep_view();
    let ghost sdv = steps.deep_view();
    let ghost oc = outline_ctx(ldv, i as int);
    let (is_outline, header, rows) = outline_ctx_exec(lines, i);
    if is_outline && rows.len() > 0 && chars_contain(body, '<') && chars_contain(body, '>') {
        let ghost hdv = header.deep_view();
        let mut any_ok = false;
        let mut any_amb = false;
        let mut r: usize = 0;
        while r < rows.len()
            invariant
                r <= rows.len(),
                ldv == lines.deep_view(),
                sdv == steps.deep_view(),
                hdv == header.deep_view(),
                hdv == oc.header,
                rows.deep_view() == oc.rows,
                oc == outline_ctx(ldv, i as int),
                forall|t: int| 0 <= t < rows@.len() ==> (#[trigger] rows@[t]@).len()
                    == header@.len(),
                any_ok == (exists|t: int|
                    0 <= t < r && #[trigger] row_match_count(
                        sdv,
                        kind,
                        body@,
                        oc.header,
                        oc.rows[t],
                        mode@,
                    ) >= 1),
                any_amb == (exists|t: int|
                    0 <= t < r && #[trigger] row_match_count(
                        sdv,
                        kind,
                        body@,
                        oc.header,
                        oc.rows[t],
                        mode@,
                    ) >= 2),
            decreases rows.len() - r,
        {
            proof {
                assert(rows.deep_view()[r as int] == rows@[r as int].deep_view());
            }
            let resolved = resolve_exec(body, &header, &rows[r]);
            let rs = chars_to_string(&resolved);
            let m = match_one(steps, kind, rs.as_str(), mode);
            proof {
                assert(spec_trim(rs@) == spec_trim(resolve_from(body@, 0, hdv, rows.deep_view()[r as int])));
                assert(m.deep_view().len() == row_match_count(
                    sdv,
                    kind,
                    body@,
                    oc.header,
                    oc.rows[r as int],
                    mode@,
                ));
                assert(m.len() == m.deep_view().len());
            }
            if m.len() > 1 {
                any_amb = true;
            }
            if m.len() >= 1 {
                any_ok = true;
            }
            r = r + 1;
        }
        proof {
            assert(any_ok == any_row_ok(sdv, kind, body@, oc, mode@));
            assert(any_amb == any_row_amb(sdv, kind, body@, oc, mode@));
        }
        if !any_ok {
            Some(
                Diagnostic {
                    line: i,
                    message: String::from_str("Undefined step (none of the Examples values match)"),
                    severity: String::from_str("warning"),
                },
            )
        } else if any_amb {
            Some(
                Diagnostic {
                    line: i,
                    message: String::from_str(
                        "Ambiguous step (one or more Examples values have multiple matches)",
                    ),
                    severity: String::from_str("warning"),
                },
            )
        } else {
            None
        }
    } else {
        let bs = chars_to_string(body);
        let m = match_one(steps, kind, bs.as_str(), mode);
        proof {
            assert(m.len() == m.deep_view().len());
            assert(m.deep_view().len() == matching_steps(sdv, kind, body@, mode@).len());
        }
        if m.len() == 0 {
            Some(
                Diagnostic {
                    line: i,
                    message: String::from_str("Undefined step"),
                    severity: String::from_str("warning"),
                },
            )
        } else if m.len() > 1 {
            Some(
                Diagnostic {
                    line: i,
                    message: String::from_str("Ambiguous step"),
                    severity: String::from_str("warning"),
                },
            )
        } else {
            None
        }
    }
}

/// Produces the diagnostics for a feature text: each step line that no step
/// definition matches is reported as undefined, each one that several match
/// as ambiguous, with Scenario Outline steps judged across their Examples
/// rows.
pub fn diagnostics_for_feature(
    feature_text: &str,
    dialect: &str,
    match_mode: &str,
    steps: &Vec<StepEntry>,
) -> (diags: Vec<Diagnostic>)
    ensures
        diags.deep_view() == feature_diags_spec(
            feature_text@,
            dialect@,
            match_mode@,
            steps.deep_view(),
        ),
        forall|a: int, b: int|
            0 <= a < b < diags@.len() ==> (#[trigger] diags.deep_view()[a]).line < (
            #[trigger] diags.deep_view()[b]).line,
{
    let code = detect_dialect(feature_text, dialect);
    let d = get_dialect(code);
    let tv = str_to_chars(feature_text);
    let lines = split_chars(&tv, '\n');
    let ghost ldv = lines.deep_view();
    let ghost sdv = steps.deep_view();
    let ghost full = feature_diags_spec(feature_text@, dialect@, match_mode@, sdv);
    let mut out: Vec<Diagnostic> = Vec::new();
    let mut last_kind: Option<StepKind> = None;
    let mut i: usize = 0;
    proof {
        assert(full == diags_from(ldv, 0, None, sdv, match_mode@, d@));
    }
    while i < lines.len()
        invariant
            i <= lines.len(),
            ldv == lines.deep_view(),
            sdv == steps.deep_view(),
            d@ == spec_dialect(dialect_code(feature_text@, dialect@)),
            out.deep_view() + diags_from(ldv, i as int, last_kind, sdv, match_mode@, d@) == full,
        decreases lines.len() - i,
    {
        proof {
            assert(ldv[i as int] == lines@[i as int]@);
        }
        match parse_step_line_exec(&lines[i], &d) {
            None => {
                i = i + 1;
            },
            Some((kw, body)) => {
                let k0 = match kind_from_keyword(&kw, &d) {
                    Some(k) => k,
                    None => StepKind::Given,
                };
                let is_conj = vec_contains_chars(&d.and_kws, &kw) || vec_contains_chars(
                    &d.but_kws,
                    &kw,
                );
                let kind = if is_conj {
                    match last_kind {
                        Some(p) => p,
                        None => k0,
                    }
                } else {
                    k0
                };
                let ghost tail = diags_from(
                    ldv,
                    i as int + 1,
                    if is_conj {
                        last_kind
                    } else {
                        Some(kind)
                    },
                    sdv,
                    match_mode@,
                    d@,
                );
                if !is_conj {
                    last_kind = Some(kind);
                }
                match line_diag_exec(&lines, i, kind, &body, steps, match_mode) {
                    Some(dg) => {
                        let ghost d0 = out.deep_view();
                        out.push(dg);
                        proof {
                            assert(out.deep_view() =~~= d0 + seq![dg@]);
                            assert((d0 + seq![dg@]) + tail =~= d0 + (seq![dg@] + tail));
                        }
                    },
                    None => {
                        proof {
                            assert(Seq::<DiagnosticV>::empty() + tail =~= tail);
                        }
                    },
                }
                i = i + 1;
            },
        }
    }
    proof {
        assert(out.deep_view() + Seq::<DiagnosticV>::empty() =~= out.deep_view());
        assert(out.deep_view() =~~= full);
        lemma_diags_ascending(ldv, 0, None, sdv, match_mode@, d@);
    }
    out
}

} // verus!
