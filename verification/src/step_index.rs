//! Step index: the extraction record types, the index builder that sorts
//! entries by `(file, line)` and computes per-kind and ambiguity statistics,
//! and the extractor over stripped source text.

use vstd::prelude::*;
use crate::literal::{literal_from, literal_in};
use crate::strip::{strip_chars, strip_spec};
use crate::text::{chars_eq_str, chars_match_str_at, copy_range, count_ch, count_char_upto,
    find_ch_from, find_char, has_prefix_at, is_word_char, lemma_find_ch_from, lemma_lex_trichotomy,
    lemma_skip_ws_from, lemma_word_run_end, lex_lt, lower_chars, lower_seq, skip_ws, skip_ws_from,
    split_ch, split_chars, str_lex_lt, str_to_chars, word_run, word_run_end, chars_to_string};

verus! {

/// The kind of a step definition. And/But are not kinds; they inherit the
/// most recent explicit kind within a scenario.
#[derive(Clone, Copy, PartialEq, Eq, Structural, Debug)]
pub enum StepKind {
    Given,
    When,
    Then,
}

/// One extracted step definition.
#[derive(Clone, Debug)]
pub struct StepEntry {
    pub kind: StepKind,
    pub regex: String,
    pub file: String,
    pub line: usize,
    pub function: Option<String>,
    pub captures: Option<Vec<String>>,
    pub tags: Option<Vec<String>>,
    pub notes: Option<String>,
}

/// Mathematical model of a step entry.
pub struct StepEntryV {
    pub kind: StepKind,
    pub regex: Seq<char>,
    pub file: Seq<char>,
    pub line: nat,
    pub function: Option<Seq<char>>,
    pub captures: Option<Seq<Seq<char>>>,
    pub tags: Option<Seq<Seq<char>>>,
    pub notes: Option<Seq<char>>,
}

impl View for StepEntry {
    type V = StepEntryV;

    open spec fn view(&self) -> StepEntryV {
        StepEntryV {
            kind: self.kind,
            regex: self.regex@,
            file: self.file@,
            line: self.line as nat,
            function: self.function.deep_view(),
            captures: self.captures.deep_view(),
            tags: self.tags.deep_view(),
            notes: self.notes.deep_view(),
        }
    }
}

impl DeepView for StepEntry {
    type V = StepEntryV;

    open spec fn deep_view(&self) -> StepEntryV {
        self.view()
    }
}

/// Per-kind tallies.
#[derive(Clone, Debug)]
pub struct ByKind {
    pub given: usize,
    pub when: usize,
    pub then_count: usize,
}

pub struct ByKindV {
    pub given: nat,
    pub when: nat,
    pub then_count: nat,
}

impl View for ByKind {
    type V = ByKindV;

    open spec fn view(&self) -> ByKindV {
        ByKindV { given: self.given as nat, when: self.when as nat, then_count: self.then_count as nat }
    }
}

/// Index statistics; `generated_at` carries the wall-clock timestamp and is
/// the one field no contract pins down.
#[derive(Clone, Debug)]
pub struct Stats {
    pub total: usize,
    pub by_kind: ByKind,
    pub ambiguous: usize,
    pub generated_at: Option<String>,
}

pub struct StatsV {
    pub total: nat,
    pub by_kind: ByKindV,
    pub ambiguous: nat,
    pub generated_at: Option<Seq<char>>,
}

impl View for Stats {
    type V = StatsV;

    open spec fn view(&self) -> StatsV {
        StatsV {
            total: self.total as nat,
            by_kind: self.by_kind@,
            ambiguous: self.ambiguous as nat,
            generated_at: self.generated_at.deep_view(),
        }
    }
}

/// The sorted catalog of step definitions with its statistics.
#[derive(Clone, Debug)]
pub struct StepIndex {
    pub steps: Vec<StepEntry>,
    pub stats: Stats,
}

pub struct StepIndexV {
    pub steps: Seq<StepEntryV>,
    pub stats: StatsV,
}

impl View for StepIndex {
    type V = StepIndexV;

    open spec fn view(&self) -> StepIndexV {
        StepIndexV { steps: self.steps.deep_view(), stats: self.stats@ }
    }
}

/// One source file handed to the extractor.
#[derive(Clone, Debug)]
pub struct SourceFile {
    pub path: String,
    pub text: String,
}

pub struct SourceFileV {
    pub path: Seq<char>,
    pub text: Seq<char>,
}

impl View for SourceFile {
    type V = SourceFileV;

    open spec fn view(&self) -> SourceFileV {
        SourceFileV { path: self.path@, text: self.text@ }
    }
}

impl DeepView for SourceFile {
    type V = SourceFileV;

    open spec fn deep_view(&self) -> SourceFileV {
        self.view()
    }
}

/// Sort order of the index: by file (lexicographically), then by line.
pub open spec fn entry_le(a: StepEntryV, b: StepEntryV) -> bool {
    lex_lt(a.file, b.file) || (a.file == b.file && a.line <= b.line)
}

pub proof fn lemma_entry_le_total(a: StepEntryV, b: StepEntryV)
    ensures
        entry_le(a, b) || entry_le(b, a),
{
    lemma_lex_trichotomy(a.file, b.file);
}

pub proof fn lemma_lex_lt_trans(a: Seq<char>, b: Seq<char>, c: Seq<char>)
    requires
        lex_lt(a, b),
        lex_lt(b, c),
    ensures
        lex_lt(a, c),
    decreases a.len(),
{
    if c.len() == 0 || b.len() == 0 {
    } else if a.len() == 0 {
    } else {
        if a[0] == b[0] && b[0] == c[0] {
            lemma_lex_lt_trans(a.drop_first(), b.drop_first(), c.drop_first());
        }
    }
}

pub proof fn lemma_entry_le_trans(a: StepEntryV, b: StepEntryV, c: StepEntryV)
    ensures
        entry_le(a, b) && entry_le(b, c) ==> entry_le(a, c),
{
    if entry_le(a, b) && entry_le(b, c) {
        if lex_lt(a.file, b.file) && lex_lt(b.file, c.file) {
            lemma_lex_lt_trans(a.file, b.file, c.file);
        }
    }
}

/// Stable insertion of `e` behind every element that compares less than or
/// equal to it.
pub open spec fn insert_sorted(s: Seq<StepEntryV>, e: StepEntryV) -> Seq<StepEntryV>
    decreases s.len(),
{
    if s.len() == 0 {
        seq![e]
    } else if entry_le(s.last(), e) {
        s.push(e)
    } else {
        insert_sorted(s.drop_last(), e).push(s.last())
    }
}

/// Stable insertion sort by `(file, line)`.
pub open spec fn sort_entries(s: Seq<StepEntryV>) -> Seq<StepEntryV>
    decreases s.len(),
{
    if s.len() == 0 {
        s
    } else {
        insert_sorted(sort_entries(s.drop_last()), s.last())
    }
}

pub open spec fn sorted_by_file_line(s: Seq<StepEntryV>) -> bool {
    forall|i: int, j: int| 0 <= i < j < s.len() ==> entry_le(#[trigger] s[i], #[trigger] s[j])
}

pub proof fn lemma_insert_sorted_props(s: Seq<StepEntryV>, e: StepEntryV)
    requires
        sorted_by_file_line(s),
    ensures
        sorted_by_file_line(insert_sorted(s, e)),
        insert_sorted(s, e).len() == s.len() + 1,
        forall|i: int|
            0 <= i < insert_sorted(s, e).len() ==> (#[trigger] insert_sorted(s, e)[i] == e
                || s.contains(insert_sorted(s, e)[i])),
        insert_sorted(s, e).to_multiset() == s.to_multiset().insert(e),
    decreases s.len(),
{
    broadcast use vstd::seq_lib::group_seq_properties;

    let out = insert_sorted(s, e);
    if s.len() == 0 {
        assert(out =~= seq![e]);
        assert(out.to_multiset() =~= s.to_multiset().insert(e)) by {
            s.to_multiset_ensures();
            out.to_multiset_ensures();
            assert(out.drop_last() =~= s);
        }
    } else if entry_le(s.last(), e) {
        assert(out == s.push(e));
        assert forall|i: int, j: int| 0 <= i < j < out.len() implies entry_le(
            #[trigger] out[i],
            #[trigger] out[j],
        ) by {
            if j == out.len() - 1 {
                if i < s.len() - 1 {
                    assert(entry_le(s[i], s[s.len() - 1]));
                    lemma_entry_le_trans(s[i], s[s.len() - 1], e);
                }
            }
        }
        assert(s.push(e).to_multiset() == s.to_multiset().insert(e)) by {
            s.to_multiset_ensures();
        }
    } else {
        let s2 = s.drop_last();
        assert(sorted_by_file_line(s2));
        lemma_insert_sorted_props(s2, e);
        let inner = insert_sorted(s2, e);
        assert(out == inner.push(s.last()));
        lemma_entry_le_total(s.last(), e);
        assert forall|i: int, j: int| 0 <= i < j < out.len() implies entry_le(
            #[trigger] out[i],
            #[trigger] out[j],
        ) by {
            if j == out.len() - 1 {
                let x = out[i];
                assert(x == e || s2.contains(x));
                if x == e {
                    assert(entry_le(e, s.last()));
                } else {
                    let jj = choose|jj: int| 0 <= jj < s2.len() && s2[jj] == x;
                    assert(s[jj] == x);
                    assert(entry_le(s[jj], s[s.len() - 1]));
                }
            }
        }
        assert forall|i: int| 0 <= i < out.len() implies (#[trigger] out[i] == e || s.contains(
            out[i],
        )) by {
            if i < out.len() - 1 {
                if inner[i] == e {
                } else {
                    let jj = choose|jj: int| 0 <= jj < s2.len() && s2[jj] == inner[i];
                    assert(s[jj] == inner[i]);
                }
            } else {
                assert(out[i] == s.last());
                assert(s[s.len() - 1] == s.last());
            }
        }
        assert(out.to_multiset() == s.to_multiset().insert(e)) by {
            inner.to_multiset_ensures();
            s.to_multiset_ensures();
            assert(inner.push(s.last()).to_multiset() == inner.to_multiset().insert(s.last()));
            assert(s2.push(s.last()) =~= s);
            s2.to_multiset_ensures();
            assert(s2.push(s.last()).to_multiset() == s2.to_multiset().insert(s.last()));
            assert(inner.to_multiset() == s2.to_multiset().insert(e));
            assert(s2.to_multiset().insert(e).insert(s.last()) == s2.to_multiset().insert(
                s.last(),
            ).insert(e));
        }
    }
}

/// The sort produces a sequence that is ordered by `(file, line)` and holds
/// exactly the entries it was given.
pub proof fn lemma_sort_entries_props(s: Seq<StepEntryV>)
    ensures
        sorted_by_file_line(sort_entries(s)),
        sort_entries(s).len() == s.len(),
        sort_entries(s).to_multiset() == s.to_multiset(),
    decreases s.len(),
{
    if s.len() == 0 {
    } else {
        let s2 = s.drop_last();
        lemma_sort_entries_props(s2);
        lemma_insert_sorted_props(sort_entries(s2), s.last());
        s.to_multiset_ensures();
        s2.to_multiset_ensures();
        assert(s2.push(s.last()) =~= s);
        assert(s2.push(s.last()).to_multiset() == s2.to_multiset().insert(s.last()));
    }
}

/// Number of entries of kind `k`.
pub open spec fn count_kind(s: Seq<StepEntryV>, k: StepKind) -> nat
    decreases s.len(),
{
    if s.len() == 0 {
        0
    } else {
        count_kind(s.drop_last(), k) + if s.last().kind == k {
            1nat
        } else {
            0nat
        }
    }
}

/// Every entry has exactly one of the three kinds, so the three per-kind
/// counts sum to the length.
pub proof fn lemma_kind_counts_sum(s: Seq<StepEntryV>)
    ensures
        count_kind(s, StepKind::Given) + count_kind(s, StepKind::When) + count_kind(
            s,
            StepKind::Then,
        ) == s.len(),
    decreases s.len(),
{
    if s.len() > 0 {
        lemma_kind_counts_sum(s.drop_last());
    }
}

/// Two entries share an ambiguity key when kind and pattern agree.
pub open spec fn same_key(a: StepEntryV, b: StepEntryV) -> bool {
    a.kind == b.kind && a.regex == b.regex
}

/// Occurrences of the key of `e` among the first `n` entries.
pub open spec fn count_key_upto(s: Seq<StepEntryV>, e: StepEntryV, n: int) -> nat
    decreases n,
{
    if n <= 0 {
        0
    } else {
        count_key_upto(s, e, n - 1) + if 0 <= n - 1 < s.len() && same_key(s[n - 1], e) {
            1nat
        } else {
            0nat
        }
    }
}

pub open spec fn count_key(s: Seq<StepEntryV>, e: StepEntryV) -> nat {
    count_key_upto(s, e, s.len() as int)
}

/// Index `i` is the first occurrence of a key that occurs more than once.
pub open spec fn is_first_dup(s: Seq<StepEntryV>, i: int) -> bool {
    &&& 0 <= i < s.len()
    &&& count_key(s, s[i]) >= 2
    &&& forall|j: int| 0 <= j < i ==> !same_key(#[trigger] s[j], s[i])
}

/// Number of distinct `(kind, regex)` keys that occur more than once,
/// counted at their first occurrence.
pub open spec fn ambiguous_upto(s: Seq<StepEntryV>, n: int) -> nat
    decreases n,
{
    if n <= 0 {
        0
    } else {
        ambiguous_upto(s, n - 1) + if is_first_dup(s, n - 1) {
            1nat
        } else {
            0nat
        }
    }
}

pub open spec fn ambiguous_count(s: Seq<StepEntryV>) -> nat {
    ambiguous_upto(s, s.len() as int)
}

/// What the statistics of an index state about its (sorted) entries;
/// everything but the timestamp is pinned down.
pub open spec fn stats_match(steps: Seq<StepEntryV>, st: StatsV) -> bool {
    &&& st.total == steps.len()
    &&& st.by_kind.given == count_kind(steps, StepKind::Given)
    &&& st.by_kind.when == count_kind(steps, StepKind::When)
    &&& st.by_kind.then_count == count_kind(steps, StepKind::Then)
    &&& st.ambiguous == ambiguous_count(steps)
}

/// Relies on `chrono::Utc::now` and `chrono::DateTime::to_rfc3339` for the
/// generation timestamp; nothing is assumed about the returned text.
#[verifier::external_body]
fn current_timestamp_rfc3339() -> String {
    chrono::Utc::now().to_rfc3339()
}

fn clone_string(s: &String) -> (r: String)
    ensures
        r@ == s@,
{
    s.clone()
}

fn clone_opt_string(o: &Option<String>) -> (r: Option<String>)
    ensures
        r.deep_view() == o.deep_view(),
{
    match o {
        Some(s) => Some(clone_string(s)),
        None => None,
    }
}

fn clone_opt_vec_string(o: &Option<Vec<String>>) -> (r: Option<Vec<String>>)
    ensures
        r.deep_view() == o.deep_view(),
{
    match o {
        None => None,
        Some(v) => {
            let mut out: Vec<String> = Vec::new();
            let mut i: usize = 0;
            while i < v.len()
                invariant
                    i <= v.len(),
                    out.deep_view() == v.deep_view().take(i as int),
                decreases v.len() - i,
            {
                let ghost d0 = out.deep_view();
                out.push(clone_string(&v[i]));
                i = i + 1;
                proof {
                    assert(out.deep_view() =~~= v.deep_view().take(i as int));
                }
            }
            proof {
                assert(out.deep_view() =~~= v.deep_view());
            }
            Some(out)
        },
    }
}

pub(crate) fn clone_entry(e: &StepEntry) -> (r: StepEntry)
    ensures
        r@ == e@,
{
    StepEntry {
        kind: e.kind,
        regex: clone_string(&e.regex),
        file: clone_string(&e.file),
        line: e.line,
        function: clone_opt_string(&e.function),
        captures: clone_opt_vec_string(&e.captures),
        tags: clone_opt_vec_string(&e.tags),
        notes: clone_opt_string(&e.notes),
    }
}

fn entry_le_exec(a: &StepEntry, b: &StepEntry) -> (r: bool)
    ensures
        r == entry_le(a@, b@),
{
    if str_lex_lt(a.file.as_str(), b.file.as_str()) {
        true
    } else {
        a.file == b.file && a.line <= b.line
    }
}

proof fn lemma_insert_sorted_at(s: Seq<StepEntryV>, e: StepEntryV, j: int)
    requires
        0 <= j <= s.len(),
        forall|m: int| j <= m < s.len() ==> !entry_le(#[trigger] s[m], e),
        j > 0 ==> entry_le(s[j - 1], e),
    ensures
        insert_sorted(s, e) == s.take(j) + seq![e] + s.skip(j),
    decreases s.len(),
{
    if j == s.len() {
        if s.len() == 0 {
            assert(insert_sorted(s, e) =~= s.take(j) + seq![e] + s.skip(j));
        } else {
            assert(entry_le(s.last(), e));
            assert(s.take(j) =~= s);
            assert(s.skip(j) =~= Seq::<StepEntryV>::empty());
            assert(insert_sorted(s, e) =~= s.take(j) + seq![e] + s.skip(j));
        }
    } else {
        assert(!entry_le(s[s.len() - 1], e));
        let s2 = s.drop_last();
        lemma_insert_sorted_at(s2, e, j);
        assert(s2.take(j) =~= s.take(j));
        assert(insert_sorted(s, e) == insert_sorted(s2, e).push(s.last()));
        assert((s2.take(j) + seq![e] + s2.skip(j)).push(s.last()) =~= s.take(j) + seq![e]
            + s.skip(j));
    }
}

fn sort_steps(steps: &Vec<StepEntry>) -> (out: Vec<StepEntry>)
    ensures
        out.deep_view() == sort_entries(steps.deep_view()),
{
    let mut out: Vec<StepEntry> = Vec::new();
    let mut i: usize = 0;
    while i < steps.len()
        invariant
            i <= steps.len(),
            out.deep_view() == sort_entries(steps.deep_view().take(i as int)),
            out.len() == i,
        decreases steps.len() - i,
    {
        let e = clone_entry(&steps[i]);
        let mut j: usize = out.len();
        while j > 0 && !entry_le_exec(&out[j - 1], &e)
            invariant
                j <= out.len(),
                forall|m: int| j <= m < out.len() ==> !entry_le(#[trigger] out.deep_view()[m], e@),
            decreases j,
        {
            j = j - 1;
        }
        let ghost prev = out.deep_view();
        proof {
            lemma_insert_sorted_at(prev, e@, j as int);
        }
        out.insert(j, e);
        i = i + 1;
        proof {
            assert(out.deep_view() =~~= prev.take(j as int) + seq![e@] + prev.skip(j as int));
            assert(steps.deep_view().take(i as int).drop_last() =~= steps.deep_view().take(
                i as int - 1,
            ));
            assert(steps.deep_view().take(i as int).last() == e@);
            assert(out.deep_view() == sort_entries(steps.deep_view().take(i as int)));
        }
    }
    proof {
        assert(steps.deep_view().take(steps.len() as int) =~= steps.deep_view());
    }
    out
}

fn same_key_exec(a: &StepEntry, b: &StepEntry) -> (r: bool)
    ensures
        r == same_key(a@, b@),
{
    a.kind == b.kind && a.regex == b.regex
}

fn compute_stats(sorted: &Vec<StepEntry>) -> (st: Stats)
    ensures
        stats_match(sorted.deep_view(), st@),
        st@.generated_at is Some,
{
    let ghost dv = sorted.deep_view();
    let n = sorted.len();
    let mut given: usize = 0;
    let mut when_count: usize = 0;
    let mut then_count: usize = 0;
    let mut i: usize = 0;
    while i < n
        invariant
            i <= n,
            n == sorted.len(),
            dv == sorted.deep_view(),
            given == count_kind(dv.take(i as int), StepKind::Given),
            when_count == count_kind(dv.take(i as int), StepKind::When),
            then_count == count_kind(dv.take(i as int), StepKind::Then),
            given + when_count + then_count == i,
        decreases n - i,
    {
        proof {
            lemma_kind_counts_sum(dv.take(i as int));
        }
        match sorted[i].kind {
            StepKind::Given => given = given + 1,
            StepKind::When => when_count = when_count + 1,
            StepKind::Then => then_count = then_count + 1,
        }
        i = i + 1;
        proof {
            assert(dv.take(i as int).drop_last() =~= dv.take(i as int - 1));
            assert(dv.take(i as int).last() == dv[i as int - 1]);
        }
    }
    proof {
        assert(dv.take(n as int) =~= dv);
    }
    let mut ambiguous: usize = 0;
    let mut i2: usize = 0;
    while i2 < n
        invariant
            i2 <= n,
            n == sorted.len(),
            dv == sorted.deep_view(),
            ambiguous == ambiguous_upto(dv, i2 as int),
            ambiguous <= i2,
        decreases n - i2,
    {
        // is this the first occurrence of its key?
        let mut first = true;
        let mut j: usize = 0;
        while j < i2
            invariant
                j <= i2 <= n,
                dv == sorted.deep_view(),
                first == (forall|m: int| 0 <= m < j ==> !same_key(#[trigger] dv[m], dv[i2 as int])),
            decreases i2 - j,
        {
            proof {
                assert(dv[j as int] == sorted@[j as int]@);
                assert(dv[i2 as int] == sorted@[i2 as int]@);
            }
            if same_key_exec(&sorted[j], &sorted[i2]) {
                first = false;
                proof {
                    assert(same_key(dv[j as int], dv[i2 as int]));
                }
            }
            j = j + 1;
        }
        if first {
            // count every occurrence of the key
            let mut cnt: usize = 0;
            let mut j2: usize = 0;
            while j2 < n
                invariant
                    j2 <= n,
                    n == sorted.len(),
                    dv == sorted.deep_view(),
                    cnt == count_key_upto(dv, dv[i2 as int], j2 as int),
                    cnt <= j2,
                decreases n - j2,
            {
                if same_key_exec(&sorted[j2], &sorted[i2]) {
                    cnt = cnt + 1;
                }
                j2 = j2 + 1;
            }
            if cnt >= 2 {
                ambiguous = ambiguous + 1;
            }
            proof {
                assert(is_first_dup(dv, i2 as int) == (cnt >= 2));
            }
        } else {
            proof {
                assert(!is_first_dup(dv, i2 as int));
            }
        }
        i2 = i2 + 1;
    }
    proof {
        assert(ambiguous_upto(dv, n as int) == ambiguous_count(dv));
    }
    Stats {
        total: n,
        by_kind: ByKind { given, when: when_count, then_count },
        ambiguous,
        generated_at: Some(current_timestamp_rfc3339()),
    }
}

impl StepIndex {
    /// Builds the index: sorts the entries by `(file, line)` (stably, so
    /// equal keys keep their input order) and computes the statistics.
    pub fn from_steps(steps: Vec<StepEntry>) -> (r: StepIndex)
        ensures
            r@.steps == sort_entries(steps.deep_view()),
            sorted_by_file_line(r@.steps),
            r@.steps.to_multiset() == steps.deep_view().to_multiset(),
            stats_match(r@.steps, r@.stats),
            r@.stats.by_kind.given + r@.stats.by_kind.when + r@.stats.by_kind.then_count
                == r@.stats.total,
            r@.stats.generated_at is Some,
    {
        proof {
            lemma_sort_entries_props(steps.deep_view());
        }
        let sorted = sort_steps(&steps);
        let stats = compute_stats(&sorted);
        proof {
            lemma_kind_counts_sum(sorted.deep_view());
        }
        StepIndex { steps: sorted, stats }
    }
}

/// Maps a lower-cased keyword to its step kind; anything that is neither
/// `given` nor `when` counts as `then`.
pub open spec fn kind_from_lower_spec(s: Seq<char>) -> StepKind {
    if lower_seq(s) == "given"@ {
        StepKind::Given
    } else if lower_seq(s) == "when"@ {
        StepKind::When
    } else {
        StepKind::Then
    }
}

pub fn kind_from_lower(s: &str) -> (k: StepKind)
    ensures
        k == kind_from_lower_spec(s@),
{
    let v = str_to_chars(s);
    let lo = lower_chars(&v);
    if chars_eq_str(&lo, "given") {
        StepKind::Given
    } else if chars_eq_str(&lo, "when") {
        StepKind::When
    } else {
        StepKind::Then
    }
}


/// The step keyword (lower case) standing at index `i`, with the index just
/// after it.
pub open spec fn keyword_at(s: Seq<char>, i: int) -> Option<(StepKind, int)> {
    if has_prefix_at(s, i, "given"@) {
        Some((StepKind::Given, i + "given"@.len() as int))
    } else if has_prefix_at(s, i, "when"@) {
        Some((StepKind::When, i + "when"@.len() as int))
    } else if has_prefix_at(s, i, "then"@) {
        Some((StepKind::Then, i + "then"@.len() as int))
    } else {
        None
    }
}

/// A builder call site `.given(` / `.when(` / `.then(` starting at `i`,
/// tolerating whitespace and a turbofish argument list before the
/// parenthesis; the returned index stands just after the `(`.
pub open spec fn builder_end(s: Seq<char>, i: int) -> Option<(StepKind, int)> {
    if 0 <= i < s.len() && s[i] == '.' {
        match keyword_at(s, i + 1) {
            Some(kw) => {
                let w = skip_ws_from(s, kw.1);
                if w < s.len() && s[w] == '(' {
                    Some((kw.0, w + 1))
                } else if has_prefix_at(s, w, "::<"@) {
                    let gt = find_ch_from(s, '>', w + 3);
                    if gt < s.len() && gt > w + 3 {
                        let w2 = skip_ws_from(s, gt + 1);
                        if w2 < s.len() && s[w2] == '(' {
                            Some((kw.0, w2 + 1))
                        } else {
                            None
                        }
                    } else {
                        None
                    }
                } else {
                    None
                }
            },
            None => None,
        }
    } else {
        None
    }
}

/// A macro call site `given!(` / `when!(` / `then!(` starting at `i`, with a
/// word boundary in front of the keyword.
pub open spec fn macro_end(s: Seq<char>, i: int) -> Option<(StepKind, int)> {
    if 0 <= i < s.len() && (i == 0 || !is_word_char(s[i - 1])) {
        match keyword_at(s, i) {
            Some(kw) => {
                if kw.1 < s.len() && s[kw.1] == '!' {
                    let w = skip_ws_from(s, kw.1 + 1);
                    if w < s.len() && s[w] == '(' {
                        Some((kw.0, w + 1))
                    } else {
                        None
                    }
                } else {
                    None
                }
            },
            None => None,
        }
    } else {
        None
    }
}

/// An attribute block `#[ given … ]` / `#[ when … ]` / `#[ then … ]`
/// starting at `i`; the block ends at the first `]` after the keyword and
/// may span several lines. The returned index stands just after the `]`.
pub open spec fn attr_end(s: Seq<char>, i: int) -> Option<(StepKind, int)> {
    if 0 <= i && i + 1 < s.len() && s[i] == '#' && s[i + 1] == '[' {
        let w = skip_ws_from(s, i + 2);
        match keyword_at(s, w) {
            Some(kw) => {
                let rb = find_ch_from(s, ']', kw.1);
                if rb < s.len() {
                    Some((kw.0, rb + 1))
                } else {
                    None
                }
            },
            None => None,
        }
    } else {
        None
    }
}

pub proof fn lemma_builder_end_bounds(s: Seq<char>, i: int)
    ensures
        builder_end(s, i) matches Some(hit) ==> i < hit.1 <= s.len(),
{
    if builder_end(s, i) is Some {
        let kw = keyword_at(s, i + 1)->0;
        lemma_skip_ws_from(s, kw.1);
        let w = skip_ws_from(s, kw.1);
        lemma_find_ch_from(s, '>', w + 3);
        let gt = find_ch_from(s, '>', w + 3);
        lemma_skip_ws_from(s, gt + 1);
    }
}

pub proof fn lemma_macro_end_bounds(s: Seq<char>, i: int)
    ensures
        macro_end(s, i) matches Some(hit) ==> i < hit.1 <= s.len(),
{
    if macro_end(s, i) is Some {
        let kw = keyword_at(s, i)->0;
        lemma_skip_ws_from(s, kw.1 + 1);
    }
}

pub proof fn lemma_attr_end_bounds(s: Seq<char>, i: int)
    ensures
        attr_end(s, i) matches Some(hit) ==> i + 3 <= hit.1 <= s.len(),
{
    if attr_end(s, i) is Some {
        lemma_skip_ws_from(s, i + 2);
        let w = skip_ws_from(s, i + 2);
        let kw = keyword_at(s, w)->0;
        lemma_find_ch_from(s, ']', kw.1);
    }
}

/// An entry produced by the builder or macro detector.
pub open spec fn mk_entry(k: StepKind, lit: Seq<char>, path: Seq<char>, lineno: nat) -> StepEntryV {
    StepEntryV {
        kind: k,
        regex: lit,
        file: path,
        line: lineno,
        function: None,
        captures: None,
        tags: None,
        notes: None,
    }
}

/// Entries of all builder call sites at or after `i` on one line: each site
/// whose first following string literal can be read yields one entry.
pub open spec fn builder_entries_from(
    line: Seq<char>,
    i: int,
    path: Seq<char>,
    lineno: nat,
) -> Seq<StepEntryV>
    decreases line.len() - i,
    via builder_entries_decreases
{
    if i < 0 || i >= line.len() {
        Seq::empty()
    } else {
        match builder_end(line, i) {
            Some(hit) => (match literal_from(line, hit.1) {
                Some(lit) => seq![mk_entry(hit.0, lit, path, lineno)],
                None => Seq::empty(),
            }) + builder_entries_from(line, hit.1, path, lineno),
            None => builder_entries_from(line, i + 1, path, lineno),
        }
    }
}

#[via_fn]
proof fn builder_entries_decreases(line: Seq<char>, i: int, path: Seq<char>, lineno: nat) {
    lemma_builder_end_bounds(line, i);
}

/// Entries of all macro call sites at or after `i` on one line.
pub open spec fn macro_entries_from(
    line: Seq<char>,
    i: int,
    path: Seq<char>,
    lineno: nat,
) -> Seq<StepEntryV>
    decreases line.len() - i,
    via macro_entries_decreases
{
    if i < 0 || i >= line.len() {
        Seq::empty()
    } else {
        match macro_end(line, i) {
            Some(hit) => (match literal_from(line, hit.1) {
                Some(lit) => seq![mk_entry(hit.0, lit, path, lineno)],
                None => Seq::empty(),
            }) + macro_entries_from(line, hit.1, path, lineno),
            None => macro_entries_from(line, i + 1, path, lineno),
        }
    }
}

#[via_fn]
proof fn macro_entries_decreases(line: Seq<char>, i: int, path: Seq<char>, lineno: nat) {
    lemma_macro_end_bounds(line, i);
}

/// A line without its trailing carriage return, as `str::lines` yields it.
pub open spec fn strip_cr(l: Seq<char>) -> Seq<char> {
    if l.len() > 0 && l.last() == '\r' {
        l.drop_last()
    } else {
        l
    }
}

/// The lines of `s` as `str::lines` yields them: split on newlines, with no
/// final empty piece after a trailing newline, and carriage returns at line
/// ends removed.
pub open spec fn rust_lines(s: Seq<char>) -> Seq<Seq<char>> {
    if s.len() == 0 {
        Seq::empty()
    } else {
        let parts = split_ch(s, '\n');
        let kept = if s.last() == '\n' {
            parts.drop_last()
        } else {
            parts
        };
        kept.map_values(|l: Seq<char>| strip_cr(l))
    }
}

/// Builder entries, then macro entries, of one line.
pub open spec fn line_entries(line: Seq<char>, path: Seq<char>, lineno: nat) -> Seq<StepEntryV> {
    builder_entries_from(line, 0, path, lineno) + macro_entries_from(line, 0, path, lineno)
}

/// Entries of the lines at index `i` and after, with 1-based line numbers.
pub open spec fn lines_entries_from(
    lines: Seq<Seq<char>>,
    i: int,
    path: Seq<char>,
) -> Seq<StepEntryV>
    decreases lines.len() - i,
{
    if i < 0 || i >= lines.len() {
        Seq::empty()
    } else {
        line_entries(lines[i], path, (i + 1) as nat) + lines_entries_from(lines, i + 1, path)
    }
}

/// The function name captured for an attribute entry: among the first four
/// lines after the closing bracket, the first one of the shape
/// `fn <identifier> (` (with optional leading whitespace), if any.
pub open spec fn is_digit(c: char) -> bool {
    0x30 <= c as u32 && c as u32 <= 0x39
}

pub open spec fn fn_decl_name(l: Seq<char>) -> Option<Seq<char>> {
    let a = skip_ws_from(l, 0);
    if has_prefix_at(l, a, "fn"@) {
        let b = a + "fn"@.len() as int;
        let w = skip_ws_from(l, b);
        if w > b && w < l.len() && is_word_char(l[w]) && !is_digit(l[w]) {
            let idend = word_run_end(l, w + 1);
            let w2 = skip_ws_from(l, idend);
            if w2 < l.len() && l[w2] == '(' {
                Some(l.subrange(w, idend))
            } else {
                None
            }
        } else {
            None
        }
    } else {
        None
    }
}

pub open spec fn first_fn_in_lines(ls: Seq<Seq<char>>, i: int, limit: int) -> Option<Seq<char>>
    decreases limit - i,
{
    if i < 0 || i >= ls.len() || i >= limit {
        None
    } else {
        match fn_decl_name(ls[i]) {
            Some(nm) => Some(nm),
            None => first_fn_in_lines(ls, i + 1, limit),
        }
    }
}

pub open spec fn attr_function(s: Seq<char>, e: int) -> Option<Seq<char>> {
    first_fn_in_lines(rust_lines(s.skip(e)), 0, 4)
}

/// Entries of all attribute blocks at or after `i` in the stripped text.
/// The literal is read from between the brackets; the line number is where
/// the block begins; the following function name is captured best-effort.
pub open spec fn attr_entries_from(s: Seq<char>, i: int, path: Seq<char>) -> Seq<StepEntryV>
    decreases s.len() - i,
    via attr_entries_decreases
{
    if i < 0 || i >= s.len() {
        Seq::empty()
    } else {
        match attr_end(s, i) {
            Some(hit) => (match literal_from(s.subrange(i + 2, hit.1 - 1), 0) {
                Some(lit) => seq![
                    StepEntryV {
                        kind: hit.0,
                        regex: lit,
                        file: path,
                        line: (count_ch(s.take(i), '\n') + 1) as nat,
                        function: attr_function(s, hit.1),
                        captures: None,
                        tags: None,
                        notes: None,
                    },
                ],
                None => Seq::empty(),
            }) + attr_entries_from(s, hit.1, path),
            None => attr_entries_from(s, i + 1, path),
        }
    }
}

#[via_fn]
proof fn attr_entries_decreases(s: Seq<char>, i: int, path: Seq<char>) {
    lemma_attr_end_bounds(s, i);
}

/// All entries of one stripped source file: line detectors first, then the
/// attribute detector over the whole text.
pub open spec fn file_entries(stripped: Seq<char>, path: Seq<char>) -> Seq<StepEntryV> {
    lines_entries_from(rust_lines(stripped), 0, path) + attr_entries_from(stripped, 0, path)
}

/// All entries of the files at index `i` and after, in input order, each
/// file stripped of comments first.
pub open spec fn extract_entries_from(files: Seq<SourceFileV>, i: int) -> Seq<StepEntryV>
    decreases files.len() - i,
{
    if i < 0 || i >= files.len() {
        Seq::empty()
    } else {
        file_entries(strip_spec(files[i].text), files[i].path) + extract_entries_from(files, i + 1)
    }
}

/// The steps of the index built from `files`: every detected entry, sorted.
pub open spec fn extraction_spec(files: Seq<SourceFileV>) -> Seq<StepEntryV> {
    sort_entries(extract_entries_from(files, 0))
}


fn char_is_digit(c: char) -> (r: bool)
    ensures
        r == is_digit(c),
{
    let u = c as u32;
    0x30 <= u && u <= 0x39
}

fn try_keyword_at(v: &Vec<char>, i: usize) -> (r: Option<(StepKind, usize)>)
    requires
        i <= v.len(),
    ensures
        (r is Some) == (keyword_at(v@, i as int) is Some),
        r matches Some(h) ==> keyword_at(v@, i as int) == Some((h.0, h.1 as int)) && i <= h.1
            <= v.len(),
{
    if chars_match_str_at(v, i, "given") {
        Some((StepKind::Given, i + "given".unicode_len()))
    } else if chars_match_str_at(v, i, "when") {
        Some((StepKind::When, i + "when".unicode_len()))
    } else if chars_match_str_at(v, i, "then") {
        Some((StepKind::Then, i + "then".unicode_len()))
    } else {
        None
    }
}

fn try_builder_at(v: &Vec<char>, i: usize) -> (r: Option<(StepKind, usize)>)
    requires
        i <= v.len(),
    ensures
        (r is Some) == (builder_end(v@, i as int) is Some),
        r matches Some(h) ==> builder_end(v@, i as int) == Some((h.0, h.1 as int)) && i < h.1
            <= v.len(),
{
    proof {
        lemma_builder_end_bounds(v@, i as int);
    }
    if i >= v.len() || v[i] != '.' {
        return None;
    }
    match try_keyword_at(v, i + 1) {
        None => None,
        Some((k, e)) => {
            let w = skip_ws(v, e);
            if w < v.len() && v[w] == '(' {
                Some((k, w + 1))
            } else if chars_match_str_at(v, w, "::<") {
                proof {
                    reveal_strlit("::<");
                }
                let gt = find_char(v, '>', w + 3);
                if gt < v.len() && gt > w + 3 {
                    let w2 = skip_ws(v, gt + 1);
                    if w2 < v.len() && v[w2] == '(' {
                        Some((k, w2 + 1))
                    } else {
                        None
                    }
                } else {
                    None
                }
            } else {
                None
            }
        },
    }
}

fn try_macro_at(v: &Vec<char>, i: usize) -> (r: Option<(StepKind, usize)>)
    requires
        i <= v.len(),
    ensures
        (r is Some) == (macro_end(v@, i as int) is Some),
        r matches Some(h) ==> macro_end(v@, i as int) == Some((h.0, h.1 as int)) && i < h.1
            <= v.len(),
{
    proof {
        lemma_macro_end_bounds(v@, i as int);
    }
    if i >= v.len() {
        return None;
    }
    if i > 0 && crate::text::char_is_word(v[i - 1]) {
        return None;
    }
    match try_keyword_at(v, i) {
        None => None,
        Some((k, e)) => {
            if e < v.len() && v[e] == '!' {
                let w = skip_ws(v, e + 1);
                if w < v.len() && v[w] == '(' {
                    Some((k, w + 1))
                } else {
                    None
                }
            } else {
                None
            }
        },
    }
}

fn try_attr_at(v: &Vec<char>, i: usize) -> (r: Option<(StepKind, usize)>)
    requires
        i <= v.len(),
    ensures
        (r is Some) == (attr_end(v@, i as int) is Some),
        r matches Some(h) ==> attr_end(v@, i as int) == Some((h.0, h.1 as int)) && i + 3 <= h.1
            <= v.len(),
{
    proof {
        lemma_attr_end_bounds(v@, i as int);
    }
    if i >= v.len() {
        return None;
    }
    if i + 1 >= v.len() {
        return None;
    }
    if v[i] != '#' || v[i + 1] != '[' {
        return None;
    }
    let w = skip_ws(v, i + 2);
    match try_keyword_at(v, w) {
        None => None,
        Some((k, e)) => {
            let rb = find_char(v, ']', e);
            if rb < v.len() {
                Some((k, rb + 1))
            } else {
                None
            }
        },
    }
}

fn rust_lines_exec(v: &Vec<char>) -> (r: Vec<Vec<char>>)
    ensures
        r.deep_view() == rust_lines(v@),
{
    if v.len() == 0 {
        let r: Vec<Vec<char>> = Vec::new();
        proof {
            assert(r.deep_view() =~~= rust_lines(v@));
        }
        return r;
    }
    let mut parts = split_chars(v, '\n');
    let ghost all_parts = parts.deep_view();
    proof {
        lemma_find_ch_from(v@, '\n', 0);
        assert(split_ch(v@, '\n').len() >= 1);
    }
    let last_is_nl = v[v.len() - 1] == '\n';
    if last_is_nl {
        parts.pop();
    }
    let ghost kept = if v@.last() == '\n' {
        all_parts.drop_last()
    } else {
        all_parts
    };
    proof {
        assert(parts.deep_view() =~~= kept);
        assert(rust_lines(v@) == kept.map_values(|l: Seq<char>| strip_cr(l)));
    }
    let mut out: Vec<Vec<char>> = Vec::new();
    let mut i: usize = 0;
    while i < parts.len()
        invariant
            i <= parts.len(),
            parts.deep_view() == kept,
            rust_lines(v@) == kept.map_values(|l: Seq<char>| strip_cr(l)),
            out.deep_view() == rust_lines(v@).take(i as int),
        decreases parts.len() - i,
    {
        let n = parts[i].len();
        let ghost d0 = out.deep_view();
        let piece = if n > 0 && parts[i][n - 1] == '\r' {
            copy_range(&parts[i], 0, n - 1)
        } else {
            copy_range(&parts[i], 0, n)
        };
        proof {
            assert(kept[i as int] == parts@[i as int]@);
            assert(piece@ =~= strip_cr(kept[i as int]));
            assert(rust_lines(v@)[i as int] == strip_cr(kept[i as int]));
        }
        out.push(piece);
        i = i + 1;
        proof {
            assert(out.deep_view() =~~= rust_lines(v@).take(i as int));
        }
    }
    proof {
        assert(out.deep_view() =~~= rust_lines(v@));
    }
    out
}

fn fn_decl_name_exec(l: &Vec<char>) -> (r: Option<Vec<char>>)
    ensures
        (r is Some) == (fn_decl_name(l@) is Some),
        r matches Some(nm) ==> fn_decl_name(l@) == Some(nm@),
{
    proof {
        lemma_skip_ws_from(l@, 0);
    }
    let a = skip_ws(l, 0);
    if !chars_match_str_at(l, a, "fn") {
        return None;
    }
    let b = a + "fn".unicode_len();
    let w = skip_ws(l, b);
    if !(w > b && w < l.len()) {
        return None;
    }
    if !crate::text::char_is_word(l[w]) || char_is_digit(l[w]) {
        return None;
    }
    let idend = word_run(l, w + 1);
    let w2 = skip_ws(l, idend);
    if w2 < l.len() && l[w2] == '(' {
        proof {
            lemma_word_run_end(l@, w as int + 1);
        }
        Some(copy_range(l, w, idend))
    } else {
        None
    }
}

fn attr_function_exec(stripped: &Vec<char>, e: usize) -> (r: Option<String>)
    requires
        e <= stripped.len(),
    ensures
        r.deep_view() == attr_function(stripped@, e as int),
{
    let suffix = copy_range(stripped, e, stripped.len());
    proof {
        assert(suffix@ =~= stripped@.skip(e as int));
    }
    let ls = rust_lines_exec(&suffix);
    let ghost lsdv = ls.deep_view();
    let mut idx: usize = 0;
    loop
        invariant
            idx <= ls.len(),
            lsdv == ls.deep_view(),
            lsdv == rust_lines(stripped@.skip(e as int)),
            attr_function(stripped@, e as int) == first_fn_in_lines(lsdv, idx as int, 4),
        decreases ls.len() - idx,
    {
        if idx >= ls.len() || idx >= 4 {
            return None;
        }
        proof {
            assert(lsdv[idx as int] == ls@[idx as int]@);
        }
        match fn_decl_name_exec(&ls[idx]) {
            Some(nm) => {
                return Some(chars_to_string(&nm));
            },
            None => {
                idx = idx + 1;
            },
        }
    }
}

/// Appends the entries of all builder call sites on one line.
fn scan_builder_line(out: &mut Vec<StepEntry>, line: &Vec<char>, path: &String, lineno: usize)
    ensures
        final(out).deep_view() == old(out).deep_view() + builder_entries_from(
            line@,
            0,
            path@,
            lineno as nat,
        ),
{
    let ghost base = old(out).deep_view();
    let ghost full = builder_entries_from(line@, 0, path@, lineno as nat);
    let mut p: usize = 0;
    loop
        invariant
            p <= line.len(),
            out.deep_view() + builder_entries_from(line@, p as int, path@, lineno as nat) == base
                + full,
        decreases line.len() - p,
    {
        if p >= line.len() {
            proof {
                assert(out.deep_view() + builder_entries_from(line@, p as int, path@, lineno as nat)
                    =~~= out.deep_view());
            }
            return ;
        }
        match try_builder_at(line, p) {
            Some((k, e)) => {
                let ghost tail = builder_entries_from(line@, e as int, path@, lineno as nat);
                match literal_in(line, e) {
                    Some(lit) => {
                        let entry = StepEntry {
                            kind: k,
                            regex: chars_to_string(&lit),
                            file: clone_string(path),
                            line: lineno,
                            function: None,
                            captures: None,
                            tags: None,
                            notes: None,
                        };
                        proof {
                            assert(entry@ == mk_entry(
                                k,
                                literal_from(line@, e as int)->0,
                                path@,
                                lineno as nat,
                            ));
                        }
                        let ghost d0 = out.deep_view();
                        out.push(entry);
                        proof {
                            assert(out.deep_view() =~~= d0 + seq![entry@]);
                            assert((d0 + seq![entry@]) + tail =~= d0 + (seq![entry@] + tail));
                        }
                    },
                    None => {
                        proof {
                            assert(Seq::<StepEntryV>::empty() + tail =~= tail);
                        }
                    },
                }
                p = e;
            },
            None => {
                p = p + 1;
            },
        }
    }
}

/// Appends the entries of all macro call sites on one line.
fn scan_macro_line(out: &mut Vec<StepEntry>, line: &Vec<char>, path: &String, lineno: usize)
    ensures
        final(out).deep_view() == old(out).deep_view() + macro_entries_from(
            line@,
            0,
            path@,
            lineno as nat,
        ),
{
    let ghost base = old(out).deep_view();
    let ghost full = macro_entries_from(line@, 0, path@, lineno as nat);
    let mut p: usize = 0;
    loop
        invariant
            p <= line.len(),
            out.deep_view() + macro_entries_from(line@, p as int, path@, lineno as nat) == base
                + full,
        decreases line.len() - p,
    {
        if p >= line.len() {
            proof {
                assert(out.deep_view() + macro_entries_from(line@, p as int, path@, lineno as nat)
                    =~~= out.deep_view());
            }
            return ;
        }
        match try_macro_at(line, p) {
            Some((k, e)) => {
                let ghost tail = macro_entries_from(line@, e as int, path@, lineno as nat);
                match literal_in(line, e) {
                    Some(lit) => {
                        let entry = StepEntry {
                            kind: k,
                            regex: chars_to_string(&lit),
                            file: clone_string(path),
                            line: lineno,
                            function: None,
                            captures: None,
                            tags: None,
                            notes: None,
                        };
                        proof {
                            assert(entry@ == mk_entry(
                                k,
                                literal_from(line@, e as int)->0,
                                path@,
                                lineno as nat,
                            ));
                        }
                        let ghost d0 = out.deep_view();
                        out.push(entry);
                        proof {
                            assert(out.deep_view() =~~= d0 + seq![entry@]);
                            assert((d0 + seq![entry@]) + tail =~= d0 + (seq![entry@] + tail));
                        }
                    },
                    None => {
                        proof {
                            assert(Seq::<StepEntryV>::empty() + tail =~= tail);
                        }
                    },
                }
                p = e;
            },
            None => {
                p = p + 1;
            },
        }
    }
}

/// Appends the entries of all attribute blocks in the stripped text.
fn scan_attr_text(out: &mut Vec<StepEntry>, stripped: &Vec<char>, path: &String)
    ensures
        final(out).deep_view() == old(out).deep_view() + attr_entries_from(stripped@, 0, path@),
{
    let ghost base = old(out).deep_view();
    let ghost full = attr_entries_from(stripped@, 0, path@);
    let mut p: usize = 0;
    loop
        invariant
            p <= stripped.len(),
            out.deep_view() + attr_entries_from(stripped@, p as int, path@) == base + full,
        decreases stripped.len() - p,
    {
        if p >= stripped.len() {
            proof {
                assert(out.deep_view() + attr_entries_from(stripped@, p as int, path@)
                    =~~= out.deep_view());
            }
            return ;
        }
        match try_attr_at(stripped, p) {
            Some((k, e)) => {
                let ghost tail = attr_entries_from(stripped@, e as int, path@);
                let inside = copy_range(stripped, p + 2, e - 1);
                match literal_in(&inside, 0) {
                    Some(lit) => {
                        let nl = count_char_upto(stripped, '\n', p);
                        let func = attr_function_exec(stripped, e);
                        let entry = StepEntry {
                            kind: k,
                            regex: chars_to_string(&lit),
                            file: clone_string(path),
                            line: nl + 1,
                            function: func,
                            captures: None,
                            tags: None,
                            notes: None,
                        };
                        proof {
                            assert(inside@ == stripped@.subrange(p as int + 2, e as int - 1));
                            assert(entry@ == StepEntryV {
                                kind: k,
                                regex: literal_from(stripped@.subrange(p as int + 2, e as int - 1), 0)->0,
                                file: path@,
                                line: (count_ch(stripped@.take(p as int), '\n') + 1) as nat,
                                function: attr_function(stripped@, e as int),
                                captures: None,
                                tags: None,
                                notes: None,
                            });
                        }
                        let ghost d0 = out.deep_view();
                        out.push(entry);
                        proof {
                            assert(out.deep_view() =~~= d0 + seq![entry@]);
                            assert((d0 + seq![entry@]) + tail =~= d0 + (seq![entry@] + tail));
                        }
                    },
                    None => {
                        proof {
                            assert(Seq::<StepEntryV>::empty() + tail =~= tail);
                        }
                    },
                }
                p = e;
            },
            None => {
                p = p + 1;
            },
        }
    }
}

/// Extracts a step index from the given source files: strips comments,
/// detects builder, macro and attribute registrations, and builds the
/// sorted index with its statistics.
pub fn extract_step_index_from_files(files: &Vec<SourceFile>) -> (r: StepIndex)
    ensures
        r@.steps == extraction_spec(files.deep_view()),
        sorted_by_file_line(r@.steps),
        stats_match(r@.steps, r@.stats),
        r@.stats.by_kind.given + r@.stats.by_kind.when + r@.stats.by_kind.then_count
            == r@.stats.total,
        r@.stats.generated_at is Some,
{
    let ghost fdv = files.deep_view();
    let mut out: Vec<StepEntry> = Vec::new();
    let mut fi: usize = 0;
    while fi < files.len()
        invariant
            fi <= files.len(),
            fdv == files.deep_view(),
            out.deep_view() + extract_entries_from(fdv, fi as int) == extract_entries_from(fdv, 0),
        decreases files.len() - fi,
    {
        let ghost f_tail = extract_entries_from(fdv, fi as int + 1);
        let text_chars = str_to_chars(files[fi].text.as_str());
        let stripped = strip_chars(&text_chars);
        proof {
            assert(fdv[fi as int] == files@[fi as int]@);
            assert(stripped@ == strip_spec(fdv[fi as int].text));
        }
        let lines = rust_lines_exec(&stripped);
        let ghost ldv = lines.deep_view();
        let ghost path_v = fdv[fi as int].path;
        let ghost base2 = out.deep_view();
        let mut li: usize = 0;
        while li < lines.len()
            invariant
                li <= lines.len(),
                ldv == lines.deep_view(),
                ldv == rust_lines(strip_spec(fdv[fi as int].text)),
                fi < files.len(),
                fdv == files.deep_view(),
                path_v == fdv[fi as int].path,
                files@[fi as int]@.path == path_v,
                out.deep_view() + lines_entries_from(ldv, li as int, path_v) == base2
                    + lines_entries_from(ldv, 0, path_v),
            decreases lines.len() - li,
        {
            let ghost l_tail = lines_entries_from(ldv, li as int + 1, path_v);
            proof {
                assert(ldv[li as int] == lines@[li as int]@);
                assert(lines_entries_from(ldv, li as int, path_v) == line_entries(
                    ldv[li as int],
                    path_v,
                    (li + 1) as nat,
                ) + l_tail);
            }
            let ghost mid0 = out.deep_view();
            scan_builder_line(&mut out, &lines[li], &files[fi].path, li + 1);
            let ghost b_part = builder_entries_from(ldv[li as int], 0, path_v, (li + 1) as nat);
            let ghost m_part = macro_entries_from(ldv[li as int], 0, path_v, (li + 1) as nat);
            scan_macro_line(&mut out, &lines[li], &files[fi].path, li + 1);
            proof {
                assert(out.deep_view() =~~= (mid0 + b_part) + m_part);
                assert((mid0 + b_part) + m_part =~= mid0 + (b_part + m_part));
                assert(mid0 + line_entries(ldv[li as int], path_v, (li + 1) as nat) + l_tail
                    =~= mid0 + (line_entries(ldv[li as int], path_v, (li + 1) as nat) + l_tail));
            }
            li = li + 1;
        }
        proof {
            assert(out.deep_view() + Seq::<StepEntryV>::empty() =~= out.deep_view());
            assert(out.deep_view() =~~= base2 + lines_entries_from(ldv, 0, path_v));
        }
        let ghost mid1 = out.deep_view();
        scan_attr_text(&mut out, &stripped, &files[fi].path);
        proof {
            let a_part = attr_entries_from(strip_spec(fdv[fi as int].text), 0, path_v);
            assert(out.deep_view() =~~= mid1 + a_part);
            assert((base2 + lines_entries_from(ldv, 0, path_v)) + a_part =~= base2 + (
            lines_entries_from(ldv, 0, path_v) + a_part));
            assert(lines_entries_from(ldv, 0, path_v) + a_part == file_entries(
                strip_spec(fdv[fi as int].text),
                path_v,
            ));
            assert(extract_entries_from(fdv, fi as int) == file_entries(
                strip_spec(fdv[fi as int].text),
                path_v,
            ) + f_tail);
            assert((base2 + file_entries(strip_spec(fdv[fi as int].text), path_v)) + f_tail
                =~= base2 + (file_entries(strip_spec(fdv[fi as int].text), path_v) + f_tail));
        }
        fi = fi + 1;
    }
    proof {
        assert(out.deep_view() + Seq::<StepEntryV>::empty() =~= out.deep_view());
        assert(out.deep_view() =~~= extract_entries_from(fdv, 0));
    }
    StepIndex::from_steps(out)
}

/// Extraction is deterministic: two step indexes built from the same files
/// agree on the steps and on every statistic except the generation
/// timestamp.
pub proof fn lemma_extraction_deterministic(files: Seq<SourceFileV>, a: StepIndexV, b: StepIndexV)
    requires
        a.steps == extraction_spec(files),
        stats_match(a.steps, a.stats),
        b.steps == extraction_spec(files),
        stats_match(b.steps, b.stats),
    ensures
        a.steps == b.steps,
        a.stats.total == b.stats.total,
        a.stats.by_kind.given == b.stats.by_kind.given,
        a.stats.by_kind.when == b.stats.by_kind.when,
        a.stats.by_kind.then_count == b.stats.by_kind.then_count,
        a.stats.ambiguous == b.stats.ambiguous,
{
}

} // verus!
