//! Character-level text utilities shared by the scanners: whitespace and
//! word-character classification, ASCII lowercasing, lexicographic order,
//! trimming, searching and splitting over sequences of characters.

use vstd::prelude::*;
use vstd::string::StrSliceExecFns;

verus! {

/// The characters Rust's `char::is_whitespace` accepts (the Unicode
/// `White_Space` property).
pub open spec fn is_ws(c: char) -> bool {
    let u = c as u32;
    u == 0x09 || u == 0x0A || u == 0x0B || u == 0x0C || u == 0x0D || u == 0x20 || u == 0x85
        || u == 0xA0 || u == 0x1680 || (0x2000 <= u && u <= 0x200A) || u == 0x2028 || u == 0x2029
        || u == 0x202F || u == 0x205F || u == 0x3000
}

pub(crate) fn char_is_ws(c: char) -> (r: bool)
    ensures
        r == is_ws(c),
{
    let u = c as u32;
    u == 0x09 || u == 0x0A || u == 0x0B || u == 0x0C || u == 0x0D || u == 0x20 || u == 0x85
        || u == 0xA0 || u == 0x1680 || (0x2000 <= u && u <= 0x200A) || u == 0x2028 || u == 0x2029
        || u == 0x202F || u == 0x205F || u == 0x3000
}

/// Word characters for the word-boundary test in front of macro keywords:
/// ASCII letters, digits and underscore.
pub open spec fn is_word_char(c: char) -> bool {
    let u = c as u32;
    (0x30 <= u && u <= 0x39) || (0x41 <= u && u <= 0x5A) || (0x61 <= u && u <= 0x7A) || u == 0x5F
}

pub(crate) fn char_is_word(c: char) -> (r: bool)
    ensures
        r == is_word_char(c),
{
    let u = c as u32;
    (0x30 <= u && u <= 0x39) || (0x41 <= u && u <= 0x5A) || (0x61 <= u && u <= 0x7A) || u == 0x5F
}

/// ASCII lowercasing of a single character; every other character is kept.
pub open spec fn char_lower(c: char) -> char {
    match c {
        'A' => 'a',
        'B' => 'b',
        'C' => 'c',
        'D' => 'd',
        'E' => 'e',
        'F' => 'f',
        'G' => 'g',
        'H' => 'h',
        'I' => 'i',
        'J' => 'j',
        'K' => 'k',
        'L' => 'l',
        'M' => 'm',
        'N' => 'n',
        'O' => 'o',
        'P' => 'p',
        'Q' => 'q',
        'R' => 'r',
        'S' => 's',
        'T' => 't',
        'U' => 'u',
        'V' => 'v',
        'W' => 'w',
        'X' => 'x',
        'Y' => 'y',
        'Z' => 'z',
        _ => c,
    }
}

pub(crate) fn char_to_lower(c: char) -> (r: char)
    ensures
        r == char_lower(c),
{
    match c {
        'A' => 'a',
        'B' => 'b',
        'C' => 'c',
        'D' => 'd',
        'E' => 'e',
        'F' => 'f',
        'G' => 'g',
        'H' => 'h',
        'I' => 'i',
        'J' => 'j',
        'K' => 'k',
        'L' => 'l',
        'M' => 'm',
        'N' => 'n',
        'O' => 'o',
        'P' => 'p',
        'Q' => 'q',
        'R' => 'r',
        'S' => 's',
        'T' => 't',
        'U' => 'u',
        'V' => 'v',
        'W' => 'w',
        'X' => 'x',
        'Y' => 'y',
        'Z' => 'z',
        _ => c,
    }
}

pub open spec fn lower_seq(s: Seq<char>) -> Seq<char> {
    s.map_values(|c: char| char_lower(c))
}

/// Turns a string slice into the vector of its characters.
pub(crate) fn str_to_chars(s: &str) -> (v: Vec<char>)
    ensures
        v@ == s@,
{
    let n = s.unicode_len();
    let mut v: Vec<char> = Vec::new();
    let mut i: usize = 0;
    while i < n
        invariant
            n == s@.len(),
            i <= n,
            v@ == s@.subrange(0, i as int),
        decreases n - i,
    {
        let c = s.get_char(i);
        v.push(c);
        i = i + 1;
        proof {
            assert(v@ =~= s@.subrange(0, i as int));
        }
    }
    proof {
        assert(v@ =~= s@);
    }
    v
}

/// Relies on `String::push`: appends one character at the end of the string.
#[verifier::external_body]
pub(crate) fn string_push(s: &mut String, c: char)
    ensures
        final(s)@ == old(s)@.push(c),
{
    s.push(c);
}

/// Builds a `String` holding exactly the given characters.
pub(crate) fn chars_to_string(v: &Vec<char>) -> (s: String)
    ensures
        s@ == v@,
{
    let mut s = String::new();
    let mut i: usize = 0;
    while i < v.len()
        invariant
            i <= v.len(),
            s@ == v@.subrange(0, i as int),
        decreases v.len() - i,
    {
        string_push(&mut s, v[i]);
        i = i + 1;
        proof {
            assert(s@ =~= v@.subrange(0, i as int));
        }
    }
    proof {
        assert(s@ =~= v@);
    }
    s
}


pub(crate) fn lower_chars(v: &Vec<char>) -> (r: Vec<char>)
    ensures
        r@ == lower_seq(v@),
{
    let mut r: Vec<char> = Vec::new();
    let mut i: usize = 0;
    while i < v.len()
        invariant
            i <= v.len(),
            r@ == lower_seq(v@).take(i as int),
        decreases v.len() - i,
    {
        r.push(char_to_lower(v[i]));
        i = i + 1;
        proof {
            assert(r@ =~= lower_seq(v@).take(i as int));
        }
    }
    proof {
        assert(r@ =~= lower_seq(v@));
    }
    r
}

pub(crate) fn chars_eq_str(v: &Vec<char>, p: &str) -> (r: bool)
    ensures
        r == (v@ == p@),
{
    let pn = p.unicode_len();
    if v.len() != pn {
        return false;
    }
    let r = chars_match_str_at(v, 0, p);
    proof {
        assert(v@.subrange(0, pn as int) =~= v@);
    }
    r
}


pub(crate) fn find_char(v: &Vec<char>, c: char, i: usize) -> (r: usize)
    requires
        i <= v.len(),
    ensures
        r == find_ch_from(v@, c, i as int),
        i <= r <= v.len(),
{
    let mut j: usize = i;
    loop
        invariant
            i <= j <= v.len(),
            find_ch_from(v@, c, i as int) == find_ch_from(v@, c, j as int),
        decreases v.len() - j,
    {
        if j >= v.len() {
            return j;
        }
        if v[j] == c {
            return j;
        }
        j = j + 1;
    }
}

/// Number of occurrences of `c` among the first `i` characters.
pub(crate) fn count_char_upto(v: &Vec<char>, c: char, i: usize) -> (r: usize)
    requires
        i <= v.len(),
    ensures
        r == count_ch(v@.take(i as int), c),
        r <= i,
{
    let mut cnt: usize = 0;
    let mut k: usize = 0;
    while k < i
        invariant
            k <= i <= v.len(),
            cnt == count_ch(v@.take(k as int), c),
            cnt <= k,
        decreases i - k,
    {
        let ghost pre = v@.take(k as int);
        if v[k] == c {
            cnt = cnt + 1;
        }
        k = k + 1;
        proof {
            assert(v@.take(k as int).drop_last() =~= pre);
            assert(v@.take(k as int).last() == v@[k as int - 1]);
        }
    }
    cnt
}


pub(crate) fn copy_range(v: &Vec<char>, a: usize, b: usize) -> (r: Vec<char>)
    requires
        a <= b <= v.len(),
    ensures
        r@ == v@.subrange(a as int, b as int),
{
    let mut r: Vec<char> = Vec::new();
    let mut i: usize = a;
    while i < b
        invariant
            a <= i <= b <= v.len(),
            r@ == v@.subrange(a as int, i as int),
        decreases b - i,
    {
        r.push(v[i]);
        i = i + 1;
        proof {
            assert(r@ =~= v@.subrange(a as int, i as int));
        }
    }
    proof {
        assert(r@ =~= v@.subrange(a as int, b as int));
    }
    r
}

/// First index at or after `i` whose character is not a word character.
pub open spec fn word_run_end(s: Seq<char>, i: int) -> int
    decreases s.len() - i,
{
    if i < 0 {
        word_run_end(s, 0)
    } else if i >= s.len() {
        s.len() as int
    } else if is_word_char(s[i]) {
        word_run_end(s, i + 1)
    } else {
        i
    }
}

pub proof fn lemma_word_run_end(s: Seq<char>, i: int)
    ensures
        word_run_end(s, i) <= s.len(),
        i <= word_run_end(s, i) || i < 0 || i > s.len(),
        0 <= word_run_end(s, i),
        word_run_end(s, i) < s.len() ==> !is_word_char(s[word_run_end(s, i)]),
        forall|j: int|
            i <= j < word_run_end(s, i) && 0 <= j ==> is_word_char(s[j]),
    decreases s.len() - i,
{
    if i < 0 {
        lemma_word_run_end(s, 0);
    } else if i >= s.len() {
    } else if is_word_char(s[i]) {
        lemma_word_run_end(s, i + 1);
    } else {
    }
}

pub(crate) fn word_run(v: &Vec<char>, i: usize) -> (r: usize)
    requires
        i <= v.len(),
    ensures
        r == word_run_end(v@, i as int),
        i <= r <= v.len(),
{
    let mut j: usize = i;
    loop
        invariant
            i <= j <= v.len(),
            word_run_end(v@, i as int) == word_run_end(v@, j as int),
        decreases v.len() - j,
    {
        if j >= v.len() {
            return j;
        }
        if !char_is_word(v[j]) {
            return j;
        }
        j = j + 1;
    }
}


pub(crate) fn str_eq(a: &str, b: &str) -> (r: bool)
    ensures
        r == (a@ == b@),
{
    let av = str_to_chars(a);
    chars_eq_str(&av, b)
}

pub(crate) fn append_chars(dst: &mut Vec<char>, src: &Vec<char>)
    ensures
        final(dst)@ == old(dst)@ + src@,
{
    let mut i: usize = 0;
    while i < src.len()
        invariant
            i <= src.len(),
            dst@ == old(dst)@ + src@.take(i as int),
        decreases src.len() - i,
    {
        dst.push(src[i]);
        i = i + 1;
        proof {
            assert(dst@ =~= old(dst)@ + src@.take(i as int));
        }
    }
    proof {
        assert(dst@ =~= old(dst)@ + src@);
    }
}


pub(crate) fn chars_eq(a: &Vec<char>, b: &Vec<char>) -> (r: bool)
    ensures
        r == (a@ == b@),
{
    if a.len() != b.len() {
        return false;
    }
    let mut i: usize = 0;
    while i < a.len()
        invariant
            a.len() == b.len(),
            i <= a.len(),
            forall|j: int| 0 <= j < i ==> a@[j] == b@[j],
        decreases a.len() - i,
    {
        if a[i] != b[i] {
            return false;
        }
        i = i + 1;
    }
    proof {
        assert(a@ =~= b@);
    }
    true
}

/// Strict lexicographic order on character sequences, by code point.
pub open spec fn lex_lt(a: Seq<char>, b: Seq<char>) -> bool
    decreases a.len(),
{
    if b.len() == 0 {
        false
    } else if a.len() == 0 {
        true
    } else if a[0] < b[0] {
        true
    } else if a[0] > b[0] {
        false
    } else {
        lex_lt(a.drop_first(), b.drop_first())
    }
}

/// Lexicographic order is trichotomous: two sequences are ordered one way,
/// the other way, or equal.
pub proof fn lemma_lex_trichotomy(a: Seq<char>, b: Seq<char>)
    ensures
        lex_lt(a, b) || lex_lt(b, a) || a == b,
    decreases a.len(),
{
    if b.len() == 0 {
        if a.len() == 0 {
            assert(a =~= b);
        }
    } else if a.len() == 0 {
    } else if a[0] < b[0] || a[0] > b[0] {
    } else {
        lemma_lex_trichotomy(a.drop_first(), b.drop_first());
        if !lex_lt(a, b) && !lex_lt(b, a) {
            assert(a.drop_first() == b.drop_first());
            assert(a[0] == b[0]);
            assert(a =~= b) by {
                assert(forall|k: int|
                    1 <= k < a.len() ==> a[k] == a.drop_first()[k - 1] && b[k]
                        == b.drop_first()[k - 1]);
            }
        }
    }
}

pub(crate) fn str_lex_lt(a: &str, b: &str) -> (r: bool)
    ensures
        r == lex_lt(a@, b@),
{
    let an = a.unicode_len();
    let bn = b.unicode_len();
    let mut i: usize = 0;
    proof {
        assert(a@.skip(0) =~= a@);
        assert(b@.skip(0) =~= b@);
    }
    loop
        invariant
            an == a@.len(),
            bn == b@.len(),
            i <= an,
            i <= bn,
            lex_lt(a@, b@) == lex_lt(a@.skip(i as int), b@.skip(i as int)),
        decreases an - i,
    {
        if i >= bn {
            return false;
        }
        if i >= an {
            return true;
        }
        let ca = a.get_char(i);
        let cb = b.get_char(i);
        if ca < cb {
            return true;
        }
        if ca > cb {
            return false;
        }
        proof {
            assert(a@.skip(i as int).drop_first() =~= a@.skip(i as int + 1));
            assert(b@.skip(i as int).drop_first() =~= b@.skip(i as int + 1));
        }
        i = i + 1;
    }
}

/// First index `j >= i` with `s[j] == c`, or `s.len()` if there is none.
pub open spec fn find_ch_from(s: Seq<char>, c: char, i: int) -> int
    decreases s.len() - i,
{
    if i < 0 {
        find_ch_from(s, c, 0)
    } else if i >= s.len() {
        s.len() as int
    } else if s[i] == c {
        i
    } else {
        find_ch_from(s, c, i + 1)
    }
}

pub proof fn lemma_find_ch_from(s: Seq<char>, c: char, i: int)
    ensures
        find_ch_from(s, c, i) <= s.len(),
        i <= find_ch_from(s, c, i) || i < 0 || i > s.len(),
        0 <= find_ch_from(s, c, i),
        find_ch_from(s, c, i) < s.len() ==> s[find_ch_from(s, c, i)] == c,
        forall|j: int|
            i <= j < find_ch_from(s, c, i) && 0 <= j ==> s[j] != c,
    decreases s.len() - i,
{
    if i < 0 {
        lemma_find_ch_from(s, c, 0);
    } else if i >= s.len() {
    } else if s[i] == c {
    } else {
        lemma_find_ch_from(s, c, i + 1);
    }
}

/// First index `j >= i` whose character is not whitespace, or `s.len()`.
pub open spec fn skip_ws_from(s: Seq<char>, i: int) -> int
    decreases s.len() - i,
{
    if i < 0 {
        skip_ws_from(s, 0)
    } else if i >= s.len() {
        s.len() as int
    } else if is_ws(s[i]) {
        skip_ws_from(s, i + 1)
    } else {
        i
    }
}

pub proof fn lemma_skip_ws_from(s: Seq<char>, i: int)
    ensures
        skip_ws_from(s, i) <= s.len(),
        i <= skip_ws_from(s, i) || i < 0 || i > s.len(),
        0 <= skip_ws_from(s, i),
        skip_ws_from(s, i) < s.len() ==> !is_ws(s[skip_ws_from(s, i)]),
        forall|j: int|
            i <= j < skip_ws_from(s, i) && 0 <= j ==> is_ws(s[j]),
    decreases s.len() - i,
{
    if i < 0 {
        lemma_skip_ws_from(s, 0);
    } else if i >= s.len() {
    } else if is_ws(s[i]) {
        lemma_skip_ws_from(s, i + 1);
    } else {
    }
}

pub(crate) fn skip_ws(v: &Vec<char>, i: usize) -> (r: usize)
    requires
        i <= v.len(),
    ensures
        r == skip_ws_from(v@, i as int),
        i <= r <= v.len(),
{
    let mut j: usize = i;
    loop
        invariant
            i <= j <= v.len(),
            skip_ws_from(v@, i as int) == skip_ws_from(v@, j as int),
        decreases v.len() - j,
    {
        if j >= v.len() {
            return j;
        }
        if !char_is_ws(v[j]) {
            return j;
        }
        j = j + 1;
    }
}

/// `p` occurs in `s` starting at index `i`.
pub open spec fn has_prefix_at(s: Seq<char>, i: int, p: Seq<char>) -> bool {
    0 <= i && i + p.len() <= s.len() && s.subrange(i, i + p.len() as int) == p
}

pub(crate) fn chars_match_str_at(v: &Vec<char>, i: usize, p: &str) -> (r: bool)
    ensures
        r == has_prefix_at(v@, i as int, p@),
{
    let pn = p.unicode_len();
    if i > v.len() || pn > v.len() - i {
        return false;
    }
    let mut k: usize = 0;
    while k < pn
        invariant
            pn == p@.len(),
            i + pn <= v.len(),
            k <= pn,
            v@.subrange(i as int, i as int + k as int) == p@.subrange(0, k as int),
        decreases pn - k,
    {
        if v[i + k] != p.get_char(k) {
            proof {
                assert(!has_prefix_at(v@, i as int, p@)) by {
                    if has_prefix_at(v@, i as int, p@) {
                        assert(v@.subrange(i as int, i + pn as int)[k as int] == p@[k as int]);
                    }
                }
            }
            return false;
        }
        proof {
            assert(v@.subrange(i as int, i as int + k as int + 1) =~= p@.subrange(
                0,
                k as int + 1,
            ));
        }
        k = k + 1;
    }
    proof {
        assert(v@.subrange(i as int, i as int + pn as int) =~= p@);
    }
    true
}

/// Whether `c` occurs in `s`.
pub open spec fn contains_ch(s: Seq<char>, c: char) -> bool {
    exists|i: int| 0 <= i < s.len() && s[i] == c
}

pub(crate) fn chars_contain(v: &Vec<char>, c: char) -> (r: bool)
    ensures
        r == contains_ch(v@, c),
{
    let mut i: usize = 0;
    while i < v.len()
        invariant
            i <= v.len(),
            forall|j: int| 0 <= j < i ==> v@[j] != c,
        decreases v.len() - i,
    {
        if v[i] == c {
            return true;
        }
        i = i + 1;
    }
    false
}

/// Number of occurrences of `c` in `s`.
pub open spec fn count_ch(s: Seq<char>, c: char) -> nat
    decreases s.len(),
{
    if s.len() == 0 {
        0
    } else {
        count_ch(s.drop_last(), c) + if s.last() == c {
            1nat
        } else {
            0nat
        }
    }
}

/// Two sequences in which `c` appears at exactly the same positions hold the
/// same number of occurrences of `c`.
pub proof fn lemma_count_ch_pointwise(a: Seq<char>, b: Seq<char>, c: char)
    requires
        a.len() == b.len(),
        forall|i: int| 0 <= i < a.len() ==> ((a[i] == c) <==> (b[i] == c)),
    ensures
        count_ch(a, c) == count_ch(b, c),
    decreases a.len(),
{
    if a.len() > 0 {
        lemma_count_ch_pointwise(a.drop_last(), b.drop_last(), c);
    }
}

/// First index `j >= i` that is not whitespace when scanning for a trim from
/// the left; end index after removing trailing whitespace is computed from
/// the right.
pub open spec fn trim_end_idx(s: Seq<char>, j: int) -> int
    decreases j,
{
    if j <= 0 {
        0
    } else if is_ws(s[j - 1]) {
        trim_end_idx(s, j - 1)
    } else {
        j
    }
}

pub proof fn lemma_trim_end_idx(s: Seq<char>, j: int)
    ensures
        0 <= trim_end_idx(s, j),
        trim_end_idx(s, j) <= j || j < 0,
        forall|k: int| trim_end_idx(s, j) <= k < j ==> is_ws(s[k]),
        trim_end_idx(s, j) > 0 ==> !is_ws(s[trim_end_idx(s, j) - 1]),
    decreases j,
{
    if j > 0 && is_ws(s[j - 1]) {
        lemma_trim_end_idx(s, j - 1);
    }
}

/// What `str::trim` keeps: the characters between the first and the last
/// non-whitespace character.
pub open spec fn spec_trim(s: Seq<char>) -> Seq<char> {
    let a = skip_ws_from(s, 0);
    let b = trim_end_idx(s, s.len() as int);
    if a >= b {
        Seq::empty()
    } else {
        s.subrange(a, b)
    }
}

pub(crate) fn trim_chars(v: &Vec<char>) -> (r: Vec<char>)
    ensures
        r@ == spec_trim(v@),
{
    proof {
        lemma_skip_ws_from(v@, 0);
        lemma_trim_end_idx(v@, v@.len() as int);
    }
    let a = skip_ws(v, 0);
    let mut b: usize = v.len();
    loop
        invariant
            0 <= b <= v.len(),
            trim_end_idx(v@, v@.len() as int) == trim_end_idx(v@, b as int),
        decreases b,
    {
        if b == 0 {
            break;
        }
        if !char_is_ws(v[b - 1]) {
            break;
        }
        b = b - 1;
    }
    let mut r: Vec<char> = Vec::new();
    if a >= b {
        proof {
            assert(r@ =~= spec_trim(v@));
        }
        return r;
    }
    let mut i: usize = a;
    while i < b
        invariant
            a <= i <= b <= v.len(),
            r@ == v@.subrange(a as int, i as int),
        decreases b - i,
    {
        r.push(v[i]);
        i = i + 1;
        proof {
            assert(r@ =~= v@.subrange(a as int, i as int));
        }
    }
    proof {
        assert(r@ =~= spec_trim(v@));
    }
    r
}

/// The pieces of `s` between occurrences of `c`, in order, as `str::split`
/// produces them: an empty input gives one empty piece.
pub open spec fn split_from(s: Seq<char>, c: char, i: int) -> Seq<Seq<char>>
    decreases s.len() - i,
    via split_from_decreases
{
    if i < 0 || i > s.len() {
        Seq::empty()
    } else {
        let j = find_ch_from(s, c, i);
        if j < s.len() {
            seq![s.subrange(i, j)] + split_from(s, c, j + 1)
        } else {
            seq![s.subrange(i, s.len() as int)]
        }
    }
}

#[via_fn]
proof fn split_from_decreases(s: Seq<char>, c: char, i: int) {
    lemma_find_ch_from(s, c, i);
}

pub open spec fn split_ch(s: Seq<char>, c: char) -> Seq<Seq<char>> {
    split_from(s, c, 0)
}

pub(crate) fn split_chars(v: &Vec<char>, c: char) -> (r: Vec<Vec<char>>)
    ensures
        r.deep_view() == split_ch(v@, c),
{
    let mut r: Vec<Vec<char>> = Vec::new();
    let mut i: usize = 0;
    loop
        invariant
            0 <= i <= v.len(),
            split_ch(v@, c) == r.deep_view() + split_from(v@, c, i as int),
        decreases v.len() - i,
    {
        proof {
            lemma_find_ch_from(v@, c, i as int);
        }
        let mut j: usize = i;
        while j < v.len() && v[j] != c
            invariant
                i <= j <= v.len(),
                find_ch_from(v@, c, i as int) == find_ch_from(v@, c, j as int),
            decreases v.len() - j,
        {
            j = j + 1;
        }
        let mut piece: Vec<char> = Vec::new();
        let mut k: usize = i;
        while k < j
            invariant
                i <= k <= j <= v.len(),
                piece@ == v@.subrange(i as int, k as int),
            decreases j - k,
        {
            piece.push(v[k]);
            k = k + 1;
            proof {
                assert(piece@ =~= v@.subrange(i as int, k as int));
            }
        }
        proof {
            assert(piece@ =~= v@.subrange(i as int, j as int));
            assert(find_ch_from(v@, c, i as int) == j as int);
        }
        let ghost r0 = r.deep_view();
        if j < v.len() {
            proof {
                assert(split_from(v@, c, i as int) == seq![v@.subrange(i as int, j as int)]
                    + split_from(v@, c, j as int + 1));
            }
            r.push(piece);
            proof {
                assert(r.deep_view() =~~= r0.push(piece@));
                assert(split_ch(v@, c) =~~= r.deep_view() + split_from(v@, c, j as int + 1));
            }
            i = j + 1;
        } else {
            proof {
                assert(split_from(v@, c, i as int) == seq![v@.subrange(i as int, v@.len() as int)]);
            }
            r.push(piece);
            proof {
                assert(r.deep_view() =~~= r0.push(piece@));
                assert(split_ch(v@, c) =~~= r.deep_view());
            }
            return r;
        }
    }
}

} // verus!
