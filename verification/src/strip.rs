//! Comment stripper: replaces line and block comments by spaces while
//! preserving string literals (plain and raw) and every newline, so that
//! line and column offsets of all remaining text are unchanged.

use vstd::prelude::*;
use crate::literal::{hash_run_len, lemma_hash_run_len};
use crate::text::{chars_to_string, count_ch, str_to_chars};

verus! {

/// Scanner state: ordinary code, a line comment, a block comment, a plain
/// string literal, or a raw string literal with its hash count.
pub enum StripState {
    Code,
    LineComment,
    BlockComment,
    PlainString,
    RawString(int),
}

/// The stripped text from index `i` onward, starting in state `m`.
/// Comment characters become spaces, newlines and string literals are kept.
pub open spec fn strip_from(s: Seq<char>, i: int, m: StripState) -> Seq<char>
    decreases s.len() - i,
    via strip_from_decreases
{
    if i < 0 || i >= s.len() {
        Seq::empty()
    } else {
        match m {
            StripState::Code => {
                if s[i] == '/' && i + 1 < s.len() && s[i + 1] == '/' {
                    seq![' ', ' '] + strip_from(s, i + 2, StripState::LineComment)
                } else if s[i] == '/' && i + 1 < s.len() && s[i + 1] == '*' {
                    seq![' ', ' '] + strip_from(s, i + 2, StripState::BlockComment)
                } else if s[i] == 'r' && {
                    let q = i + 1 + hash_run_len(s, i + 1);
                    q < s.len() && s[q] == '"'
                } {
                    let q = i + 1 + hash_run_len(s, i + 1);
                    s.subrange(i, q + 1) + strip_from(
                        s,
                        q + 1,
                        StripState::RawString(hash_run_len(s, i + 1)),
                    )
                } else if s[i] == '"' {
                    seq!['"'] + strip_from(s, i + 1, StripState::PlainString)
                } else {
                    seq![s[i]] + strip_from(s, i + 1, StripState::Code)
                }
            },
            StripState::LineComment => {
                if s[i] == '\n' {
                    seq!['\n'] + strip_from(s, i + 1, StripState::Code)
                } else {
                    seq![' '] + strip_from(s, i + 1, StripState::LineComment)
                }
            },
            StripState::BlockComment => {
                if s[i] == '*' && i + 1 < s.len() && s[i + 1] == '/' {
                    seq![' ', ' '] + strip_from(s, i + 2, StripState::Code)
                } else if s[i] == '\n' {
                    seq!['\n'] + strip_from(s, i + 1, StripState::BlockComment)
                } else {
                    seq![' '] + strip_from(s, i + 1, StripState::BlockComment)
                }
            },
            StripState::PlainString => {
                if s[i] == '\\' && i + 1 < s.len() {
                    s.subrange(i, i + 2) + strip_from(s, i + 2, StripState::PlainString)
                } else if s[i] == '"' {
                    seq!['"'] + strip_from(s, i + 1, StripState::Code)
                } else {
                    seq![s[i]] + strip_from(s, i + 1, StripState::PlainString)
                }
            },
            StripState::RawString(n) => {
                if s[i] == '"' && i + 1 + n <= s.len() && (forall|k: int|
                    0 <= k < n ==> #[trigger] s[i + 1 + k] == '#') {
                    seq!['"'] + strip_from(s, i + 1, StripState::Code)
                } else {
                    seq![s[i]] + strip_from(s, i + 1, StripState::RawString(n))
                }
            },
        }
    }
}

#[via_fn]
proof fn strip_from_decreases(s: Seq<char>, i: int, m: StripState) {
    lemma_hash_run_len(s, i + 1);
}

/// The whole stripped text.
pub open spec fn strip_spec(s: Seq<char>) -> Seq<char> {
    strip_from(s, 0, StripState::Code)
}

/// Stripping keeps the length and leaves a newline exactly where the input
/// has one.
pub proof fn lemma_strip_from_preserves(s: Seq<char>, i: int, m: StripState)
    requires
        0 <= i <= s.len(),
    ensures
        strip_from(s, i, m).len() == s.len() - i,
        forall|k: int|
            0 <= k < s.len() - i ==> ((#[trigger] strip_from(s, i, m)[k] == '\n') <==> (s[i + k]
                == '\n')),
    decreases s.len() - i,
{
    if i < s.len() {
        match m {
            StripState::Code => {
                if s[i] == '/' && i + 1 < s.len() && s[i + 1] == '/' {
                    lemma_strip_from_preserves(s, i + 2, StripState::LineComment);
                } else if s[i] == '/' && i + 1 < s.len() && s[i + 1] == '*' {
                    lemma_strip_from_preserves(s, i + 2, StripState::BlockComment);
                } else if s[i] == 'r' && {
                    let q = i + 1 + hash_run_len(s, i + 1);
                    q < s.len() && s[q] == '"'
                } {
                    let q = i + 1 + hash_run_len(s, i + 1);
                    lemma_hash_run_len(s, i + 1);
                    lemma_strip_from_preserves(
                        s,
                        q + 1,
                        StripState::RawString(hash_run_len(s, i + 1)),
                    );
                    assert(forall|k: int|
                        0 <= k < q + 1 - i ==> #[trigger] strip_from(s, i, m)[k] == s[i + k]);
                } else if s[i] == '"' {
                    lemma_strip_from_preserves(s, i + 1, StripState::PlainString);
                } else {
                    lemma_strip_from_preserves(s, i + 1, StripState::Code);
                }
            },
            StripState::LineComment => {
                lemma_strip_from_preserves(
                    s,
                    i + 1,
                    if s[i] == '\n' {
                        StripState::Code
                    } else {
                        StripState::LineComment
                    },
                );
            },
            StripState::BlockComment => {
                if s[i] == '*' && i + 1 < s.len() && s[i + 1] == '/' {
                    lemma_strip_from_preserves(s, i + 2, StripState::Code);
                } else {
                    lemma_strip_from_preserves(s, i + 1, StripState::BlockComment);
                }
            },
            StripState::PlainString => {
                if s[i] == '\\' && i + 1 < s.len() {
                    lemma_strip_from_preserves(s, i + 2, StripState::PlainString);
                    assert(strip_from(s, i, m)[0] == s[i]);
                    assert(strip_from(s, i, m)[1] == s[i + 1]);
                } else if s[i] == '"' {
                    lemma_strip_from_preserves(s, i + 1, StripState::Code);
                } else {
                    lemma_strip_from_preserves(s, i + 1, StripState::PlainString);
                }
            },
            StripState::RawString(n) => {
                if s[i] == '"' && i + 1 + n <= s.len() && (forall|k: int|
                    0 <= k < n ==> #[trigger] s[i + 1 + k] == '#') {
                    lemma_strip_from_preserves(s, i + 1, StripState::Code);
                } else {
                    lemma_strip_from_preserves(s, i + 1, StripState::RawString(n));
                }
            },
        }
    }
}

/// Comment stripping preserves the newline count.
pub proof fn lemma_strip_preserves_newline_count(s: Seq<char>)
    ensures
        strip_spec(s).len() == s.len(),
        count_ch(strip_spec(s), '\n') == count_ch(s, '\n'),
{
    lemma_strip_from_preserves(s, 0, StripState::Code);
    crate::text::lemma_count_ch_pointwise(strip_spec(s), s, '\n');
}

/// Core stripper over characters; the string wrapper converts at the edges.
#[verifier::rlimit(100)]
pub(crate) fn strip_chars(v: &Vec<char>) -> (out: Vec<char>)
    ensures
        out@ == strip_spec(v@),
{
    let n = v.len();
    let mut out: Vec<char> = Vec::new();
    let mut i: usize = 0;
    let mut in_block = false;
    let mut in_normal = false;
    let mut in_raw = false;
    let mut raw_hashes: usize = 0;
    loop
        invariant
            i <= n,
            n == v.len(),
            !(in_block && in_normal) && !(in_block && in_raw) && !(in_normal && in_raw),
            strip_spec(v@) == out@ + strip_from(
                v@,
                i as int,
                if in_block {
                    StripState::BlockComment
                } else if in_normal {
                    StripState::PlainString
                } else if in_raw {
                    StripState::RawString(raw_hashes as int)
                } else {
                    StripState::Code
                },
            ),
        decreases n - i,
    {
        if i >= n {
            proof {
                assert(out@ =~= strip_spec(v@));
            }
            return out;
        }
        let ghost out0 = out@;
        let b = v[i];
        if in_block {
            if b == '*' && i + 1 < n && v[i + 1] == '/' {
                in_block = false;
                out.push(' ');
                out.push(' ');
                i = i + 2;
            } else {
                if b == '\n' {
                    out.push('\n');
                } else {
                    out.push(' ');
                }
                i = i + 1;
            }
            proof {
                assert(strip_spec(v@) =~= out@ + strip_from(
                    v@,
                    i as int,
                    if in_block {
                        StripState::BlockComment
                    } else {
                        StripState::Code
                    },
                ));
            }
        } else if in_normal {
            if b == '\\' && i + 1 < n {
                out.push(b);
                out.push(v[i + 1]);
                i = i + 2;
                proof {
                    assert(out0 + v@.subrange(i as int - 2, i as int) =~= out@);
                }
            } else {
                out.push(b);
                if b == '"' {
                    in_normal = false;
                }
                i = i + 1;
            }
            proof {
                assert(strip_spec(v@) =~= out@ + strip_from(
                    v@,
                    i as int,
                    if in_normal {
                        StripState::PlainString
                    } else {
                        StripState::Code
                    },
                ));
            }
        } else if in_raw {
            out.push(b);
            if b == '"' {
                let mut ok = true;
                let mut h: usize = 0;
                while h < raw_hashes
                    invariant
                        h <= raw_hashes,
                        ok == (i + 1 + h <= n && (forall|m: int|
                            0 <= m < h ==> #[trigger] v@[i as int + 1 + m] == '#')),
                    decreases raw_hashes - h,
                {
                    if ok && (i + 1 + h >= n || v[i + 1 + h] != '#') {
                        ok = false;
                    }
                    h = h + 1;
                }
                if ok {
                    in_raw = false;
                }
            }
            i = i + 1;
            proof {
                assert(strip_spec(v@) =~= out@ + strip_from(
                    v@,
                    i as int,
                    if in_raw {
                        StripState::RawString(raw_hashes as int)
                    } else {
                        StripState::Code
                    },
                ));
            }
        } else {
            // code state
            if b == '/' && i + 1 < n && v[i + 1] == '/' {
                // line comment: spaces up to the end of the line
                out.push(' ');
                out.push(' ');
                i = i + 2;
                proof {
                    assert(strip_spec(v@) =~= out@ + strip_from(
                        v@,
                        i as int,
                        StripState::LineComment,
                    ));
                }
                let ghost i0 = i;
                loop
                    invariant
                        i0 <= i <= n,
                        strip_spec(v@) == out@ + strip_from(v@, i as int, StripState::LineComment),
                    decreases n - i,
                {
                    if i >= n {
                        proof {
                            assert(out@ =~= strip_spec(v@));
                        }
                        return out;
                    }
                    if v[i] == '\n' {
                        break;
                    }
                    out.push(' ');
                    i = i + 1;
                    proof {
                        assert(strip_spec(v@) =~= out@ + strip_from(
                            v@,
                            i as int,
                            StripState::LineComment,
                        ));
                    }
                }
                // the newline itself returns the scanner to code state
                out.push('\n');
                i = i + 1;
                proof {
                    assert(strip_spec(v@) =~= out@ + strip_from(v@, i as int, StripState::Code));
                }
            } else if b == '/' && i + 1 < n && v[i + 1] == '*' {
                in_block = true;
                out.push(' ');
                out.push(' ');
                i = i + 2;
                proof {
                    assert(strip_spec(v@) =~= out@ + strip_from(
                        v@,
                        i as int,
                        StripState::BlockComment,
                    ));
                }
            } else {
                let mut raw_start = false;
                if b == 'r' {
                    let mut h: usize = 0;
                    while i + 1 + h < n && v[i + 1 + h] == '#'
                        invariant
                            i + 1 + h <= n,
                            hash_run_len(v@, i as int + 1) == h + hash_run_len(
                                v@,
                                i as int + 1 + h as int,
                            ),
                        decreases n - h,
                    {
                        h = h + 1;
                    }
                    proof {
                        lemma_hash_run_len(v@, i as int + 1);
                        assert(hash_run_len(v@, i as int + 1) == h as int);
                    }
                    let q = i + 1 + h;
                    if q < n && v[q] == '"' {
                        raw_start = true;
                        in_raw = true;
                        raw_hashes = h;
                        let mut m = i;
                        while m < q + 1
                            invariant
                                i <= m <= q + 1 <= n,
                                out@ == out0 + v@.subrange(i as int, m as int),
                            decreases q + 1 - m,
                        {
                            out.push(v[m]);
                            m = m + 1;
                            proof {
                                assert(out@ =~= out0 + v@.subrange(i as int, m as int));
                            }
                        }
                        i = q + 1;
                        proof {
                            assert(strip_spec(v@) =~= out@ + strip_from(
                                v@,
                                i as int,
                                StripState::RawString(raw_hashes as int),
                            ));
                        }
                    }
                }
                if !raw_start {
                    if b == '"' {
                        in_normal = true;
                        out.push('"');
                        i = i + 1;
                        proof {
                            assert(strip_spec(v@) =~= out@ + strip_from(
                                v@,
                                i as int,
                                StripState::PlainString,
                            ));
                        }
                    } else {
                        out.push(b);
                        i = i + 1;
                        proof {
                            assert(strip_spec(v@) =~= out@ + strip_from(
                                v@,
                                i as int,
                                StripState::Code,
                            ));
                        }
                    }
                }
            }
        }
    }
}

/// Removes line (`// …`) and block (`/* … */`) comments while preserving
/// string literals and newlines; the result has the same length and the
/// same newline positions as the input.
pub fn strip_comments_preserving_strings(s: &str) -> (r: String)
    ensures
        r@ == strip_spec(s@),
        r@.len() == s@.len(),
        count_ch(r@, '\n') == count_ch(s@, '\n'),
{
    proof {
        lemma_strip_preserves_newline_count(s@);
    }
    let v = str_to_chars(s);
    let out = strip_chars(&v);
    chars_to_string(&out)
}

} // verus!
