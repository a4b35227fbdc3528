//! Literal reader: extracts the first Rust string literal (plain or raw with
//! any number of `#` delimiters) from text and decodes its escape sequences.

use vstd::prelude::*;
use crate::text::{chars_to_string, str_to_chars};

verus! {

/// What one escaped character `\c` decodes to: the five recognized escapes
/// become their character; any other escape is kept as the two characters.
pub open spec fn esc_char(c: char) -> Seq<char> {
    if c == '"' {
        seq!['"']
    } else if c == '\\' {
        seq!['\\']
    } else if c == 'n' {
        seq!['\n']
    } else if c == 'r' {
        seq!['\r']
    } else if c == 't' {
        seq!['\t']
    } else {
        seq!['\\', c]
    }
}

/// Decoded content of a plain literal whose opening `"` stands just before
/// index `i`: characters up to the first unescaped `"`, or nothing when the
/// literal never closes.
pub open spec fn decode_plain_from(s: Seq<char>, i: int) -> Option<Seq<char>>
    decreases s.len() - i,
{
    if i < 0 || i >= s.len() {
        None
    } else if s[i] == '\\' {
        if i + 1 >= s.len() {
            None
        } else {
            match decode_plain_from(s, i + 2) {
                Some(rest) => Some(esc_char(s[i + 1]) + rest),
                None => None,
            }
        }
    } else if s[i] == '"' {
        Some(Seq::empty())
    } else {
        match decode_plain_from(s, i + 1) {
            Some(rest) => Some(seq![s[i]] + rest),
            None => None,
        }
    }
}

/// Number of consecutive `#` characters starting at index `i`.
pub open spec fn hash_run_len(s: Seq<char>, i: int) -> int
    decreases s.len() - i,
{
    if i < 0 || i >= s.len() {
        0
    } else if s[i] == '#' {
        1 + hash_run_len(s, i + 1)
    } else {
        0
    }
}

pub proof fn lemma_hash_run_len(s: Seq<char>, i: int)
    ensures
        0 <= hash_run_len(s, i),
        0 <= i <= s.len() ==> i + hash_run_len(s, i) <= s.len(),
        forall|k: int| i <= k < i + hash_run_len(s, i) ==> s[k] == '#',
        0 <= i && i + hash_run_len(s, i) < s.len() ==> s[i + hash_run_len(s, i)] != '#',
    decreases s.len() - i,
{
    if 0 <= i && i < s.len() && s[i] == '#' {
        lemma_hash_run_len(s, i + 1);
    }
}

/// Index of the first `"` at or after `i` that is followed by `n` `#`
/// characters, all within bounds; nothing when the raw literal never closes.
pub open spec fn raw_close_from(s: Seq<char>, i: int, n: int) -> Option<int>
    decreases s.len() - i,
{
    if i < 0 || i >= s.len() {
        None
    } else if s[i] == '"' && i + 1 + n <= s.len() && (forall|k: int|
        0 <= k < n ==> #[trigger] s[i + 1 + k] == '#') {
        Some(i)
    } else {
        raw_close_from(s, i + 1, n)
    }
}

/// Content of the first string literal found at or after index `i`:
/// a raw literal `r#*"…"#*` is returned verbatim, a plain literal `"…"` is
/// returned with its escapes decoded; nothing when no literal opens, or the
/// first one that opens never closes.
pub open spec fn literal_from(s: Seq<char>, i: int) -> Option<Seq<char>>
    decreases s.len() - i,
    via literal_from_decreases
{
    if i < 0 || i >= s.len() {
        None
    } else if s[i] == 'r' {
        let h = hash_run_len(s, i + 1);
        let q = i + 1 + h;
        if q < s.len() && s[q] == '"' {
            match raw_close_from(s, q + 1, h) {
                Some(e) => Some(s.subrange(q + 1, e)),
                None => None,
            }
        } else {
            literal_from(s, i + 1)
        }
    } else if s[i] == '"' {
        decode_plain_from(s, i + 1)
    } else {
        literal_from(s, i + 1)
    }
}

#[via_fn]
proof fn literal_from_decreases(s: Seq<char>, i: int) {
    lemma_hash_run_len(s, i + 1);
}

/// Core scanner over characters; `extract_first_string_literal` wraps it.
pub(crate) fn literal_in(v: &Vec<char>, start: usize) -> (r: Option<Vec<char>>)
    requires
        start <= v.len(),
    ensures
        (r is Some) == (literal_from(v@, start as int) is Some),
        r is Some ==> r->0@ == literal_from(v@, start as int)->0,
{
    let mut i: usize = start;
    loop
        invariant
            start <= i <= v.len(),
            literal_from(v@, start as int) == literal_from(v@, i as int),
        decreases v.len() - i,
    {
        if i >= v.len() {
            return None;
        }
        let c = v[i];
        if c == 'r' {
            // raw literal candidate: count the hash run after `r`
            let mut h: usize = 0;
            while i + 1 + h < v.len() && v[i + 1 + h] == '#'
                invariant
                    i + 1 + h <= v.len(),
                    hash_run_len(v@, i as int + 1) == h + hash_run_len(v@, i as int + 1 + h as int),
                decreases v.len() - h,
            {
                h = h + 1;
            }
            proof {
                lemma_hash_run_len(v@, i as int + 1);
                assert(hash_run_len(v@, i as int + 1) == h as int);
            }
            let q = i + 1 + h;
            if q < v.len() && v[q] == '"' {
                // scan for the closing `"` followed by exactly `h` hashes
                let mut j: usize = q + 1;
                loop
                    invariant
                        q + 1 <= j <= v.len(),
                        raw_close_from(v@, q as int + 1, h as int) == raw_close_from(
                            v@,
                            j as int,
                            h as int,
                        ),
                    decreases v.len() - j,
                {
                    if j >= v.len() {
                        return None;
                    }
                    if v[j] == '"' {
                        let mut ok = true;
                        let mut k: usize = 0;
                        while k < h
                            invariant
                                k <= h,
                                ok == (j + 1 + k <= v.len() && (forall|m: int|
                                    0 <= m < k ==> #[trigger] v@[j as int + 1 + m] == '#')),
                            decreases h - k,
                        {
                            if ok && (j + 1 + k >= v.len() || v[j + 1 + k] != '#') {
                                ok = false;
                            }
                            k = k + 1;
                        }
                        if ok {
                            let mut out: Vec<char> = Vec::new();
                            let mut m: usize = q + 1;
                            while m < j
                                invariant
                                    q + 1 <= m <= j <= v.len(),
                                    out@ == v@.subrange(q as int + 1, m as int),
                                decreases j - m,
                            {
                                out.push(v[m]);
                                m = m + 1;
                                proof {
                                    assert(out@ =~= v@.subrange(q as int + 1, m as int));
                                }
                            }
                            proof {
                                assert(raw_close_from(v@, q as int + 1, h as int) == Some(
                                    j as int,
                                ));
                                assert(out@ =~= v@.subrange(q as int + 1, j as int));
                            }
                            return Some(out);
                        }
                    }
                    j = j + 1;
                }
            } else {
                i = i + 1;
            }
        } else if c == '"' {
            // plain literal: decode escapes until the closing quote
            let mut out: Vec<char> = Vec::new();
            let mut j: usize = i + 1;
            loop
                invariant
                    i + 1 <= j <= v.len(),
                    (decode_plain_from(v@, i as int + 1) is Some) == (decode_plain_from(
                        v@,
                        j as int,
                    ) is Some),
                    decode_plain_from(v@, j as int) is Some ==> decode_plain_from(
                        v@,
                        i as int + 1,
                    )->0 == out@ + decode_plain_from(v@, j as int)->0,
                decreases v.len() - j,
            {
                if j >= v.len() {
                    return None;
                }
                let c2 = v[j];
                if c2 == '\\' {
                    if j + 1 >= v.len() {
                        return None;
                    }
                    let e = v[j + 1];
                    let ghost out0 = out@;
                    if e == '"' {
                        out.push('"');
                    } else if e == '\\' {
                        out.push('\\');
                    } else if e == 'n' {
                        out.push('\n');
                    } else if e == 'r' {
                        out.push('\r');
                    } else if e == 't' {
                        out.push('\t');
                    } else {
                        out.push('\\');
                        out.push(e);
                    }
                    proof {
                        assert(out@ =~= out0 + esc_char(v@[j as int + 1]));
                        if decode_plain_from(v@, j as int + 2) is Some {
                            let rest = decode_plain_from(v@, j as int + 2)->0;
                            assert((out0 + esc_char(v@[j as int + 1])) + rest =~= out0 + (esc_char(
                                v@[j as int + 1],
                            ) + rest));
                        }
                    }
                    j = j + 2;
                } else if c2 == '"' {
                    proof {
                        assert(decode_plain_from(v@, j as int) == Some(Seq::<char>::empty()));
                        assert(out@ + Seq::<char>::empty() =~= out@);
                    }
                    return Some(out);
                } else {
                    let ghost out0 = out@;
                    out.push(c2);
                    proof {
                        assert(out@ =~= out0 + seq![v@[j as int]]);
                        if decode_plain_from(v@, j as int + 1) is Some {
                            let rest = decode_plain_from(v@, j as int + 1)->0;
                            assert((out0 + seq![v@[j as int]]) + rest =~= out0 + (seq![v@[j as int]]
                                + rest));
                        }
                    }
                    j = j + 1;
                }
            }
        } else {
            i = i + 1;
        }
    }
}

/// Extracts the first Rust string literal (plain or raw) from `s` and
/// returns its inner content without delimiters.
pub fn extract_first_string_literal(s: &str) -> (r: Option<String>)
    ensures
        (r is Some) == (literal_from(s@, 0) is Some),
        r is Some ==> r->0@ == literal_from(s@, 0)->0,
{
    let v = str_to_chars(s);
    match literal_in(&v, 0) {
        Some(out) => Some(chars_to_string(&out)),
        None => None,
    }
}

/// Escaped form of one character as it would be written inside a plain
/// string literal.
pub open spec fn enc_char(c: char) -> Seq<char> {
    if c == '"' {
        seq!['\\', '"']
    } else if c == '\\' {
        seq!['\\', '\\']
    } else if c == '\n' {
        seq!['\\', 'n']
    } else if c == '\r' {
        seq!['\\', 'r']
    } else if c == '\t' {
        seq!['\\', 't']
    } else {
        seq![c]
    }
}

/// Escaped form of a whole string as the content of a plain literal.
pub open spec fn encode_plain(s: Seq<char>) -> Seq<char>
    decreases s.len(),
{
    if s.len() == 0 {
        Seq::empty()
    } else {
        enc_char(s[0]) + encode_plain(s.drop_first())
    }
}

/// Sequence form of plain-literal decoding, starting right after the
/// opening quote.
pub open spec fn decode_plain(u: Seq<char>) -> Option<Seq<char>>
    decreases u.len(),
{
    if u.len() == 0 {
        None
    } else if u[0] == '\\' {
        if u.len() == 1 {
            None
        } else {
            match decode_plain(u.skip(2)) {
                Some(rest) => Some(esc_char(u[1]) + rest),
                None => None,
            }
        }
    } else if u[0] == '"' {
        Some(Seq::empty())
    } else {
        match decode_plain(u.skip(1)) {
            Some(rest) => Some(seq![u[0]] + rest),
            None => None,
        }
    }
}

proof fn lemma_decode_from_skip(t: Seq<char>, i: int)
    requires
        0 <= i <= t.len(),
    ensures
        decode_plain_from(t, i) == decode_plain(t.skip(i)),
    decreases t.len() - i,
{
    let u = t.skip(i);
    if i >= t.len() {
        assert(u.len() == 0);
    } else {
        assert(u[0] == t[i]);
        if t[i] == '\\' {
            if i + 1 < t.len() {
                lemma_decode_from_skip(t, i + 2);
                assert(u.skip(2) =~= t.skip(i + 2));
                assert(u[1] == t[i + 1]);
            }
        } else if t[i] == '"' {
        } else {
            lemma_decode_from_skip(t, i + 1);
            assert(u.skip(1) =~= t.skip(i + 1));
        }
    }
}

proof fn lemma_decode_encode(s: Seq<char>)
    ensures
        decode_plain(encode_plain(s) + seq!['"']) == Some(s),
    decreases s.len(),
{
    let u = encode_plain(s) + seq!['"'];
    if s.len() == 0 {
        assert(u =~= seq!['"']);
        assert(decode_plain(u) == Some(Seq::<char>::empty()));
        assert(s =~= Seq::<char>::empty());
    } else {
        let c = s[0];
        let e = enc_char(c);
        lemma_decode_encode(s.drop_first());
        let x = encode_plain(s.drop_first()) + seq!['"'];
        assert(u =~= e + x);
        if c == '"' || c == '\\' || c == '\n' || c == '\r' || c == '\t' {
            assert(e.len() == 2 && e[0] == '\\');
            assert(u[0] == '\\' && u[1] == e[1]);
            assert(u.skip(2) =~= x);
            assert(decode_plain(u) == Some(esc_char(u[1]) + s.drop_first()));
            assert(esc_char(u[1]) =~= seq![c]);
            assert(esc_char(u[1]) + s.drop_first() =~= s);
        } else {
            assert(e.len() == 1 && e[0] == c);
            assert(u[0] == c && c != '\\' && c != '"');
            assert(u.skip(1) =~= x);
            assert(decode_plain(u) == Some(seq![u[0]] + s.drop_first()));
            assert(seq![u[0]] + s.drop_first() =~= s);
        }
    }
}

/// Literal extraction round-trips: writing any string as a plain literal
/// (escaping it first) and reading it back yields the original string.
pub proof fn lemma_literal_round_trip(s: Seq<char>)
    ensures
        literal_from(seq!['"'] + encode_plain(s) + seq!['"'], 0) == Some(s),
{
    let t = seq!['"'] + encode_plain(s) + seq!['"'];
    assert(t[0] == '"');
    assert(t.skip(1) =~= encode_plain(s) + seq!['"']);
    lemma_decode_from_skip(t, 1);
    lemma_decode_encode(s);
    assert(literal_from(t, 0) == decode_plain_from(t, 1));
}

} // verus!
