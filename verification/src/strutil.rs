//! Character-level string utilities shared by the parsers: conversion
//! between `&str` and character vectors, whitespace tokenization, line
//! splitting, substring search, and decimal / hexadecimal numerals.

use vstd::prelude::*;

verus! {

/// The whitespace characters recognised by the tokenizers (the ASCII set).
pub open spec fn is_space(c: char) -> bool {
    c == ' ' || c == '\t' || c == '\n' || c == '\r' || c == '\u{000B}' || c == '\u{000C}'
}

/// Executable test matching `is_space`.
pub fn is_space_char(c: char) -> (r: bool)
    ensures
        r == is_space(c),
{
    c == ' ' || c == '\t' || c == '\n' || c == '\r' || c == '\u{000B}' || c == '\u{000C}'
}

/// The characters of `s`, in order.
pub fn chars_of(s: &str) -> (r: Vec<char>)
    ensures
        r@ == s@,
{
    let n = s.unicode_len();
    let mut r: Vec<char> = Vec::new();
    let mut i: usize = 0;
    while i < n
        invariant
            n == s@.len(),
            i <= n,
            r@ == s@.subrange(0, i as int),
        decreases n - i,
    {
        r.push(s.get_char(i));
        i = i + 1;
        assert(r@ =~= s@.subrange(0, i as int));
    }
    assert(r@ =~= s@);
    r
}

/// Relies on String::push: appends the given character to the end of the
/// string.
#[verifier::external_body]
fn push_char(s: &mut String, c: char)
    ensures
        final(s)@ == old(s)@.push(c),
{
    s.push(c)
}

/// A `String` holding exactly the characters of `cs`.
pub fn string_of(cs: &[char]) -> (r: String)
    ensures
        r@ == cs@,
{
    let mut r = String::new();
    let mut i: usize = 0;
    while i < cs.len()
        invariant
            i <= cs@.len(),
            r@ == cs@.subrange(0, i as int),
        decreases cs@.len() - i,
    {
        push_char(&mut r, cs[i]);
        i = i + 1;
        assert(r@ =~= cs@.subrange(0, i as int));
    }
    assert(r@ =~= cs@);
    r
}

/// Character-wise equality of two string slices.
pub fn str_eq(a: &str, b: &str) -> (r: bool)
    ensures
        r == (a@ == b@),
{
    let na = a.unicode_len();
    let nb = b.unicode_len();
    if na != nb {
        assert(a@ != b@);
        return false;
    }
    let mut i: usize = 0;
    while i < na
        invariant
            na == a@.len(),
            na == b@.len(),
            i <= na,
            forall|j: int| 0 <= j < i ==> a@[j] == b@[j],
        decreases na - i,
    {
        if a.get_char(i) != b.get_char(i) {
            assert(a@ != b@);
            return false;
        }
        i = i + 1;
    }
    assert(a@ =~= b@);
    true
}

/// A fresh vector holding `cs[a..b]`.
pub fn subrange_vec(cs: &[char], a: usize, b: usize) -> (r: Vec<char>)
    requires
        a <= b <= cs@.len(),
    ensures
        r@ == cs@.subrange(a as int, b as int),
{
    let mut r: Vec<char> = Vec::new();
    let mut i: usize = a;
    while i < b
        invariant
            a <= i <= b <= cs@.len(),
            r@ == cs@.subrange(a as int, i as int),
        decreases b - i,
    {
        r.push(cs[i]);
        i = i + 1;
        assert(r@ =~= cs@.subrange(a as int, i as int));
    }
    r
}

/// Character-wise equality of a character slice and a string slice.
pub fn chars_eq_str(cs: &[char], b: &str) -> (r: bool)
    ensures
        r == (cs@ == b@),
{
    let nb = b.unicode_len();
    if cs.len() != nb {
        assert(cs@ != b@);
        return false;
    }
    let mut i: usize = 0;
    while i < nb
        invariant
            nb == b@.len(),
            nb == cs@.len(),
            i <= nb,
            forall|j: int| 0 <= j < i ==> cs@[j] == b@[j],
        decreases nb - i,
    {
        if cs[i] != b.get_char(i) {
            assert(cs@ != b@);
            return false;
        }
        i = i + 1;
    }
    assert(cs@ =~= b@);
    true
}

// ───────────────────────── searching ─────────────────────────

/// The first index `>= i` at which character `c` occurs in `s`.
pub open spec fn find_from_spec(s: Seq<char>, c: char, i: int) -> Option<int>
    decreases s.len() - i,
{
    if i < 0 || i >= s.len() {
        None
    } else if s[i] == c {
        Some(i)
    } else {
        find_from_spec(s, c, i + 1)
    }
}

/// The last index at which character `c` occurs in `s`.
pub open spec fn rfind_spec(s: Seq<char>, c: char) -> Option<int>
    decreases s.len(),
{
    if s.len() == 0 {
        None
    } else if s.last() == c {
        Some(s.len() - 1)
    } else {
        rfind_spec(s.drop_last(), c)
    }
}

/// The first index `>= i` at which `pat` occurs in `s`.
pub open spec fn find_sub_spec(s: Seq<char>, pat: Seq<char>, i: int) -> Option<int>
    decreases s.len() - i + 1,
{
    if i < 0 || i + pat.len() > s.len() {
        None
    } else if s.subrange(i, i + pat.len()) == pat {
        Some(i)
    } else {
        find_sub_spec(s, pat, i + 1)
    }
}

/// First occurrence of `c` in `cs` at or after `from`.
pub fn find_char_from(cs: &[char], c: char, from: usize) -> (r: Option<usize>)
    ensures
        match r {
            Some(i) => from <= i && i < cs@.len() && find_from_spec(cs@, c, from as int) == Some(
                i as int,
            ),
            None => find_from_spec(cs@, c, from as int) is None,
        },
{
    let n = cs.len();
    if from >= n {
        return None;
    }
    let mut i: usize = from;
    while i < n
        invariant
            from <= i <= n,
            n == cs@.len(),
            find_from_spec(cs@, c, from as int) == find_from_spec(cs@, c, i as int),
        decreases n - i,
    {
        if cs[i] == c {
            return Some(i);
        }
        i = i + 1;
    }
    None
}

/// Last occurrence of `c` in `cs`.
pub fn rfind_char(cs: &[char], c: char) -> (r: Option<usize>)
    ensures
        match r {
            Some(i) => i < cs@.len() && rfind_spec(cs@, c) == Some(i as int),
            None => rfind_spec(cs@, c) is None,
        },
{
    let n = cs.len();
    let mut i: usize = n;
    proof {
        assert(cs@.take(n as int) =~= cs@);
    }
    while i > 0
        invariant
            i <= n,
            n == cs@.len(),
            rfind_spec(cs@, c) == rfind_spec(cs@.take(i as int), c),
        decreases i,
    {
        proof {
            assert(cs@.take(i as int).drop_last() =~= cs@.take(i as int - 1));
            assert(cs@.take(i as int).last() == cs@[i as int - 1]);
        }
        if cs[i - 1] == c {
            proof {
                assert(cs@.take(n as int) =~= cs@);
            }
            return Some(i - 1);
        }
        i = i - 1;
    }
    proof {
        assert(cs@.take(0) =~= Seq::<char>::empty());
    }
    None
}

/// First occurrence of the pattern `pat` in `cs` at or after `from`.
pub fn find_sub_from(cs: &[char], pat: &str, from: usize) -> (r: Option<usize>)
    ensures
        match r {
            Some(i) => from <= i && i + pat@.len() <= cs@.len() && find_sub_spec(
                cs@,
                pat@,
                from as int,
            ) == Some(i as int),
            None => find_sub_spec(cs@, pat@, from as int) is None,
        },
{
    let n = cs.len();
    let m = pat.unicode_len();
    if from > n || m > n - from {
        return None;
    }
    if m == 0 {
        proof {
            assert(cs@.subrange(from as int, from as int) =~= pat@);
        }
        return Some(from);
    }
    let mut i: usize = from;
    while i <= n - m
        invariant
            from <= i,
            1 <= m <= n,
            i + m <= n + 1,
            n == cs@.len(),
            m == pat@.len(),
            find_sub_spec(cs@, pat@, from as int) == find_sub_spec(cs@, pat@, i as int),
        decreases n - i,
    {
        let mut k: usize = 0;
        let mut eq: bool = true;
        proof {
            assert(cs@.subrange(i as int, i as int) =~= pat@.subrange(0, 0));
        }
        while k < m
            invariant
                k <= m,
                i + m <= n,
                n == cs@.len(),
                m == pat@.len(),
                eq == (cs@.subrange(i as int, i as int + k as int) == pat@.subrange(0, k as int)),
            decreases m - k,
        {
            let ghost pre_s = cs@.subrange(i as int, i as int + k as int);
            let ghost pre_p = pat@.subrange(0, k as int);
            let cm = cs[i + k] == pat.get_char(k);
            proof {
                let post_s = cs@.subrange(i as int, i as int + k as int + 1);
                let post_p = pat@.subrange(0, k as int + 1);
                assert(post_s.drop_last() =~= pre_s);
                assert(post_p.drop_last() =~= pre_p);
                assert(post_s.last() == cs@[i as int + k as int]);
                assert(post_p.last() == pat@[k as int]);
                if eq && cm {
                    assert(post_s =~= pre_s.push(cs@[i as int + k as int]));
                    assert(post_p =~= pre_p.push(pat@[k as int]));
                    assert(post_s == post_p);
                } else {
                    assert(post_s != post_p);
                }
            }
            eq = eq && cm;
            k = k + 1;
        }
        proof {
            assert(pat@.subrange(0, m as int) =~= pat@);
        }
        if eq {
            return Some(i);
        }
        i = i + 1;
    }
    None
}

// ───────────────────────── trimming ─────────────────────────

/// `s` with leading whitespace removed.
pub open spec fn trim_start_spec(s: Seq<char>) -> Seq<char>
    decreases s.len(),
{
    if s.len() > 0 && is_space(s[0]) {
        trim_start_spec(s.drop_first())
    } else {
        s
    }
}

/// `s` with trailing whitespace removed.
pub open spec fn trim_end_spec(s: Seq<char>) -> Seq<char>
    decreases s.len(),
{
    if s.len() > 0 && is_space(s.last()) {
        trim_end_spec(s.drop_last())
    } else {
        s
    }
}

/// `s` with leading and trailing whitespace removed.
pub open spec fn trim_spec(s: Seq<char>) -> Seq<char> {
    trim_end_spec(trim_start_spec(s))
}

/// A fresh vector holding `cs` without leading or trailing whitespace.
pub fn trim_chars(cs: &[char]) -> (r: Vec<char>)
    ensures
        r@ == trim_spec(cs@),
{
    let n = cs.len();
    let mut a: usize = 0;
    proof {
        assert(cs@.skip(0) =~= cs@);
    }
    while a < n && is_space_char(cs[a])
        invariant
            a <= n,
            n == cs@.len(),
            trim_start_spec(cs@) == trim_start_spec(cs@.skip(a as int)),
        decreases n - a,
    {
        proof {
            assert(cs@.skip(a as int).drop_first() =~= cs@.skip(a as int + 1));
        }
        a = a + 1;
    }
    proof {
        assert(trim_start_spec(cs@) == cs@.skip(a as int)) by {
            if a < n {
                assert(!is_space(cs@.skip(a as int)[0]));
            } else {
                assert(cs@.skip(a as int).len() == 0);
            }
        }
    }
    let mut b: usize = n;
    while b > a && is_space_char(cs[b - 1])
        invariant
            a <= b <= n,
            n == cs@.len(),
            trim_start_spec(cs@) == cs@.skip(a as int),
            trim_end_spec(cs@.skip(a as int)) == trim_end_spec(cs@.subrange(a as int, b as int)),
        decreases b,
    {
        proof {
            let cur = cs@.subrange(a as int, b as int);
            assert(cur.last() == cs@[b as int - 1]);
            assert(cur.drop_last() =~= cs@.subrange(a as int, b as int - 1));
        }
        b = b - 1;
    }
    proof {
        assert(cs@.skip(a as int) =~= cs@.subrange(a as int, n as int));
        let cur = cs@.subrange(a as int, b as int);
        if b > a {
            assert(cur.last() == cs@[b as int - 1]);
            assert(!is_space(cur.last()));
        }
        assert(trim_end_spec(cur) == cur);
    }
    subrange_vec(cs, a, b)
}

// ───────────────────────── tokenization ─────────────────────────

/// The whitespace-delimited tokens of `s`, in order.
pub open spec fn split_ws(s: Seq<char>) -> Seq<Seq<char>>
    decreases s.len(),
{
    if s.len() == 0 {
        Seq::empty()
    } else {
        let rest = split_ws(s.drop_first());
        if is_space(s[0]) {
            rest
        } else if s.len() >= 2 && !is_space(s[1]) {
            seq![seq![s[0]] + rest[0]] + rest.drop_first()
        } else {
            seq![seq![s[0]]] + rest
        }
    }
}

/// A maximal non-whitespace run at the front of `s` is the first token.
proof fn lemma_split_ws_token(s: Seq<char>, m: int)
    requires
        0 < m <= s.len(),
        forall|l: int| 0 <= l < m ==> !is_space(s[l]),
        m == s.len() || is_space(s[m]),
    ensures
        split_ws(s) == seq![s.take(m)] + split_ws(s.skip(m)),
    decreases m,
{
    let rest = split_ws(s.drop_first());
    if m == 1 {
        if s.len() >= 2 {
            assert(is_space(s[1]));
            assert(s.drop_first()[0] == s[1]);
            assert(split_ws(s) == seq![seq![s[0]]] + rest);
        } else {
            assert(split_ws(s) == seq![seq![s[0]]] + rest);
        }
        assert(s.take(1) =~= seq![s[0]]);
        assert(s.skip(1) =~= s.drop_first());
    } else {
        let d = s.drop_first();
        assert(d[0] == s[1]);
        assert(!is_space(s[1]));
        lemma_split_ws_token(d, m - 1);
        assert(rest == seq![d.take(m - 1)] + split_ws(d.skip(m - 1)));
        assert(rest[0] == d.take(m - 1));
        assert(rest.drop_first() =~= split_ws(d.skip(m - 1)));
        assert(d.skip(m - 1) =~= s.skip(m));
        assert(seq![s[0]] + d.take(m - 1) =~= s.take(m));
        assert(split_ws(s) == seq![seq![s[0]] + rest[0]] + rest.drop_first());
        assert(seq![s.take(m)] + split_ws(s.skip(m)) == seq![seq![s[0]] + rest[0]]
            + rest.drop_first());
    }
}

/// The whitespace-delimited tokens of `cs`, each as a fresh vector.
pub fn split_ws_chars(cs: &[char]) -> (r: Vec<Vec<char>>)
    ensures
        r.deep_view() == split_ws(cs@),
{
    let n = cs.len();
    let mut r: Vec<Vec<char>> = Vec::new();
    let mut i: usize = 0;
    proof {
        assert(cs@.skip(0) =~= cs@);
        assert(r.deep_view() + split_ws(cs@) =~= split_ws(cs@));
    }
    while i < n
        invariant
            i <= n,
            n == cs@.len(),
            split_ws(cs@) == r.deep_view() + split_ws(cs@.skip(i as int)),
        decreases n - i,
    {
        if is_space_char(cs[i]) {
            proof {
                assert(cs@.skip(i as int).drop_first() =~= cs@.skip(i as int + 1));
            }
            i = i + 1;
        } else {
            let start = i;
            let mut j = i + 1;
            while j < n && !is_space_char(cs[j])
                invariant
                    start < j <= n,
                    n == cs@.len(),
                    forall|l: int| start <= l < j ==> !is_space(cs@[l]),
                decreases n - j,
            {
                j = j + 1;
            }
            let tok = subrange_vec(cs, start, j);
            proof {
                let suf = cs@.skip(start as int);
                assert forall|l: int| 0 <= l < j - start implies !is_space(suf[l]) by {
                    assert(suf[l] == cs@[start + l]);
                }
                if j < n {
                    assert(suf[j - start] == cs@[j as int]);
                }
                lemma_split_ws_token(suf, j - start);
                assert(suf.take(j - start) =~= cs@.subrange(start as int, j as int));
                assert(suf.skip(j - start) =~= cs@.skip(j as int));
            }
            let ghost old_r = r.deep_view();
            r.push(tok);
            proof {
                assert(r.deep_view() =~~= old_r.push(tok@));
                assert(old_r.push(tok@) + split_ws(cs@.skip(j as int)) =~= old_r + (seq![tok@]
                    + split_ws(cs@.skip(j as int))));
            }
            i = j;
        }
    }
    proof {
        assert(split_ws(cs@.skip(n as int)) =~= Seq::<Seq<char>>::empty());
        assert(r.deep_view() + Seq::<Seq<char>>::empty() =~= r.deep_view());
    }
    r
}

// ───────────────────────── line splitting ─────────────────────────

/// `t` without one trailing carriage return, if it has one.
pub open spec fn strip_cr(t: Seq<char>) -> Seq<char> {
    if t.len() > 0 && t.last() == '\r' {
        t.drop_last()
    } else {
        t
    }
}

/// The lines of `s`: split at `\n` or `\r\n`, no trailing empty line.
pub open spec fn lines_spec(s: Seq<char>) -> Seq<Seq<char>>
    decreases s.len(),
{
    if s.len() == 0 {
        Seq::empty()
    } else if s[0] == '\n' {
        seq![Seq::<char>::empty()] + lines_spec(s.drop_first())
    } else if s[0] == '\r' && s.len() >= 2 && s[1] == '\n' {
        seq![Seq::<char>::empty()] + lines_spec(s.skip(2))
    } else {
        let rest = lines_spec(s.drop_first());
        if rest.len() == 0 {
            seq![s]
        } else {
            seq![seq![s[0]] + rest[0]] + rest.drop_first()
        }
    }
}

/// Splitting at the first newline of `s`.
proof fn lemma_lines_break(s: Seq<char>, m: int)
    requires
        0 <= m < s.len(),
        s[m] == '\n',
        forall|l: int| 0 <= l < m ==> s[l] != '\n',
    ensures
        lines_spec(s) == seq![strip_cr(s.take(m))] + lines_spec(s.skip(m + 1)),
    decreases m,
{
    if m == 0 {
        assert(s.take(0) =~= Seq::<char>::empty());
        assert(s.skip(1) =~= s.drop_first());
    } else if s[0] == '\r' && s.len() >= 2 && s[1] == '\n' {
        assert(m == 1);
        assert(s.take(1) =~= seq!['\r']);
        assert(strip_cr(s.take(1)) =~= Seq::<char>::empty());
    } else {
        let d = s.drop_first();
        assert(d[m - 1] == s[m]);
        assert forall|l: int| 0 <= l < m - 1 implies d[l] != '\n' by {
            assert(d[l] == s[l + 1]);
        }
        lemma_lines_break(d, m - 1);
        let rest = lines_spec(d);
        assert(rest == seq![strip_cr(d.take(m - 1))] + lines_spec(d.skip(m)));
        assert(rest.len() > 0);
        assert(lines_spec(s) == seq![seq![s[0]] + rest[0]] + rest.drop_first());
        assert(rest[0] == strip_cr(d.take(m - 1)));
        assert(rest.drop_first() =~= lines_spec(d.skip(m)));
        assert(d.skip(m) =~= s.skip(m + 1));
        assert(d.take(m - 1) =~= s.subrange(1, m));
        // gluing the head character commutes with stripping the final `\r`
        if m == 1 {
            assert(s.take(1) =~= seq![s[0]]);
            assert(s[0] != '\r' || !(s.len() >= 2 && s[1] == '\n'));
            if s[0] == '\r' {
                assert(s[1] == '\n');
                assert(false);
            }
            assert(strip_cr(s.take(1)) =~= seq![s[0]]);
            assert(d.take(0) =~= Seq::<char>::empty());
            assert(seq![s[0]] + strip_cr(d.take(0)) =~= strip_cr(s.take(m)));
        } else {
            let t = s.subrange(1, m);
            assert(t.len() > 0);
            assert(t.last() == s[m - 1]);
            assert(s.take(m).last() == s[m - 1]);
            if s[m - 1] == '\r' {
                assert(strip_cr(s.take(m)) =~= s.take(m).drop_last());
                assert(seq![s[0]] + t.drop_last() =~= s.take(m).drop_last());
            } else {
                assert(seq![s[0]] + t =~= s.take(m));
            }
        }
        assert(seq![s[0]] + rest[0] == strip_cr(s.take(m)));
    }
}

/// A string without newlines is one single line.
proof fn lemma_lines_last(s: Seq<char>)
    requires
        s.len() > 0,
        forall|l: int| 0 <= l < s.len() ==> s[l] != '\n',
    ensures
        lines_spec(s) == seq![s],
    decreases s.len(),
{
    let d = s.drop_first();
    assert(s[0] != '\n');
    if d.len() == 0 {
        assert(lines_spec(d).len() == 0);
        assert(lines_spec(s) == seq![s]);
    } else {
        assert forall|l: int| 0 <= l < d.len() implies d[l] != '\n' by {
            assert(d[l] == s[l + 1]);
        }
        lemma_lines_last(d);
        assert(s[1] == d[0]);
        assert(s[1] != '\n');
        let rest = lines_spec(d);
        assert(rest == seq![d]);
        assert(rest.len() == 1);
        assert(lines_spec(s) == seq![seq![s[0]] + rest[0]] + rest.drop_first());
        assert(rest.drop_first() =~= Seq::<Seq<char>>::empty());
        assert(seq![seq![s[0]] + d] + Seq::<Seq<char>>::empty() =~= seq![seq![s[0]] + d]);
        assert(seq![s[0]] + d =~= s);
    }
}

/// The lines of `cs`, each as a fresh vector.
pub fn split_lines_chars(cs: &[char]) -> (r: Vec<Vec<char>>)
    ensures
        r.deep_view() == lines_spec(cs@),
{
    let n = cs.len();
    let mut r: Vec<Vec<char>> = Vec::new();
    let mut i: usize = 0;
    proof {
        assert(cs@.skip(0) =~= cs@);
        assert(r.deep_view() + lines_spec(cs@) =~= lines_spec(cs@));
    }
    while i < n
        invariant
            i <= n,
            n == cs@.len(),
            lines_spec(cs@) == r.deep_view() + lines_spec(cs@.skip(i as int)),
        decreases n - i,
    {
        let start = i;
        let mut j = i;
        while j < n && cs[j] != '\n'
            invariant
                start <= j <= n,
                n == cs@.len(),
                forall|l: int| start <= l < j ==> cs@[l] != '\n',
            decreases n - j,
        {
            j = j + 1;
        }
        let ghost suf = cs@.skip(start as int);
        proof {
            assert forall|l: int| 0 <= l < j - start implies suf[l] != '\n' by {
                assert(suf[l] == cs@[start + l]);
            }
        }
        if j == n {
            // final line without newline terminator; it is nonempty since
            // the outer loop guard gave start < n
            let tok = subrange_vec(cs, start, n);
            proof {
                assert(suf.len() > 0);
                lemma_lines_last(suf);
                assert(suf =~= tok@);
            }
            let ghost old_r = r.deep_view();
            r.push(tok);
            proof {
                assert(r.deep_view() =~~= old_r.push(tok@));
                assert(cs@.skip(n as int).len() == 0);
                assert(old_r.push(tok@) + lines_spec(cs@.skip(n as int)) =~= old_r
                    + seq![tok@]);
            }
            i = n;
        } else {
            let end = if j > start && cs[j - 1] == '\r' {
                j - 1
            } else {
                j
            };
            let tok = subrange_vec(cs, start, end);
            proof {
                assert(suf[j - start] == cs@[j as int]);
                lemma_lines_break(suf, j - start);
                assert(suf.take(j - start) =~= cs@.subrange(start as int, j as int));
                let line = cs@.subrange(start as int, j as int);
                if j > start && cs@[j as int - 1] == '\r' {
                    assert(line.last() == cs@[j as int - 1]);
                    assert(strip_cr(line) =~= cs@.subrange(start as int, j as int - 1));
                } else {
                    if line.len() > 0 {
                        assert(line.last() == cs@[j as int - 1]);
                    }
                    assert(strip_cr(line) =~= line);
                }
                assert(tok@ == strip_cr(line));
                assert(suf.skip(j - start + 1) =~= cs@.skip(j as int + 1));
            }
            let ghost old_r = r.deep_view();
            r.push(tok);
            proof {
                assert(r.deep_view() =~~= old_r.push(tok@));
                assert(old_r.push(tok@) + lines_spec(cs@.skip(j as int + 1)) =~= old_r + (seq![
                    tok@,
                ] + lines_spec(cs@.skip(j as int + 1))));
            }
            i = j + 1;
        }
    }
    proof {
        assert(lines_spec(cs@.skip(n as int)) =~= Seq::<Seq<char>>::empty());
        assert(r.deep_view() + Seq::<Seq<char>>::empty() =~= r.deep_view());
    }
    r
}

// ───────────────────────── numerals ─────────────────────────

/// A decimal digit.
pub open spec fn is_digit(c: char) -> bool {
    48 <= c as u32 <= 57
}

/// A hexadecimal digit, either case.
pub open spec fn is_hex_digit(c: char) -> bool {
    is_digit(c) || (97 <= c as u32 <= 102) || (65 <= c as u32 <= 70)
}

/// The value of a decimal digit.
pub open spec fn digit_val(c: char) -> int {
    c as u32 - 48
}

/// The value of a hexadecimal digit.
pub open spec fn hex_digit_val(c: char) -> int {
    if is_digit(c) {
        c as u32 - 48
    } else if 97 <= c as u32 <= 102 {
        c as u32 - 87
    } else {
        c as u32 - 55
    }
}

/// Every character of `s` is a decimal digit.
pub open spec fn all_digits(s: Seq<char>) -> bool {
    forall|i: int| 0 <= i < s.len() ==> is_digit(s[i])
}

/// Every character of `s` is a hexadecimal digit.
pub open spec fn all_hex_digits(s: Seq<char>) -> bool {
    forall|i: int| 0 <= i < s.len() ==> is_hex_digit(s[i])
}

/// The value of `s` read as a decimal numeral.
pub open spec fn dec_val(s: Seq<char>) -> int
    decreases s.len(),
{
    if s.len() == 0 {
        0
    } else {
        dec_val(s.drop_last()) * 10 + digit_val(s.last())
    }
}

/// The value of `s` read as a hexadecimal numeral.
pub open spec fn hex_val(s: Seq<char>) -> int
    decreases s.len(),
{
    if s.len() == 0 {
        0
    } else {
        hex_val(s.drop_last()) * 16 + hex_digit_val(s.last())
    }
}

/// Whether `s` is a decimal numeral whose value fits below `max`.
pub open spec fn dec_parse_ok(s: Seq<char>, max: int) -> bool {
    s.len() > 0 && all_digits(s) && dec_val(s) <= max
}

/// Whether `s` is a hexadecimal numeral whose value fits below `max`.
pub open spec fn hex_parse_ok(s: Seq<char>, max: int) -> bool {
    s.len() > 0 && all_hex_digits(s) && hex_val(s) <= max
}

proof fn lemma_dec_val_nonneg(s: Seq<char>)
    requires
        all_digits(s),
    ensures
        dec_val(s) >= 0,
    decreases s.len(),
{
    if s.len() > 0 {
        assert(all_digits(s.drop_last())) by {
            assert(forall|i: int|
                0 <= i < s.len() - 1 ==> s.drop_last()[i] == s[i] && is_digit(s[i]));
        }
        lemma_dec_val_nonneg(s.drop_last());
    }
}

proof fn lemma_hex_val_nonneg(s: Seq<char>)
    requires
        all_hex_digits(s),
    ensures
        hex_val(s) >= 0,
    decreases s.len(),
{
    if s.len() > 0 {
        assert(all_hex_digits(s.drop_last())) by {
            assert(forall|i: int|
                0 <= i < s.len() - 1 ==> s.drop_last()[i] == s[i] && is_hex_digit(s[i]));
        }
        lemma_hex_val_nonneg(s.drop_last());
    }
}

/// A prefix of a decimal numeral never exceeds the whole numeral's value.
proof fn lemma_dec_val_prefix(s: Seq<char>, k: int)
    requires
        all_digits(s),
        0 <= k <= s.len(),
    ensures
        dec_val(s.take(k)) <= dec_val(s),
    decreases s.len() - k,
{
    if k == s.len() {
        assert(s.take(k) =~= s);
    } else {
        assert(s.take(k + 1).drop_last() =~= s.take(k));
        assert(s.take(k + 1).last() == s[k]);
        assert(all_digits(s.take(k))) by {
            assert(forall|i: int| 0 <= i < k ==> s.take(k)[i] == s[i] && is_digit(s[i]));
        }
        lemma_dec_val_nonneg(s.take(k));
        assert(dec_val(s.take(k + 1)) == dec_val(s.take(k)) * 10 + digit_val(s[k]));
        assert(dec_val(s.take(k)) * 10 >= dec_val(s.take(k))) by (nonlinear_arith)
            requires
                dec_val(s.take(k)) >= 0,
        ;
        lemma_dec_val_prefix(s, k + 1);
    }
}

/// A prefix of a hexadecimal numeral never exceeds the whole numeral's value.
proof fn lemma_hex_val_prefix(s: Seq<char>, k: int)
    requires
        all_hex_digits(s),
        0 <= k <= s.len(),
    ensures
        hex_val(s.take(k)) <= hex_val(s),
    decreases s.len() - k,
{
    if k == s.len() {
        assert(s.take(k) =~= s);
    } else {
        assert(s.take(k + 1).drop_last() =~= s.take(k));
        assert(s.take(k + 1).last() == s[k]);
        assert(all_hex_digits(s.take(k))) by {
            assert(forall|i: int| 0 <= i < k ==> s.take(k)[i] == s[i] && is_hex_digit(s[i]));
        }
        lemma_hex_val_nonneg(s.take(k));
        assert(hex_val(s.take(k + 1)) == hex_val(s.take(k)) * 16 + hex_digit_val(s[k]));
        assert(hex_val(s.take(k)) * 16 >= hex_val(s.take(k))) by (nonlinear_arith)
            requires
                hex_val(s.take(k)) >= 0,
        ;
        lemma_hex_val_prefix(s, k + 1);
    }
}

/// Parse a decimal numeral, accepting values up to `max`.
fn parse_dec_bounded(cs: &[char], max: u64) -> (r: Option<u64>)
    requires
        max < 0x8000_0000_0000_0000,
    ensures
        if dec_parse_ok(cs@, max as int) {
            r == Some((dec_val(cs@) as u64))
        } else {
            r is None
        },
{
    let n = cs.len();
    if n == 0 {
        return None;
    }
    let mut acc: u64 = 0;
    let mut i: usize = 0;
    proof {
        assert(cs@.take(0) =~= Seq::<char>::empty());
    }
    while i < n
        invariant
            i <= n,
            n == cs@.len(),
            max < 0x8000_0000_0000_0000,
            all_digits(cs@.take(i as int)),
            acc == dec_val(cs@.take(i as int)),
            acc <= max,
        decreases n - i,
    {
        let c = cs[i];
        let u = c as u32;
        if u < 48 || u > 57 {
            assert(!is_digit(cs@[i as int]));
            assert(!all_digits(cs@));
            return None;
        }
        proof {
            assert(cs@.take(i as int + 1).drop_last() =~= cs@.take(i as int));
            assert(cs@.take(i as int + 1).last() == cs@[i as int]);
        }
        let wide: u128 = (acc as u128) * 10 + ((u - 48) as u128);
        i = i + 1;
        if wide > max as u128 {
            proof {
                if all_digits(cs@) {
                    lemma_dec_val_prefix(cs@, i as int);
                }
            }
            return None;
        }
        acc = wide as u64;
    }
    proof {
        assert(cs@.take(n as int) =~= cs@);
    }
    Some(acc)
}

/// Parse a hexadecimal numeral, accepting values up to `max`.
fn parse_hex_bounded(cs: &[char], max: u64) -> (r: Option<u64>)
    requires
        max < 0x8000_0000_0000_0000,
    ensures
        if hex_parse_ok(cs@, max as int) {
            r == Some((hex_val(cs@) as u64))
        } else {
            r is None
        },
{
    let n = cs.len();
    if n == 0 {
        return None;
    }
    let mut acc: u64 = 0;
    let mut i: usize = 0;
    proof {
        assert(cs@.take(0) =~= Seq::<char>::empty());
    }
    while i < n
        invariant
            i <= n,
            n == cs@.len(),
            max < 0x8000_0000_0000_0000,
            all_hex_digits(cs@.take(i as int)),
            acc == hex_val(cs@.take(i as int)),
            acc <= max,
        decreases n - i,
    {
        let c = cs[i];
        let u = c as u32;
        let d: u64 = if 48 <= u && u <= 57 {
            (u - 48) as u64
        } else if 97 <= u && u <= 102 {
            (u - 87) as u64
        } else if 65 <= u && u <= 70 {
            (u - 55) as u64
        } else {
            assert(!is_hex_digit(cs@[i as int]));
            assert(!all_hex_digits(cs@));
            return None;
        };
        proof {
            assert(cs@.take(i as int + 1).drop_last() =~= cs@.take(i as int));
            assert(cs@.take(i as int + 1).last() == cs@[i as int]);
        }
        let wide: u128 = (acc as u128) * 16 + (d as u128);
        i = i + 1;
        if wide > max as u128 {
            proof {
                if all_hex_digits(cs@) {
                    lemma_hex_val_prefix(cs@, i as int);
                }
            }
            return None;
        }
        acc = wide as u64;
    }
    proof {
        assert(cs@.take(n as int) =~= cs@);
    }
    Some(acc)
}

/// Parse a decimal numeral as a port-sized integer.
pub fn parse_dec_u16(cs: &[char]) -> (r: Option<u16>)
    ensures
        if dec_parse_ok(cs@, u16::MAX as int) {
            r == Some((dec_val(cs@) as u16)) && 0 <= dec_val(cs@) <= u16::MAX as int
        } else {
            r is None
        },
{
    proof {
        if all_digits(cs@) {
            lemma_dec_val_nonneg(cs@);
        }
    }
    match parse_dec_bounded(cs, 65535) {
        Some(v) => Some(v as u16),
        None => None,
    }
}

/// Parse a decimal numeral as a process-id-sized integer.
pub fn parse_dec_u32(cs: &[char]) -> (r: Option<u32>)
    ensures
        if dec_parse_ok(cs@, u32::MAX as int) {
            r == Some((dec_val(cs@) as u32)) && 0 <= dec_val(cs@) <= u32::MAX as int
        } else {
            r is None
        },
{
    proof {
        if all_digits(cs@) {
            lemma_dec_val_nonneg(cs@);
        }
    }
    match parse_dec_bounded(cs, 0xFFFF_FFFF) {
        Some(v) => Some(v as u32),
        None => None,
    }
}

/// Parse a decimal numeral as an inode-sized integer. Values above the
/// accepted bound are rejected rather than wrapped.
pub fn parse_dec_u64(cs: &[char]) -> (r: Option<u64>)
    ensures
        if dec_parse_ok(cs@, 0x7FFF_FFFF_FFFF_FFFF) {
            r == Some((dec_val(cs@) as u64)) && 0 <= dec_val(cs@) <= 0x7FFF_FFFF_FFFF_FFFF
        } else {
            r is None
        },
{
    proof {
        if all_digits(cs@) {
            lemma_dec_val_nonneg(cs@);
        }
    }
    parse_dec_bounded(cs, 0x7FFF_FFFF_FFFF_FFFF)
}

/// Parse a hexadecimal numeral as a port-sized integer.
pub fn parse_hex_u16(cs: &[char]) -> (r: Option<u16>)
    ensures
        if hex_parse_ok(cs@, u16::MAX as int) {
            r == Some((hex_val(cs@) as u16)) && 0 <= hex_val(cs@) <= u16::MAX as int
        } else {
            r is None
        },
{
    proof {
        if all_hex_digits(cs@) {
            lemma_hex_val_nonneg(cs@);
        }
    }
    match parse_hex_bounded(cs, 65535) {
        Some(v) => Some(v as u16),
        None => None,
    }
}

/// Parse a hexadecimal numeral as a 32-bit integer.
pub fn parse_hex_u32(cs: &[char]) -> (r: Option<u32>)
    ensures
        if hex_parse_ok(cs@, u32::MAX as int) {
            r == Some((hex_val(cs@) as u32)) && 0 <= hex_val(cs@) <= u32::MAX as int
        } else {
            r is None
        },
{
    proof {
        if all_hex_digits(cs@) {
            lemma_hex_val_nonneg(cs@);
        }
    }
    match parse_hex_bounded(cs, 0xFFFF_FFFF) {
        Some(v) => Some(v as u32),
        None => None,
    }
}

// ───────────────────────── formatting ─────────────────────────

/// The character for one decimal digit value.
pub open spec fn dec_digit_char(d: int) -> char {
    if d == 0 {
        '0'
    } else if d == 1 {
        '1'
    } else if d == 2 {
        '2'
    } else if d == 3 {
        '3'
    } else if d == 4 {
        '4'
    } else if d == 5 {
        '5'
    } else if d == 6 {
        '6'
    } else if d == 7 {
        '7'
    } else if d == 8 {
        '8'
    } else {
        '9'
    }
}

/// The shortest decimal numeral for a nonnegative value.
pub open spec fn dec_chars(n: int) -> Seq<char>
    decreases n,
{
    if n < 10 {
        seq![dec_digit_char(n)]
    } else {
        dec_chars(n / 10).push(dec_digit_char(n % 10))
    }
}

fn digit_to_char(d: u8) -> (c: char)
    requires
        d < 10,
    ensures
        c == dec_digit_char(d as int),
{
    if d == 0 {
        '0'
    } else if d == 1 {
        '1'
    } else if d == 2 {
        '2'
    } else if d == 3 {
        '3'
    } else if d == 4 {
        '4'
    } else if d == 5 {
        '5'
    } else if d == 6 {
        '6'
    } else if d == 7 {
        '7'
    } else if d == 8 {
        '8'
    } else {
        '9'
    }
}

/// The decimal numeral of `n`, as characters.
pub fn u64_to_chars(n: u64) -> (r: Vec<char>)
    ensures
        r@ == dec_chars(n as int),
    decreases n,
{
    if n < 10 {
        let mut v: Vec<char> = Vec::new();
        v.push(digit_to_char(n as u8));
        proof {
            assert(v@ =~= seq![dec_digit_char(n as int)]);
        }
        v
    } else {
        let mut v = u64_to_chars(n / 10);
        v.push(digit_to_char((n % 10) as u8));
        v
    }
}

/// Append the characters of `s` to `v`.
pub fn append_str(v: &mut Vec<char>, s: &str)
    ensures
        final(v)@ == old(v)@ + s@,
{
    let n = s.unicode_len();
    let mut i: usize = 0;
    while i < n
        invariant
            i <= n,
            n == s@.len(),
            v@ == old(v)@ + s@.subrange(0, i as int),
        decreases n - i,
    {
        v.push(s.get_char(i));
        i = i + 1;
        assert(v@ =~= old(v)@ + s@.subrange(0, i as int));
    }
    assert(v@ =~= old(v)@ + s@);
}

/// Append a copy of the characters of `w` to `v`.
pub fn append_chars(v: &mut Vec<char>, w: &[char])
    ensures
        final(v)@ == old(v)@ + w@,
{
    let n = w.len();
    let mut i: usize = 0;
    while i < n
        invariant
            i <= n,
            n == w@.len(),
            v@ == old(v)@ + w@.subrange(0, i as int),
        decreases n - i,
    {
        v.push(w[i]);
        i = i + 1;
        assert(v@ =~= old(v)@ + w@.subrange(0, i as int));
    }
    assert(v@ =~= old(v)@ + w@);
}

/// The decimal numeral of `n`, as a `String`.
pub fn u64_to_string(n: u64) -> (r: String)
    ensures
        r@ == dec_chars(n as int),
{
    let v = u64_to_chars(n);
    string_of(v.as_slice())
}

} // verus!
