//! Character and string primitives shared by the sanitizer, the refresh
//! engine and the query engine: ASCII case folding, substring search and
//! removal, lexicographic comparison, and decimal conversion.

use vstd::prelude::*;

verus! {

/// True for the ASCII capital letters.
pub open spec fn is_upper_ascii(c: char) -> bool {
    'A' <= c && c <= 'Z'
}

/// ASCII-only case folding of one character; every other character is kept.
pub open spec fn lower_char(c: char) -> char {
    if is_upper_ascii(c) {
        (((c as u8) + 32) as char)
    } else {
        c
    }
}

/// The character kept by the sanitizer's final pass and by name search:
/// ASCII letters and digits.
pub open spec fn is_alnum_char(c: char) -> bool {
    ('a' <= c && c <= 'z') || ('0' <= c && c <= '9') || ('A' <= c && c <= 'Z')
}

/// ASCII-only case folding of a whole sequence.
pub open spec fn lower_seq(s: Seq<char>) -> Seq<char> {
    s.map(|_i: int, c: char| lower_char(c))
}

pub fn lower_char_exec(c: char) -> (r: char)
    ensures
        r == lower_char(c),
{
    if 'A' <= c && c <= 'Z' {
        ((c as u8) + 32) as char
    } else {
        c
    }
}

pub fn is_alnum_char_exec(c: char) -> (r: bool)
    ensures
        r == is_alnum_char(c),
{
    ('a' <= c && c <= 'z') || ('0' <= c && c <= '9') || ('A' <= c && c <= 'Z')
}

/// Copies the characters of a string slice into a vector.
pub fn str_to_chars(s: &str) -> (v: Vec<char>)
    ensures
        v@ == s@,
{
    let n = s.unicode_len();
    let mut v: Vec<char> = Vec::new();
    for i in 0..n
        invariant
            n == s@.len(),
            v@ == s@.subrange(0, i as int),
    {
        v.push(s.get_char(i));
        assert(v@ =~= s@.subrange(0, i + 1));
    }
    assert(v@ =~= s@);
    v
}

/// Appends one character to a string.
/// Relies on `String::push`: the character is appended at the end.
#[verifier::external_body]
fn push_char(s: &mut String, c: char)
    ensures
        final(s)@ == old(s)@ + seq![c],
{
    s.push(c)
}

/// Builds a string out of a vector of characters.
pub fn chars_to_string(v: &Vec<char>) -> (s: String)
    ensures
        s@ == v@,
{
    let mut s = String::new();
    let n = v.len();
    for i in 0..n
        invariant
            n == v@.len(),
            s@ == v@.subrange(0, i as int),
    {
        push_char(&mut s, v[i]);
        assert(s@ =~= v@.subrange(0, i + 1));
    }
    assert(s@ =~= v@);
    s
}

/// Index of the first occurrence of `c` in `s`, if any.
pub open spec fn find_char(s: Seq<char>, c: char) -> Option<int>
    decreases s.len(),
{
    if s.len() == 0 {
        None
    } else if s[0] == c {
        Some(0)
    } else {
        match find_char(s.drop_first(), c) {
            Some(i) => Some(i + 1),
            None => None,
        }
    }
}

/// `find_char` returns the first index holding `c`, or `None` when `c` is absent.
pub proof fn lemma_find_char(s: Seq<char>, c: char)
    ensures
        match find_char(s, c) {
            Some(i) => 0 <= i < s.len() && s[i] == c && (forall|j: int| 0 <= j < i ==> s[j] != c),
            None => forall|j: int| 0 <= j < s.len() ==> s[j] != c,
        },
    decreases s.len(),
{
    if s.len() == 0 {
    } else if s[0] == c {
    } else {
        lemma_find_char(s.drop_first(), c);
        match find_char(s.drop_first(), c) {
            Some(i) => {
                assert(s[i + 1] == s.drop_first()[i]);
                assert forall|j: int| 0 <= j < i + 1 implies s[j] != c by {
                    if j > 0 {
                        assert(s[j] == s.drop_first()[j - 1]);
                    }
                }
            },
            None => {
                assert forall|j: int| 0 <= j < s.len() implies s[j] != c by {
                    if j > 0 {
                        assert(s[j] == s.drop_first()[j - 1]);
                    }
                }
            },
        }
    }
}

/// The pattern `t` occurs in `s` starting at index `i`.
pub open spec fn matches_at(s: Seq<char>, t: Seq<char>, i: int) -> bool {
    0 <= i && i + t.len() <= s.len() && s.subrange(i, i + t.len() as int) == t
}

/// The pattern `t` occurs somewhere in `s`.
pub open spec fn contains_sub(s: Seq<char>, t: Seq<char>) -> bool {
    exists|i: int| matches_at(s, t, i)
}

/// Index of the first occurrence of the pattern `t` in `s`, if any.
pub open spec fn find_sub(s: Seq<char>, t: Seq<char>) -> Option<int>
    decreases s.len(),
{
    if t.len() > s.len() {
        None
    } else if s.subrange(0, t.len() as int) == t {
        Some(0)
    } else if s.len() == 0 {
        None
    } else {
        match find_sub(s.drop_first(), t) {
            Some(i) => Some(i + 1),
            None => None,
        }
    }
}

/// An occurrence in a suffix of `s` is an occurrence in `s`, shifted.
pub proof fn lemma_matches_at_shift(s: Seq<char>, t: Seq<char>, j: int)
    requires
        s.len() > 0,
        0 <= j,
    ensures
        matches_at(s, t, j + 1) <==> matches_at(s.drop_first(), t, j),
{
    if j + t.len() <= s.drop_first().len() {
        assert(s.drop_first().subrange(j, j + t.len() as int) =~= s.subrange(
            j + 1,
            j + 1 + t.len() as int,
        ));
    }
}

/// `find_sub` returns the first index where `t` occurs, or `None` when it
/// occurs nowhere.
pub proof fn lemma_find_sub(s: Seq<char>, t: Seq<char>)
    ensures
        match find_sub(s, t) {
            Some(i) => matches_at(s, t, i) && (forall|j: int| 0 <= j < i ==> !matches_at(s, t, j)),
            None => forall|j: int| !matches_at(s, t, j),
        },
    decreases s.len(),
{
    if t.len() > s.len() {
    } else if s.subrange(0, t.len() as int) == t {
    } else if s.len() == 0 {
        assert(s.subrange(0, t.len() as int) =~= t);
    } else {
        lemma_find_sub(s.drop_first(), t);
        assert forall|j: int| 0 <= j implies (matches_at(s, t, j + 1) <==> matches_at(
            s.drop_first(),
            t,
            j,
        )) by {
            lemma_matches_at_shift(s, t, j);
        }
        assert(!matches_at(s, t, 0));
        match find_sub(s.drop_first(), t) {
            Some(i) => {
                assert(matches_at(s.drop_first(), t, i));
                assert(matches_at(s, t, i + 1));
                assert forall|j: int| 0 <= j < i + 1 implies !matches_at(s, t, j) by {
                    if j > 0 {
                        assert(!matches_at(s.drop_first(), t, j - 1));
                        lemma_matches_at_shift(s, t, j - 1);
                    }
                }
            },
            None => {
                assert forall|j: int| !matches_at(s, t, j) implies true by {}
                assert forall|j: int| matches_at(s, t, j) implies false by {
                    if j == 0 {
                    } else {
                        lemma_matches_at_shift(s, t, j - 1);
                        assert(matches_at(s.drop_first(), t, j - 1));
                    }
                }
            },
        }
    }
}

/// An occurrence inside `s.subrange(off, s.len())` is an occurrence in `s` at
/// the absolute position.
pub proof fn lemma_matches_at_offset(s: Seq<char>, t: Seq<char>, off: int, j: int)
    requires
        0 <= off <= s.len(),
        0 <= j,
    ensures
        matches_at(s.subrange(off, s.len() as int), t, j) <==> matches_at(s, t, off + j),
{
    let suf = s.subrange(off, s.len() as int);
    if j + t.len() <= suf.len() {
        assert(suf.subrange(j, j + t.len() as int) =~= s.subrange(off + j, off + j + t.len() as int));
    }
}

/// Removes every occurrence of `t` from `s`, scanning left to right and not
/// rescanning the part already emitted (the semantics of replacing with the
/// empty string).
pub open spec fn remove_all(s: Seq<char>, t: Seq<char>) -> Seq<char>
    decreases s.len(),
{
    if t.len() == 0 {
        s
    } else {
        match find_sub(s, t) {
            None => s,
            Some(i) => if 0 <= i && i + t.len() <= s.len() {
                s.subrange(0, i) + remove_all(s.subrange(i + t.len() as int, s.len() as int), t)
            } else {
                s
            },
        }
    }
}

/// When `t` occurs nowhere in `s`, removal changes nothing.
pub proof fn lemma_remove_all_absent(s: Seq<char>, t: Seq<char>)
    requires
        t.len() > 0,
        !contains_sub(s, t),
    ensures
        remove_all(s, t) == s,
{
    lemma_find_sub(s, t);
    if find_sub(s, t) is Some {
        assert(matches_at(s, t, find_sub(s, t)->Some_0));
    }
}

/// When `t` occurs at the head of `s`, removal drops it and goes on with the
/// rest.
pub proof fn lemma_remove_all_head_match(s: Seq<char>, t: Seq<char>)
    requires
        t.len() > 0,
        matches_at(s, t, 0),
    ensures
        remove_all(s, t) == remove_all(s.subrange(t.len() as int, s.len() as int), t),
{
    lemma_find_sub(s, t);
    match find_sub(s, t) {
        Some(i) => {
            assert(i == 0);
            assert(s.subrange(0, 0) + remove_all(s.subrange(t.len() as int, s.len() as int), t)
                =~= remove_all(s.subrange(t.len() as int, s.len() as int), t));
        },
        None => {},
    }
}

/// When `t` does not occur at the head of `s`, removal keeps the head
/// character.
pub proof fn lemma_remove_all_head_miss(s: Seq<char>, t: Seq<char>)
    requires
        t.len() > 0,
        s.len() > 0,
        !matches_at(s, t, 0),
    ensures
        remove_all(s, t) == seq![s[0]] + remove_all(s.drop_first(), t),
{
    lemma_find_sub(s, t);
    lemma_find_sub(s.drop_first(), t);
    match find_sub(s, t) {
        None => {
            match find_sub(s.drop_first(), t) {
                Some(k) => {
                    lemma_matches_at_shift(s, t, k);
                },
                None => {},
            }
            assert(seq![s[0]] + s.drop_first() =~= s);
        },
        Some(i) => {
            assert(i >= 1);
            match find_sub(s.drop_first(), t) {
                None => {
                    lemma_matches_at_shift(s, t, i - 1);
                    assert(false);
                },
                Some(k) => {
                    lemma_matches_at_shift(s, t, k);
                    assert(matches_at(s, t, k + 1));
                    assert(k + 1 >= i);
                    if k + 1 > i {
                        lemma_matches_at_shift(s, t, i - 1);
                        assert(matches_at(s.drop_first(), t, i - 1));
                        assert(false);
                    }
                    assert(k == i - 1);
                    let srest = s.subrange(i + t.len() as int, s.len() as int);
                    let drest = s.drop_first().subrange(
                        k + t.len() as int,
                        s.drop_first().len() as int,
                    );
                    assert(srest =~= drest);
                    assert(s.subrange(0, i) =~= seq![s[0]] + s.drop_first().subrange(0, k));
                    assert(s.subrange(0, i) + remove_all(srest, t) =~= seq![s[0]] + (
                    s.drop_first().subrange(0, k) + remove_all(drest, t)));
                },
            }
        },
    }
}

/// True when `t` occurs in `v` starting at `i`.
pub fn matches_at_exec(v: &Vec<char>, t: &Vec<char>, i: usize) -> (r: bool)
    requires
        i <= v@.len(),
    ensures
        r == matches_at(v@, t@, i as int),
{
    if t.len() > v.len() - i {
        return false;
    }
    let m = t.len();
    for j in 0..m
        invariant
            i + m <= v@.len(),
            m == t@.len(),
            forall|k: int| 0 <= k < j ==> v@[i + k] == t@[k],
    {
        if v[i + j] != t[j] {
            assert(v@.subrange(i as int, i + m as int)[j as int] != t@[j as int]);
            return false;
        }
    }
    assert(v@.subrange(i as int, i + m as int) =~= t@);
    true
}

/// First occurrence of `t` in `v`, as `find_sub` gives it.
pub fn find_sub_exec(v: &Vec<char>, t: &Vec<char>) -> (r: Option<usize>)
    ensures
        match r {
            Some(k) => find_sub(v@, t@) == Some(k as int),
            None => find_sub(v@, t@) is None,
        },
{
    proof {
        lemma_find_sub(v@, t@);
    }
    if t.len() > v.len() {
        return None;
    }
    if t.len() == 0 {
        assert(v@.subrange(0, 0) =~= t@);
        return Some(0);
    }
    let last = v.len() - t.len();
    let mut i: usize = 0;
    while i <= last
        invariant
            t@.len() <= v@.len(),
            last == v@.len() - t@.len(),
            i <= last + 1,
            forall|j: int| 0 <= j < i ==> !matches_at(v@, t@, j),
        decreases last + 1 - i,
    {
        if matches_at_exec(v, t, i) {
            proof {
                match find_sub(v@, t@) {
                    Some(k) => {
                        if k < i {
                            assert(!matches_at(v@, t@, k));
                        }
                        if k > i {
                            assert(!matches_at(v@, t@, i as int));
                        }
                    },
                    None => {
                        assert(!matches_at(v@, t@, i as int));
                    },
                }
            }
            return Some(i);
        }
        i = i + 1;
    }
    proof {
        if find_sub(v@, t@) is Some {
            let k = find_sub(v@, t@)->Some_0;
            assert(matches_at(v@, t@, k));
            assert(k <= last);
            assert(!matches_at(v@, t@, k));
        }
    }
    None
}

/// Removes every occurrence of `t` from `v`.
pub fn remove_all_exec(v: &Vec<char>, t: &Vec<char>) -> (r: Vec<char>)
    requires
        t@.len() > 0,
    ensures
        r@ == remove_all(v@, t@),
{
    let n = v.len();
    let mut out: Vec<char> = Vec::new();
    let mut i: usize = 0;
    proof {
        assert(v@.subrange(0, n as int) =~= v@);
        assert(Seq::<char>::empty() + remove_all(v@, t@) =~= remove_all(v@, t@));
    }
    while i < n
        invariant
            i <= n,
            n == v@.len(),
            t@.len() > 0,
            remove_all(v@, t@) == out@ + remove_all(v@.subrange(i as int, n as int), t@),
        decreases n - i,
    {
        let ghost suf = v@.subrange(i as int, n as int);
        if matches_at_exec(v, t, i) {
            proof {
                lemma_matches_at_offset(v@, t@, i as int, 0);
                lemma_remove_all_head_match(suf, t@);
                assert(suf.subrange(t@.len() as int, suf.len() as int) =~= v@.subrange(
                    i + t@.len() as int,
                    n as int,
                ));
            }
            i = i + t.len();
        } else {
            proof {
                lemma_matches_at_offset(v@, t@, i as int, 0);
                lemma_remove_all_head_miss(suf, t@);
                assert(suf.drop_first() =~= v@.subrange(i + 1, n as int));
            }
            out.push(v[i]);
            proof {
                assert(out@ + remove_all(v@.subrange(i + 1, n as int), t@) =~= out@.drop_last() + (
                seq![v@[i as int]] + remove_all(v@.subrange(i + 1, n as int), t@)));
            }
            i = i + 1;
        }
    }
    proof {
        assert(v@.subrange(n as int, n as int) =~= Seq::<char>::empty());
        assert(remove_all(Seq::<char>::empty(), t@) == Seq::<char>::empty());
        assert(out@ + Seq::<char>::empty() =~= out@);
    }
    out
}

/// Iteratively removes the first span `open_c ... close_c` (both delimiters
/// included) until no opening delimiter is left; an opening delimiter with no
/// closing one after it stops the scan and is kept.
pub open spec fn strip_spans(s: Seq<char>, open_c: char, close_c: char) -> Seq<char>
    decreases s.len(),
{
    match find_char(s, open_c) {
        None => s,
        Some(i) => match find_char(s.subrange(i, s.len() as int), close_c) {
            None => s,
            Some(j) => if 0 <= i && 0 <= j && i + j + 1 <= s.len() {
                strip_spans(
                    s.subrange(0, i) + s.subrange(i + j + 1, s.len() as int),
                    open_c,
                    close_c,
                )
            } else {
                s
            },
        },
    }
}

/// First index at or after `from` holding `c`, as `find_char` on the suffix
/// gives it.
pub fn find_char_from_exec(v: &Vec<char>, c: char, from: usize) -> (r: Option<usize>)
    requires
        from <= v@.len(),
    ensures
        match r {
            Some(k) => from <= k && find_char(v@.subrange(from as int, v@.len() as int), c)
                == Some(k - from),
            None => find_char(v@.subrange(from as int, v@.len() as int), c) is None,
        },
{
    let ghost suf = v@.subrange(from as int, v@.len() as int);
    proof {
        lemma_find_char(suf, c);
    }
    let n = v.len();
    let mut i: usize = from;
    while i < n
        invariant
            from <= i <= n,
            forall|j: int| from <= j < i ==> v@[j] != c,
        decreases n - i,
    {
        if v[i] == c {
            proof {
                match find_char(suf, c) {
                    Some(k) => {
                        assert(suf[k] == v@[from + k]);
                        assert(suf[i - from] == v@[i as int]);
                        if k < i - from {
                            assert(v@[from + k] != c);
                        }
                        if k > i - from {
                            assert(suf[i - from] != c);
                        }
                    },
                    None => {
                        assert(suf[i - from] != c);
                    },
                }
            }
            return Some(i);
        }
        i = i + 1;
    }
    proof {
        if find_char(suf, c) is Some {
            let k = find_char(suf, c)->Some_0;
            assert(suf[k] == v@[from + k]);
        }
    }
    None
}

/// Copies `v` with the range `[a, b)` cut out.
pub fn splice_out(v: &Vec<char>, a: usize, b: usize) -> (r: Vec<char>)
    requires
        a <= b <= v@.len(),
    ensures
        r@ == v@.subrange(0, a as int) + v@.subrange(b as int, v@.len() as int),
{
    let n = v.len();
    let mut r: Vec<char> = Vec::new();
    for i in 0..a
        invariant
            a <= b <= n,
            n == v@.len(),
            r@ == v@.subrange(0, i as int),
    {
        r.push(v[i]);
        assert(r@ =~= v@.subrange(0, i + 1));
    }
    for i in b..n
        invariant
            a <= b <= i <= n,
            n == v@.len(),
            r@ == v@.subrange(0, a as int) + v@.subrange(b as int, i as int),
    {
        r.push(v[i]);
        assert(r@ =~= v@.subrange(0, a as int) + v@.subrange(b as int, i + 1));
    }
    assert(r@ =~= v@.subrange(0, a as int) + v@.subrange(b as int, n as int));
    r
}

/// Removes every completed `open_c ... close_c` span, as `strip_spans` says.
pub fn strip_spans_exec(v: Vec<char>, open_c: char, close_c: char) -> (r: Vec<char>)
    ensures
        r@ == strip_spans(v@, open_c, close_c),
{
    let mut cur = v;
    loop
        invariant
            strip_spans(cur@, open_c, close_c) == strip_spans(v@, open_c, close_c),
        decreases cur@.len(),
    {
        proof {
            assert(cur@.subrange(0, cur@.len() as int) =~= cur@);
        }
        let found = find_char_from_exec(&cur, open_c, 0);
        match found {
            None => {
                return cur;
            },
            Some(i) => {
                proof {
                    lemma_find_char(cur@, open_c);
                }
                match find_char_from_exec(&cur, close_c, i) {
                    None => {
                        return cur;
                    },
                    Some(k) => {
                        let ghost j = k - i;
                        proof {
                            lemma_find_char(cur@.subrange(i as int, cur@.len() as int), close_c);
                        }
                        let next = splice_out(&cur, i, k + 1);
                        proof {
                            assert(next@ == cur@.subrange(0, i as int) + cur@.subrange(
                                i + j + 1,
                                cur@.len() as int,
                            ));
                        }
                        cur = next;
                    },
                }
            },
        }
    }
}

/// Strict lexicographic order on character sequences by code point; the
/// order a relational store's binary collation gives to text.
pub open spec fn lex_lt(a: Seq<char>, b: Seq<char>) -> bool
    decreases a.len(),
{
    if b.len() == 0 {
        false
    } else if a.len() == 0 {
        true
    } else if a[0] != b[0] {
        (a[0] as u32) < (b[0] as u32)
    } else {
        lex_lt(a.drop_first(), b.drop_first())
    }
}

/// Decides `lex_lt` on character vectors.
pub fn lex_lt_exec(a: &Vec<char>, b: &Vec<char>) -> (r: bool)
    ensures
        r == lex_lt(a@, b@),
{
    let an = a.len();
    let bn = b.len();
    let mut i: usize = 0;
    proof {
        assert(a@.subrange(0, an as int) =~= a@);
        assert(b@.subrange(0, bn as int) =~= b@);
    }
    while i < an && i < bn
        invariant
            i <= an,
            i <= bn,
            an == a@.len(),
            bn == b@.len(),
            lex_lt(a@, b@) == lex_lt(
                a@.subrange(i as int, an as int),
                b@.subrange(i as int, bn as int),
            ),
        decreases an - i,
    {
        let ghost asuf = a@.subrange(i as int, an as int);
        let ghost bsuf = b@.subrange(i as int, bn as int);
        if a[i] != b[i] {
            return (a[i] as u32) < (b[i] as u32);
        }
        proof {
            assert(asuf.drop_first() =~= a@.subrange(i + 1, an as int));
            assert(bsuf.drop_first() =~= b@.subrange(i + 1, bn as int));
        }
        i = i + 1;
    }
    an < bn
}

/// Copies a character vector.
pub fn copy_chars(v: &Vec<char>) -> (r: Vec<char>)
    ensures
        r@ == v@,
{
    let n = v.len();
    let mut r: Vec<char> = Vec::new();
    for i in 0..n
        invariant
            n == v@.len(),
            r@ == v@.subrange(0, i as int),
    {
        r.push(v[i]);
        assert(r@ =~= v@.subrange(0, i + 1));
    }
    assert(r@ =~= v@);
    r
}

/// Decides whether two string slices hold the same characters.
pub fn str_eq(a: &str, b: &str) -> (r: bool)
    ensures
        r == (a@ == b@),
{
    let av = str_to_chars(a);
    let bv = str_to_chars(b);
    let n = av.len();
    if n != bv.len() {
        return false;
    }
    for i in 0..n
        invariant
            n == av@.len() == bv@.len(),
            av@ == a@,
            bv@ == b@,
            forall|j: int| 0 <= j < i ==> av@[j] == bv@[j],
    {
        if av[i] != bv[i] {
            return false;
        }
    }
    proof {
        assert(a@ =~= b@);
    }
    true
}

/// Appends the characters of `src` to `dst`.
pub fn append_chars(dst: &mut Vec<char>, src: &Vec<char>)
    ensures
        final(dst)@ == old(dst)@ + src@,
{
    let n = src.len();
    proof {
        assert(dst@ =~= dst@ + src@.subrange(0, 0));
    }
    for i in 0..n
        invariant
            n == src@.len(),
            dst@ == old(dst)@ + src@.subrange(0, i as int),
    {
        dst.push(src[i]);
        assert(dst@ =~= old(dst)@ + src@.subrange(0, i + 1));
    }
    assert(dst@ =~= old(dst)@ + src@);
}

/// Appends the characters of a string slice to `dst`.
pub fn append_str_chars(dst: &mut Vec<char>, s: &str)
    ensures
        final(dst)@ == old(dst)@ + s@,
{
    let v = str_to_chars(s);
    append_chars(dst, &v);
}

/// Case-insensitive (ASCII) substring match, the matching a relational
/// store's default `LIKE '%term%'` performs on text.
pub open spec fn contains_ci(s: Seq<char>, t: Seq<char>) -> bool {
    contains_sub(lower_seq(s), lower_seq(t))
}

/// Decides `contains_ci` on string slices.
pub fn contains_ci_exec(s: &str, t: &str) -> (r: bool)
    ensures
        r == contains_ci(s@, t@),
{
    let sv = str_to_chars(s);
    let tv = str_to_chars(t);
    let n = sv.len();
    let mut sl: Vec<char> = Vec::new();
    for i in 0..n
        invariant
            n == sv@.len(),
            sv@ == s@,
            sl@ == lower_seq(sv@.subrange(0, i as int)),
    {
        sl.push(lower_char_exec(sv[i]));
        assert(sl@ =~= lower_seq(sv@.subrange(0, i + 1)));
    }
    assert(sv@.subrange(0, n as int) =~= sv@);
    let m = tv.len();
    let mut tl: Vec<char> = Vec::new();
    for i in 0..m
        invariant
            m == tv@.len(),
            tv@ == t@,
            tl@ == lower_seq(tv@.subrange(0, i as int)),
    {
        tl.push(lower_char_exec(tv[i]));
        assert(tl@ =~= lower_seq(tv@.subrange(0, i + 1)));
    }
    assert(tv@.subrange(0, m as int) =~= tv@);
    proof {
        lemma_find_sub(sl@, tl@);
    }
    match find_sub_exec(&sl, &tl) {
        Some(_) => true,
        None => false,
    }
}

/// True for the ASCII decimal digits.
pub open spec fn is_digit(c: char) -> bool {
    '0' <= c && c <= '9'
}

/// Numeric value of an ASCII digit.
pub open spec fn digit_val(c: char) -> int {
    c as u32 - 48
}

/// The ASCII digit for a value below ten.
pub open spec fn digit_char(d: int) -> char {
    ((48 + d) as u8) as char
}

/// Every character is an ASCII digit.
pub open spec fn all_digits(s: Seq<char>) -> bool {
    forall|i: int| 0 <= i < s.len() ==> is_digit(#[trigger] s[i])
}

/// Value of a digit string read in base ten.
pub open spec fn dec_val(s: Seq<char>) -> int
    decreases s.len(),
{
    if s.len() == 0 {
        0
    } else {
        dec_val(s.drop_last()) * 10 + digit_val(s.last())
    }
}

/// Shortest base-ten digit string of a non-negative value.
pub open spec fn dec_digits(n: int) -> Seq<char>
    decreases n,
{
    if n < 10 {
        seq![digit_char(n)]
    } else {
        dec_digits(n / 10) + seq![digit_char(n % 10)]
    }
}

/// Base-ten rendering of a signed machine integer, as the standard
/// formatter writes it: a minus sign for negatives, no padding.
pub open spec fn i64_dec(n: i64) -> Seq<char> {
    if n < 0 {
        seq!['-'] + dec_digits(-(n as int))
    } else {
        dec_digits(n as int)
    }
}

/// A digit string's value is non-negative.
pub proof fn lemma_dec_val_nonneg(s: Seq<char>)
    requires
        all_digits(s),
    ensures
        dec_val(s) >= 0,
    decreases s.len(),
{
    if s.len() > 0 {
        assert(all_digits(s.drop_last()));
        lemma_dec_val_nonneg(s.drop_last());
        assert(dec_val(s.drop_last()) * 10 >= 0) by (nonlinear_arith)
            requires
                dec_val(s.drop_last()) >= 0,
        ;
    }
}

/// Once a digit prefix exceeds a bound, every longer digit string does too.
pub proof fn lemma_dec_val_extend_gt(s: Seq<char>, k: int, limit: int)
    requires
        all_digits(s),
        0 <= k <= s.len(),
        dec_val(s.subrange(0, k)) > limit,
        limit >= 0,
    ensures
        dec_val(s) > limit,
    decreases s.len() - k,
{
    if k == s.len() {
        assert(s.subrange(0, k) =~= s);
    } else {
        let p = s.subrange(0, k + 1);
        assert(p.drop_last() =~= s.subrange(0, k));
        assert(all_digits(p.drop_last()));
        assert(dec_val(p) == dec_val(s.subrange(0, k)) * 10 + digit_val(p.last()));
        assert(dec_val(s.subrange(0, k)) * 10 > limit * 10) by (nonlinear_arith)
            requires
                dec_val(s.subrange(0, k)) > limit,
        ;
        assert(limit * 10 >= limit) by (nonlinear_arith)
            requires
                limit >= 0,
        ;
        assert(digit_val(p.last()) >= 0);
        lemma_dec_val_extend_gt(s, k + 1, limit);
    }
}

/// Parses a base-ten signed integer with an optional single leading sign,
/// exactly as the standard `i64` parser accepts it: at least one digit, no
/// other characters, and the value within the type's range.
pub open spec fn parse_i64_spec(s: Seq<char>) -> Option<i64> {
    let signed = s.len() > 0 && (s[0] == '+' || s[0] == '-');
    let neg = s.len() > 0 && s[0] == '-';
    let ds = if signed {
        s.drop_first()
    } else {
        s
    };
    if ds.len() == 0 || !all_digits(ds) {
        None
    } else {
        let v = if neg {
            -dec_val(ds)
        } else {
            dec_val(ds)
        };
        if i64::MIN <= v <= i64::MAX {
            Some(v as i64)
        } else {
            None
        }
    }
}

/// Decides `parse_i64_spec` on a character vector.
pub fn parse_i64(v: &Vec<char>) -> (r: Option<i64>)
    ensures
        r == parse_i64_spec(v@),
{
    let n = v.len();
    let mut start: usize = 0;
    let mut neg = false;
    if n > 0 && (v[0] == '+' || v[0] == '-') {
        start = 1;
        neg = v[0] == '-';
    }
    let ghost ds = if start == 1 {
        v@.drop_first()
    } else {
        v@
    };
    proof {
        assert(ds =~= v@.subrange(start as int, n as int));
    }
    if start == n {
        return None;
    }
    let limit: u64 = if neg {
        9223372036854775808
    } else {
        9223372036854775807
    };
    let mut acc: u64 = 0;
    let mut i: usize = start;
    while i < n
        invariant
            start <= i <= n,
            acc <= limit,
            all_digits(ds.subrange(0, i - start)),
            acc == dec_val(ds.subrange(0, i - start)),
        decreases n - i,
    {
        let c = v[i];
        assert(c == ds[i - start]);
        if !('0' <= c && c <= '9') {
            assert(!is_digit(ds[i - start]));
            return None;
        }
        let d: u64 = (c as u32 - 48) as u64;
        let ghost pre = ds.subrange(0, i - start);
        let ghost ext = ds.subrange(0, i + 1 - start);
        proof {
            assert(ext.drop_last() =~= pre);
            assert(dec_val(ext) == acc * 10 + d);
        }
        if acc > (limit - d) / 10 {
            proof {
                assert(acc * 10 + d > limit) by (nonlinear_arith)
                    requires
                        acc > (limit - d) / 10,
                        0 <= d <= limit,
                        (limit - d) / 10 == ((limit - d) as int) / 10,
                ;
                assert(all_digits(ext));
                if all_digits(ds) {
                    lemma_dec_val_extend_gt(ds, i + 1 - start, limit as int);
                    lemma_dec_val_nonneg(ds);
                }
            }
            return None;
        }
        proof {
            assert(acc * 10 + d <= limit) by (nonlinear_arith)
                requires
                    acc <= (limit - d) / 10,
                    0 <= d <= limit,
                    (limit - d) / 10 == ((limit - d) as int) / 10,
            ;
        }
        acc = acc * 10 + d;
        i = i + 1;
        proof {
            assert(ds.subrange(0, i - start) =~= ext);
        }
    }
    proof {
        assert(ds.subrange(0, n - start) =~= ds);
        lemma_dec_val_nonneg(ds);
    }
    if neg {
        if acc == 9223372036854775808 {
            Some(i64::MIN)
        } else {
            Some(-(acc as i64))
        }
    } else {
        Some(acc as i64)
    }
}

/// Renders a signed machine integer in base ten, as `i64_dec` says.
pub fn i64_to_chars(n: i64) -> (r: Vec<char>)
    ensures
        r@ == i64_dec(n),
{
    let neg = n < 0;
    let mut m: u64 = if n == i64::MIN {
        9223372036854775808
    } else if n < 0 {
        (-n) as u64
    } else {
        n as u64
    };
    let ghost m0 = m as int;
    let mut acc: Vec<char> = Vec::new();
    proof {
        assert(dec_digits(m0) + acc@ =~= dec_digits(m0));
    }
    while m >= 10
        invariant
            dec_digits(m0) == dec_digits(m as int) + acc@,
        decreases m,
    {
        let d = m % 10;
        let c = ((48 + d) as u8) as char;
        acc.insert(0, c);
        proof {
            assert(dec_digits((m / 10) as int) + acc@ =~= (dec_digits((m / 10) as int) + seq![
                digit_char(m as int % 10),
            ]) + acc@.drop_first());
        }
        m = m / 10;
    }
    let c = ((48 + m) as u8) as char;
    acc.insert(0, c);
    proof {
        assert(seq![digit_char(m as int)] + acc@.drop_first() =~= acc@);
    }
    if neg {
        acc.insert(0, '-');
        proof {
            assert(seq!['-'] + acc@.drop_first() =~= acc@);
        }
    }
    acc
}

} // verus!
