//! The name sanitizer: normalizes a free-text channel or programme name into
//! the comparison key used for fuzzy matching. Lower-cases, strips bracketed
//! spans, removes a fixed list of quality and region tokens, and keeps only
//! letters and digits. Intentionally aggressive: two names with the same key
//! are treated as the same logical channel.

use vstd::prelude::*;

use crate::text::{
    chars_to_string, contains_sub, find_char, find_sub, is_alnum_char, is_alnum_char_exec,
    is_upper_ascii, lemma_find_char, lemma_remove_all_absent, lower_char, lower_char_exec,
    lower_seq, remove_all, remove_all_exec, str_to_chars, strip_spans, strip_spans_exec,
};

verus! {

/// The quality and region tokens removed as raw substrings, in removal
/// order (longer tokens stand before their own substrings).
pub open spec fn removal_tokens() -> Seq<Seq<char>> {
    seq![
        "fhd"@,
        "uhd"@,
        "hevc"@,
        "h.265"@,
        "h265"@,
        "4k"@,
        "8k"@,
        "hd"@,
        "sd"@,
        "50fps"@,
        "60fps"@,
        "vip"@,
        "ca:"@,
        "us:"@,
        "uk:"@,
    ]
}

/// Removes each token of `toks` in turn from `s`.
pub open spec fn remove_tokens(s: Seq<char>, toks: Seq<Seq<char>>) -> Seq<char>
    decreases toks.len(),
{
    if toks.len() == 0 {
        s
    } else {
        remove_tokens(remove_all(s, toks[0]), toks.drop_first())
    }
}

/// Keeps only the letters and digits of `s`.
pub open spec fn keep_alnum(s: Seq<char>) -> Seq<char>
    decreases s.len(),
{
    if s.len() == 0 {
        Seq::<char>::empty()
    } else if is_alnum_char(s.last()) {
        keep_alnum(s.drop_last()) + seq![s.last()]
    } else {
        keep_alnum(s.drop_last())
    }
}

/// The sanitizer's whole pipeline: case-fold, strip `(...)` then `[...]`
/// spans, remove the quality tokens, keep letters and digits.
pub open spec fn sanitize_spec(s: Seq<char>) -> Seq<char> {
    keep_alnum(
        remove_tokens(
            strip_spans(strip_spans(lower_seq(s), '(', ')'), '[', ']'),
            removal_tokens(),
        ),
    )
}

/// Normalizes a channel or programme name into its comparison key.
pub fn sanitize_name(name: &str) -> (r: String)
    ensures
        r@ == sanitize_spec(name@),
{
    let chars = str_to_chars(name);
    let n = chars.len();
    let mut low: Vec<char> = Vec::new();
    for i in 0..n
        invariant
            n == chars@.len(),
            low@ == lower_seq(chars@.subrange(0, i as int)),
    {
        low.push(lower_char_exec(chars[i]));
        assert(low@ =~= lower_seq(chars@.subrange(0, i + 1)));
    }
    assert(chars@.subrange(0, n as int) =~= chars@);
    let p1 = strip_spans_exec(low, '(', ')');
    let p2 = strip_spans_exec(p1, '[', ']');

    let mut toks: Vec<Vec<char>> = Vec::new();
    toks.push(str_to_chars("fhd"));
    toks.push(str_to_chars("uhd"));
    toks.push(str_to_chars("hevc"));
    toks.push(str_to_chars("h.265"));
    toks.push(str_to_chars("h265"));
    toks.push(str_to_chars("4k"));
    toks.push(str_to_chars("8k"));
    toks.push(str_to_chars("hd"));
    toks.push(str_to_chars("sd"));
    toks.push(str_to_chars("50fps"));
    toks.push(str_to_chars("60fps"));
    toks.push(str_to_chars("vip"));
    toks.push(str_to_chars("ca:"));
    toks.push(str_to_chars("us:"));
    toks.push(str_to_chars("uk:"));
    proof {
        reveal_strlit("fhd");
        reveal_strlit("uhd");
        reveal_strlit("hevc");
        reveal_strlit("h.265");
        reveal_strlit("h265");
        reveal_strlit("4k");
        reveal_strlit("8k");
        reveal_strlit("hd");
        reveal_strlit("sd");
        reveal_strlit("50fps");
        reveal_strlit("60fps");
        reveal_strlit("vip");
        reveal_strlit("ca:");
        reveal_strlit("us:");
        reveal_strlit("uk:");
        assert forall|k: int| 0 <= k < 15 implies toks@[k]@ == removal_tokens()[k] by {}
        assert(removal_tokens().skip(0) =~= removal_tokens());
    }

    let mut cur = p2;
    let m = toks.len();
    for i in 0..m
        invariant
            m == 15,
            toks@.len() == 15,
            forall|k: int| 0 <= k < 15 ==> (#[trigger] toks@[k])@ == removal_tokens()[k],
            forall|k: int| 0 <= k < 15 ==> (#[trigger] toks@[k])@.len() > 0,
            remove_tokens(p2@, removal_tokens()) == remove_tokens(
                cur@,
                removal_tokens().skip(i as int),
            ),
    {
        let ghost rest = removal_tokens().skip(i as int);
        proof {
            assert(rest[0] == removal_tokens()[i as int]);
            assert(rest.drop_first() =~= removal_tokens().skip(i + 1));
        }
        cur = remove_all_exec(&cur, &toks[i]);
    }
    proof {
        assert(removal_tokens().skip(15) =~= Seq::<Seq<char>>::empty());
    }

    let cn = cur.len();
    let mut kept: Vec<char> = Vec::new();
    for i in 0..cn
        invariant
            cn == cur@.len(),
            kept@ == keep_alnum(cur@.subrange(0, i as int)),
    {
        let ghost pre = cur@.subrange(0, i + 1);
        proof {
            assert(pre.drop_last() =~= cur@.subrange(0, i as int));
            assert(pre.last() == cur@[i as int]);
        }
        if is_alnum_char_exec(cur[i]) {
            kept.push(cur[i]);
        }
    }
    assert(cur@.subrange(0, cn as int) =~= cur@);
    chars_to_string(&kept)
}

/// Every character the final pass keeps is a letter or digit.
proof fn lemma_keep_alnum_all(s: Seq<char>)
    ensures
        forall|i: int| 0 <= i < keep_alnum(s).len() ==> is_alnum_char(#[trigger] keep_alnum(s)[i]),
    decreases s.len(),
{
    if s.len() > 0 {
        lemma_keep_alnum_all(s.drop_last());
        assert forall|i: int| 0 <= i < keep_alnum(s).len() implies is_alnum_char(
            keep_alnum(s)[i],
        ) by {
            if is_alnum_char(s.last()) && i == keep_alnum(s.drop_last()).len() {
                assert(keep_alnum(s)[i] == s.last());
            } else {
                assert(keep_alnum(s)[i] == keep_alnum(s.drop_last())[i]);
            }
        }
    }
}

/// On a string of letters and digits the final pass changes nothing.
proof fn lemma_keep_alnum_id(s: Seq<char>)
    requires
        forall|i: int| 0 <= i < s.len() ==> is_alnum_char(#[trigger] s[i]),
    ensures
        keep_alnum(s) == s,
    decreases s.len(),
{
    if s.len() > 0 {
        assert(forall|i: int| 0 <= i < s.drop_last().len() ==> is_alnum_char(
            #[trigger] s.drop_last()[i],
        ));
        lemma_keep_alnum_id(s.drop_last());
        assert(keep_alnum(s.drop_last()) + seq![s.last()] =~= s);
    }
}

/// The final pass only keeps characters of its input, so a property of every
/// input character holds of every output character.
proof fn lemma_keep_alnum_pres(s: Seq<char>, p: spec_fn(char) -> bool)
    requires
        forall|i: int| 0 <= i < s.len() ==> p(#[trigger] s[i]),
    ensures
        forall|i: int| 0 <= i < keep_alnum(s).len() ==> p(#[trigger] keep_alnum(s)[i]),
    decreases s.len(),
{
    if s.len() > 0 {
        lemma_keep_alnum_pres(s.drop_last(), p);
        assert forall|i: int| 0 <= i < keep_alnum(s).len() implies p(keep_alnum(s)[i]) by {
            if is_alnum_char(s.last()) && i == keep_alnum(s.drop_last()).len() {
                assert(keep_alnum(s)[i] == s.last());
            } else {
                assert(keep_alnum(s)[i] == keep_alnum(s.drop_last())[i]);
            }
        }
    }
}

/// Span stripping only keeps characters of its input.
proof fn lemma_strip_spans_pres(s: Seq<char>, oc: char, cc: char, p: spec_fn(char) -> bool)
    requires
        forall|i: int| 0 <= i < s.len() ==> p(#[trigger] s[i]),
    ensures
        forall|i: int| 0 <= i < strip_spans(s, oc, cc).len() ==> p(
            #[trigger] strip_spans(s, oc, cc)[i],
        ),
    decreases s.len(),
{
    match find_char(s, oc) {
        None => {},
        Some(i) => {
            lemma_find_char(s, oc);
            match find_char(s.subrange(i, s.len() as int), cc) {
                None => {},
                Some(j) => {
                    lemma_find_char(s.subrange(i, s.len() as int), cc);
                    if 0 <= i && 0 <= j && i + j + 1 <= s.len() {
                        let nxt = s.subrange(0, i) + s.subrange(i + j + 1, s.len() as int);
                        assert forall|k: int| 0 <= k < nxt.len() implies p(nxt[k]) by {
                            if k < i {
                                assert(nxt[k] == s[k]);
                            } else {
                                assert(nxt[k] == s[k + j + 1]);
                            }
                        }
                        lemma_strip_spans_pres(nxt, oc, cc, p);
                        assert(strip_spans(s, oc, cc) == strip_spans(nxt, oc, cc));
                        assert forall|k: int| 0 <= k < strip_spans(s, oc, cc).len() implies p(
                            strip_spans(s, oc, cc)[k],
                        ) by {
                            assert(strip_spans(s, oc, cc)[k] == strip_spans(nxt, oc, cc)[k]);
                        }
                    }
                },
            }
        },
    }
}

/// Token removal only keeps characters of its input.
proof fn lemma_remove_all_pres(s: Seq<char>, t: Seq<char>, p: spec_fn(char) -> bool)
    requires
        forall|i: int| 0 <= i < s.len() ==> p(#[trigger] s[i]),
    ensures
        forall|i: int| 0 <= i < remove_all(s, t).len() ==> p(#[trigger] remove_all(s, t)[i]),
    decreases s.len(),
{
    if t.len() == 0 {
    } else {
        match find_sub(s, t) {
            None => {},
            Some(i) => {
                if 0 <= i && i + t.len() <= s.len() {
                    let suf = s.subrange(i + t.len() as int, s.len() as int);
                    assert forall|k: int| 0 <= k < suf.len() implies p(suf[k]) by {
                        assert(suf[k] == s[k + i + t.len()]);
                    }
                    lemma_remove_all_pres(suf, t, p);
                    let pre = s.subrange(0, i);
                    assert(remove_all(s, t) == pre + remove_all(suf, t));
                    assert forall|k: int| 0 <= k < remove_all(s, t).len() implies p(
                        remove_all(s, t)[k],
                    ) by {
                        if k < i {
                            assert(remove_all(s, t)[k] == s[k]);
                        } else {
                            assert(remove_all(s, t)[k] == remove_all(suf, t)[k - i]);
                        }
                    }
                }
            },
        }
    }
}

/// Removing a token list only keeps characters of the input.
proof fn lemma_remove_tokens_pres(s: Seq<char>, toks: Seq<Seq<char>>, p: spec_fn(char) -> bool)
    requires
        forall|i: int| 0 <= i < s.len() ==> p(#[trigger] s[i]),
    ensures
        forall|i: int| 0 <= i < remove_tokens(s, toks).len() ==> p(
            #[trigger] remove_tokens(s, toks)[i],
        ),
    decreases toks.len(),
{
    if toks.len() > 0 {
        lemma_remove_all_pres(s, toks[0], p);
        lemma_remove_tokens_pres(remove_all(s, toks[0]), toks.drop_first(), p);
        assert(remove_tokens(s, toks) == remove_tokens(remove_all(s, toks[0]), toks.drop_first()));
        assert forall|i: int| 0 <= i < remove_tokens(s, toks).len() implies p(
            remove_tokens(s, toks)[i],
        ) by {
            assert(remove_tokens(s, toks)[i] == remove_tokens(
                remove_all(s, toks[0]),
                toks.drop_first(),
            )[i]);
        }
    }
}

/// Case folding leaves no ASCII capital letter behind.
proof fn lemma_lower_seq_no_upper(s: Seq<char>)
    ensures
        forall|i: int| 0 <= i < lower_seq(s).len() ==> !is_upper_ascii(#[trigger] lower_seq(s)[i]),
{
    assert forall|i: int| 0 <= i < lower_seq(s).len() implies !is_upper_ascii(lower_seq(s)[i]) by {
        assert(lower_seq(s)[i] == lower_char(s[i]));
    }
}

/// Case folding changes nothing when no ASCII capital letter is present.
proof fn lemma_lower_seq_id(s: Seq<char>)
    requires
        forall|i: int| 0 <= i < s.len() ==> !is_upper_ascii(#[trigger] s[i]),
    ensures
        lower_seq(s) == s,
{
    assert(lower_seq(s) =~= s);
}

/// Span stripping changes nothing when no opening delimiter is present.
proof fn lemma_strip_spans_absent(s: Seq<char>, oc: char, cc: char)
    requires
        forall|i: int| 0 <= i < s.len() ==> s[i] != oc,
    ensures
        strip_spans(s, oc, cc) == s,
{
    lemma_find_char(s, oc);
    if find_char(s, oc) is Some {
        assert(s[find_char(s, oc)->Some_0] == oc);
    }
}

/// Removing a token list changes nothing when no token occurs.
proof fn lemma_remove_tokens_absent(s: Seq<char>, toks: Seq<Seq<char>>)
    requires
        forall|k: int| 0 <= k < toks.len() ==> (#[trigger] toks[k]).len() > 0,
        forall|k: int| 0 <= k < toks.len() ==> !contains_sub(s, #[trigger] toks[k]),
    ensures
        remove_tokens(s, toks) == s,
    decreases toks.len(),
{
    if toks.len() > 0 {
        lemma_remove_all_absent(s, toks[0]);
        lemma_remove_tokens_absent(s, toks.drop_first());
    }
}

/// The sanitizer is idempotent on every input whose key is free of the
/// removal tokens: sanitizing a second time changes nothing. (A key can
/// contain a token — stripping punctuation can splice one together — and a
/// second pass then removes it, so the token-free premise is genuinely
/// needed.)
pub proof fn lemma_sanitize_idempotent(s: Seq<char>)
    requires
        forall|k: int| 0 <= k < removal_tokens().len() ==> !contains_sub(
            sanitize_spec(s),
            #[trigger] removal_tokens()[k],
        ),
    ensures
        sanitize_spec(sanitize_spec(s)) == sanitize_spec(s),
{
    let no_upper = |c: char| !is_upper_ascii(c);
    let low = lower_seq(s);
    let st1 = strip_spans(low, '(', ')');
    let st2 = strip_spans(st1, '[', ']');
    let z = remove_tokens(st2, removal_tokens());
    let y = sanitize_spec(s);

    lemma_keep_alnum_all(z);
    lemma_lower_seq_no_upper(s);
    lemma_strip_spans_pres(low, '(', ')', no_upper);
    lemma_strip_spans_pres(st1, '[', ']', no_upper);
    lemma_remove_tokens_pres(st2, removal_tokens(), no_upper);
    lemma_keep_alnum_pres(z, no_upper);
    lemma_lower_seq_id(y);

    assert(!is_alnum_char('('));
    assert(!is_alnum_char('['));
    lemma_strip_spans_absent(y, '(', ')');
    lemma_strip_spans_absent(y, '[', ']');

    reveal_strlit("fhd");
    reveal_strlit("uhd");
    reveal_strlit("hevc");
    reveal_strlit("h.265");
    reveal_strlit("h265");
    reveal_strlit("4k");
    reveal_strlit("8k");
    reveal_strlit("hd");
    reveal_strlit("sd");
    reveal_strlit("50fps");
    reveal_strlit("60fps");
    reveal_strlit("vip");
    reveal_strlit("ca:");
    reveal_strlit("us:");
    reveal_strlit("uk:");
    assert(forall|k: int| 0 <= k < removal_tokens().len() ==> (#[trigger] removal_tokens()[k]).len()
        > 0);
    lemma_remove_tokens_absent(y, removal_tokens());
    lemma_keep_alnum_id(y);
}

} // verus!
