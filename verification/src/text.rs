//! Character-sequence primitives: substring matching and literal
//! replace-all, the foundation of the template engine.

use vstd::prelude::*;

verus! {

/// `pat` occurs in `text` starting at position `i`.
pub open spec fn match_at(text: Seq<char>, pat: Seq<char>, i: int) -> bool {
    &&& 0 <= i
    &&& i + pat.len() <= text.len()
    &&& text.subrange(i, i + pat.len()) == pat
}

/// `pat` occurs somewhere in `text` (always true of the empty pattern).
pub open spec fn contains_seq(text: Seq<char>, pat: Seq<char>) -> bool {
    exists|i: int| match_at(text, pat, i)
}

/// `p` is a prefix of `s`.
pub open spec fn is_prefix_of(p: Seq<char>, s: Seq<char>) -> bool {
    p.len() <= s.len() && p == s.subrange(0, p.len() as int)
}

/// The result of replacing every occurrence of `pat` in `text` by `to`,
/// scanning left to right and never re-scanning inserted text.
/// An empty pattern matches at every character boundary, so `to` is then
/// inserted before every character and once more at the end.
pub open spec fn replace_all(text: Seq<char>, pat: Seq<char>, to: Seq<char>) -> Seq<char>
    decreases text.len(),
{
    if pat.len() == 0 {
        if text.len() == 0 {
            to
        } else {
            to + seq![text[0]] + replace_all(text.skip(1), pat, to)
        }
    } else if text.len() < pat.len() {
        text
    } else if text.subrange(0, pat.len() as int) == pat {
        to + replace_all(text.skip(pat.len() as int), pat, to)
    } else {
        seq![text[0]] + replace_all(text.skip(1), pat, to)
    }
}

/// The replacement text cannot conspire with its surroundings to form the
/// pattern again: it does not contain the pattern; no nonempty proper
/// suffix of the pattern starts the replacement or extends past it; and no
/// nonempty suffix of the replacement shorter than the pattern starts the
/// pattern.
pub open spec fn safe_replacement(pat: Seq<char>, to: Seq<char>) -> bool {
    &&& !contains_seq(to, pat)
    &&& forall|j: int|
        0 < j < pat.len() ==> !is_prefix_of(#[trigger] pat.skip(j), to) && !is_prefix_of(
            to,
            pat.skip(j),
        )
    &&& forall|i: int|
        0 <= i < to.len() && to.len() - i < pat.len() ==> !is_prefix_of(
            #[trigger] to.skip(i),
            pat,
        )
}

/// A proper tail of the pattern standing at the start of a replaced text
/// can only have come from the input text.
proof fn lemma_partial_pattern_prefix(text: Seq<char>, pat: Seq<char>, to: Seq<char>, j: int)
    requires
        pat.len() > 0,
        safe_replacement(pat, to),
        0 < j < pat.len(),
        is_prefix_of(pat.skip(j), replace_all(text, pat, to)),
    ensures
        is_prefix_of(pat.skip(j), text),
    decreases text.len(),
{
    let r = replace_all(text, pat, to);
    let sigma = pat.skip(j);
    assert(0 < sigma.len() <= pat.len());
    if text.len() < pat.len() {
        // The text is returned unchanged.
    } else if text.subrange(0, pat.len() as int) == pat {
        // The result starts with the replacement; either way the overlap
        // that `safe_replacement` rules out would be needed.
        if sigma.len() <= to.len() {
            assert(is_prefix_of(sigma, to)) by {
                assert forall|x: int| 0 <= x < sigma.len() implies sigma[x] == to[x] by {
                    assert(sigma[x] == r.subrange(0, sigma.len() as int)[x]);
                }
                assert(sigma =~= to.subrange(0, sigma.len() as int));
            }
            assert(false);
        } else {
            assert(is_prefix_of(to, sigma)) by {
                assert forall|x: int| 0 <= x < to.len() implies to[x] == sigma[x] by {
                    assert(sigma[x] == r.subrange(0, sigma.len() as int)[x]);
                }
                assert(to =~= sigma.subrange(0, to.len() as int));
            }
            assert(false);
        }
    } else {
        let rp = replace_all(text.skip(1), pat, to);
        assert(r == seq![text[0]] + rp);
        assert(sigma[0] == r[0]) by {
            assert(sigma[0] == r.subrange(0, sigma.len() as int)[0]);
        }
        assert(sigma[0] == text[0]);
        if j + 1 == pat.len() {
            assert(sigma =~= text.subrange(0, 1));
        } else {
            assert(is_prefix_of(pat.skip(j + 1), rp)) by {
                assert forall|x: int| 0 <= x < pat.len() - j - 1 implies pat.skip(j + 1)[x]
                    == rp[x] by {
                    assert(pat.skip(j + 1)[x] == sigma[x + 1]);
                    assert(sigma[x + 1] == r.subrange(0, sigma.len() as int)[x + 1]);
                    assert(r[x + 1] == rp[x]);
                }
                assert(pat.skip(j + 1) =~= rp.subrange(0, pat.len() - j - 1));
            }
            lemma_partial_pattern_prefix(text.skip(1), pat, to, j + 1);
            assert(is_prefix_of(sigma, text)) by {
                assert forall|x: int| 0 <= x < sigma.len() implies sigma[x] == text[x] by {
                    if x > 0 {
                        assert(sigma[x] == pat.skip(j + 1)[x - 1]);
                        assert(pat.skip(j + 1)[x - 1] == pat.skip(j + 1).subrange(
                            0,
                            pat.len() - j - 1,
                        )[x - 1]);
                        assert(pat.skip(j + 1).subrange(0, pat.len() - j - 1)[x - 1]
                            == text.skip(1).subrange(0, pat.len() - j - 1)[x - 1]);
                    }
                }
                assert(sigma =~= text.subrange(0, sigma.len() as int));
            }
        }
    }
}

/// Round trip: once every occurrence of `pat` is replaced by a safe
/// replacement, searching for `pat` never finds it again.
pub proof fn lemma_replace_all_round_trip(text: Seq<char>, pat: Seq<char>, to: Seq<char>)
    requires
        pat.len() > 0,
        safe_replacement(pat, to),
    ensures
        !contains_seq(replace_all(text, pat, to), pat),
    decreases text.len(),
{
    let r = replace_all(text, pat, to);
    if text.len() < pat.len() {
        assert(forall|i: int| !match_at(r, pat, i));
    } else if text.subrange(0, pat.len() as int) == pat {
        lemma_replace_all_round_trip(text.skip(pat.len() as int), pat, to);
        let rp = replace_all(text.skip(pat.len() as int), pat, to);
        assert(r == to + rp);
        assert forall|i: int| !match_at(r, pat, i) by {
            if match_at(r, pat, i) {
                if i + pat.len() <= to.len() {
                    assert(match_at(to, pat, i)) by {
                        assert forall|x: int| 0 <= x < pat.len() implies to.subrange(
                            i,
                            i + pat.len(),
                        )[x] == pat[x] by {
                            assert(to[i + x] == r[i + x]);
                            assert(r.subrange(i, i + pat.len())[x] == pat[x]);
                        }
                        assert(to.subrange(i, i + pat.len()) =~= pat);
                    }
                    assert(contains_seq(to, pat));
                    assert(false);
                } else if i >= to.len() {
                    assert(match_at(rp, pat, i - to.len())) by {
                        assert forall|x: int| 0 <= x < pat.len() implies rp.subrange(
                            i - to.len(),
                            i - to.len() + pat.len(),
                        )[x] == pat[x] by {
                            assert(rp[i - to.len() + x] == r[i + x]);
                            assert(r.subrange(i, i + pat.len())[x] == pat[x]);
                        }
                        assert(rp.subrange(i - to.len(), i - to.len() + pat.len()) =~= pat);
                    }
                    assert(contains_seq(rp, pat));
                    assert(false);
                } else {
                    // The occurrence would straddle the end of the
                    // replacement: a suffix of `to` would start `pat`.
                    let k = to.len() - i;
                    assert(0 < k < pat.len());
                    assert(is_prefix_of(to.skip(i), pat)) by {
                        assert forall|x: int| 0 <= x < k implies to.skip(i)[x] == pat[x] by {
                            assert(to[i + x] == r[i + x]);
                            assert(r.subrange(i, i + pat.len())[x] == pat[x]);
                        }
                        assert(to.skip(i) =~= pat.subrange(0, k));
                    }
                    assert(false);
                }
            }
        }
    } else {
        lemma_replace_all_round_trip(text.skip(1), pat, to);
        let rp = replace_all(text.skip(1), pat, to);
        assert(r == seq![text[0]] + rp);
        assert forall|i: int| !match_at(r, pat, i) by {
            if match_at(r, pat, i) {
                if i >= 1 {
                    assert(match_at(rp, pat, i - 1)) by {
                        assert forall|x: int| 0 <= x < pat.len() implies rp.subrange(
                            i - 1,
                            i - 1 + pat.len(),
                        )[x] == pat[x] by {
                            assert(rp[i - 1 + x] == r[i + x]);
                            assert(r.subrange(i, i + pat.len())[x] == pat[x]);
                        }
                        assert(rp.subrange(i - 1, i - 1 + pat.len()) =~= pat);
                    }
                    assert(contains_seq(rp, pat));
                    assert(false);
                } else {
                    assert(pat[0] == r[0]) by {
                        assert(r.subrange(0, pat.len() as int)[0] == pat[0]);
                    }
                    assert(pat[0] == text[0]);
                    if pat.len() == 1 {
                        assert(text.subrange(0, 1) =~= pat);
                        assert(false);
                    } else {
                        assert(is_prefix_of(pat.skip(1), rp)) by {
                            assert forall|x: int| 0 <= x < pat.len() - 1 implies pat.skip(
                                1,
                            )[x] == rp[x] by {
                                assert(r.subrange(0, pat.len() as int)[x + 1] == pat[x + 1]);
                                assert(r[x + 1] == rp[x]);
                            }
                            assert(pat.skip(1) =~= rp.subrange(0, pat.len() - 1));
                        }
                        lemma_partial_pattern_prefix(text.skip(1), pat, to, 1);
                        assert(text.subrange(0, pat.len() as int) =~= pat) by {
                            assert forall|x: int| 0 <= x < pat.len() implies text.subrange(
                                0,
                                pat.len() as int,
                            )[x] == pat[x] by {
                                if x > 0 {
                                    assert(pat.skip(1)[x - 1] == pat.skip(1).subrange(
                                        0,
                                        pat.len() - 1,
                                    )[x - 1]);
                                    assert(pat.skip(1).subrange(0, pat.len() - 1)[x - 1]
                                        == text.skip(1).subrange(0, pat.len() - 1)[x - 1]);
                                    assert(text.skip(1)[x - 1] == text[x]);
                                }
                            }
                        }
                        assert(false);
                    }
                }
            }
        }
    }
}

/// Replacing a pattern by itself changes nothing.
pub proof fn lemma_replace_all_self(text: Seq<char>, pat: Seq<char>)
    ensures
        replace_all(text, pat, pat) == text,
    decreases text.len(),
{
    if pat.len() == 0 {
        if text.len() > 0 {
            lemma_replace_all_self(text.skip(1), pat);
            assert(replace_all(text, pat, pat) =~= text);
        }
    } else if text.len() < pat.len() {
    } else if text.subrange(0, pat.len() as int) == pat {
        lemma_replace_all_self(text.skip(pat.len() as int), pat);
        assert(text =~= text.subrange(0, pat.len() as int) + text.skip(pat.len() as int));
    } else {
        lemma_replace_all_self(text.skip(1), pat);
        assert(text =~= seq![text[0]] + text.skip(1));
    }
}

/// How replacing changes the length: it grows, shrinks or keeps the text
/// exactly as the replacement compares to the pattern.
proof fn lemma_replace_all_len(text: Seq<char>, pat: Seq<char>, to: Seq<char>)
    requires
        pat.len() > 0,
    ensures
        to.len() == pat.len() ==> replace_all(text, pat, to).len() == text.len(),
        to.len() > pat.len() ==> replace_all(text, pat, to).len() >= text.len() && (
        contains_seq(text, pat) ==> replace_all(text, pat, to).len() > text.len()),
        to.len() < pat.len() ==> replace_all(text, pat, to).len() <= text.len() && (
        contains_seq(text, pat) ==> replace_all(text, pat, to).len() < text.len()),
    decreases text.len(),
{
    if text.len() < pat.len() {
        assert(forall|i: int| !match_at(text, pat, i));
    } else if text.subrange(0, pat.len() as int) == pat {
        lemma_replace_all_len(text.skip(pat.len() as int), pat, to);
    } else {
        lemma_replace_all_len(text.skip(1), pat, to);
        if contains_seq(text, pat) {
            let i = choose|i: int| match_at(text, pat, i);
            assert(i >= 1);
            assert(match_at(text.skip(1), pat, i - 1)) by {
                assert forall|x: int| 0 <= x < pat.len() implies text.skip(1).subrange(
                    i - 1,
                    i - 1 + pat.len(),
                )[x] == pat[x] by {
                    assert(text.skip(1)[i - 1 + x] == text[i + x]);
                    assert(text.subrange(i, i + pat.len())[x] == pat[x]);
                }
                assert(text.skip(1).subrange(i - 1, i - 1 + pat.len()) =~= pat);
            }
            assert(contains_seq(text.skip(1), pat));
        }
    }
}

/// Replacing a present pattern by something else always changes the text.
pub proof fn lemma_replace_all_changes(text: Seq<char>, pat: Seq<char>, to: Seq<char>)
    requires
        pat.len() > 0,
        contains_seq(text, pat),
        to != pat,
    ensures
        replace_all(text, pat, to) != text,
    decreases text.len(),
{
    let r = replace_all(text, pat, to);
    lemma_replace_all_len(text, pat, to);
    if to.len() != pat.len() {
        assert(r.len() != text.len());
    } else if text.len() < pat.len() {
        let i = choose|i: int| match_at(text, pat, i);
        assert(false);
    } else if text.subrange(0, pat.len() as int) == pat {
        let rp = replace_all(text.skip(pat.len() as int), pat, to);
        assert(r == to + rp);
        if r == text {
            assert(to =~= pat) by {
                assert forall|x: int| 0 <= x < pat.len() implies to[x] == pat[x] by {
                    assert(r[x] == to[x]);
                    assert(text.subrange(0, pat.len() as int)[x] == pat[x]);
                }
            }
            assert(false);
        }
    } else {
        let i = choose|i: int| match_at(text, pat, i);
        assert(i >= 1);
        assert(match_at(text.skip(1), pat, i - 1)) by {
            assert forall|x: int| 0 <= x < pat.len() implies text.skip(1).subrange(
                i - 1,
                i - 1 + pat.len(),
            )[x] == pat[x] by {
                assert(text.skip(1)[i - 1 + x] == text[i + x]);
                assert(text.subrange(i, i + pat.len())[x] == pat[x]);
            }
            assert(text.skip(1).subrange(i - 1, i - 1 + pat.len()) =~= pat);
        }
        lemma_replace_all_changes(text.skip(1), pat, to);
        let rp = replace_all(text.skip(1), pat, to);
        assert(r == seq![text[0]] + rp);
        if r == text {
            assert(rp =~= text.skip(1)) by {
                assert(rp.len() == text.len() - 1);
                assert forall|x: int| 0 <= x < rp.len() implies rp[x] == text.skip(1)[x] by {
                    assert(r[x + 1] == rp[x]);
                }
            }
            assert(false);
        }
    }
}

/// Lexicographic order on character sequences, by code point.
pub open spec fn lex_le(a: Seq<char>, b: Seq<char>) -> bool
    decreases a.len(),
{
    if a.len() == 0 {
        true
    } else if b.len() == 0 {
        false
    } else if a[0] < b[0] {
        true
    } else if a[0] > b[0] {
        false
    } else {
        lex_le(a.drop_first(), b.drop_first())
    }
}

/// Any two sequences are ordered one way or the other.
pub proof fn lemma_lex_le_total(a: Seq<char>, b: Seq<char>)
    ensures
        lex_le(a, b) || lex_le(b, a),
    decreases a.len(),
{
    if a.len() > 0 && b.len() > 0 && a[0] == b[0] {
        lemma_lex_le_total(a.drop_first(), b.drop_first());
    }
}

/// Lexicographic order is transitive.
pub proof fn lemma_lex_le_trans(a: Seq<char>, b: Seq<char>, c: Seq<char>)
    requires
        lex_le(a, b),
        lex_le(b, c),
    ensures
        lex_le(a, c),
    decreases a.len(),
{
    if a.len() > 0 && b.len() > 0 && c.len() > 0 && a[0] == b[0] && b[0] == c[0] {
        lemma_lex_le_trans(a.drop_first(), b.drop_first(), c.drop_first());
    }
}

/// Sequences ordered both ways are equal.
pub proof fn lemma_lex_le_antisym(a: Seq<char>, b: Seq<char>)
    requires
        lex_le(a, b),
        lex_le(b, a),
    ensures
        a == b,
    decreases a.len(),
{
    if a.len() > 0 && b.len() > 0 {
        assert(a[0] == b[0]);
        lemma_lex_le_antisym(a.drop_first(), b.drop_first());
        assert(a =~= seq![a[0]] + a.drop_first());
        assert(b =~= seq![b[0]] + b.drop_first());
    } else {
        assert(a.len() == 0 && b.len() == 0);
        assert(a =~= b);
    }
}

/// Whether `a` sorts at or before `b`, decided executably.
pub fn chars_lex_le(a: &Vec<char>, b: &Vec<char>) -> (r: bool)
    ensures
        r == lex_le(a@, b@),
{
    let na = a.len();
    let nb = b.len();
    let mut i: usize = 0;
    proof {
        assert(a@.skip(0) =~= a@);
        assert(b@.skip(0) =~= b@);
    }
    while i < na && i < nb
        invariant
            na == a@.len(),
            nb == b@.len(),
            0 <= i <= na,
            0 <= i <= nb,
            lex_le(a@, b@) == lex_le(a@.skip(i as int), b@.skip(i as int)),
        decreases na - i,
    {
        let x = a[i];
        let y = b[i];
        if x < y {
            return true;
        }
        if x > y {
            return false;
        }
        proof {
            assert(a@.skip(i as int).drop_first() =~= a@.skip(i + 1));
            assert(b@.skip(i as int).drop_first() =~= b@.skip(i + 1));
        }
        i += 1;
    }
    i >= na
}

/// Whether `pat` occurs in `text` at position `start`, decided executably.
pub fn check_match_at(text: &Vec<char>, pat: &Vec<char>, start: usize) -> (r: bool)
    requires
        start + pat@.len() <= text@.len(),
    ensures
        r == match_at(text@, pat@, start as int),
{
    let n = text.len();
    let m = pat.len();
    let mut j: usize = 0;
    while j < m
        invariant
            n == text@.len(),
            m == pat@.len(),
            start + m <= n,
            0 <= j <= m,
            forall|k: int| 0 <= k < j ==> text@[start + k] == pat@[k],
        decreases m - j,
    {
        if text[start + j] != pat[j] {
            assert(text@.subrange(start as int, start + pat@.len())[j as int] != pat@[j as int]);
            return false;
        }
        j += 1;
    }
    assert(text@.subrange(start as int, start + pat@.len()) =~= pat@);
    true
}

/// Whether `pat` occurs anywhere in `text`, decided executably.
pub fn contains_chars(text: &Vec<char>, pat: &Vec<char>) -> (r: bool)
    ensures
        r == contains_seq(text@, pat@),
{
    if pat.len() == 0 {
        assert(match_at(text@, pat@, 0)) by {
            assert(text@.subrange(0, 0) =~= pat@);
        }
        return true;
    }
    if pat.len() > text.len() {
        assert(forall|i: int| !match_at(text@, pat@, i));
        return false;
    }
    let last = text.len() - pat.len();
    let mut i: usize = 0;
    while i <= last
        invariant
            1 <= pat@.len() <= text@.len(),
            last == text@.len() - pat@.len(),
            last < usize::MAX,
            0 <= i <= last + 1,
            forall|k: int| 0 <= k < i ==> !match_at(text@, pat@, k),
        decreases last + 1 - i,
    {
        if check_match_at(text, pat, i) {
            return true;
        }
        i += 1;
    }
    assert(forall|k: int| k > last ==> !match_at(text@, pat@, k));
    false
}

/// Appends every character of `src` to `out`.
fn append_chars(out: &mut Vec<char>, src: &Vec<char>)
    ensures
        final(out)@ == old(out)@ + src@,
{
    let m = src.len();
    let ghost out0 = out@;
    let mut k: usize = 0;
    while k < m
        invariant
            m == src@.len(),
            0 <= k <= m,
            out@ == out0 + src@.subrange(0, k as int),
        decreases m - k,
    {
        out.push(src[k]);
        assert(out@ =~= out0 + src@.subrange(0, k + 1));
        k += 1;
    }
    assert(out@ =~= out0 + src@);
}

/// Replace every occurrence of `pat` in `text` by `to`, left to right,
/// never re-scanning inserted text.
pub fn replace_chars(text: &Vec<char>, pat: &Vec<char>, to: &Vec<char>) -> (out: Vec<char>)
    ensures
        out@ == replace_all(text@, pat@, to@),
{
    let n = text.len();
    let mut out: Vec<char> = Vec::new();
    if pat.len() == 0 {
        // The empty pattern matches at every character boundary.
        let mut i: usize = 0;
        proof {
            assert(text@.skip(0) =~= text@);
        }
        while i < n
            invariant
                n == text@.len(),
                pat@.len() == 0,
                0 <= i <= n,
                out@ + replace_all(text@.skip(i as int), pat@, to@) == replace_all(
                    text@,
                    pat@,
                    to@,
                ),
            decreases n - i,
        {
            let ghost tail = text@.skip(i as int);
            let ghost out0 = out@;
            append_chars(&mut out, to);
            out.push(text[i]);
            proof {
                assert(tail.len() == n - i);
                assert(tail[0] == text@[i as int]);
                assert(tail.skip(1) =~= text@.skip(i + 1));
                assert(replace_all(tail, pat@, to@) == to@ + seq![tail[0]] + replace_all(
                    tail.skip(1),
                    pat@,
                    to@,
                ));
                assert(out@ =~= out0 + to@ + seq![tail[0]]);
                assert(out@ + replace_all(text@.skip(i + 1), pat@, to@) =~= out0
                    + replace_all(tail, pat@, to@));
            }
            i += 1;
        }
        append_chars(&mut out, to);
        proof {
            assert(text@.skip(n as int) =~= Seq::<char>::empty());
            assert(replace_all(text@.skip(n as int), pat@, to@) == to@);
        }
        return out;
    }
    let mut pos: usize = 0;
    assert(text@.skip(0) =~= text@);
    while pos < n
        invariant
            n == text@.len(),
            pat@.len() >= 1,
            0 <= pos <= n,
            out@ + replace_all(text@.skip(pos as int), pat@, to@) == replace_all(
                text@,
                pat@,
                to@,
            ),
        decreases n - pos,
    {
        let ghost tail = text@.skip(pos as int);
        let ghost out0 = out@;
        if pat.len() <= n - pos && check_match_at(text, pat, pos) {
            proof {
                assert(tail.subrange(0, pat@.len() as int) =~= text@.subrange(
                    pos as int,
                    pos + pat@.len(),
                ));
                assert(tail.skip(pat@.len() as int) =~= text@.skip(pos + pat@.len()));
                assert(replace_all(tail, pat@, to@) == to@ + replace_all(
                    text@.skip(pos + pat@.len()),
                    pat@,
                    to@,
                ));
            }
            append_chars(&mut out, to);
            pos += pat.len();
            proof {
                assert(out@ + replace_all(text@.skip(pos as int), pat@, to@) =~= out0
                    + replace_all(tail, pat@, to@));
            }
        } else {
            proof {
                if pos + pat@.len() <= n {
                    assert(tail.subrange(0, pat@.len() as int) =~= text@.subrange(
                        pos as int,
                        pos + pat@.len(),
                    ));
                    assert(tail.subrange(0, pat@.len() as int) != pat@);
                    assert(replace_all(tail, pat@, to@) == seq![tail[0]] + replace_all(
                        tail.skip(1),
                        pat@,
                        to@,
                    ));
                } else {
                    assert(tail.len() < pat@.len());
                    assert(replace_all(tail, pat@, to@) == tail);
                    assert(tail.skip(1).len() < pat@.len());
                    assert(replace_all(tail.skip(1), pat@, to@) == tail.skip(1));
                    assert(tail =~= seq![tail[0]] + tail.skip(1));
                }
                assert(tail[0] == text@[pos as int]);
                assert(tail.skip(1) =~= text@.skip(pos as int + 1));
            }
            out.push(text[pos]);
            pos += 1;
            proof {
                assert(out@ =~= out0 + seq![tail[0]]);
                assert(out@ + replace_all(text@.skip(pos as int), pat@, to@) =~= out0 + (
                seq![tail[0]] + replace_all(tail.skip(1), pat@, to@)));
            }
        }
    }
    proof {
        assert(text@.skip(pos as int) =~= Seq::<char>::empty());
        assert(replace_all(text@.skip(pos as int), pat@, to@) == Seq::<char>::empty());
        assert(out@ =~= out@ + Seq::<char>::empty());
    }
    out
}

} // verus!
