//! The placeholder-token grammar: `{{`, optional spaces, an identifier,
//! optional spaces, `}}`. The scanner lists every token shaped this way,
//! which is how leftover placeholders are detected after population.

use vstd::prelude::*;

use crate::chars::string_from_chars;

verus! {

/// Whether `c` lies in the Unicode word-character class `\w` of the
/// outside regex engine.
pub uninterp spec fn word_char(c: char) -> bool;

/// Relies on `regex_syntax::is_word_character`: membership of the Unicode
/// word-character class that the regex `\w` matches (UTS#18), a function of
/// the character alone. With the crate's default `unicode` feature on, the
/// call cannot panic.
#[verifier::external_body]
fn check_word_char(c: char) -> (r: bool)
    ensures
        r == word_char(c),
{
    regex_syntax::is_word_character(c)
}

/// A character an identifier may be made of: a word character or an
/// underscore.
pub open spec fn is_word_char(c: char) -> bool {
    word_char(c) || c == '_'
}

/// The first position at or after `i` that does not hold a space
/// (`text.len()` if spaces run to the end).
pub open spec fn spaces_end(text: Seq<char>, i: int) -> int
    decreases text.len() - i,
{
    if i < 0 || i >= text.len() {
        i
    } else if text[i] == ' ' {
        spaces_end(text, i + 1)
    } else {
        i
    }
}

/// The first position at or after `i` that does not hold a word character.
pub open spec fn word_end(text: Seq<char>, i: int) -> int
    decreases text.len() - i,
{
    if i < 0 || i >= text.len() {
        i
    } else if is_word_char(text[i]) {
        word_end(text, i + 1)
    } else {
        i
    }
}

/// If a placeholder-shaped token starts at `i`, the position just past its
/// closing braces.
pub open spec fn token_end_at(text: Seq<char>, i: int) -> Option<int> {
    if 0 <= i && i + 2 <= text.len() && text[i] == '{' && text[i + 1] == '{' {
        let p = spaces_end(text, i + 2);
        let q = word_end(text, p);
        if q > p {
            let r = spaces_end(text, q);
            if r + 2 <= text.len() && text[r] == '}' && text[r + 1] == '}' {
                Some(r + 2)
            } else {
                None
            }
        } else {
            None
        }
    } else {
        None
    }
}

/// Every placeholder-shaped token of `text` at or after position `i`, in
/// order of its starting position.
pub open spec fn leftovers_from(text: Seq<char>, i: int) -> Seq<Seq<char>>
    decreases text.len() - i,
{
    if i < 0 || i >= text.len() {
        Seq::empty()
    } else {
        match token_end_at(text, i) {
            Some(j) => seq![text.subrange(i, j)] + leftovers_from(text, i + 1),
            None => leftovers_from(text, i + 1),
        }
    }
}

/// Every placeholder-shaped token of `text`, in order.
pub open spec fn leftover_tokens(text: Seq<char>) -> Seq<Seq<char>> {
    leftovers_from(text, 0)
}

/// Whether a word character stands at `i`, decided executably.
fn is_word_char_at(text: &Vec<char>, i: usize) -> (r: bool)
    requires
        i < text@.len(),
    ensures
        r == is_word_char(text@[i as int]),
{
    let c = text[i];
    check_word_char(c) || c == '_'
}

/// `spaces_end` never moves backwards nor past the end.
proof fn lemma_spaces_end_bounds(text: Seq<char>, i: int)
    requires
        0 <= i <= text.len(),
    ensures
        i <= spaces_end(text, i) <= text.len(),
    decreases text.len() - i,
{
    if i < text.len() && text[i] == ' ' {
        lemma_spaces_end_bounds(text, i + 1);
    }
}

/// `word_end` never moves backwards nor past the end.
proof fn lemma_word_end_bounds(text: Seq<char>, i: int)
    requires
        0 <= i <= text.len(),
    ensures
        i <= word_end(text, i) <= text.len(),
    decreases text.len() - i,
{
    if i < text.len() && is_word_char(text[i]) {
        lemma_word_end_bounds(text, i + 1);
    }
}

/// The end of the token starting at `i`, if one starts there.
fn token_end(text: &Vec<char>, i: usize) -> (r: Option<usize>)
    requires
        i < text@.len(),
    ensures
        r is Some ==> token_end_at(text@, i as int) == Some(r->0 as int),
        r is None ==> token_end_at(text@, i as int) is None,
{
    let n = text.len();
    if n - i < 2 || text[i] != '{' || text[i + 1] != '{' {
        return None;
    }
    let mut p: usize = i + 2;
    while p < n && text[p] == ' '
        invariant
            n == text@.len(),
            i + 2 <= p <= n,
            spaces_end(text@, i + 2) == spaces_end(text@, p as int),
        decreases n - p,
    {
        p += 1;
    }
    assert(spaces_end(text@, i + 2) == p as int);
    let mut q: usize = p;
    while q < n && is_word_char_at(text, q)
        invariant
            n == text@.len(),
            p <= q <= n,
            word_end(text@, p as int) == word_end(text@, q as int),
        decreases n - q,
    {
        q += 1;
    }
    assert(word_end(text@, p as int) == q as int);
    if q == p {
        return None;
    }
    let mut r: usize = q;
    while r < n && text[r] == ' '
        invariant
            n == text@.len(),
            q <= r <= n,
            spaces_end(text@, q as int) == spaces_end(text@, r as int),
        decreases n - r,
    {
        r += 1;
    }
    assert(spaces_end(text@, q as int) == r as int);
    if n - r >= 2 && text[r] == '}' && text[r + 1] == '}' {
        Some(r + 2)
    } else {
        None
    }
}

/// Every placeholder-shaped token of `text`, as strings, in order.
pub fn find_leftovers(text: &Vec<char>) -> (v: Vec<String>)
    ensures
        v.deep_view() == leftover_tokens(text@),
        v@.len() == leftover_tokens(text@).len(),
        forall|k: int| 0 <= k < v@.len() ==> #[trigger] v@[k]@ == leftover_tokens(text@)[k],
{
    let n = text.len();
    let mut v: Vec<String> = Vec::new();
    let mut i: usize = 0;
    assert(v.deep_view() =~= Seq::<Seq<char>>::empty());
    while i < n
        invariant
            n == text@.len(),
            0 <= i <= n,
            v.deep_view() + leftovers_from(text@, i as int) == leftover_tokens(text@),
        decreases n - i,
    {
        let ghost dv0 = v.deep_view();
        match token_end(text, i) {
            Some(j) => {
                let mut sub: Vec<char> = Vec::new();
                let mut k: usize = i;
                proof {
                    assert(token_end_at(text@, i as int) == Some(j as int));
                    lemma_spaces_end_bounds(text@, i + 2);
                    lemma_word_end_bounds(text@, spaces_end(text@, i + 2));
                    lemma_spaces_end_bounds(text@, word_end(text@, spaces_end(text@, i + 2)));
                    assert(i <= j <= n);
                }
                while k < j
                    invariant
                        n == text@.len(),
                        i <= k <= j <= n,
                        sub@ == text@.subrange(i as int, k as int),
                    decreases j - k,
                {
                    sub.push(text[k]);
                    assert(sub@ =~= text@.subrange(i as int, k + 1));
                    k += 1;
                }
                let s = string_from_chars(&sub);
                v.push(s);
                proof {
                    assert(v.deep_view() =~= dv0 + seq![text@.subrange(i as int, j as int)]);
                    assert(leftovers_from(text@, i as int) == seq![
                        text@.subrange(i as int, j as int),
                    ] + leftovers_from(text@, i + 1));
                    assert(v.deep_view() + leftovers_from(text@, i + 1) =~= dv0 + leftovers_from(
                        text@,
                        i as int,
                    ));
                }
            },
            None => {
                proof {
                    assert(leftovers_from(text@, i as int) == leftovers_from(text@, i + 1));
                }
            },
        }
        i += 1;
    }
    proof {
        assert(leftovers_from(text@, i as int) =~= Seq::<Seq<char>>::empty());
        assert(v.deep_view() =~= v.deep_view() + Seq::<Seq<char>>::empty());
        assert forall|k: int| 0 <= k < v@.len() implies #[trigger] v@[k]@ == leftover_tokens(
            text@,
        )[k] by {
            assert(v.deep_view()[k] == v@[k]@);
        }
    }
    v
}

} // verus!
