//! The template mapping engine: named placeholders, replacement values, and
//! `populate`, which applies an ordered list of (placeholder, replacement)
//! pairs to a template and enforces that every pair had an effect and no
//! placeholder-shaped token is left behind.

use vstd::prelude::*;

use crate::chars::{chars_of, string_from_chars};
use crate::scan::{find_leftovers, leftover_tokens};
use crate::text::{
    contains_chars, contains_seq, lemma_replace_all_changes, lemma_replace_all_round_trip,
    lemma_replace_all_self, replace_all, replace_chars, safe_replacement,
};

verus! {

/// The delimited display form of a placeholder name: `{{ name }}`.
pub open spec fn token_of(name: Seq<char>) -> Seq<char> {
    seq!['{', '{', ' '] + name + seq![' ', '}', '}']
}

/// A named slot inside a template.
#[derive(Debug, PartialEq, Eq, Clone)]
pub struct Placeholder(pub String);

impl View for Placeholder {
    type V = Seq<char>;

    open spec fn view(&self) -> Seq<char> {
        self.0@
    }
}

impl Placeholder {
    pub fn new(value: &str) -> (p: Placeholder)
        ensures
            p@ == value@,
    {
        Placeholder(String::from_str(value))
    }

    /// The delimited form used in template source and in error messages.
    pub fn to_display_token(&self) -> (r: String)
        ensures
            r@ == token_of(self@),
    {
        let mut out = String::from_str("{{ ");
        out.append(self.0.as_str());
        out.append(" }}");
        proof {
            reveal_strlit("{{ ");
            reveal_strlit(" }}");
            assert("{{ "@ =~= seq!['{', '{', ' ']);
            assert(" }}"@ =~= seq![' ', '}', '}']);
        }
        out
    }

    /// Whether this placeholder's display token occurs in `template`.
    pub fn is_contained_in(&self, template: &str) -> (r: bool)
        ensures
            r == contains_seq(template@, token_of(self@)),
    {
        let token = self.to_display_token();
        let token_cs = chars_of(token.as_str());
        let templ_cs = chars_of(template);
        contains_chars(&templ_cs, &token_cs)
    }
}

/// The text substituted for a placeholder.
#[derive(Debug, PartialEq, Eq, Clone)]
pub struct Replacement(pub String);

impl View for Replacement {
    type V = Seq<char>;

    open spec fn view(&self) -> Seq<char> {
        self.0@
    }
}

impl Replacement {
    /// Replace every occurrence of `instead_of` in `into` by this
    /// replacement's text, without mutating `into`.
    pub fn embed(&self, into: &str, instead_of: &str) -> (r: String)
        ensures
            r@ == replace_all(into@, instead_of@, self@),
    {
        let into_cs = chars_of(into);
        let pat_cs = chars_of(instead_of);
        let to_cs = chars_of(self.0.as_str());
        let out_cs = replace_chars(&into_cs, &pat_cs, &to_cs);
        string_from_chars(&out_cs)
    }
}

/// Why a population run failed.
#[derive(Debug, PartialEq, Eq)]
pub enum Error {
    /// A pair's placeholder token does not occur in the template text.
    PlaceholderNotFound(Placeholder),
    /// Applying a pair left the template text unchanged.
    MappingWithoutChange((Placeholder, Replacement)),
    /// Placeholder-shaped tokens survived every pair, listed in order.
    LeftoverPlaceholders(Vec<String>),
}

/// An ordered list of (placeholder, replacement) pairs.
#[derive(Debug)]
pub struct TemplateMapping(pub Vec<(Placeholder, Replacement)>);

impl View for TemplateMapping {
    type V = Seq<(Seq<char>, Seq<char>)>;

    open spec fn view(&self) -> Seq<(Seq<char>, Seq<char>)> {
        Seq::new(self.0@.len(), |i: int| (self.0@[i].0@, self.0@[i].1@))
    }
}

/// The text after one pair is applied.
pub open spec fn step_text(text: Seq<char>, name: Seq<char>, rep: Seq<char>) -> Seq<char> {
    replace_all(text, token_of(name), rep)
}

/// One pair applies cleanly: its token is present and replacing it changes
/// the text.
pub open spec fn step_ok(text: Seq<char>, name: Seq<char>, rep: Seq<char>) -> bool {
    contains_seq(text, token_of(name)) && step_text(text, name, rep) != text
}

/// The text after every pair is applied in order, ignoring failures.
pub open spec fn apply_all(items: Seq<(Seq<char>, Seq<char>)>, text: Seq<char>) -> Seq<char>
    decreases items.len(),
{
    if items.len() == 0 {
        text
    } else {
        apply_all(items.drop_first(), step_text(text, items[0].0, items[0].1))
    }
}

/// The position of the first pair that fails to apply; `items.len()` if
/// every pair applies cleanly.
pub open spec fn first_failure(items: Seq<(Seq<char>, Seq<char>)>, text: Seq<char>) -> int
    decreases items.len(),
{
    if items.len() == 0 {
        0
    } else if !step_ok(text, items[0].0, items[0].1) {
        0
    } else {
        1 + first_failure(items.drop_first(), step_text(text, items[0].0, items[0].1))
    }
}

/// The template text as it stands when pair `k` is about to be applied.
pub open spec fn text_at(items: Seq<(Seq<char>, Seq<char>)>, text: Seq<char>, k: int) -> Seq<
    char,
>
    decreases k,
{
    if k <= 0 || items.len() == 0 {
        text
    } else {
        text_at(items.drop_first(), step_text(text, items[0].0, items[0].1), k - 1)
    }
}

/// Population succeeds: every pair applies cleanly and no placeholder-shaped
/// token survives.
pub open spec fn populate_ok(items: Seq<(Seq<char>, Seq<char>)>, text: Seq<char>) -> bool {
    first_failure(items, text) == items.len() && leftover_tokens(apply_all(items, text)).len()
        == 0
}

/// `e` is exactly the error a population run over `items` and `text` yields.
pub open spec fn error_models(
    e: Error,
    items: Seq<(Seq<char>, Seq<char>)>,
    text: Seq<char>,
) -> bool {
    let k = first_failure(items, text);
    if k < items.len() {
        let t = text_at(items, text, k);
        if !contains_seq(t, token_of(items[k].0)) {
            e matches Error::PlaceholderNotFound(p) && p@ == items[k].0
        } else {
            e matches Error::MappingWithoutChange(pr) && pr.0@ == items[k].0 && pr.1@
                == items[k].1
        }
    } else {
        e matches Error::LeftoverPlaceholders(v) && v.deep_view() == leftover_tokens(
            apply_all(items, text),
        )
    }
}

/// `first_failure` lies between 0 and the number of pairs.
proof fn lemma_first_failure_range(items: Seq<(Seq<char>, Seq<char>)>, text: Seq<char>)
    ensures
        0 <= first_failure(items, text) <= items.len(),
    decreases items.len(),
{
    if items.len() > 0 && step_ok(text, items[0].0, items[0].1) {
        lemma_first_failure_range(items.drop_first(), step_text(text, items[0].0, items[0].1));
    }
}

/// Unrolls the fold one step: how `text_at` and `first_failure` behave at
/// position `k`, as long as no earlier pair failed.
proof fn lemma_fold_step(items: Seq<(Seq<char>, Seq<char>)>, text: Seq<char>, k: int)
    requires
        0 <= k < items.len(),
        k <= first_failure(items, text),
    ensures
        text_at(items, text, k + 1) == step_text(
            text_at(items, text, k),
            items[k].0,
            items[k].1,
        ),
        step_ok(text_at(items, text, k), items[k].0, items[k].1) ==> first_failure(items, text)
            >= k + 1,
        !step_ok(text_at(items, text, k), items[k].0, items[k].1) ==> first_failure(items, text)
            == k,
    decreases k,
{
    let rest = items.drop_first();
    let stepped = step_text(text, items[0].0, items[0].1);
    if k == 0 {
        assert(text_at(items, text, 0) == text);
        assert(text_at(items, text, 1) == text_at(rest, stepped, 0));
        if step_ok(text, items[0].0, items[0].1) {
            lemma_first_failure_range(rest, stepped);
        }
    } else {
        assert(first_failure(items, text) >= k >= 1);
        assert(step_ok(text, items[0].0, items[0].1));
        assert(first_failure(items, text) == 1 + first_failure(rest, stepped));
        lemma_fold_step(rest, stepped, k - 1);
        assert(rest[k - 1] == items[k]);
        assert(text_at(items, text, k) == text_at(rest, stepped, k - 1));
        assert(text_at(items, text, k + 1) == text_at(rest, stepped, k));
    }
}

/// When every pair applies, the folded text is the text after the last pair.
proof fn lemma_apply_all_is_final(items: Seq<(Seq<char>, Seq<char>)>, text: Seq<char>)
    requires
        first_failure(items, text) == items.len(),
    ensures
        apply_all(items, text) == text_at(items, text, items.len() as int),
    decreases items.len(),
{
    if items.len() > 0 {
        let rest = items.drop_first();
        let stepped = step_text(text, items[0].0, items[0].1);
        assert(step_ok(text, items[0].0, items[0].1));
        lemma_first_failure_range(rest, stepped);
        lemma_apply_all_is_final(rest, stepped);
    }
}

/// One mapping `name -> rep` on a template that holds the token
/// `{{ name }}`. When the replacement differs from the token, the fold
/// succeeds and yields the template with every token occurrence replaced
/// (population then succeeds unless other placeholder-shaped tokens remain,
/// which the engine reports as leftovers); when the replacement is safe,
/// the token never survives the substitution. A replacement equal to the
/// token is exactly the change-less mapping the engine rejects.
pub proof fn lemma_populate_single(template: Seq<char>, name: Seq<char>, rep: Seq<char>)
    requires
        contains_seq(template, token_of(name)),
    ensures
        rep != token_of(name) ==> first_failure(seq![(name, rep)], template) == 1
            && apply_all(seq![(name, rep)], template) == replace_all(
            template,
            token_of(name),
            rep,
        ),
        rep != token_of(name) && safe_replacement(token_of(name), rep) ==> !contains_seq(
            apply_all(seq![(name, rep)], template),
            token_of(name),
        ),
        rep == token_of(name) ==> first_failure(seq![(name, rep)], template) == 0,
{
    let tok = token_of(name);
    let items = seq![(name, rep)];
    assert(tok.len() == name.len() + 6);
    assert(items[0] == (name, rep));
    assert(items.drop_first() =~= Seq::<(Seq<char>, Seq<char>)>::empty());
    if rep != tok {
        lemma_replace_all_changes(template, tok, rep);
        assert(step_ok(template, name, rep));
        assert(first_failure(items, template) == 1 + first_failure(
            items.drop_first(),
            step_text(template, name, rep),
        ));
        assert(apply_all(items.drop_first(), step_text(template, name, rep)) == step_text(
            template,
            name,
            rep,
        ));
        assert(apply_all(items, template) == step_text(template, name, rep));
        if safe_replacement(tok, rep) {
            lemma_replace_all_round_trip(template, tok, rep);
        }
    } else {
        lemma_replace_all_self(template, tok);
        assert(step_text(template, name, rep) == template);
        assert(!step_ok(template, name, rep));
    }
}

impl TemplateMapping {
    /// Builds the mapping from (name, value) pairs, in order.
    pub fn from_pairs(items: Vec<(&str, String)>) -> (r: TemplateMapping)
        ensures
            r@ == Seq::new(items@.len(), |i: int| (items@[i].0@, items@[i].1@)),
    {
        let n = items.len();
        let mut v: Vec<(Placeholder, Replacement)> = Vec::new();
        let mut i: usize = 0;
        while i < n
            invariant
                n == items@.len(),
                0 <= i <= n,
                v@.len() == i,
                forall|k: int|
                    0 <= k < i ==> (#[trigger] v@[k]).0@ == items@[k].0@ && v@[k].1@
                        == items@[k].1@,
            decreases n - i,
        {
            let name: &str = items[i].0;
            let value = items[i].1.clone();
            v.push((Placeholder::new(name), Replacement(value)));
            i += 1;
        }
        let r = TemplateMapping(v);
        assert(r@ =~= Seq::new(items@.len(), |i: int| (items@[i].0@, items@[i].1@)));
        r
    }

    /// Applies one pair: requires its token to be present and the
    /// replacement to change the text.
    fn apply_mapping(template_state: String, item: &(Placeholder, Replacement)) -> (r: Result<
        String,
        Error,
    >)
        ensures
            r is Ok <==> step_ok(template_state@, item.0@, item.1@),
            r is Ok ==> r->Ok_0@ == step_text(template_state@, item.0@, item.1@),
            !contains_seq(template_state@, token_of(item.0@)) ==> (r matches Err(
                Error::PlaceholderNotFound(p),
            ) && p@ == item.0@),
            contains_seq(template_state@, token_of(item.0@)) && step_text(
                template_state@,
                item.0@,
                item.1@,
            ) == template_state@ ==> (r matches Err(Error::MappingWithoutChange(pr)) && pr.0@
                == item.0@ && pr.1@ == item.1@),
    {
        let placeholder = &item.0;
        let replacement = &item.1;
        let token = placeholder.to_display_token();
        let token_cs = chars_of(token.as_str());
        let state_cs = chars_of(template_state.as_str());
        if !contains_chars(&state_cs, &token_cs) {
            return Err(Error::PlaceholderNotFound(Placeholder(placeholder.0.clone())));
        }
        let rep_cs = chars_of(replacement.0.as_str());
        let new_cs = replace_chars(&state_cs, &token_cs, &rep_cs);
        let updated = string_from_chars(&new_cs);
        if template_state == updated {
            return Err(
                Error::MappingWithoutChange(
                    (Placeholder(placeholder.0.clone()), Replacement(replacement.0.clone())),
                ),
            );
        }
        Ok(updated)
    }

    /// Applies every pair in order, then scans for leftover
    /// placeholder-shaped tokens. All-or-nothing: no partially substituted
    /// text is ever returned.
    #[verifier::loop_isolation(false)]
    pub fn populate(self, template: String) -> (r: Result<String, Error>)
        ensures
            r is Ok <==> populate_ok(self@, template@),
            r is Ok ==> r->Ok_0@ == apply_all(self@, template@),
            r is Err ==> error_models(r->Err_0, self@, template@),
    {
        let ghost items = self@;
        let ghost template0 = template@;
        let n = self.0.len();
        let mut state = template;
        let mut i: usize = 0;
        proof {
            lemma_first_failure_range(items, template0);
            assert(items.len() == n);
        }
        while i < n
            invariant
                n == self.0.len(),
                items == self@,
                items.len() == n,
                0 <= i <= n,
                i <= first_failure(items, template0) <= n,
                state@ == text_at(items, template0, i as int),
            decreases n - i,
        {
            proof {
                lemma_fold_step(items, template0, i as int);
            }
            let ghost state0 = state@;
            match Self::apply_mapping(state, &self.0[i]) {
                Ok(next) => {
                    state = next;
                    i += 1;
                },
                Err(e) => {
                    proof {
                        assert(!step_ok(state0, items[i as int].0, items[i as int].1));
                        assert(first_failure(items, template0) == i as int);
                    }
                    return Err(e);
                },
            }
        }
        proof {
            assert(first_failure(items, template0) == n);
            lemma_apply_all_is_final(items, template0);
        }
        let state_cs = chars_of(state.as_str());
        let leftovers = find_leftovers(&state_cs);
        if leftovers.len() == 0 {
            proof {
                assert(leftover_tokens(apply_all(items, template0)).len() == 0);
            }
            Ok(state)
        } else {
            Err(Error::LeftoverPlaceholders(leftovers))
        }
    }
}

} // verus!
