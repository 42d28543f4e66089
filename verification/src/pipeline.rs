//! The build pipeline on plain values: derive metadata for every post,
//! order posts by file stem descending, build the post-list page and one
//! page per post. The caller reads the files and writes the results.

use vstd::prelude::*;

use vstd::seq_lib::group_to_multiset_ensures;

use crate::chars::{chars_of, string_from_chars};
use crate::date::{formatted_date_spec, Date};
use crate::markdown::{html_of, to_html};
use crate::post_metadata::{
    file_stem_of, line_end, title_of, trim_spec, trim_tail, MetadataError, MetaView,
    PostMetadata,
};
use crate::template::{
    apply_all, error_models, populate_ok, Error, TemplateMapping,
};
use crate::text::{
    chars_lex_le, lemma_lex_le_antisym, lemma_lex_le_total, lemma_lex_le_trans, lex_le,
};
use crate::{page_path, page_path_spec, page_route, page_route_spec, Post};

verus! {

broadcast use group_to_multiset_ensures, vstd::multiset::group_multiset_axioms;

/// The abstract value of one post handed to the build: source path, raw
/// content, creation date.
pub type InputView = (Seq<char>, Seq<char>, (int, int, int));

/// The abstract value of one collected post: its metadata and its raw
/// content.
pub type EntryView = (MetaView, Seq<char>);

/// One post as the caller hands it in: where it lives, what it holds, and
/// when it was created.
#[derive(Debug)]
pub struct PostInput {
    pub path: String,
    pub content: String,
    pub date_created: Date,
}

impl View for PostInput {
    type V = InputView;

    open spec fn view(&self) -> InputView {
        (self.path@, self.content@, self.date_created@)
    }
}

/// Metadata can be derived from this input.
pub open spec fn collect_ok(iv: InputView) -> bool {
    file_stem_of(iv.0) is Some && iv.1.len() > 0
}

/// The metadata derived from one input.
pub open spec fn meta_of(iv: InputView) -> MetaView {
    (iv.0, file_stem_of(iv.0)->0, title_of(iv.1)->0, iv.2)
}

/// The entry derived from one input.
pub open spec fn entry_of(iv: InputView) -> EntryView {
    (meta_of(iv), iv.1)
}

/// The abstract values of a sequence of collected entries.
pub open spec fn entry_views(s: Seq<(PostMetadata, String)>) -> Seq<EntryView> {
    Seq::new(s.len(), |k: int| (s[k].0@, s[k].1@))
}

/// The sort key of an entry: its file stem.
pub open spec fn entry_key(ev: EntryView) -> Seq<char> {
    ev.0.1
}

/// Entries ordered by file stem, descending.
pub open spec fn sorted_desc(evs: Seq<EntryView>) -> bool {
    forall|i: int, j: int|
        0 <= i < j < evs.len() ==> lex_le(
            entry_key(#[trigger] evs[j]),
            entry_key(#[trigger] evs[i]),
        )
}

/// No two entries share a file stem.
pub open spec fn distinct_keys(evs: Seq<EntryView>) -> bool {
    forall|i: int, j: int|
        0 <= i < j < evs.len() ==> entry_key(#[trigger] evs[i]) != entry_key(
            #[trigger] evs[j],
        )
}

/// With pairwise distinct keys, there is only one descending order: any two
/// sorted sequences holding the same entries are equal.
pub proof fn lemma_sorted_unique_desc(x: Seq<EntryView>, y: Seq<EntryView>)
    requires
        sorted_desc(x),
        sorted_desc(y),
        distinct_keys(x),
        x.to_multiset() == y.to_multiset(),
    ensures
        x == y,
    decreases x.len(),
{
    broadcast use vstd::seq_lib::lemma_seq_contains;

    if x.len() == 0 {
        assert(y.to_multiset().len() == 0);
        assert(y =~= x);
    } else {
        assert(x.to_multiset().contains(x[0])) by {
            assert(x.contains(x[0]));
        }
        assert(y.to_multiset().len() == y.len());
        assert(y.len() > 0);
        assert(y.to_multiset().contains(y[0])) by {
            assert(y.contains(y[0]));
        }
        // Each head occurs in the other sequence.
        assert(y.contains(x[0]));
        assert(x.contains(y[0]));
        let j = choose|j: int| 0 <= j < y.len() && y[j] == x[0];
        let i = choose|i: int| 0 <= i < x.len() && x[i] == y[0];
        // Both heads carry the greatest key, so the heads are equal.
        assert(x[0] == y[0]) by {
            if i > 0 {
                assert(lex_le(entry_key(x[i]), entry_key(x[0])));
            }
            if j > 0 {
                assert(lex_le(entry_key(y[j]), entry_key(y[0])));
            }
            lemma_lex_le_total(entry_key(x[0]), entry_key(y[0]));
            lemma_lex_le_antisym(entry_key(x[0]), entry_key(x[i]));
            if i != 0 {
                assert(entry_key(x[i]) == entry_key(x[0]));
                assert(false);
            }
        }
        // Drop the heads and recurse.
        assert(x.drop_first() =~= x.remove(0));
        assert(y.drop_first() =~= y.remove(0));
        assert(x.drop_first().to_multiset() == y.drop_first().to_multiset()) by {
            assert(x.remove(0).to_multiset() =~= x.to_multiset().remove(x[0]));
            assert(y.remove(0).to_multiset() =~= y.to_multiset().remove(y[0]));
        }
        assert(sorted_desc(x.drop_first())) by {
            assert(forall|p: int, q: int|
                0 <= p < q < x.drop_first().len() ==> x.drop_first()[p] == x[p + 1]
                    && x.drop_first()[q] == x[q + 1]);
        }
        assert(sorted_desc(y.drop_first())) by {
            assert(forall|p: int, q: int|
                0 <= p < q < y.drop_first().len() ==> y.drop_first()[p] == y[p + 1]
                    && y.drop_first()[q] == y[q + 1]);
        }
        assert(distinct_keys(x.drop_first())) by {
            assert(forall|p: int, q: int|
                0 <= p < q < x.drop_first().len() ==> x.drop_first()[p] == x[p + 1]
                    && x.drop_first()[q] == x[q + 1]);
        }
        lemma_sorted_unique_desc(x.drop_first(), y.drop_first());
        assert(x.len() == x.to_multiset().len());
        assert(y.len() == y.to_multiset().len());
        assert forall|k: int| 0 <= k < x.len() implies x[k] == y[k] by {
            if k > 0 {
                assert(x.drop_first()[k - 1] == y.drop_first()[k - 1]);
            }
        }
        assert(x =~= y);
    }
}

/// The abstract values of a sequence of inputs.
pub open spec fn input_views(s: Seq<PostInput>) -> Seq<InputView> {
    Seq::new(s.len(), |k: int| s[k]@)
}

/// The entries every input would collect into, in input order.
pub open spec fn entries_of(ivs: Seq<InputView>) -> Seq<EntryView> {
    Seq::new(ivs.len(), |k: int| entry_of(ivs[k]))
}

/// Metadata can be derived from every input.
pub open spec fn all_collect_ok(ivs: Seq<InputView>) -> bool {
    forall|k: int| 0 <= k < ivs.len() ==> collect_ok(#[trigger] ivs[k])
}

/// The position of the first input whose metadata cannot be derived;
/// `ivs.len()` if every one collects.
pub open spec fn first_bad_input(ivs: Seq<InputView>) -> int
    decreases ivs.len(),
{
    if ivs.len() == 0 {
        0
    } else if !collect_ok(ivs[0]) {
        0
    } else {
        1 + first_bad_input(ivs.drop_first())
    }
}

/// The error the first failing input yields.
pub open spec fn collect_err(iv: InputView) -> MetadataError {
    if file_stem_of(iv.0) is None {
        MetadataError::MissingFileStem
    } else {
        MetadataError::MissingTitle
    }
}

/// Locates `first_bad_input` at the first position that fails.
proof fn lemma_first_bad_input_is(ivs: Seq<InputView>, k: int)
    requires
        0 <= k < ivs.len(),
        forall|p: int| 0 <= p < k ==> collect_ok(#[trigger] ivs[p]),
        !collect_ok(ivs[k]),
    ensures
        first_bad_input(ivs) == k,
    decreases k,
{
    if k > 0 {
        assert(forall|p: int|
            0 <= p < k - 1 ==> ivs.drop_first()[p] == #[trigger] ivs[p + 1]);
        lemma_first_bad_input_is(ivs.drop_first(), k - 1);
    }
}

/// Derives the metadata of every post and orders the posts by file stem,
/// descending; each post keeps its raw content at its side.
#[verifier::loop_isolation(false)]
pub fn collect_posts_metadata(inputs: Vec<PostInput>) -> (r: Result<
    Vec<(PostMetadata, String)>,
    MetadataError,
>)
    ensures
        r is Ok <==> all_collect_ok(input_views(inputs@)),
        r is Ok ==> entry_views(r->Ok_0@).to_multiset() == entries_of(
            input_views(inputs@),
        ).to_multiset(),
        r is Ok ==> sorted_desc(entry_views(r->Ok_0@)),
        r is Err ==> !all_collect_ok(input_views(inputs@)) && r->Err_0 == collect_err(
            input_views(inputs@)[first_bad_input(input_views(inputs@))],
        ),
{
    let ghost ivs = input_views(inputs@);
    let n = inputs.len();
    let mut rest = inputs;
    let mut collected: Vec<(PostMetadata, String)> = Vec::new();
    let mut i: usize = 0;
    proof {
        assert(input_views(rest@) =~= ivs.skip(0));
        assert(entry_views(collected@) =~= entries_of(ivs).take(0));
    }
    while rest.len() > 0
        invariant
            n == ivs.len(),
            0 <= i <= n,
            i + rest@.len() == n,
            input_views(rest@) == ivs.skip(i as int),
            entry_views(collected@) == entries_of(ivs).take(i as int),
            collected@.len() == i,
            forall|p: int| 0 <= p < i ==> collect_ok(#[trigger] ivs[p]),
        decreases rest@.len(),
    {
        let ghost rest0 = rest@;
        let inp = rest.remove(0);
        proof {
            assert(inp@ == input_views(rest0)[0]);
            assert(inp@ == ivs[i as int]);
            assert(input_views(rest@) =~= input_views(rest0).skip(1));
            assert(input_views(rest@) =~= ivs.skip(i + 1));
        }
        match PostMetadata::collect(inp.path.as_str(), inp.content.as_str(), inp.date_created) {
            Ok(meta) => {
                let ghost col0 = collected@;
                proof {
                    assert(collect_ok(ivs[i as int]));
                    assert(meta@ == meta_of(ivs[i as int]));
                }
                collected.push((meta, inp.content));
                proof {
                    assert(entry_views(collected@) =~= entry_views(col0).push(
                        entry_of(ivs[i as int]),
                    ));
                    assert(entry_views(collected@) =~= entries_of(ivs).take(i + 1));
                }
                i += 1;
            },
            Err(e) => {
                proof {
                    assert(!collect_ok(ivs[i as int]));
                    lemma_first_bad_input_is(ivs, i as int);
                    assert(e == collect_err(ivs[i as int]));
                }
                return Err(e);
            },
        }
    }
    proof {
        assert(i == n);
        assert(entry_views(collected@) =~= entries_of(ivs));
    }
    let sorted = sort_entries_desc(collected);
    Ok(sorted)
}

/// Sorts collected entries by file stem, descending.
pub fn sort_entries_desc(v: Vec<(PostMetadata, String)>) -> (r: Vec<(PostMetadata, String)>)
    ensures
        entry_views(r@).to_multiset() == entry_views(v@).to_multiset(),
        sorted_desc(entry_views(r@)),
{
    let mut src = v;
    let mut out: Vec<(PostMetadata, String)> = Vec::new();
    proof {
        assert(entry_views(out@) =~= Seq::<EntryView>::empty());
        assert(entry_views(out@).to_multiset().add(entry_views(src@).to_multiset())
            =~= entry_views(v@).to_multiset());
    }
    while src.len() > 0
        invariant
            entry_views(out@).to_multiset().add(entry_views(src@).to_multiset())
                == entry_views(v@).to_multiset(),
            sorted_desc(entry_views(out@)),
            forall|i: int, j: int|
                0 <= i < out@.len() && 0 <= j < src@.len() ==> lex_le(
                    entry_key(#[trigger] entry_views(src@)[j]),
                    entry_key(#[trigger] entry_views(out@)[i]),
                ),
        decreases src@.len(),
    {
        // The entry with the greatest file stem among those left.
        let mut m: usize = 0;
        let mut j: usize = 1;
        proof {
            lemma_lex_le_total(
                entry_key(entry_views(src@)[0]),
                entry_key(entry_views(src@)[0]),
            );
        }
        while j < src.len()
            invariant
                src@.len() > 0,
                0 <= m < j <= src@.len(),
                forall|k: int|
                    0 <= k < j ==> lex_le(
                        entry_key(#[trigger] entry_views(src@)[k]),
                        entry_key(entry_views(src@)[m as int]),
                    ),
            decreases src@.len() - j,
        {
            let mc = chars_of(src[m].0.file_name.as_str());
            let jc = chars_of(src[j].0.file_name.as_str());
            if chars_lex_le(&mc, &jc) {
                proof {
                    assert forall|k: int| 0 <= k < j + 1 implies lex_le(
                        entry_key(#[trigger] entry_views(src@)[k]),
                        entry_key(entry_views(src@)[j as int]),
                    ) by {
                        if k < j {
                            lemma_lex_le_trans(
                                entry_key(entry_views(src@)[k]),
                                entry_key(entry_views(src@)[m as int]),
                                entry_key(entry_views(src@)[j as int]),
                            );
                        } else {
                            lemma_lex_le_total(
                                entry_key(entry_views(src@)[j as int]),
                                entry_key(entry_views(src@)[j as int]),
                            );
                        }
                    }
                }
                m = j;
            } else {
                proof {
                    lemma_lex_le_total(
                        entry_key(entry_views(src@)[m as int]),
                        entry_key(entry_views(src@)[j as int]),
                    );
                }
            }
            j += 1;
        }
        let ghost src0 = src@;
        let ghost out0 = out@;
        let ghost picked = entry_views(src0)[m as int];
        let x = src.remove(m);
        proof {
            assert((x.0@, x.1@) == picked);
            assert(entry_views(src@) =~= entry_views(src0).remove(m as int));
            assert(entry_views(src0).remove(m as int).to_multiset() =~= entry_views(
                src0,
            ).to_multiset().remove(picked));
        }
        out.push(x);
        proof {
            assert(entry_views(out@) =~= entry_views(out0).push(picked));
            assert(entry_views(out0).push(picked).to_multiset() =~= entry_views(
                out0,
            ).to_multiset().insert(picked));
            assert(entry_views(out@).to_multiset().add(entry_views(src@).to_multiset())
                =~= entry_views(out0).to_multiset().add(entry_views(src0).to_multiset()));
            // The new last element keeps the output sorted.
            assert forall|i: int, jj: int|
                0 <= i < jj < entry_views(out@).len() implies lex_le(
                entry_key(#[trigger] entry_views(out@)[jj]),
                entry_key(#[trigger] entry_views(out@)[i]),
            ) by {
                assert(entry_views(out@)[i] == if i < out0.len() {
                    entry_views(out0)[i]
                } else {
                    picked
                });
            }
            // Everything still unsorted is at most the element just placed.
            assert forall|i: int, jj: int|
                0 <= i < out@.len() && 0 <= jj < src@.len() implies lex_le(
                entry_key(#[trigger] entry_views(src@)[jj]),
                entry_key(#[trigger] entry_views(out@)[i]),
            ) by {
                let moved = entry_views(src0).remove(m as int)[jj];
                assert(entry_views(src@)[jj] == moved);
                if jj < m {
                    assert(moved == entry_views(src0)[jj]);
                } else {
                    assert(moved == entry_views(src0)[jj + 1]);
                }
                if i < out0.len() {
                    lemma_lex_le_trans(
                        entry_key(moved),
                        entry_key(picked),
                        entry_key(entry_views(out0)[i]),
                    );
                }
            }
        }
    }
    proof {
        assert(entry_views(src@) =~= Seq::<EntryView>::empty());
        assert(entry_views(out@).to_multiset().add(Seq::<EntryView>::empty().to_multiset())
            =~= entry_views(out@).to_multiset());
    }
    out
}

/// The (placeholder, replacement) pairs that fill one post summary.
pub open spec fn summary_items(mv: MetaView) -> Seq<(Seq<char>, Seq<char>)> {
    seq![
        ("page_path"@, page_route_spec(mv.1)),
        ("title"@, mv.2),
        ("date"@, formatted_date_spec(mv.3)),
    ]
}

/// Every summary populates cleanly.
pub open spec fn summaries_ok(evs: Seq<EntryView>, st: Seq<char>) -> bool {
    forall|k: int|
        0 <= k < evs.len() ==> populate_ok(summary_items((#[trigger] evs[k]).0), st)
}

/// The position of the first summary that fails to populate; `evs.len()`
/// if every one populates.
pub open spec fn first_bad_summary(evs: Seq<EntryView>, st: Seq<char>) -> int
    decreases evs.len(),
{
    if evs.len() == 0 {
        0
    } else if !populate_ok(summary_items(evs[0].0), st) {
        0
    } else {
        1 + first_bad_summary(evs.drop_first(), st)
    }
}

/// Locates `first_bad_summary` at the first position that fails.
proof fn lemma_first_bad_summary_is(evs: Seq<EntryView>, st: Seq<char>, k: int)
    requires
        0 <= k < evs.len(),
        forall|p: int|
            0 <= p < k ==> populate_ok(summary_items((#[trigger] evs[p]).0), st),
        !populate_ok(summary_items(evs[k].0), st),
    ensures
        first_bad_summary(evs, st) == k,
    decreases k,
{
    if k > 0 {
        assert(forall|p: int|
            0 <= p < k - 1 ==> evs.drop_first()[p] == #[trigger] evs[p + 1]);
        lemma_first_bad_summary_is(evs.drop_first(), st, k - 1);
    }
}

/// The populated summary of every entry, in order.
pub open spec fn summary_texts(evs: Seq<EntryView>, st: Seq<char>) -> Seq<Seq<char>> {
    Seq::new(evs.len(), |k: int| apply_all(summary_items(evs[k].0), st))
}

/// The parts joined with a line break between each two.
pub open spec fn join_nl(parts: Seq<Seq<char>>) -> Seq<char>
    decreases parts.len(),
{
    if parts.len() == 0 {
        Seq::empty()
    } else if parts.len() == 1 {
        parts[0]
    } else {
        parts[0] + seq!['\n'] + join_nl(parts.drop_first())
    }
}

/// Joining one more part appends a line break and the part.
proof fn lemma_join_nl_push(parts: Seq<Seq<char>>, x: Seq<char>)
    ensures
        parts.len() == 0 ==> join_nl(parts.push(x)) == x,
        parts.len() > 0 ==> join_nl(parts.push(x)) == join_nl(parts) + seq!['\n'] + x,
    decreases parts.len(),
{
    if parts.len() == 0 {
        assert(parts.push(x)[0] == x);
    } else {
        lemma_join_nl_push(parts.drop_first(), x);
        assert(parts.push(x).drop_first() =~= parts.drop_first().push(x));
        assert(parts.push(x)[0] == parts[0]);
        if parts.len() == 1 {
            assert(parts.drop_first().len() == 0);
            assert(join_nl(parts.push(x)) == parts[0] + seq!['\n'] + x);
        }
    }
}

/// The single-pair mapping that fills the post-list template.
pub open spec fn items_mapping(joined: Seq<char>) -> Seq<(Seq<char>, Seq<char>)> {
    seq![("items"@, joined)]
}

/// The whole index builds: every summary populates and so does the list.
pub open spec fn index_ok(evs: Seq<EntryView>, st: Seq<char>, lt: Seq<char>) -> bool {
    summaries_ok(evs, st) && populate_ok(items_mapping(join_nl(summary_texts(evs, st))), lt)
}

/// The text of the index page.
pub open spec fn index_text(evs: Seq<EntryView>, st: Seq<char>, lt: Seq<char>) -> Seq<char> {
    apply_all(items_mapping(join_nl(summary_texts(evs, st))), lt)
}

/// `e` is exactly the error the index build yields.
pub open spec fn index_error_models(
    e: Error,
    evs: Seq<EntryView>,
    st: Seq<char>,
    lt: Seq<char>,
) -> bool {
    if !summaries_ok(evs, st) {
        error_models(e, summary_items(evs[first_bad_summary(evs, st)].0), st)
    } else {
        error_models(e, items_mapping(join_nl(summary_texts(evs, st))), lt)
    }
}

/// Fills the post-summary template with one post's route, title and date.
pub fn populate_post_summary_template(meta: &PostMetadata, summary_templ: &str) -> (r: Result<
    String,
    Error,
>)
    ensures
        r is Ok <==> populate_ok(summary_items(meta@), summary_templ@),
        r is Ok ==> r->Ok_0@ == apply_all(summary_items(meta@), summary_templ@),
        r is Err ==> error_models(r->Err_0, summary_items(meta@), summary_templ@),
{
    let pairs: Vec<(&str, String)> = vec![
        ("page_path", page_route(meta.file_name.as_str())),
        ("title", meta.title.clone()),
        ("date", meta.formatted_date()),
    ];
    let mapping = TemplateMapping::from_pairs(pairs);
    proof {
        assert(mapping@ =~= summary_items(meta@));
    }
    mapping.populate(String::from_str(summary_templ))
}

/// Builds the text of the post-list page: every post's populated summary,
/// joined with line breaks, embedded into the post-list template.
#[verifier::loop_isolation(false)]
#[verifier::rlimit(60)]
pub fn build_post_list_template(
    entries: &Vec<(PostMetadata, String)>,
    summary_templ: &str,
    list_templ: &str,
) -> (r: Result<String, Error>)
    ensures
        r is Ok <==> index_ok(entry_views(entries@), summary_templ@, list_templ@),
        r is Ok ==> r->Ok_0@ == index_text(entry_views(entries@), summary_templ@, list_templ@),
        r is Err ==> index_error_models(
            r->Err_0,
            entry_views(entries@),
            summary_templ@,
            list_templ@,
        ),
{
    let ghost evs = entry_views(entries@);
    let ghost texts = summary_texts(evs, summary_templ@);
    let n = entries.len();
    let mut joined = String::new();
    let mut k: usize = 0;
    proof {
        assert(join_nl(texts.take(0)) =~= Seq::<char>::empty());
    }
    while k < n
        invariant
            0 <= k <= n,
            joined@ == join_nl(texts.take(k as int)),
            forall|p: int|
                0 <= p < k ==> populate_ok(summary_items((#[trigger] evs[p]).0), summary_templ@),
        decreases n - k,
    {
        match populate_post_summary_template(&entries[k].0, summary_templ) {
            Ok(s) => {
                proof {
                    assert((entries@[k as int].0)@ == evs[k as int].0);
                    assert(s@ == texts[k as int]);
                    lemma_join_nl_push(texts.take(k as int), texts[k as int]);
                    assert(texts.take(k + 1) =~= texts.take(k as int).push(texts[k as int]));
                }
                if k > 0 {
                    joined.append("\n");
                    proof {
                        reveal_strlit("\n");
                        assert("\n"@ =~= seq!['\n']);
                    }
                }
                joined.append(s.as_str());
            },
            Err(e) => {
                proof {
                    assert(!populate_ok(summary_items(evs[k as int].0), summary_templ@));
                    assert(!summaries_ok(evs, summary_templ@));
                    lemma_first_bad_summary_is(evs, summary_templ@, k as int);
                    assert(error_models(
                        e,
                        summary_items(evs[first_bad_summary(evs, summary_templ@)].0),
                        summary_templ@,
                    ));
                    assert(index_error_models(e, evs, summary_templ@, list_templ@));
                    assert(!index_ok(evs, summary_templ@, list_templ@));
                }
                return Err(e);
            },
        }
        k += 1;
    }
    proof {
        assert(texts.take(n as int) =~= texts);
    }
    let pairs: Vec<(&str, String)> = vec![("items", joined)];
    let mapping = TemplateMapping::from_pairs(pairs);
    proof {
        assert(mapping@ =~= items_mapping(join_nl(texts)));
    }
    mapping.populate(String::from_str(list_templ))
}

/// Why a whole build run failed.
#[derive(Debug, PartialEq, Eq)]
pub enum BuildError {
    /// A post's metadata could not be derived.
    Metadata(MetadataError),
    /// A template did not populate.
    Template(Error),
    /// A post has no line after its title heading.
    MissingPostBody,
    /// The outside renderer reported a failure.
    Render(String),
}

/// One generated page: where it goes and what it holds.
#[derive(Debug)]
pub struct Page {
    pub path: String,
    pub html: String,
}

impl View for Page {
    type V = (Seq<char>, Seq<char>);

    open spec fn view(&self) -> (Seq<char>, Seq<char>) {
        (self.path@, self.html@)
    }
}

/// Everything one build produces: the post-list page and one page per post.
#[derive(Debug)]
pub struct SiteOutput {
    pub post_list: String,
    pub pages: Vec<Page>,
}

/// The markdown body of a post: everything after the first line, trimmed.
/// A post whose first line has no line break after it has no body.
pub open spec fn body_of(content: Seq<char>) -> Option<Seq<char>> {
    if line_end(content, 0) >= content.len() {
        None
    } else {
        Some(trim_spec(content.skip(line_end(content, 0) + 1)))
    }
}

/// The (placeholder, replacement) pairs that fill one post page.
pub open spec fn post_items(mv: MetaView, html: Seq<char>) -> Seq<(Seq<char>, Seq<char>)> {
    seq![("title"@, mv.2), ("date"@, formatted_date_spec(mv.3)), ("content"@, html)]
}

/// Every post has a body to render.
pub open spec fn all_bodies_ok(evs: Seq<EntryView>) -> bool {
    forall|k: int| 0 <= k < evs.len() ==> body_of((#[trigger] evs[k]).1) is Some
}

/// This post's page populates cleanly (meaningful once its body exists).
pub open spec fn page_ok(ev: EntryView, pt: Seq<char>) -> bool {
    populate_ok(post_items(ev.0, html_of(body_of(ev.1)->0)), pt)
}

/// The text of this post's page.
pub open spec fn page_text(ev: EntryView, pt: Seq<char>) -> Seq<char> {
    apply_all(post_items(ev.0, html_of(body_of(ev.1)->0)), pt)
}

/// Every post's page populates cleanly.
pub open spec fn pages_ok(evs: Seq<EntryView>, pt: Seq<char>) -> bool {
    forall|k: int| 0 <= k < evs.len() ==> page_ok(#[trigger] evs[k], pt)
}

/// The position of the first page that fails to populate; `evs.len()` if
/// every one populates.
pub open spec fn first_bad_page(evs: Seq<EntryView>, pt: Seq<char>) -> int
    decreases evs.len(),
{
    if evs.len() == 0 {
        0
    } else if !page_ok(evs[0], pt) {
        0
    } else {
        1 + first_bad_page(evs.drop_first(), pt)
    }
}

/// Locates `first_bad_page` at the first position that fails.
proof fn lemma_first_bad_page_is(evs: Seq<EntryView>, pt: Seq<char>, k: int)
    requires
        0 <= k < evs.len(),
        forall|p: int| 0 <= p < k ==> page_ok(#[trigger] evs[p], pt),
        !page_ok(evs[k], pt),
    ensures
        first_bad_page(evs, pt) == k,
    decreases k,
{
    if k > 0 {
        assert(forall|p: int|
            0 <= p < k - 1 ==> evs.drop_first()[p] == #[trigger] evs[p + 1]);
        lemma_first_bad_page_is(evs.drop_first(), pt, k - 1);
    }
}

/// The abstract values of the generated pages, in order: each post's page
/// path and page text.
pub open spec fn page_views_of(evs: Seq<EntryView>, pt: Seq<char>) -> Seq<(Seq<char>, Seq<
    char,
>)> {
    Seq::new(evs.len(), |k: int| (page_path_spec(entry_key(evs[k])), page_text(evs[k], pt)))
}

/// The abstract values of a vector of pages.
pub open spec fn page_views(s: Seq<Page>) -> Seq<(Seq<char>, Seq<char>)> {
    Seq::new(s.len(), |k: int| s[k]@)
}

/// Builds one post's data: its body rendered to HTML by the outside
/// renderer, kept beside its metadata.
#[verifier::loop_isolation(false)]
pub fn construct_post_data(metadata: PostMetadata, content: &str) -> (r: Result<
    Post,
    BuildError,
>)
    ensures
        r is Ok <==> body_of(content@) is Some,
        r is Ok ==> r->Ok_0.metadata == metadata && r->Ok_0.content@ == html_of(
            body_of(content@)->0,
        ),
        r is Err ==> r->Err_0 == BuildError::MissingPostBody && body_of(content@) is None,
{
    let cs = chars_of(content);
    let n = cs.len();
    let mut e: usize = 0;
    while e < n && cs[e] != '\n'
        invariant
            n == cs@.len(),
            0 <= e <= n,
            line_end(cs@, 0) == line_end(cs@, e as int),
        decreases n - e,
    {
        e += 1;
    }
    proof {
        assert(line_end(content@, 0) == e as int);
    }
    if e == n {
        return Err(BuildError::MissingPostBody);
    }
    let trimmed = trim_tail(&cs, e + 1);
    let body = string_from_chars(&trimmed);
    match to_html(body.as_str()) {
        Ok(html) => Ok(Post { metadata, content: html }),
        Err(msg) => Err(BuildError::Render(msg)),
    }
}

/// Builds one post's page: its title, date and rendered body embedded into
/// the post template, placed at its page path.
pub fn build_post_page(post: Post, post_templ: &str) -> (r: Result<Page, Error>)
    ensures
        r is Ok <==> populate_ok(post_items(post.metadata@, post.content@), post_templ@),
        r is Ok ==> r->Ok_0@ == (
            page_path_spec(post.metadata.file_name@),
            apply_all(post_items(post.metadata@, post.content@), post_templ@),
        ),
        r is Err ==> error_models(
            r->Err_0,
            post_items(post.metadata@, post.content@),
            post_templ@,
        ),
{
    let path = page_path(post.metadata.file_name.as_str());
    let pairs: Vec<(&str, String)> = vec![
        ("title", post.metadata.title.clone()),
        ("date", post.metadata.formatted_date()),
        ("content", post.content),
    ];
    let mapping = TemplateMapping::from_pairs(pairs);
    proof {
        assert(mapping@ =~= post_items(post.metadata@, post.content@));
    }
    match mapping.populate(String::from_str(post_templ)) {
        Ok(html) => Ok(Page { path, html }),
        Err(e) => Err(e),
    }
}

/// Builds every post's page, in order: first every body is rendered, then
/// every page is populated.
#[verifier::loop_isolation(false)]
pub fn build_post_templates(entries: Vec<(PostMetadata, String)>, post_templ: &str) -> (r:
    Result<Vec<Page>, BuildError>)
    ensures
        r is Ok <==> all_bodies_ok(entry_views(entries@)) && pages_ok(
            entry_views(entries@),
            post_templ@,
        ),
        r is Ok ==> page_views(r->Ok_0@) == page_views_of(entry_views(entries@), post_templ@),
        r is Err ==> (!all_bodies_ok(entry_views(entries@)) && r->Err_0
            == BuildError::MissingPostBody) || (all_bodies_ok(entry_views(entries@))
            && !pages_ok(entry_views(entries@), post_templ@) && (r->Err_0 matches
        BuildError::Template(te) && error_models(
            te,
            post_items(
                entry_views(entries@)[first_bad_page(entry_views(entries@), post_templ@)].0,
                html_of(
                    body_of(
                        entry_views(entries@)[first_bad_page(
                            entry_views(entries@),
                            post_templ@,
                        )].1,
                    )->0,
                ),
            ),
            post_templ@,
        ))),
{
    let ghost evs = entry_views(entries@);
    let n = entries.len();
    let mut rest = entries;
    let mut posts: Vec<Post> = Vec::new();
    let mut i: usize = 0;
    proof {
        assert(entry_views(rest@) =~= evs.skip(0));
    }
    while rest.len() > 0
        invariant
            n == evs.len(),
            0 <= i <= n,
            i + rest@.len() == n,
            entry_views(rest@) == evs.skip(i as int),
            posts@.len() == i,
            forall|p: int| 0 <= p < i ==> body_of((#[trigger] evs[p]).1) is Some,
            forall|p: int|
                0 <= p < i ==> (#[trigger] posts@[p]).metadata@ == evs[p].0
                    && posts@[p].content@ == html_of(body_of(evs[p].1)->0),
        decreases rest@.len(),
    {
        let ghost rest0 = rest@;
        let pair = rest.remove(0);
        proof {
            assert(entry_views(rest0)[0] == (pair.0@, pair.1@));
            assert((pair.0@, pair.1@) == evs[i as int]);
            assert(entry_views(rest@) =~= entry_views(rest0).skip(1));
            assert(entry_views(rest@) =~= evs.skip(i + 1));
        }
        match construct_post_data(pair.0, pair.1.as_str()) {
            Ok(post) => {
                posts.push(post);
                i += 1;
            },
            Err(e) => {
                proof {
                    assert(body_of(evs[i as int].1) is None);
                    assert(!all_bodies_ok(evs));
                }
                return Err(e);
            },
        }
    }
    proof {
        assert(i == n);
        assert(all_bodies_ok(evs));
    }
    let mut pages: Vec<Page> = Vec::new();
    let mut prest = posts;
    let mut j: usize = 0;
    while prest.len() > 0
        invariant
            n == evs.len(),
            all_bodies_ok(evs),
            0 <= j <= n,
            j + prest@.len() == n,
            forall|p: int|
                0 <= p < prest@.len() ==> (#[trigger] prest@[p]).metadata@ == evs[j + p].0
                    && prest@[p].content@ == html_of(body_of(evs[j + p].1)->0),
            pages@.len() == j,
            forall|p: int| 0 <= p < j ==> page_ok(#[trigger] evs[p], post_templ@),
            forall|p: int|
                0 <= p < j ==> (#[trigger] pages@[p])@ == (
                    page_path_spec(entry_key(evs[p])),
                    page_text(evs[p], post_templ@),
                ),
        decreases prest@.len(),
    {
        let ghost prest0 = prest@;
        let post = prest.remove(0);
        proof {
            assert(post == prest0[0]);
            assert(forall|p: int|
                0 <= p < prest@.len() ==> #[trigger] prest@[p] == prest0[p + 1]);
        }
        match build_post_page(post, post_templ) {
            Ok(page) => {
                proof {
                    assert(page_ok(evs[j as int], post_templ@));
                }
                pages.push(page);
                j += 1;
            },
            Err(e) => {
                proof {
                    assert(!page_ok(evs[j as int], post_templ@));
                    lemma_first_bad_page_is(evs, post_templ@, j as int);
                }
                return Err(BuildError::Template(e));
            },
        }
    }
    proof {
        assert(j == n);
        assert(page_views(pages@) =~= page_views_of(evs, post_templ@));
    }
    Ok(pages)
}

/// No two collectable inputs share a file stem.
pub open spec fn distinct_stems(ivs: Seq<InputView>) -> bool {
    forall|p: int, q: int|
        0 <= p < q < ivs.len() && collect_ok(#[trigger] ivs[p]) && collect_ok(
            #[trigger] ivs[q],
        ) ==> file_stem_of(ivs[p].0)->0 != file_stem_of(ivs[q].0)->0
}

/// Distinct keys survive any reordering.
proof fn lemma_distinct_keys_perm(a: Seq<EntryView>, b: Seq<EntryView>)
    requires
        distinct_keys(a),
        a.to_multiset() == b.to_multiset(),
    ensures
        distinct_keys(b),
{
    broadcast use vstd::seq_lib::lemma_seq_contains;

    assert forall|p: int, q: int|
        0 <= p < q < b.len() implies entry_key(#[trigger] b[p]) != entry_key(
        #[trigger] b[q],
    ) by {
        if entry_key(b[p]) == entry_key(b[q]) {
            if b[p] == b[q] {
                // The same entry twice: its count is at least two, so it
                // also stands at two positions of `a`.
                let b1 = b.remove(p);
                assert(b1.to_multiset() =~= b.to_multiset().remove(b[p]));
                assert(b1[q - 1] == b[q]);
                assert(b1.contains(b[q]));
                assert(b1.to_multiset().contains(b[q]));
                assert(a.to_multiset().remove(b[p]).contains(b[p]));
                assert(a.contains(b[p]));
                let i1 = choose|i1: int| 0 <= i1 < a.len() && a[i1] == b[p];
                let a1 = a.remove(i1);
                assert(a1.to_multiset() =~= a.to_multiset().remove(b[p]));
                assert(a1.contains(b[p]));
                let i2 = choose|i2: int| 0 <= i2 < a1.len() && a1[i2] == b[p];
                assert(a1[i2] == if i2 < i1 {
                    a[i2]
                } else {
                    a[i2 + 1]
                });
                if i2 < i1 {
                    assert(entry_key(a[i2]) == entry_key(a[i1]));
                    assert(false);
                } else {
                    assert(entry_key(a[i2 + 1]) == entry_key(a[i1]));
                    assert(false);
                }
            } else {
                // Two different entries with one key: both stand in `a`.
                assert(b.contains(b[p]) && b.contains(b[q]));
                assert(b.to_multiset().contains(b[p]));
                assert(b.to_multiset().contains(b[q]));
                assert(a.contains(b[p]));
                assert(a.contains(b[q]));
                let i1 = choose|i1: int| 0 <= i1 < a.len() && a[i1] == b[p];
                let i2 = choose|i2: int| 0 <= i2 < a.len() && a[i2] == b[q];
                assert(i1 != i2);
                assert(entry_key(a[i1]) == entry_key(a[i2]));
                assert(false);
            }
        }
    }
}

/// How the build's outcome relates to the posts in their sorted order:
/// which value a success carries, and which error a failure reports.
pub open spec fn build_matches(
    r: Result<SiteOutput, BuildError>,
    evs: Seq<EntryView>,
    st: Seq<char>,
    lt: Seq<char>,
    pt: Seq<char>,
) -> bool {
    if !index_ok(evs, st, lt) {
        r matches Err(BuildError::Template(te)) && index_error_models(te, evs, st, lt)
    } else if !all_bodies_ok(evs) {
        r matches Err(e) && e == BuildError::MissingPostBody
    } else if !pages_ok(evs, pt) {
        r matches Err(BuildError::Template(te)) && error_models(
            te,
            post_items(
                evs[first_bad_page(evs, pt)].0,
                html_of(body_of(evs[first_bad_page(evs, pt)].1)->0),
            ),
            pt,
        )
    } else {
        r matches Ok(out) && out.post_list@ == index_text(evs, st, lt) && page_views(
            out.pages@,
        ) == page_views_of(evs, pt)
    }
}

/// Builds the whole site from plain values: the post-list page and one
/// page per post, posts ordered by file stem descending. All-or-nothing:
/// the first failure is reported and nothing is returned.
pub fn build_web(
    inputs: Vec<PostInput>,
    summary_templ: &str,
    list_templ: &str,
    post_templ: &str,
) -> (r: Result<SiteOutput, BuildError>)
    requires
        distinct_stems(input_views(inputs@)),
    ensures
        !all_collect_ok(input_views(inputs@)) ==> (r matches Err(BuildError::Metadata(me))
            && me == collect_err(
            input_views(inputs@)[first_bad_input(input_views(inputs@))],
        )),
        all_collect_ok(input_views(inputs@)) ==> forall|evs: Seq<EntryView>|
            sorted_desc(evs) && evs.to_multiset() == entries_of(
                input_views(inputs@),
            ).to_multiset() ==> build_matches(r, evs, summary_templ@, list_templ@, post_templ@),
{
    let ghost ivs = input_views(inputs@);
    let entries = match collect_posts_metadata(inputs) {
        Ok(v) => v,
        Err(e) => {
            return Err(BuildError::Metadata(e));
        },
    };
    let ghost evs0 = entry_views(entries@);
    proof {
        assert(distinct_keys(entries_of(ivs))) by {
            assert(forall|k: int|
                0 <= k < ivs.len() ==> entry_key(#[trigger] entries_of(ivs)[k])
                    == file_stem_of(ivs[k].0)->0);
        }
        lemma_distinct_keys_perm(entries_of(ivs), evs0);
    }
    let post_list = match build_post_list_template(&entries, summary_templ, list_templ) {
        Ok(s) => s,
        Err(e) => {
            let out: Result<SiteOutput, BuildError> = Err(BuildError::Template(e));
            proof {
                assert forall|evs: Seq<EntryView>|
                    sorted_desc(evs) && evs.to_multiset() == entries_of(
                        ivs,
                    ).to_multiset() implies build_matches(
                    out,
                    evs,
                    summary_templ@,
                    list_templ@,
                    post_templ@,
                ) by {
                    lemma_sorted_unique_desc(evs0, evs);
                }
            }
            return out;
        },
    };
    match build_post_templates(entries, post_templ) {
        Ok(pages) => {
            let out_ok: Result<SiteOutput, BuildError> = Ok(
                SiteOutput { post_list, pages },
            );
            proof {
                assert forall|evs: Seq<EntryView>|
                    sorted_desc(evs) && evs.to_multiset() == entries_of(
                        ivs,
                    ).to_multiset() implies build_matches(
                    out_ok,
                    evs,
                    summary_templ@,
                    list_templ@,
                    post_templ@,
                ) by {
                    lemma_sorted_unique_desc(evs0, evs);
                }
            }
            out_ok
        },
        Err(e) => {
            let out: Result<SiteOutput, BuildError> = Err(e);
            proof {
                assert forall|evs: Seq<EntryView>|
                    sorted_desc(evs) && evs.to_multiset() == entries_of(
                        ivs,
                    ).to_multiset() implies build_matches(
                    out,
                    evs,
                    summary_templ@,
                    list_templ@,
                    post_templ@,
                ) by {
                    lemma_sorted_unique_desc(evs0, evs);
                }
            }
            return out;
        },
    }
}

} // verus!
