//! Translation coordinator pieces: shared types, model prompt and
//! output handling, number-marker transport and rendering.

pub mod cache;
pub mod client;
pub mod helpers;
pub mod lang;
pub mod persist;
pub mod plan;
pub mod render;
pub mod resolve;
pub mod restore;
pub mod structure;
pub mod types;
pub mod zm;

use vstd::prelude::*;

use crate::dictionary::split::SplitResult;
use crate::text::{chars_of, trim, trim_chars};
use crate::translator::client::LlmClient;
use crate::translator::plan::{
    lemma_plan_text, node_text, nodes_text, opt_text, plan_document, plan_document_spec, plan_keeps, plan_text,
    segments_text, SegView,
};
use crate::translator::render::{
    atom_chars, document_atoms, node_atoms, opt_atoms, render_document, rendered, renders_to, segment_atoms,
    surface_atom, AtomView,
};
use crate::translator::resolve::{
    absorb_all, dedupe_entries, dedupe_spec, document_fragments, document_resolves, fragment_results,
    fragment_texts, identity_lookup, line_resolves, node_resolves, segment_resolves, lemma_dedupe, lemma_identity_lookup_fragment, lemma_identity_lookup_texts, resolve_document,
    sources_distinct,
};
use crate::translator::types::{
    empty_result, entries_view, rlines_view, EntryView, NodeView, RLineView, RNodeView, RSegView, ResultView,
    SurfaceKind, TranslationResult,
    TranslationSettings,
};

verus! {

/// A chunk's result next to its fragments' results taken together: its
/// own text, the first entry of each source, and the counts and logs.
pub open spec fn chunk_outcome(r: ResultView, fragments: ResultView) -> bool {
    &&& r.entries == dedupe_spec(fragments.entries)
    &&& r.dict_hits == fragments.dict_hits
    &&& r.model_calls == fragments.model_calls
    &&& r.logs == fragments.logs
}

/// Translates a text: plans it into fragments and surface, resolves each
/// fragment through the dictionary, split rules or the model, and renders
/// the result; the new entries keep one per source.
pub fn translate_chunk<F, S, C: LlmClient + ?Sized>(
    chunk: &str,
    lookup: F,
    lookup_split: S,
    prefix: &str,
    tgt_lang: &str,
    llm_client: &C,
    settings: TranslationSettings,
) -> (r: TranslationResult) where F: Fn(&str) -> Option<String>, S: Fn(&str) -> Option<SplitResult>
    requires
        forall|k: &str| #[trigger] call_requires(lookup, (k,)),
        forall|k: &str| #[trigger] call_requires(lookup_split, (k,)),
    ensures
        trim(chunk@).len() == 0 ==> r@ == empty_result(chunk@),
        trim(chunk@).len() > 0 ==> exists|doc: Seq<RLineView>, rs: Seq<ResultView>|
            #[trigger] document_resolves(
                fragment_texts(lookup, lookup_split, llm_client, prefix@, tgt_lang@, settings),
                plan_document_spec(chunk@),
                doc,
            ) && renders_to(doc, settings, r@.text) && #[trigger] fragment_results(
                lookup,
                lookup_split,
                llm_client,
                prefix@,
                tgt_lang@,
                settings,
                document_fragments(doc),
                rs,
            ) && chunk_outcome(r@, absorb_all(empty_result(Seq::<char>::empty()), rs)),
        sources_distinct(r@.entries),
{
    if trim_chars(&chars_of(chunk)).len() == 0 {
        let r = TranslationResult::empty(chunk.to_string());
        assert(sources_distinct(r@.entries));
        return r;
    }
    let plan = plan_document(chunk);
    let (resolved, mut result) = resolve_document(
        &plan,
        &lookup,
        &lookup_split,
        prefix,
        tgt_lang,
        llm_client,
        settings,
    );
    let ghost acc = result@;
    result.text = render_document(&resolved, settings);
    let mut entries: Vec<crate::translator::types::NewTranslationEntry> = Vec::new();
    std::mem::swap(&mut entries, &mut result.new_entries);
    result.new_entries = dedupe_entries(entries);
    assert(document_resolves(
        fragment_texts(lookup, lookup_split, llm_client, prefix@, tgt_lang@, settings),
        plan_document_spec(chunk@),
        rlines_view(resolved.lines@),
    ));
    assert(renders_to(rlines_view(resolved.lines@), settings, result@.text));
    let ghost rs = choose|rs: Seq<ResultView>|
        #[trigger] fragment_results(
            lookup, lookup_split, llm_client, prefix@, tgt_lang@, settings,
            document_fragments(rlines_view(resolved.lines@)), rs,
        ) && acc == absorb_all(empty_result(Seq::<char>::empty()), rs);
    assert(chunk_outcome(result@, absorb_all(empty_result(Seq::<char>::empty()), rs)));
    result
}

} // verus!

verus! {

proof fn lemma_absorb_quiet(acc: ResultView, rs: Seq<ResultView>)
    requires
        acc.entries.len() == 0,
        acc.model_calls == 0,
        forall|i: int| 0 <= i < rs.len() ==> (#[trigger] rs[i]).entries.len() == 0 && rs[i].model_calls == 0,
    ensures
        absorb_all(acc, rs).entries.len() == 0,
        absorb_all(acc, rs).model_calls == 0,
    decreases rs.len(),
{
    if rs.len() > 0 {
        let next = crate::translator::types::absorb_view(acc, rs[0]);
        assert(rs[0].entries.len() == 0 && rs[0].model_calls == 0);
        assert forall|i: int| 0 <= i < rs.drop_first().len() implies (#[trigger] rs.drop_first()[i]).entries.len() == 0
            && rs.drop_first()[i].model_calls == 0 by {
            assert(rs.drop_first()[i] == rs[i + 1]);
        }
        lemma_absorb_quiet(next, rs.drop_first());
    }
}

/// With a dictionary that gives every key back, translating a chunk keeps
/// every fragment's text as its source, stores no entry and makes no model
/// call.
pub proof fn lemma_identity_lookup_chunk<F, S, C: LlmClient + ?Sized>(
    lookup: F,
    lookup_split: S,
    client: &C,
    prefix: Seq<char>,
    tgt_lang: Seq<char>,
    settings: TranslationSettings,
    r: ResultView,
    doc: Seq<RLineView>,
    rs: Seq<ResultView>,
) where F: Fn(&str) -> Option<String>, S: Fn(&str) -> Option<SplitResult>
    requires
        identity_lookup(lookup),
        fragment_results(lookup, lookup_split, client, prefix, tgt_lang, settings, document_fragments(doc), rs),
        chunk_outcome(r, absorb_all(empty_result(Seq::<char>::empty()), rs)),
    ensures
        forall|i: int|
            0 <= i < document_fragments(doc).len() ==> (#[trigger] document_fragments(doc)[i]).1
                == document_fragments(doc)[i].0,
        r.entries.len() == 0,
        r.model_calls == 0,
{
    let frags = document_fragments(doc);
    assert forall|i: int| 0 <= i < rs.len() implies (#[trigger] rs[i]).entries.len() == 0 && rs[i].model_calls == 0
        && rs[i].text == frags[i].0 by {
        if 3 * frags[i].0.len() + 3 <= usize::MAX {
            lemma_identity_lookup_fragment(lookup, lookup_split, client, prefix, tgt_lang, settings, frags[i].0, rs[i]);
        }
    }
    assert forall|i: int| 0 <= i < frags.len() implies (#[trigger] frags[i]).1 == frags[i].0 by {
        assert(rs[i].text == frags[i].1);
    }
    lemma_absorb_quiet(empty_result(Seq::<char>::empty()), rs);
    lemma_dedupe(absorb_all(empty_result(Seq::<char>::empty()), rs).entries);
    assert(absorb_all(empty_result(Seq::<char>::empty()), rs).entries =~= Seq::<EntryView>::empty());
    assert(dedupe_spec(Seq::<EntryView>::empty()) =~= Seq::<EntryView>::empty());
}

} // verus!

verus! {

// ---------------------------------------------------------------------------
// The text a plan holds
// ---------------------------------------------------------------------------

proof fn lemma_rendered_append(a: Seq<AtomView>, b: Seq<AtomView>)
    ensures
        rendered(a + b) == rendered(a) + rendered(b),
    decreases b.len(),
{
    if b.len() == 0 {
        assert(a + b =~= a);
        assert(rendered(a) + rendered(b) =~= rendered(a));
    } else {
        lemma_rendered_append(a, b.drop_last());
        assert((a + b).drop_last() =~= a + b.drop_last());
        assert((a + b).last() == b.last());
        assert(rendered(a) + rendered(b.drop_last()) + atom_chars(b.last()) =~= rendered(a) + rendered(b));
    }
}

proof fn lemma_rendered_single(x: AtomView)
    ensures
        rendered(seq![x]) == atom_chars(x),
{
    let v = seq![x];
    assert(v.drop_last() =~= Seq::<AtomView>::empty());
    assert(v.last() == x);
    assert(rendered(v.drop_last()) =~= seq![]);
    assert(rendered(v) =~= atom_chars(x));
}

proof fn lemma_opt_atoms_text(o: Option<(Seq<char>, SurfaceKind)>)
    ensures
        rendered(opt_atoms(o)) == opt_text(o),
{
    match o {
        Some((t, k)) => {
            lemma_rendered_single(surface_atom(t, k));
        },
        None => {
            assert(rendered(opt_atoms(o)) =~= seq![]);
        },
    }
}

proof fn lemma_nodes_rendered(tr: spec_fn(Seq<char>, Seq<char>) -> bool, p: Seq<NodeView>, r: Seq<RNodeView>)
    requires
        forall|s: Seq<char>, t: Seq<char>| #[trigger] tr(s, t) ==> t == s,
        p.len() == r.len(),
        forall|k: int| 0 <= k < p.len() ==> node_resolves(tr, #[trigger] p[k], r[k]),
    ensures
        rendered(node_atoms(r)) == nodes_text(p),
    decreases p.len(),
{
    if p.len() > 0 {
        let p0 = p.drop_last();
        let r0 = r.drop_last();
        assert forall|k: int| 0 <= k < p0.len() implies node_resolves(tr, #[trigger] p0[k], r0[k]) by {
            assert(p0[k] == p[k] && r0[k] == r[k]);
        }
        lemma_nodes_rendered(tr, p0, r0);
        let last = r.last();
        assert(node_resolves(tr, p[p.len() - 1], r[r.len() - 1]));
        let tail = match last {
            RNodeView::Surface(t, k) => seq![surface_atom(t, k)],
            RNodeView::Fragment(_, t) => if t.len() > 0 {
                seq![AtomView::Text(t)]
            } else {
                seq![]
            },
        };
        lemma_rendered_append(node_atoms(r0), tail);
        match last {
            RNodeView::Surface(t, k) => {
                lemma_rendered_single(surface_atom(t, k));
            },
            RNodeView::Fragment(s, t) => {
                assert(tr(s, t));
                if t.len() > 0 {
                    lemma_rendered_single(AtomView::Text(t));
                } else {
                    assert(rendered(tail) =~= seq![]);
                    assert(t =~= seq![]);
                }
            },
        }
    }
}

proof fn lemma_segments_rendered(tr: spec_fn(Seq<char>, Seq<char>) -> bool, p: Seq<SegView>, r: Seq<RSegView>)
    requires
        forall|s: Seq<char>, t: Seq<char>| #[trigger] tr(s, t) ==> t == s,
        p.len() == r.len(),
        forall|k: int| 0 <= k < p.len() ==> segment_resolves(tr, #[trigger] p[k], r[k]),
    ensures
        rendered(segment_atoms(r)) == segments_text(p),
    decreases p.len(),
{
    if p.len() > 0 {
        let p0 = p.drop_last();
        let r0 = r.drop_last();
        assert forall|k: int| 0 <= k < p0.len() implies segment_resolves(tr, #[trigger] p0[k], r0[k]) by {
            assert(p0[k] == p[k] && r0[k] == r[k]);
        }
        lemma_segments_rendered(tr, p0, r0);
        assert(segment_resolves(tr, p[p.len() - 1], r[r.len() - 1]));
        let (pn, ps) = p.last();
        let (rn, rs) = r.last();
        lemma_nodes_rendered(tr, pn, rn);
        lemma_opt_atoms_text(rs);
        lemma_rendered_append(segment_atoms(r0), node_atoms(rn));
        lemma_rendered_append(segment_atoms(r0) + node_atoms(rn), opt_atoms(rs));
    }
}

/// A document whose fragments keep their sources renders to the text of
/// its plan.
pub proof fn lemma_document_rendered(
    tr: spec_fn(Seq<char>, Seq<char>) -> bool,
    p: Seq<(Seq<SegView>, Option<(Seq<char>, SurfaceKind)>)>,
    r: Seq<RLineView>,
)
    requires
        forall|s: Seq<char>, t: Seq<char>| #[trigger] tr(s, t) ==> t == s,
        document_resolves(tr, p, r),
    ensures
        rendered(document_atoms(r)) == plan_text(p),
    decreases p.len(),
{
    if p.len() > 0 {
        let p0 = p.drop_last();
        let r0 = r.drop_last();
        assert forall|k: int| 0 <= k < p0.len() implies line_resolves(tr, #[trigger] p0[k], r0[k]) by {
            assert(p0[k] == p[k] && r0[k] == r[k]);
        }
        lemma_document_rendered(tr, p0, r0);
        assert(line_resolves(tr, p[p.len() - 1], r[r.len() - 1]));
        let (ps, pnl) = p.last();
        let (rs, rnl) = r.last();
        lemma_segments_rendered(tr, ps, rs);
        lemma_opt_atoms_text(rnl);
        lemma_rendered_append(document_atoms(r0), segment_atoms(rs));
        lemma_rendered_append(document_atoms(r0) + segment_atoms(rs), opt_atoms(rnl));
    }
}

} // verus!

verus! {

/// With a dictionary that gives every key back and wrapping off, a chunk
/// renders back to itself wherever planning keeps it whole.
pub proof fn lemma_identity_lookup_renders_chunk<F, S, C: LlmClient + ?Sized>(
    lookup: F,
    lookup_split: S,
    client: &C,
    prefix: Seq<char>,
    tgt_lang: Seq<char>,
    settings: TranslationSettings,
    chunk: Seq<char>,
    doc: Seq<RLineView>,
    text: Seq<char>,
) where F: Fn(&str) -> Option<String>, S: Fn(&str) -> Option<SplitResult>
    requires
        identity_lookup(lookup),
        !settings.enable_model_wrap,
        plan_keeps(chunk),
        document_resolves(
            fragment_texts(lookup, lookup_split, client, prefix, tgt_lang, settings),
            plan_document_spec(chunk),
            doc,
        ),
        renders_to(doc, settings, text),
    ensures
        text == chunk,
{
    let tr = fragment_texts(lookup, lookup_split, client, prefix, tgt_lang, settings);
    assert forall|s: Seq<char>, t: Seq<char>| #[trigger] tr(s, t) implies t == s by {
        lemma_identity_lookup_texts(lookup, lookup_split, client, prefix, tgt_lang, settings, s, t);
    }
    lemma_document_rendered(tr, plan_document_spec(chunk), doc);
    lemma_plan_text(chunk);
}

} // verus!
