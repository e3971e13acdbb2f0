//! A postings writer for one recording strategy: it tokenizes into its term map and
//! serializes one term at a time.
use vstd::prelude::*;
use crate::json_term::append_bytes;
use crate::postings_writer::{
    TermMap, TermModel, UnorderedTermId, subscribe_model, subscribe_bytes, has_term, term_index, distinct_keys, lemma_index_unique, model_accepts_doc,
    injective, covers, remap_spec, same_entries, remap_postings, copy_bytes,
};
use crate::recorder::{Posting, PostingView, docs_of, PositionRecorder, PresenceRecorder, Recorder, postings_view, well_ordered, continues_last, doc_follows};

verus! {

/// The running token position of one field value of one document, carried across the
/// fragments that feed that value.
#[derive(Clone, Copy, Debug, PartialEq, Eq, Structural)]
pub struct IndexingPosition {
    pub num_tokens: u32,
    pub end_position: u32,
}

impl IndexingPosition {
    pub fn new() -> (r: IndexingPosition)
        ensures
            r.num_tokens == 0,
            r.end_position == 0,
    {
        IndexingPosition { num_tokens: 0, end_position: 0 }
    }
}

/// The model after the tokens `tokens` of `doc` were subscribed one after the other under
/// `prefix`, the first at position `start`.
pub open spec fn index_text_model<R: Recorder>(
    m: TermModel,
    doc: u32,
    prefix: Seq<u8>,
    tokens: Seq<Seq<u8>>,
    start: u32,
) -> TermModel
    decreases tokens.len(),
{
    if tokens.len() == 0 {
        m
    } else {
        let prev = index_text_model::<R>(m, doc, prefix, tokens.drop_last(), start);
        subscribe_model::<R>(prev, prefix + tokens.last(), doc, (start + tokens.len() - 1) as u32)
    }
}

/// After an occurrence in `doc`, every term may still take `doc`.
pub proof fn lemma_subscribe_keeps_doc<R: Recorder>(m: TermModel, t: Seq<u8>, doc: u32, pos: u32)
    requires
        m.0.len() == m.1.len(),
        model_accepts_doc(m, doc),
    ensures
        model_accepts_doc(subscribe_model::<R>(m, t, doc, pos), doc),
{
    let m2 = subscribe_model::<R>(m, t, doc, pos);
    assert forall|i: int| 0 <= i < m2.1.len() implies doc_follows(#[trigger] m2.1[i], doc) by {
        if has_term(m.0, t) {
            let k = term_index(m.0, t);
            if i == k {
                R::lemma_recorded_docs(m.1[k], doc, pos);
            } else {
                assert(doc_follows(m.1[i], doc));
            }
        } else if i < m.1.len() {
            assert(doc_follows(m.1[i], doc));
        } else {
            R::lemma_recorded_docs(seq![], doc, pos);
        }
    }
}

/// Subscribing a term a second time in the same document adds no entry for that
/// document: the term keeps its id, and its postings keep their length and documents.
pub proof fn lemma_resubscribe_same_doc<R: Recorder>(m: TermModel, t: Seq<u8>, doc: u32, p1: u32, p2: u32)
    requires
        m.0.len() == m.1.len(),
        distinct_keys(m.0),
    ensures
        ({
            let m1 = subscribe_model::<R>(m, t, doc, p1);
            let m2 = subscribe_model::<R>(m1, t, doc, p2);
            let i = term_index(m1.0, t);
            &&& has_term(m1.0, t)
            &&& m2.0 == m1.0
            &&& m2.1[i] == R::recorded(m1.1[i], doc, p2)
            &&& m2.1[i].len() == m1.1[i].len()
            &&& forall|k: int| 0 <= k < m1.1[i].len() ==> (#[trigger] m2.1[i][k]).0 == m1.1[i][k].0
        }),
{
    let m1 = subscribe_model::<R>(m, t, doc, p1);
    let i = if has_term(m.0, t) {
        term_index(m.0, t)
    } else {
        m.0.len() as int
    };
    if !has_term(m.0, t) {
        assert forall|a: int, b: int| 0 <= a < b < m1.0.len() implies m1.0[a] != m1.0[b] by {
            if b == m.0.len() {
                assert(m.0[a] != t);
            }
        }
        R::lemma_recorded_docs(seq![], doc, p1);
    } else {
        R::lemma_recorded_docs(m.1[i], doc, p1);
    }
    assert(m1.0[i] == t);
    lemma_index_unique(m1.0, i, t);
    R::lemma_recorded_docs(m1.1[i], doc, p2);
}

/// A further occurrence in the document last recorded raises its frequency by one and
/// appends its position.
pub proof fn lemma_position_appended(ps: Seq<PostingView>, doc: u32, p1: u32, p2: u32)
    ensures
        ({
            let a = PositionRecorder::recorded(ps, doc, p1);
            let b = PositionRecorder::recorded(a, doc, p2);
            &&& b.len() == a.len()
            &&& b.last().0 == doc
            &&& b.last().1 == Some(a.last().1.unwrap().push(p2))
        }),
{
    PositionRecorder::lemma_recorded_docs(ps, doc, p1);
    let a = PositionRecorder::recorded(ps, doc, p1);
    assert(a.last().1 is Some);
}

/// A further occurrence in the document last recorded changes nothing where only
/// presence is kept.
pub proof fn lemma_presence_unchanged(ps: Seq<PostingView>, doc: u32, p1: u32, p2: u32)
    ensures
        PresenceRecorder::recorded(PresenceRecorder::recorded(ps, doc, p1), doc, p2)
            == PresenceRecorder::recorded(ps, doc, p1),
{
    PresenceRecorder::lemma_recorded_docs(ps, doc, p1);
}

/// The postings of `t` in `m`; empty where `m` does not hold `t`.
pub open spec fn term_postings(m: TermModel, t: Seq<u8>) -> Seq<PostingView> {
    if has_term(m.0, t) {
        m.1[term_index(m.0, t)]
    } else {
        seq![]
    }
}

/// The positions at which `s` stands in `tokens`, the first token being at `start`.
pub open spec fn occurrences(tokens: Seq<Seq<u8>>, s: Seq<u8>, start: u32) -> Seq<u32>
    decreases tokens.len(),
{
    if tokens.len() == 0 {
        seq![]
    } else {
        let prev = occurrences(tokens.drop_last(), s, start);
        if tokens.last() == s {
            prev.push((start + tokens.len() - 1) as u32)
        } else {
            prev
        }
    }
}

/// Positional postings `ps` after the occurrences `occ` in `doc`: appended to the entry
/// of `doc` if it is the last one, else in one new entry for `doc`.
pub open spec fn add_occurrences(ps: Seq<PostingView>, doc: u32, occ: Seq<u32>) -> Seq<PostingView> {
    if occ.len() == 0 {
        ps
    } else if continues_last(ps, doc) {
        ps.update(ps.len() - 1, (doc, Some(ps.last().1.unwrap_or(seq![]) + occ)))
    } else {
        ps.push((doc, Some(occ)))
    }
}

/// Adding occurrences adds `doc` to the documents of a term only where it is not already
/// the last one: over successive calls with non-decreasing documents, each document
/// appears once, in the order first seen.
pub proof fn lemma_add_occurrences_docs(ps: Seq<PostingView>, doc: u32, occ: Seq<u32>)
    ensures
        docs_of(add_occurrences(ps, doc, occ)) == if occ.len() == 0 || continues_last(ps, doc) {
            docs_of(ps)
        } else {
            docs_of(ps).push(doc)
        },
{
    if occ.len() > 0 {
        if continues_last(ps, doc) {
            assert(docs_of(add_occurrences(ps, doc, occ)) =~= docs_of(ps));
        } else {
            assert(docs_of(add_occurrences(ps, doc, occ)) =~= docs_of(ps).push(doc));
        }
    }
}

/// One subscription changes the postings of its own term only, as its recorder says.
pub proof fn lemma_subscribe_postings<R: Recorder>(m: TermModel, u: Seq<u8>, doc: u32, pos: u32, t: Seq<u8>)
    requires
        m.0.len() == m.1.len(),
        distinct_keys(m.0),
    ensures
        subscribe_model::<R>(m, u, doc, pos).0.len() == subscribe_model::<R>(m, u, doc, pos).1.len(),
        distinct_keys(subscribe_model::<R>(m, u, doc, pos).0),
        term_postings(subscribe_model::<R>(m, u, doc, pos), t) == if u == t {
            R::recorded(term_postings(m, t), doc, pos)
        } else {
            term_postings(m, t)
        },
{
    let m1 = subscribe_model::<R>(m, u, doc, pos);
    if has_term(m.0, u) {
        let k = term_index(m.0, u);
        if t != u && has_term(m.0, t) {
            let j = term_index(m.0, t);
            assert(j != k);
        }
    } else {
        assert forall|a: int, b: int| 0 <= a < b < m1.0.len() implies m1.0[a] != m1.0[b] by {
            if b == m.0.len() {
                assert(m.0[a] != u);
            }
        }
        if t == u {
            assert(m1.0[m.0.len() as int] == t);
            lemma_index_unique(m1.0, m.0.len() as int, t);
        } else if has_term(m.0, t) {
            let j = term_index(m.0, t);
            assert(m1.0[j] == t);
            lemma_index_unique(m1.0, j, t);
        } else {
            assert(!has_term(m1.0, t)) by {
                if has_term(m1.0, t) {
                    let j = choose|j: int| 0 <= j < m1.0.len() && m1.0[j] == t;
                    assert(j < m.0.len());
                    assert(m.0[j] == t);
                }
            }
        }
    }
}

/// Indexing tokens keeps one accumulator per distinct term.
pub proof fn lemma_index_text_keys<R: Recorder>(m: TermModel, doc: u32, prefix: Seq<u8>, tokens: Seq<Seq<u8>>, start: u32)
    requires
        m.0.len() == m.1.len(),
        distinct_keys(m.0),
    ensures
        index_text_model::<R>(m, doc, prefix, tokens, start).0.len()
            == index_text_model::<R>(m, doc, prefix, tokens, start).1.len(),
        distinct_keys(index_text_model::<R>(m, doc, prefix, tokens, start).0),
    decreases tokens.len(),
{
    if tokens.len() > 0 {
        lemma_index_text_keys::<R>(m, doc, prefix, tokens.drop_last(), start);
        let prev = index_text_model::<R>(m, doc, prefix, tokens.drop_last(), start);
        lemma_subscribe_postings::<R>(prev, prefix + tokens.last(), doc, (start + tokens.len() - 1) as u32, seq![]);
    }
}

/// What indexing tokens does to the postings of the term `prefix + s` on a positional
/// writer: the positions where `s` occurs are added in order to the entry of `doc`, which
/// is created only if `doc` is not the last document of the term. A token repeated in a
/// document thus raises that document's frequency and appends its position; documents
/// indexed one after the other each appear once, in the order first seen.
pub proof fn lemma_index_text_postings(
    m: TermModel,
    doc: u32,
    prefix: Seq<u8>,
    tokens: Seq<Seq<u8>>,
    start: u32,
    s: Seq<u8>,
)
    requires
        m.0.len() == m.1.len(),
        distinct_keys(m.0),
        start + tokens.len() <= u32::MAX,
    ensures
        term_postings(index_text_model::<PositionRecorder>(m, doc, prefix, tokens, start), prefix + s)
            == add_occurrences(term_postings(m, prefix + s), doc, occurrences(tokens, s, start)),
    decreases tokens.len(),
{
    if tokens.len() > 0 {
        let t = prefix + s;
        let rest = tokens.drop_last();
        lemma_index_text_postings(m, doc, prefix, rest, start, s);
        lemma_index_text_keys::<PositionRecorder>(m, doc, prefix, rest, start);
        let prev = index_text_model::<PositionRecorder>(m, doc, prefix, rest, start);
        let u = prefix + tokens.last();
        let pos = (start + tokens.len() - 1) as u32;
        lemma_subscribe_postings::<PositionRecorder>(prev, u, doc, pos, t);
        let p0 = term_postings(m, t);
        let occ = occurrences(rest, s, start);
        if tokens.last() == s {
            assert(u == t);
            if occ.len() == 0 {
                if continues_last(p0, doc) {
                    assert(p0.last().1.unwrap_or(seq![]).push(pos) =~= p0.last().1.unwrap_or(seq![]) + occ.push(pos));
                } else {
                    assert(occ.push(pos) =~= seq![pos]);
                }
            } else if continues_last(p0, doc) {
                let l = p0.last().1.unwrap_or(seq![]);
                assert((l + occ).push(pos) =~= l + occ.push(pos));
                assert(PositionRecorder::recorded(add_occurrences(p0, doc, occ), doc, pos)
                    =~= add_occurrences(p0, doc, occ.push(pos)));
            } else {
                assert(PositionRecorder::recorded(add_occurrences(p0, doc, occ), doc, pos)
                    =~= add_occurrences(p0, doc, occ.push(pos)));
            }
        } else {
            assert(u != t) by {
                if u == t {
                    assert(tokens.last() =~= u.subrange(prefix.len() as int, u.len() as int));
                    assert(s =~= t.subrange(prefix.len() as int, t.len() as int));
                }
            }
        }
    }
}

pub struct SpecializedPostingsWriter<R> {
    term_map: TermMap<R>,
    total_num_tokens: u64,
}

impl<R: Recorder> SpecializedPostingsWriter<R> {
    pub open spec fn wf(&self) -> bool {
        self.term_map_spec().wf()
    }

    pub closed spec fn term_map_spec(&self) -> TermMap<R> {
        self.term_map
    }

    pub open spec fn model(&self) -> TermModel {
        self.term_map_spec().model()
    }

    pub closed spec fn tokens_spec(&self) -> u64 {
        self.total_num_tokens
    }

    pub fn new() -> (r: Self)
        ensures
            r.wf(),
            r.model().0.len() == 0,
            r.model().1.len() == 0,
            r.term_map_spec().mem_spec() == 0,
            r.tokens_spec() == 0,
    {
        SpecializedPostingsWriter { term_map: TermMap::new(), total_num_tokens: 0 }
    }

    pub fn term_map(&self) -> (r: &TermMap<R>)
        ensures
            *r == self.term_map_spec(),
    {
        &self.term_map
    }

    /// Bytes held by this writer's terms and accumulators.
    pub fn mem_usage(&self) -> (r: u64)
        ensures
            r == self.term_map_spec().mem_spec(),
    {
        self.term_map.mem_usage()
    }

    /// Tokens indexed so far (saturating).
    pub fn total_num_tokens(&self) -> (r: u64)
        ensures
            r == self.tokens_spec(),
    {
        self.total_num_tokens
    }

    /// Records one occurrence of `term` in `doc` at `pos` and returns the term's id.
    pub fn subscribe(&mut self, doc: u32, pos: u32, term: &Vec<u8>) -> (r: UnorderedTermId)
        requires
            old(self).wf(),
            model_accepts_doc(old(self).model(), doc),
        ensures
            final(self).wf(),
            final(self).model() == subscribe_model::<R>(old(self).model(), term@, doc, pos),
            final(self).term_map_spec().mem_spec() == old(self).term_map_spec().mem_spec().saturating_add(
                subscribe_bytes::<R>(old(self).model(), term@, doc),
            ),
            final(self).tokens_spec() == old(self).tokens_spec(),
            r < final(self).model().0.len(),
            final(self).model().0[r as int] == term@,
    {
        self.term_map.subscribe(doc, pos, term)
    }

    /// Subscribes each token of `tokens` in order, as `prefix` followed by the token, at
    /// the running position, which advances by one per token.
    pub fn index_text(
        &mut self,
        doc: u32,
        prefix: &Vec<u8>,
        tokens: &Vec<Vec<u8>>,
        indexing_position: &mut IndexingPosition,
    )
        requires
            old(self).wf(),
            model_accepts_doc(old(self).model(), doc),
            old(indexing_position).end_position + tokens.len() <= u32::MAX,
            old(indexing_position).num_tokens + tokens.len() <= u32::MAX,
        ensures
            final(self).wf(),
            model_accepts_doc(final(self).model(), doc),
            final(self).model() == index_text_model::<R>(
                old(self).model(),
                doc,
                prefix@,
                tokens@.map_values(|t: Vec<u8>| t@),
                old(indexing_position).end_position,
            ),
            final(self).term_map_spec().mem_spec() >= old(self).term_map_spec().mem_spec(),
            final(self).tokens_spec() == old(self).tokens_spec().saturating_add(tokens.len() as u64),
            final(indexing_position).end_position == old(indexing_position).end_position + tokens.len(),
            final(indexing_position).num_tokens == old(indexing_position).num_tokens + tokens.len(),
    {
        let ghost tv = tokens@.map_values(|t: Vec<u8>| t@);
        let ghost m0 = self.model();
        let start = indexing_position.end_position;
        let mut i: usize = 0;
        while i < tokens.len()
            invariant
                i <= tokens.len(),
                start as int + tokens.len() <= u32::MAX,
                tv == tokens@.map_values(|t: Vec<u8>| t@),
                self.wf(),
                model_accepts_doc(self.model(), doc),
                self.model() == index_text_model::<R>(m0, doc, prefix@, tv.subrange(0, i as int), start),
                self.term_map_spec().mem_spec() >= old(self).term_map_spec().mem_spec(),
                self.tokens_spec() == old(self).tokens_spec(),
            decreases tokens.len() - i,
        {
            let mut term = copy_bytes(prefix);
            append_bytes(&mut term, &tokens[i]);
            let pos = start + i as u32;
            let ghost before = self.model();
            proof {
                self.term_map.lemma_wf();
            }
            self.subscribe(doc, pos, &term);
            proof {
                lemma_subscribe_keeps_doc::<R>(before, term@, doc, pos);
                assert(tv.subrange(0, i + 1).drop_last() =~= tv.subrange(0, i as int));
                assert(tv.subrange(0, i + 1).last() == tokens@[i as int]@);
            }
            i = i + 1;
        }
        assert(tv.subrange(0, tokens.len() as int) =~= tv);
        self.total_num_tokens = self.total_num_tokens.saturating_add(tokens.len() as u64);
        indexing_position.end_position = start + tokens.len() as u32;
        indexing_position.num_tokens = indexing_position.num_tokens + tokens.len() as u32;
    }

    /// The postings of the term with id `id`, ready to be written: under the new numbering
    /// when `doc_id_map` is given, and always in strictly increasing document order.
    pub fn serialize_one_term(&self, id: usize, doc_id_map: Option<&Vec<u32>>) -> (r: Vec<Posting>)
        requires
            self.wf(),
            id < self.model().0.len(),
            match doc_id_map {
                Some(map) => injective(map@) && covers(map@, self.model().1[id as int]),
                None => true,
            },
        ensures
            well_ordered(postings_view(r@)),
            match doc_id_map {
                Some(map) => same_entries(postings_view(r@), remap_spec(self.model().1[id as int], map@)),
                None => postings_view(r@) == self.model().1[id as int],
            },
    {
        proof {
            self.term_map.lemma_wf();
        }
        let ps = self.term_map.postings(id);
        match doc_id_map {
            Some(map) => remap_postings(ps, map),
            None => ps,
        }
    }
}

} // verus!
