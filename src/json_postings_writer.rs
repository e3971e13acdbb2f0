//! The postings writer of a schemaless (JSON) field: text leaves keep positions, every
//! other leaf keeps presence only, and serialization routes each term by its decoded type.
use vstd::prelude::*;
use crate::json_term::{
    JsonType, decode_spec, decode_json_term, json_term_prefix, json_term_spec, lemma_round_trip,
};
use crate::postings_writer::{
    TermMap, TermModel, UnorderedTermId, subscribe_model, subscribe_bytes, has_term, term_index, model_accepts_doc, lemma_index_unique,
    injective, covers, remap_spec, same_entries, copy_bytes,
};
use crate::recorder::{
    Posting, PostingView, PositionRecorder, PresenceRecorder, postings_view, well_ordered,
};
use crate::specialized::{
    IndexingPosition, SpecializedPostingsWriter, index_text_model, lemma_subscribe_keeps_doc,
};
use crate::term_order::{lex_lt, sort_term_ids};

verus! {

/// The postings list emitted for one term.
pub struct TermPostings {
    pub term: Vec<u8>,
    pub postings: Vec<Posting>,
}

/// `t` decodes to a leaf of the text type.
pub open spec fn is_text_term(t: Seq<u8>) -> bool {
    match decode_spec(t) {
        Some((_, typ, _)) => typ == JsonType::Str,
        None => false,
    }
}

/// `t` decodes to a leaf of any other type.
pub open spec fn is_scalar_term(t: Seq<u8>) -> bool {
    match decode_spec(t) {
        Some((_, typ, _)) => typ != JsonType::Str,
        None => false,
    }
}

pub open spec fn all_text_terms(keys: Seq<Seq<u8>>) -> bool {
    forall|i: int| 0 <= i < keys.len() ==> is_text_term(#[trigger] keys[i])
}

/// `ps` is what is written for the recorded postings `recorded`: under the new numbering
/// when a map is given, and in strictly increasing document order.
pub open spec fn emitted(ps: Seq<PostingView>, recorded: Seq<PostingView>, map: Option<Seq<u32>>) -> bool {
    &&& well_ordered(ps)
    &&& match map {
        Some(m) => same_entries(ps, remap_spec(recorded, m)),
        None => ps == recorded,
    }
}

/// `map`, if given, renumbers every document recorded in `m`.
pub open spec fn map_fits(map: Option<Seq<u32>>, m: TermModel) -> bool {
    match map {
        Some(s) => injective(s) && forall|i: int| 0 <= i < m.1.len() ==> covers(s, #[trigger] m.1[i]),
        None => true,
    }
}

pub open spec fn map_view(map: Option<&Vec<u32>>) -> Option<Seq<u32>> {
    match map {
        Some(m) => Some(m@),
        None => None,
    }
}

/// Every text leaf's term in `keys` stays text-typed after indexing tokens under a
/// text-typed prefix.
proof fn lemma_index_text_keeps_text(
    m: TermModel,
    doc: u32,
    path: Seq<u8>,
    tokens: Seq<Seq<u8>>,
    start: u32,
)
    requires
        crate::json_term::is_json_path(path),
        all_text_terms(m.0),
    ensures
        all_text_terms(
            index_text_model::<PositionRecorder>(m, doc, json_term_spec(path, JsonType::Str, seq![]), tokens, start).0,
        ),
    decreases tokens.len(),
{
    if tokens.len() > 0 {
        let prefix = json_term_spec(path, JsonType::Str, seq![]);
        lemma_index_text_keeps_text(m, doc, path, tokens.drop_last(), start);
        let t = prefix + tokens.last();
        assert(t =~= json_term_spec(path, JsonType::Str, tokens.last()));
        lemma_round_trip(path, JsonType::Str, tokens.last());
    }
}

/// Two writers with a term map each: text leaves go to the positional writer, all other
/// leaves to the presence-only one. Each term is read from the map of the writer that its
/// decoded type routes it to; a term that map does not hold is not written.
pub struct JsonPostingsWriter {
    str_posting_writer: SpecializedPostingsWriter<PositionRecorder>,
    non_str_posting_writer: SpecializedPostingsWriter<PresenceRecorder>,
}

impl JsonPostingsWriter {
    pub closed spec fn text_writer(&self) -> SpecializedPostingsWriter<PositionRecorder> {
        self.str_posting_writer
    }

    pub closed spec fn scalar_writer(&self) -> SpecializedPostingsWriter<PresenceRecorder> {
        self.non_str_posting_writer
    }

    /// Terms of text leaves, with their positional postings.
    pub open spec fn text_model(&self) -> TermModel {
        self.text_writer().model()
    }

    /// Terms of all other leaves, with their presence-only postings.
    pub open spec fn scalar_model(&self) -> TermModel {
        self.scalar_writer().model()
    }

    pub open spec fn wf(&self) -> bool {
        &&& self.text_writer().wf()
        &&& self.scalar_writer().wf()
        &&& all_text_terms(self.text_model().0)
        &&& forall|i: int| 0 <= i < self.scalar_model().0.len() ==> !is_text_term(#[trigger] self.scalar_model().0[i])
    }

    /// Documents may be indexed from `doc` on: no term holds a later document.
    pub open spec fn accepts_doc(&self, doc: u32) -> bool {
        model_accepts_doc(self.text_model(), doc) && model_accepts_doc(self.scalar_model(), doc)
    }

    pub fn new() -> (r: Self)
        ensures
            r.wf(),
            r.text_model().0.len() == 0,
            r.scalar_model().0.len() == 0,
            r.text_model().1.len() == 0,
            r.scalar_model().1.len() == 0,
            r.text_writer().tokens_spec() == 0,
            r.scalar_writer().tokens_spec() == 0,
            r.text_writer().term_map_spec().mem_spec() == 0,
            r.scalar_writer().term_map_spec().mem_spec() == 0,
    {
        JsonPostingsWriter {
            str_posting_writer: SpecializedPostingsWriter::new(),
            non_str_posting_writer: SpecializedPostingsWriter::new(),
        }
    }

    /// The term map of text leaves.
    pub fn term_map(&self) -> (r: &TermMap<PositionRecorder>)
        ensures
            *r == self.text_writer().term_map_spec(),
    {
        self.str_posting_writer.term_map()
    }

    /// The term map of all other leaves.
    pub fn scalar_term_map(&self) -> (r: &TermMap<PresenceRecorder>)
        ensures
            *r == self.scalar_writer().term_map_spec(),
    {
        self.non_str_posting_writer.term_map()
    }

    /// Bytes held by both writers (saturating).
    pub fn mem_usage(&self) -> (r: u64)
        ensures
            r == self.text_writer().term_map_spec().mem_spec().saturating_add(
                self.scalar_writer().term_map_spec().mem_spec(),
            ),
    {
        self.str_posting_writer.mem_usage().saturating_add(self.non_str_posting_writer.mem_usage())
    }

    /// Tokens indexed by both writers (saturating).
    pub fn total_num_tokens(&self) -> (r: u64)
        ensures
            r == self.text_writer().tokens_spec().saturating_add(self.scalar_writer().tokens_spec()),
    {
        self.str_posting_writer.total_num_tokens().saturating_add(
            self.non_str_posting_writer.total_num_tokens(),
        )
    }

    /// Records a term that was not produced by the tokenizer (a number, a boolean, a
    /// date...): it goes to the presence-only writer. Text leaves go through `index_text`.
    pub fn subscribe(&mut self, doc: u32, pos: u32, term: &Vec<u8>) -> (r: UnorderedTermId)
        requires
            old(self).wf(),
            old(self).accepts_doc(doc),
            !is_text_term(term@),
        ensures
            final(self).wf(),
            final(self).accepts_doc(doc),
            final(self).text_model() == old(self).text_model(),
            final(self).scalar_writer().term_map_spec().mem_spec()
                == old(self).scalar_writer().term_map_spec().mem_spec().saturating_add(
                subscribe_bytes::<PresenceRecorder>(old(self).scalar_model(), term@, doc),
            ),
            final(self).scalar_writer().tokens_spec() == old(self).scalar_writer().tokens_spec(),
            final(self).scalar_model() == subscribe_model::<PresenceRecorder>(
                old(self).scalar_model(),
                term@,
                doc,
                pos,
            ),
            final(self).text_writer() == old(self).text_writer(),
            r < final(self).scalar_model().0.len(),
            final(self).scalar_model().0[r as int] == term@,
    {
        proof {
            self.non_str_posting_writer.term_map_spec().lemma_wf();
            lemma_subscribe_keeps_doc::<PresenceRecorder>(old(self).scalar_model(), term@, doc, pos);
        }
        let r = self.non_str_posting_writer.subscribe(doc, pos, term);
        proof {
            let m0 = old(self).scalar_model();
            let m1 = self.scalar_model();
            assert forall|i: int| 0 <= i < m1.0.len() implies !is_text_term(#[trigger] m1.0[i]) by {
                if i < m0.0.len() {
                    assert(m1.0[i] == m0.0[i]);
                } else {
                    assert(m1.0[i] == term@);
                }
            }
        }
        r
    }

    /// Indexes the tokens of a text leaf under `path` into the positional writer. Returns
    /// false, and changes nothing, when the path cannot be encoded.
    pub fn index_text(
        &mut self,
        doc: u32,
        path: &Vec<u8>,
        tokens: &Vec<Vec<u8>>,
        indexing_position: &mut IndexingPosition,
    ) -> (r: bool)
        requires
            old(self).wf(),
            old(self).accepts_doc(doc),
            old(indexing_position).end_position + tokens.len() <= u32::MAX,
            old(indexing_position).num_tokens + tokens.len() <= u32::MAX,
        ensures
            final(self).wf(),
            final(self).accepts_doc(doc),
            r == crate::json_term::is_json_path(path@),
            final(self).scalar_writer() == old(self).scalar_writer(),
            r ==> final(self).text_model() == index_text_model::<PositionRecorder>(
                old(self).text_model(),
                doc,
                json_term_spec(path@, JsonType::Str, seq![]),
                tokens@.map_values(|t: Vec<u8>| t@),
                old(indexing_position).end_position,
            ),
            r ==> final(self).text_writer().tokens_spec()
                == old(self).text_writer().tokens_spec().saturating_add(tokens.len() as u64),
            final(self).text_writer().term_map_spec().mem_spec() >= old(self).text_writer().term_map_spec().mem_spec(),
            r ==> final(indexing_position).end_position == old(indexing_position).end_position + tokens.len(),
            r ==> final(indexing_position).num_tokens == old(indexing_position).num_tokens + tokens.len(),
            !r ==> *final(self) == *old(self) && *final(indexing_position) == *old(indexing_position),
    {
        match json_term_prefix(path, JsonType::Str) {
            Some(prefix) => {
                self.str_posting_writer.index_text(doc, &prefix, tokens, indexing_position);
                proof {
                    lemma_index_text_keeps_text(
                        old(self).text_model(),
                        doc,
                        path@,
                        tokens@.map_values(|t: Vec<u8>| t@),
                        old(indexing_position).end_position,
                    );
                }
                true
            },
            None => false,
        }
    }

    /// `t` is served: it decodes, and the writer that its type routes it to holds it.
    pub open spec fn routable(&self, t: Seq<u8>) -> bool {
        ||| is_text_term(t) && has_term(self.text_model().0, t)
        ||| is_scalar_term(t) && has_term(self.scalar_model().0, t)
    }

    /// `ps` is what is written for the term `t`: the postings of the writer its type
    /// routes it to, positional for text, presence-only for every other type.
    pub open spec fn serialized_as(&self, t: Seq<u8>, ps: Seq<PostingView>, map: Option<Seq<u32>>) -> bool {
        if is_text_term(t) {
            has_term(self.text_model().0, t)
                && emitted(ps, self.text_model().1[term_index(self.text_model().0, t)], map)
        } else {
            is_scalar_term(t) && has_term(self.scalar_model().0, t)
                && emitted(ps, self.scalar_model().1[term_index(self.scalar_model().0, t)], map)
        }
    }

    /// Every term of both writers, each once.
    fn all_terms(&self) -> (r: Vec<Vec<u8>>)
        requires
            self.wf(),
        ensures
            forall|a: int, b: int| 0 <= a < b < r@.len() ==> r@[a]@ != r@[b]@,
            forall|i: int| 0 <= i < self.text_model().0.len()
                ==> r@.map_values(|k: Vec<u8>| k@).contains(#[trigger] self.text_model().0[i]),
            forall|i: int| 0 <= i < self.scalar_model().0.len()
                ==> r@.map_values(|k: Vec<u8>| k@).contains(#[trigger] self.scalar_model().0[i]),
    {
        let text = self.str_posting_writer.term_map();
        let scalar = self.non_str_posting_writer.term_map();
        proof {
            text.lemma_wf();
            scalar.lemma_wf();
        }
        let ghost tk = text.model().0;
        let ghost sk = scalar.model().0;
        let mut r: Vec<Vec<u8>> = Vec::new();
        let mut i: usize = 0;
        while i < text.len()
            invariant
                text.wf(),
                tk == text.model().0,
                crate::postings_writer::distinct_keys(tk),
                i <= tk.len(),
                r@.len() == i,
                r@.map_values(|k: Vec<u8>| k@) =~= tk.subrange(0, i as int),
            decreases tk.len() - i,
        {
            r.push(copy_bytes(text.term(i)));
            i = i + 1;
            assert(r@[i - 1]@ == tk[i - 1]);
            assert(r@.map_values(|k: Vec<u8>| k@) =~= tk.subrange(0, i as int));
        }
        proof {
            let rv = r@.map_values(|k: Vec<u8>| k@);
            assert(rv =~= tk);
            assert forall|a: int, b: int| 0 <= a < b < r@.len() implies r@[a]@ != r@[b]@ by {
                assert(rv[a] == tk[a] && rv[b] == tk[b]);
            }
            assert forall|x: int| 0 <= x < tk.len() implies rv.contains(#[trigger] tk[x]) by {
                assert(rv[x] == tk[x]);
            }
            assert forall|a: int| 0 <= a < r@.len() implies has_term(tk, #[trigger] r@[a]@) by {
                assert(rv[a] == r@[a]@);
            }
        }
        let mut i: usize = 0;
        while i < scalar.len()
            invariant
                text.wf(),
                scalar.wf(),
                tk == text.model().0,
                sk == scalar.model().0,
                crate::postings_writer::distinct_keys(tk),
                crate::postings_writer::distinct_keys(sk),
                i <= sk.len(),
                forall|a: int, b: int| 0 <= a < b < r@.len() ==> r@[a]@ != r@[b]@,
                forall|x: int| 0 <= x < tk.len() ==> r@.map_values(|k: Vec<u8>| k@).contains(#[trigger] tk[x]),
                forall|x: int| 0 <= x < i ==> r@.map_values(|k: Vec<u8>| k@).contains(#[trigger] sk[x]),
                forall|a: int| 0 <= a < r@.len() ==> has_term(tk, #[trigger] r@[a]@)
                    || exists|x: int| 0 <= x < i && sk[x] == r@[a]@,
            decreases sk.len() - i,
        {
            let t = scalar.term(i);
            let ghost before = r@;
            match text.find(t) {
                Some(_) => {
                    proof {
                        let w = choose|x: int| 0 <= x < tk.len() && tk[x] == t@;
                        assert(r@.map_values(|k: Vec<u8>| k@).contains(tk[w]));
                        assert forall|a: int| 0 <= a < r@.len() implies has_term(tk, #[trigger] r@[a]@)
                            || exists|x: int| 0 <= x < i + 1 && sk[x] == r@[a]@ by {
                            if !has_term(tk, r@[a]@) {
                                let x = choose|x: int| 0 <= x < i && sk[x] == r@[a]@;
                                assert(0 <= x < i + 1 && sk[x] == r@[a]@);
                            }
                        }
                    }
                },
                None => {
                    r.push(copy_bytes(t));
                    proof {
                        let rv = r@.map_values(|k: Vec<u8>| k@);
                        let bv = before.map_values(|k: Vec<u8>| k@);
                        assert forall|x: int| 0 <= x < tk.len() implies rv.contains(#[trigger] tk[x]) by {
                            let q = choose|q: int| 0 <= q < bv.len() && bv[q] == tk[x];
                            assert(rv[q] == tk[x]);
                        }
                        assert forall|x: int| 0 <= x < i + 1 implies rv.contains(#[trigger] sk[x]) by {
                            if x < i {
                                let q = choose|q: int| 0 <= q < bv.len() && bv[q] == sk[x];
                                assert(rv[q] == sk[x]);
                            } else {
                                assert(rv[before.len() as int] == sk[x]);
                            }
                        }
                        assert forall|a: int, b: int| 0 <= a < b < r@.len() implies r@[a]@ != r@[b]@ by {
                            if b == before.len() {
                                if has_term(tk, r@[a]@) {
                                } else {
                                    let x = choose|x: int| 0 <= x < i && sk[x] == before[a]@;
                                    assert(sk[x] != sk[i as int]);
                                }
                            }
                        }
                        assert forall|a: int| 0 <= a < r@.len() implies has_term(tk, #[trigger] r@[a]@)
                            || exists|x: int| 0 <= x < i + 1 && sk[x] == r@[a]@ by {
                            if a == before.len() {
                                assert(sk[i as int] == r@[a]@);
                            } else if !has_term(tk, r@[a]@) {
                                let x = choose|x: int| 0 <= x < i && sk[x] == r@[a]@;
                                assert(0 <= x < i + 1 && sk[x] == r@[a]@);
                            }
                        }
                    }
                },
            }
            i = i + 1;
        }
        r
    }

    /// Writes the postings of every term, in increasing byte order of the terms. A term that
    /// decodes to the text type is written from the positional writer, with frequencies and
    /// positions; any other decodable term from the presence-only writer. A term that does
    /// not decode, or that the writer of its type does not hold, is skipped.
    pub fn serialize(&self, doc_id_map: Option<&Vec<u32>>) -> (r: Vec<TermPostings>)
        requires
            self.wf(),
            map_fits(map_view(doc_id_map), self.text_model()),
            map_fits(map_view(doc_id_map), self.scalar_model()),
        ensures
            forall|a: int, b: int| 0 <= a < b < r@.len() ==> lex_lt(r@[a].term@, r@[b].term@),
            forall|k: int| 0 <= k < r@.len() ==> self.serialized_as(
                (#[trigger] r@[k]).term@,
                postings_view(r@[k].postings@),
                map_view(doc_id_map),
            ),
            forall|t: Seq<u8>| self.routable(t) ==> exists|k: int| 0 <= k < r@.len() && (#[trigger] r@[k]).term@ == t,
            forall|t: Seq<u8>|
                (has_term(self.text_model().0, t) || has_term(self.scalar_model().0, t)) && decode_spec(t) is Some
                    ==> exists|k: int| 0 <= k < r@.len() && (#[trigger] r@[k]).term@ == t,
            forall|k: int| 0 <= k < r@.len() ==> decode_spec((#[trigger] r@[k]).term@) is Some,
            forall|k: int| 0 <= k < r@.len() ==> well_ordered(postings_view((#[trigger] r@[k]).postings@)),
    {
        let keys = self.all_terms();
        let ghost kv = keys@.map_values(|k: Vec<u8>| k@);
        let ids = sort_term_ids(&keys);
        let text = self.str_posting_writer.term_map();
        let scalar = self.non_str_posting_writer.term_map();
        proof {
            text.lemma_wf();
            scalar.lemma_wf();
        }
        let ghost tm = self.text_model();
        let ghost sm = self.scalar_model();
        let ghost mv = map_view(doc_id_map);
        let mut r: Vec<TermPostings> = Vec::new();
        let ghost mut src: Seq<int> = seq![];
        let mut j: usize = 0;
        while j < ids.len()
            invariant
                self.wf(),
                tm == self.text_model(),
                sm == self.scalar_model(),
                *text == self.text_writer().term_map_spec(),
                *scalar == self.scalar_writer().term_map_spec(),
                mv == map_view(doc_id_map),
                map_fits(mv, tm),
                map_fits(mv, sm),
                crate::postings_writer::distinct_keys(tm.0),
                crate::postings_writer::distinct_keys(sm.0),
                tm.0.len() == tm.1.len(),
                sm.0.len() == sm.1.len(),
                kv == keys@.map_values(|k: Vec<u8>| k@),
                crate::term_order::sorted_ids(kv, ids@),
                j <= ids.len(),
                src.len() == r@.len(),
                forall|k: int| 0 <= k < src.len() ==> 0 <= #[trigger] src[k] < j,
                forall|a: int, b: int| 0 <= a < b < src.len() ==> src[a] < src[b],
                forall|k: int| 0 <= k < r@.len() ==> (#[trigger] r@[k]).term@ == kv[ids@[src[k]] as int],
                forall|k: int| 0 <= k < r@.len() ==> self.serialized_as(
                    (#[trigger] r@[k]).term@,
                    postings_view(r@[k].postings@),
                    mv,
                ),
                forall|q: int| 0 <= q < j && self.routable(kv[ids@[q] as int])
                    ==> exists|k: int| 0 <= k < r@.len() && (#[trigger] r@[k]).term@ == kv[ids@[q] as int],
            decreases ids.len() - j,
        {
            let term = &keys[ids[j]];
            let ghost tv = term@;
            assert(tv == kv[ids@[j as int] as int]);
            let mut out: Option<Vec<Posting>> = None;
            match decode_json_term(term) {
                Some((_, typ, _)) => {
                    if typ == JsonType::Str {
                        match text.find(term) {
                            Some(tid) => {
                                proof {
                                    lemma_index_unique(tm.0, tid as int, tv);
                                }
                                out = Some(self.str_posting_writer.serialize_one_term(tid, doc_id_map));
                            },
                            None => {},
                        }
                    } else {
                        match scalar.find(term) {
                            Some(sid) => {
                                proof {
                                    lemma_index_unique(sm.0, sid as int, tv);
                                }
                                out = Some(self.non_str_posting_writer.serialize_one_term(sid, doc_id_map));
                            },
                            None => {},
                        }
                    }
                },
                None => {},
            }
            let ghost before = r@;
            match out {
                Some(postings) => {
                    assert(self.serialized_as(tv, postings_view(postings@), mv));
                    r.push(TermPostings { term: copy_bytes(term), postings });
                    proof {
                        src = src.push(j as int);
                        assert(r@[before.len() as int].term@ == tv);
                        assert forall|q: int| 0 <= q < j + 1 && self.routable(kv[ids@[q] as int])
                            implies exists|k: int| 0 <= k < r@.len() && (#[trigger] r@[k]).term@ == kv[ids@[q] as int] by {
                            if q < j {
                                let k = choose|k: int| 0 <= k < before.len() && (#[trigger] before[k]).term@ == kv[ids@[q] as int];
                                assert(r@[k] == before[k]);
                            } else {
                                assert(r@[before.len() as int].term@ == kv[ids@[q] as int]);
                            }
                        }
                    }
                },
                None => {
                    proof {
                        assert(!self.routable(tv));
                    }
                },
            }
            j = j + 1;
        }
        proof {
            assert forall|k: int| 0 <= k < r@.len() implies decode_spec((#[trigger] r@[k]).term@) is Some by {
                assert(self.serialized_as(r@[k].term@, postings_view(r@[k].postings@), mv));
            }
            assert forall|a: int, b: int| 0 <= a < b < r@.len() implies lex_lt(r@[a].term@, r@[b].term@) by {
                assert(src[a] < src[b]);
            }
            assert forall|t: Seq<u8>| self.routable(t) implies exists|k: int| 0 <= k < r@.len() && (#[trigger] r@[k]).term@ == t by {
                let x = if has_term(tm.0, t) && is_text_term(t) {
                    let w = choose|w: int| 0 <= w < tm.0.len() && tm.0[w] == t;
                    assert(kv.contains(tm.0[w]));
                    choose|x: int| 0 <= x < kv.len() && kv[x] == t
                } else {
                    let w = choose|w: int| 0 <= w < sm.0.len() && sm.0[w] == t;
                    assert(kv.contains(sm.0[w]));
                    choose|x: int| 0 <= x < kv.len() && kv[x] == t
                };
                assert(ids@.contains(x as usize));
                let q = choose|q: int| 0 <= q < ids@.len() && ids@[q] == x as usize;
                assert(kv[ids@[q] as int] == t);
            }
            assert forall|t: Seq<u8>|
                (has_term(tm.0, t) || has_term(sm.0, t)) && decode_spec(t) is Some
                implies exists|k: int| 0 <= k < r@.len() && (#[trigger] r@[k]).term@ == t by {
                if has_term(tm.0, t) {
                    let w = choose|w: int| 0 <= w < tm.0.len() && tm.0[w] == t;
                    assert(is_text_term(tm.0[w]));
                } else {
                    let w = choose|w: int| 0 <= w < sm.0.len() && sm.0[w] == t;
                    assert(!is_text_term(sm.0[w]));
                }
                assert(self.routable(t));
            }
        }
        r
    }
}

/// A text term is written with its frequencies and positions; any other decodable term is
/// written with neither.
pub proof fn lemma_type_routing(w: &JsonPostingsWriter, t: Seq<u8>, ps: Seq<PostingView>, map: Option<Seq<u32>>)
    requires
        w.wf(),
        w.serialized_as(t, ps, map),
    ensures
        is_text_term(t) ==> forall|k: int| 0 <= k < ps.len() ==> (#[trigger] ps[k]).1 is Some,
        is_scalar_term(t) ==> forall|k: int| 0 <= k < ps.len() ==> (#[trigger] ps[k]).1 is None,
{
    w.text_writer().term_map_spec().lemma_wf();
    w.scalar_writer().term_map_spec().lemma_wf();
    let (m, keep) = if is_text_term(t) {
        (w.text_model(), true)
    } else {
        (w.scalar_model(), false)
    };
    let rec = m.1[term_index(m.0, t)];
    assert forall|k: int| 0 <= k < ps.len() implies (#[trigger] ps[k]).1.is_some() == keep by {
        match map {
            Some(s) => {
                let rm = remap_spec(rec, s);
                assert(ps.contains(ps[k]));
                let q = choose|q: int| 0 <= q < rm.len() && rm[q] == ps[k];
                assert(rec[q].1.is_some() == keep);
            },
            None => {
                assert(rec[k].1.is_some() == keep);
            },
        }
    }
}

} // verus!
