//! The term map of one field and the postings writer that fills and drains it.
use vstd::prelude::*;
use crate::recorder::{
    Posting, PostingView, Recorder, postings_view, well_ordered, doc_follows,
};

verus! {

/// Identifier given to a term when it is first seen: its rank in first-sight order.
pub type UnorderedTermId = u64;

/// Bytes of bookkeeping counted for each term besides its bytes.
pub const TERM_ENTRY_BYTES: u64 = 16;

/// The terms of a field in first-sight order, and the postings recorded for each.
pub type TermModel = (Seq<Seq<u8>>, Seq<Seq<PostingView>>);

pub open spec fn has_term(keys: Seq<Seq<u8>>, t: Seq<u8>) -> bool {
    exists|i: int| 0 <= i < keys.len() && keys[i] == t
}

/// The index of `t` among `keys`, where it occurs.
pub open spec fn term_index(keys: Seq<Seq<u8>>, t: Seq<u8>) -> int {
    choose|i: int| 0 <= i < keys.len() && keys[i] == t
}

pub open spec fn distinct_keys(keys: Seq<Seq<u8>>) -> bool {
    forall|i: int, j: int| 0 <= i < j < keys.len() ==> keys[i] != keys[j]
}

/// The model after one occurrence of `t` in `doc` at `pos`: a new term gets the next
/// id and a fresh accumulator; a known one has its accumulator updated in place.
pub open spec fn subscribe_model<R: Recorder>(m: TermModel, t: Seq<u8>, doc: u32, pos: u32) -> TermModel {
    if has_term(m.0, t) {
        let i = term_index(m.0, t);
        (m.0, m.1.update(i, R::recorded(m.1[i], doc, pos)))
    } else {
        (m.0.push(t), m.1.push(R::recorded(seq![], doc, pos)))
    }
}

/// Bytes allocated by one occurrence of `t` in `doc`.
pub open spec fn subscribe_bytes<R: Recorder>(m: TermModel, t: Seq<u8>, doc: u32) -> u64 {
    if has_term(m.0, t) {
        R::record_bytes(m.1[term_index(m.0, t)], doc)
    } else {
        (t.len() as u64).saturating_add(TERM_ENTRY_BYTES).saturating_add(R::record_bytes(seq![], doc))
    }
}

/// Every term's postings may take `doc` next.
pub open spec fn model_accepts_doc(m: TermModel, doc: u32) -> bool {
    forall|i: int| 0 <= i < m.1.len() ==> doc_follows(#[trigger] m.1[i], doc)
}

/// In distinct keys, an index where `t` stands is the index of `t`.
pub proof fn lemma_index_unique(keys: Seq<Seq<u8>>, i: int, t: Seq<u8>)
    requires
        distinct_keys(keys),
        0 <= i < keys.len(),
        keys[i] == t,
    ensures
        has_term(keys, t),
        term_index(keys, t) == i,
{
    assert(has_term(keys, t));
    let k = term_index(keys, t);
    if k != i {
        if k < i {
            assert(keys[k] != keys[i]);
        } else {
            assert(keys[i] != keys[k]);
        }
    }
}

/// The map from term bytes to the accumulator of each term.
pub struct TermMap<R> {
    terms: Vec<Vec<u8>>,
    recorders: Vec<R>,
    num_bytes: u64,
}

impl<R: Recorder> TermMap<R> {
    pub closed spec fn wf(&self) -> bool {
        &&& self.terms@.len() == self.recorders@.len()
        &&& distinct_keys(self.model().0)
        &&& forall|i: int| 0 <= i < self.recorders@.len() ==> (#[trigger] self.recorders@[i]).wf()
    }

    /// Terms in first-sight order (the position is the unordered term id), with their postings.
    pub closed spec fn model(&self) -> TermModel {
        (
            self.terms@.map_values(|t: Vec<u8>| t@),
            self.recorders@.map_values(|r: R| r.postings_spec()),
        )
    }

    pub closed spec fn mem_spec(&self) -> u64 {
        self.num_bytes
    }

    pub proof fn lemma_wf(&self)
        requires
            self.wf(),
        ensures
            self.model().0.len() == self.model().1.len(),
            distinct_keys(self.model().0),
            forall|i: int| 0 <= i < self.model().1.len() ==> well_ordered(#[trigger] self.model().1[i]),
            forall|i: int, k: int| 0 <= i < self.model().1.len() && 0 <= k < self.model().1[i].len()
                ==> (#[trigger] self.model().1[i][k]).1.is_some() == R::keeps_positions(),
    {
        assert forall|i: int| 0 <= i < self.model().1.len() implies well_ordered(#[trigger] self.model().1[i]) by {
            self.recorders@[i].lemma_wf();
        }
        assert forall|i: int, k: int| 0 <= i < self.model().1.len() && 0 <= k < self.model().1[i].len()
            implies (#[trigger] self.model().1[i][k]).1.is_some() == R::keeps_positions() by {
            self.recorders@[i].lemma_wf();
            assert(self.recorders@[i].postings_spec()[k] == self.model().1[i][k]);
        }
    }

    pub fn new() -> (r: Self)
        ensures
            r.wf(),
            r.model().0.len() == 0,
            r.model().1.len() == 0,
            r.mem_spec() == 0,
    {
        TermMap { terms: Vec::new(), recorders: Vec::new(), num_bytes: 0 }
    }

    /// The number of distinct terms.
    pub fn len(&self) -> (r: usize)
        requires
            self.wf(),
        ensures
            r == self.model().0.len(),
    {
        self.terms.len()
    }

    /// Bytes held by the terms and their accumulators (saturating).
    pub fn mem_usage(&self) -> (r: u64)
        ensures
            r == self.mem_spec(),
    {
        self.num_bytes
    }

    /// The id of `term`, if it was seen.
    pub fn find(&self, term: &Vec<u8>) -> (r: Option<usize>)
        requires
            self.wf(),
        ensures
            match r {
                Some(i) => i < self.model().0.len() && self.model().0[i as int] == term@,
                None => !has_term(self.model().0, term@),
            },
    {
        let mut i: usize = 0;
        while i < self.terms.len()
            invariant
                i <= self.terms.len(),
                self.wf(),
                forall|j: int| 0 <= j < i ==> self.model().0[j] != term@,
            decreases self.terms.len() - i,
        {
            if bytes_eq(&self.terms[i], term) {
                return Some(i);
            }
            i = i + 1;
        }
        None
    }

    /// The term with id `id`.
    pub fn term(&self, id: usize) -> (r: &Vec<u8>)
        requires
            self.wf(),
            id < self.model().0.len(),
        ensures
            r@ == self.model().0[id as int],
    {
        &self.terms[id]
    }

    /// The postings recorded for the term with id `id`, in recording order.
    pub fn postings(&self, id: usize) -> (r: Vec<Posting>)
        requires
            self.wf(),
            id < self.model().0.len(),
        ensures
            postings_view(r@) == self.model().1[id as int],
    {
        self.recorders[id].postings()
    }

    /// Records one occurrence of `term` in `doc` at `pos`, creating the term's accumulator
    /// if it is new, and returns the term's id.
    pub fn subscribe(&mut self, doc: u32, pos: u32, term: &Vec<u8>) -> (r: UnorderedTermId)
        requires
            old(self).wf(),
            model_accepts_doc(old(self).model(), doc),
        ensures
            final(self).wf(),
            final(self).model() == subscribe_model::<R>(old(self).model(), term@, doc, pos),
            final(self).mem_spec() == old(self).mem_spec().saturating_add(
                subscribe_bytes::<R>(old(self).model(), term@, doc),
            ),
            final(self).model().0[r as int] == term@,
            r < final(self).model().0.len(),
    {
        let m = Ghost(self.model());
        match self.find(term) {
            Some(i) => {
                proof {
                    assert(has_term(m@.0, term@));
                    let k = term_index(m@.0, term@);
                    assert(k == i) by {
                        if k != i {
                            if k < i {
                                assert(m@.0[k] != m@.0[i as int]);
                            } else {
                                assert(m@.0[i as int] != m@.0[k]);
                            }
                        }
                    }
                    assert(doc_follows(m@.1[i as int], doc));
                }
                let mut rec = self.recorders.remove(i);
                let added = rec.record(doc, pos);
                self.recorders.insert(i, rec);
                self.num_bytes = self.num_bytes.saturating_add(added);
                proof {
                    assert(self.terms@ == old(self).terms@);
                    assert(self.recorders@ =~= old(self).recorders@.update(i as int, rec));
                    assert(self.model().0 =~= m@.0);
                    assert(self.model().1 =~= m@.1.update(i as int, R::recorded(m@.1[i as int], doc, pos)));
                }
                i as u64
            },
            None => {
                let mut rec = R::new_recorder();
                let added = rec.record(doc, pos);
                let id = self.terms.len();
                self.terms.push(copy_bytes(term));
                self.recorders.push(rec);
                let entry = (term.len() as u64).saturating_add(TERM_ENTRY_BYTES).saturating_add(added);
                self.num_bytes = self.num_bytes.saturating_add(entry);
                proof {
                    assert(self.model().0 =~= m@.0.push(term@));
                    assert(self.model().1 =~= m@.1.push(R::recorded(seq![], doc, pos)));
                    assert forall|a: int, b: int| 0 <= a < b < self.model().0.len()
                        implies self.model().0[a] != self.model().0[b] by {
                        if b == id {
                            assert(m@.0[a] != term@);
                        }
                    }
                }
                id as u64
            },
        }
    }
}

/// `map` sends distinct old document ids to distinct new ones.
pub open spec fn injective(map: Seq<u32>) -> bool {
    forall|i: int, j: int| 0 <= i < j < map.len() ==> map[i] != map[j]
}

/// `map` has a new id for every document of `ps`.
pub open spec fn covers(map: Seq<u32>, ps: Seq<PostingView>) -> bool {
    forall|i: int| 0 <= i < ps.len() ==> (#[trigger] ps[i]).0 < map.len()
}

/// `ps` with each document id replaced by its new id.
pub open spec fn remap_spec(ps: Seq<PostingView>, map: Seq<u32>) -> Seq<PostingView> {
    ps.map_values(|p: PostingView| (map[p.0 as int], p.1))
}

/// `a` and `b` have the same length and hold the same entries. Where the entries of each
/// are distinct (as for postings with distinct documents), one is a reordering of the other.
pub open spec fn same_entries(a: Seq<PostingView>, b: Seq<PostingView>) -> bool {
    &&& a.len() == b.len()
    &&& forall|x: PostingView| a.contains(x) <== b.contains(x)
    &&& forall|x: PostingView| a.contains(x) ==> b.contains(x)
}

proof fn lemma_insert_contains(s: Seq<PostingView>, j: int, a: PostingView, x: PostingView)
    requires
        0 <= j <= s.len(),
    ensures
        s.insert(j, a).contains(x) <==> (s.contains(x) || x == a),
{
    let t = s.insert(j, a);
    if s.contains(x) {
        let k = choose|k: int| 0 <= k < s.len() && s[k] == x;
        if k < j {
            assert(t[k] == x);
        } else {
            assert(t[k + 1] == x);
        }
    }
    if x == a {
        assert(t[j] == x);
    }
    if t.contains(x) {
        let k = choose|k: int| 0 <= k < t.len() && t[k] == x;
        if k < j {
            assert(s[k] == x);
        } else if k > j {
            assert(s[k - 1] == x);
        }
    }
}

/// The postings `ps` under the new numbering `map`, sorted by new document id.
pub fn remap_postings(ps: Vec<Posting>, map: &Vec<u32>) -> (r: Vec<Posting>)
    requires
        injective(map@),
        covers(map@, postings_view(ps@)),
        well_ordered(postings_view(ps@)),
    ensures
        well_ordered(postings_view(r@)),
        same_entries(postings_view(r@), remap_spec(postings_view(ps@), map@)),
{
    let ghost src = postings_view(ps@);
    let ghost target = remap_spec(src, map@);
    let n = ps.len();
    let mut ps = ps;
    let mut r: Vec<Posting> = Vec::new();
    while ps.len() > 0
        invariant
            n == src.len(),
            ps.len() <= n,
            postings_view(ps@) == src.subrange(0, ps.len() as int),
            injective(map@),
            covers(map@, src),
            well_ordered(src),
            target == remap_spec(src, map@),
            well_ordered(postings_view(r@)),
            same_entries(postings_view(r@), target.subrange(ps.len() as int, n as int)),
        decreases ps.len(),
    {
        let k = ps.len() - 1;
        let ghost before = ps@;
        let e = ps.pop().unwrap();
        assert(e.view() == src[k as int]) by {
            assert(before[k as int] == e);
            assert(postings_view(before)[k as int] == src.subrange(0, before.len() as int)[k as int]);
        }
        let nd = map[e.doc as usize];
        let ne = Posting { doc: nd, positions: e.positions };
        assert(ne.view() == target[k as int]);
        let ghost rv = postings_view(r@);
        proof {
            assert(postings_view(ps@) =~= src.subrange(0, k as int));
            assert forall|m: int| 0 <= m < rv.len() implies rv[m].0 != nd by {
                assert(rv.contains(rv[m]));
                let t1 = target.subrange(k + 1, n as int);
                assert(t1.contains(rv[m]));
                let q = choose|q: int| 0 <= q < t1.len() && t1[q] == rv[m];
                assert(t1[q] == target[k + 1 + q]);
                assert(src[k as int].0 < src[k + 1 + q].0);
                assert(map@[src[k as int].0 as int] != map@[src[k + 1 + q].0 as int]);
            }
        }
        let mut j: usize = 0;
        while j < r.len() && r[j].doc < nd
            invariant
                j <= r.len(),
                rv == postings_view(r@),
                forall|m: int| 0 <= m < j ==> rv[m].0 < nd,
            decreases r.len() - j,
        {
            j = j + 1;
        }
        r.insert(j, ne);
        proof {
            let rv2 = postings_view(r@);
            assert(rv2 =~= rv.insert(j as int, ne.view()));
            assert forall|a: int, b: int| 0 <= a < b < rv2.len() implies rv2[a].0 < rv2[b].0 by {
                if j < rv.len() {
                    assert(rv[j as int].0 >= nd);
                    assert(rv[j as int].0 != nd);
                }
                if a < j && b > j {
                    assert(rv[a].0 < nd);
                }
            }
            let t2 = target.subrange(k as int, n as int);
            let t1 = target.subrange(k + 1, n as int);
            assert(t2 =~= t1.insert(0, ne.view()));
            assert forall|x: PostingView| rv2.contains(x) <==> t2.contains(x) by {
                lemma_insert_contains(rv, j as int, ne.view(), x);
                lemma_insert_contains(t1, 0, ne.view(), x);
            }
        }
    }
    assert(target.subrange(0, n as int) =~= target);
    r
}

/// Byte-wise equality of two byte strings.
pub fn bytes_eq(a: &Vec<u8>, b: &Vec<u8>) -> (r: bool)
    ensures
        r == (a@ == b@),
{
    if a.len() != b.len() {
        return false;
    }
    let mut i: usize = 0;
    while i < a.len()
        invariant
            i <= a.len(),
            a.len() == b.len(),
            forall|j: int| 0 <= j < i ==> a@[j] == b@[j],
        decreases a.len() - i,
    {
        if a[i] != b[i] {
            return false;
        }
        i = i + 1;
    }
    assert(a@ =~= b@);
    true
}

/// A copy of `v`.
pub fn copy_bytes(v: &Vec<u8>) -> (r: Vec<u8>)
    ensures
        r@ == v@,
{
    let mut r: Vec<u8> = Vec::new();
    let mut i: usize = 0;
    while i < v.len()
        invariant
            i <= v.len(),
            r@ == v@.subrange(0, i as int),
        decreases v.len() - i,
    {
        r.push(v[i]);
        i = i + 1;
        assert(r@ =~= v@.subrange(0, i as int));
    }
    assert(v@.subrange(0, v.len() as int) =~= v@);
    r
}

} // verus!
