//! What is kept per term and document: presence alone, or frequency and positions.
use vstd::prelude::*;

verus! {

/// One entry of a postings list: a document and, for positional terms, the positions at
/// which the term occurs in it (the term frequency is their number).
pub struct Posting {
    pub doc: u32,
    pub positions: Option<Vec<u32>>,
}

/// The value of a posting: document id and, if kept, the positions.
pub type PostingView = (u32, Option<Seq<u32>>);

impl Posting {
    pub open spec fn view(&self) -> PostingView {
        match self.positions {
            Some(p) => (self.doc, Some(p@)),
            None => (self.doc, None),
        }
    }

    /// The number of occurrences recorded; 0 where only presence is kept.
    pub fn term_freq(&self) -> (r: usize)
        ensures
            r == match self.view().1 {
                Some(p) => p.len(),
                None => 0,
            },
    {
        match &self.positions {
            Some(p) => p.len(),
            None => 0,
        }
    }
}

pub open spec fn postings_view(ps: Seq<Posting>) -> Seq<PostingView> {
    ps.map_values(|p: Posting| p.view())
}

/// The document ids of a postings list, in order.
pub open spec fn docs_of(ps: Seq<PostingView>) -> Seq<u32> {
    ps.map_values(|p: PostingView| p.0)
}

pub open spec fn strictly_increasing(s: Seq<u32>) -> bool {
    forall|i: int, j: int| 0 <= i < j < s.len() ==> s[i] < s[j]
}

/// A postings list whose document ids are unique and increasing.
pub open spec fn well_ordered(ps: Seq<PostingView>) -> bool {
    forall|i: int, j: int| 0 <= i < j < ps.len() ==> ps[i].0 < ps[j].0
}

/// `doc` may be recorded next: no later document was recorded before it.
pub open spec fn doc_follows(ps: Seq<PostingView>, doc: u32) -> bool {
    ps.len() == 0 || ps.last().0 <= doc
}

/// `doc` is the document of the last entry: a further occurrence updates that entry.
pub open spec fn continues_last(ps: Seq<PostingView>, doc: u32) -> bool {
    ps.len() > 0 && ps.last().0 == doc
}

/// A strategy that accumulates the postings of one term.
pub trait Recorder: Sized {
    spec fn wf(&self) -> bool;

    /// The postings recorded so far, one entry per document, in the order recorded.
    spec fn postings_spec(&self) -> Seq<PostingView>;

    /// The postings after one more occurrence of the term in `doc` at `pos`.
    spec fn recorded(ps: Seq<PostingView>, doc: u32, pos: u32) -> Seq<PostingView>;

    /// The bytes taken by recording one more occurrence in `doc`.
    spec fn record_bytes(ps: Seq<PostingView>, doc: u32) -> u64;

    /// Whether entries carry positions.
    spec fn keeps_positions() -> bool;

    proof fn lemma_wf(&self)
        requires
            self.wf(),
        ensures
            well_ordered(self.postings_spec()),
            forall|i: int| 0 <= i < self.postings_spec().len()
                ==> (#[trigger] self.postings_spec()[i]).1.is_some() == Self::keeps_positions(),
    ;

    /// Recording keeps one entry per document: an occurrence in the last document
    /// updates its entry, an occurrence in a new document appends one.
    proof fn lemma_recorded_docs(ps: Seq<PostingView>, doc: u32, pos: u32)
        ensures
            Self::recorded(ps, doc, pos).len() == if continues_last(ps, doc) {
                ps.len()
            } else {
                ps.len() + 1
            },
            forall|i: int| 0 <= i < ps.len() ==> (#[trigger] Self::recorded(ps, doc, pos)[i]).0 == ps[i].0,
            Self::recorded(ps, doc, pos).last().0 == doc,
    ;

    fn new_recorder() -> (r: Self)
        ensures
            r.wf(),
            r.postings_spec() == Seq::<PostingView>::empty(),
    ;

    fn record(&mut self, doc: u32, pos: u32) -> (r: u64)
        requires
            old(self).wf(),
            doc_follows(old(self).postings_spec(), doc),
        ensures
            final(self).wf(),
            final(self).postings_spec() == Self::recorded(old(self).postings_spec(), doc, pos),
            r == Self::record_bytes(old(self).postings_spec(), doc),
    ;

    fn postings(&self) -> (r: Vec<Posting>)
        requires
            self.wf(),
        ensures
            postings_view(r@) == self.postings_spec(),
    ;
}

/// Keeps only the documents that contain the term.
pub struct PresenceRecorder {
    docs: Vec<u32>,
}

impl Recorder for PresenceRecorder {
    closed spec fn wf(&self) -> bool {
        strictly_increasing(self.docs@)
    }

    closed spec fn postings_spec(&self) -> Seq<PostingView> {
        self.docs@.map_values(|d: u32| (d, None::<Seq<u32>>))
    }

    open spec fn recorded(ps: Seq<PostingView>, doc: u32, pos: u32) -> Seq<PostingView> {
        if continues_last(ps, doc) {
            ps
        } else {
            ps.push((doc, None))
        }
    }

    open spec fn record_bytes(ps: Seq<PostingView>, doc: u32) -> u64 {
        if continues_last(ps, doc) {
            0
        } else {
            4
        }
    }

    open spec fn keeps_positions() -> bool {
        false
    }

    proof fn lemma_wf(&self) {
    }

    proof fn lemma_recorded_docs(ps: Seq<PostingView>, doc: u32, pos: u32) {
    }

    fn new_recorder() -> (r: Self) {
        let r = PresenceRecorder { docs: Vec::new() };
        assert(r.postings_spec() =~= Seq::<PostingView>::empty());
        r
    }

    fn record(&mut self, doc: u32, pos: u32) -> (r: u64) {
        let n = self.docs.len();
        if n > 0 && self.docs[n - 1] == doc {
            0
        } else {
            self.docs.push(doc);
            assert(self.postings_spec() =~= old(self).postings_spec().push((doc, None)));
            4
        }
    }

    fn postings(&self) -> (r: Vec<Posting>) {
        let mut r: Vec<Posting> = Vec::new();
        let mut i: usize = 0;
        while i < self.docs.len()
            invariant
                i <= self.docs.len(),
                r@.len() == i,
                postings_view(r@) =~= self.postings_spec().subrange(0, i as int),
            decreases self.docs.len() - i,
        {
            r.push(Posting { doc: self.docs[i], positions: None });
            i = i + 1;
            assert(r@[i - 1].view() == self.postings_spec()[i - 1]);
            assert(postings_view(r@) =~= self.postings_spec().subrange(0, i as int));
        }
        r
    }
}

/// Keeps, per document, the positions at which the term occurs.
pub struct PositionRecorder {
    docs: Vec<u32>,
    positions: Vec<Vec<u32>>,
}

impl Recorder for PositionRecorder {
    closed spec fn wf(&self) -> bool {
        &&& strictly_increasing(self.docs@)
        &&& self.positions@.len() == self.docs@.len()
    }

    closed spec fn postings_spec(&self) -> Seq<PostingView> {
        Seq::new(self.docs@.len(), |i: int| (self.docs@[i], Some(self.positions@[i]@)))
    }

    open spec fn recorded(ps: Seq<PostingView>, doc: u32, pos: u32) -> Seq<PostingView> {
        if continues_last(ps, doc) {
            ps.update(ps.len() - 1, (doc, Some(ps.last().1.unwrap_or(seq![]).push(pos))))
        } else {
            ps.push((doc, Some(seq![pos])))
        }
    }

    open spec fn record_bytes(ps: Seq<PostingView>, doc: u32) -> u64 {
        if continues_last(ps, doc) {
            4
        } else {
            8
        }
    }

    open spec fn keeps_positions() -> bool {
        true
    }

    proof fn lemma_wf(&self) {
    }

    proof fn lemma_recorded_docs(ps: Seq<PostingView>, doc: u32, pos: u32) {
    }

    fn new_recorder() -> (r: Self) {
        let r = PositionRecorder { docs: Vec::new(), positions: Vec::new() };
        assert(r.postings_spec() =~= Seq::<PostingView>::empty());
        r
    }

    fn record(&mut self, doc: u32, pos: u32) -> (r: u64) {
        let n = self.docs.len();
        if n > 0 && self.docs[n - 1] == doc {
            let mut last = self.positions.pop().unwrap();
            last.push(pos);
            self.positions.push(last);
            assert(self.postings_spec() =~= PositionRecorder::recorded(old(self).postings_spec(), doc, pos));
            4
        } else {
            self.docs.push(doc);
            let mut first: Vec<u32> = Vec::new();
            first.push(pos);
            self.positions.push(first);
            assert(self.postings_spec() =~= old(self).postings_spec().push((doc, Some(seq![pos]))));
            8
        }
    }

    fn postings(&self) -> (r: Vec<Posting>) {
        let mut r: Vec<Posting> = Vec::new();
        let mut i: usize = 0;
        while i < self.docs.len()
            invariant
                self.wf(),
                i <= self.docs.len(),
                r@.len() == i,
                postings_view(r@) =~= self.postings_spec().subrange(0, i as int),
            decreases self.docs.len() - i,
        {
            let p = copy_positions(&self.positions[i]);
            r.push(Posting { doc: self.docs[i], positions: Some(p) });
            i = i + 1;
            assert(r@[i - 1].view() == self.postings_spec()[i - 1]);
            assert(postings_view(r@) =~= self.postings_spec().subrange(0, i as int));
        }
        r
    }
}

pub fn copy_positions(v: &Vec<u32>) -> (r: Vec<u32>)
    ensures
        r@ == v@,
{
    let mut r: Vec<u32> = Vec::new();
    let mut i: usize = 0;
    while i < v.len()
        invariant
            i <= v.len(),
            r@ == v@.subrange(0, i as int),
        decreases v.len() - i,
    {
        r.push(v[i]);
        i = i + 1;
        assert(r@ =~= v@.subrange(0, i as int));
    }
    assert(v@.subrange(0, v.len() as int) =~= v@);
    r
}

} // verus!
