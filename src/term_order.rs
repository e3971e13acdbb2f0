//! The byte order of terms, in which postings are emitted.
use vstd::prelude::*;

verus! {

/// Strict lexicographic order on byte strings: the order of the sorted term dictionary.
pub open spec fn lex_lt(a: Seq<u8>, b: Seq<u8>) -> bool
    decreases a.len(),
{
    if b.len() == 0 {
        false
    } else if a.len() == 0 {
        true
    } else if a[0] != b[0] {
        a[0] < b[0]
    } else {
        lex_lt(a.drop_first(), b.drop_first())
    }
}

proof fn lemma_drop_first_ne(a: Seq<u8>, b: Seq<u8>)
    requires
        a.len() > 0,
        b.len() > 0,
        a[0] == b[0],
        a != b,
    ensures
        a.drop_first() != b.drop_first(),
{
    assert(a =~= seq![a[0]] + a.drop_first());
    assert(b =~= seq![b[0]] + b.drop_first());
}

/// The order is strict: no string precedes itself, and no two precede each other.
pub proof fn lemma_lex_asym(a: Seq<u8>, b: Seq<u8>)
    requires
        lex_lt(a, b),
    ensures
        !lex_lt(b, a),
        a != b,
    decreases a.len(),
{
    if a.len() > 0 && a[0] == b[0] {
        lemma_lex_asym(a.drop_first(), b.drop_first());
    }
}

/// Of two distinct strings, one precedes the other.
pub proof fn lemma_lex_total(a: Seq<u8>, b: Seq<u8>)
    requires
        a != b,
    ensures
        lex_lt(a, b) || lex_lt(b, a),
    decreases a.len(),
{
    if a.len() == 0 && b.len() == 0 {
        assert(a =~= b);
    }
    if a.len() > 0 && b.len() > 0 && a[0] == b[0] {
        lemma_drop_first_ne(a, b);
        lemma_lex_total(a.drop_first(), b.drop_first());
    }
}

pub proof fn lemma_lex_trans(a: Seq<u8>, b: Seq<u8>, c: Seq<u8>)
    requires
        lex_lt(a, b),
        lex_lt(b, c),
    ensures
        lex_lt(a, c),
    decreases a.len(),
{
    if a.len() > 0 && a[0] == b[0] && b[0] == c[0] {
        lemma_lex_trans(a.drop_first(), b.drop_first(), c.drop_first());
    }
}

/// Whether `a` precedes `b` in byte order.
pub fn bytes_lt(a: &Vec<u8>, b: &Vec<u8>) -> (r: bool)
    ensures
        r == lex_lt(a@, b@),
{
    let mut i: usize = 0;
    assert(a@.skip(0) =~= a@);
    assert(b@.skip(0) =~= b@);
    while i < a.len() && i < b.len() && a[i] == b[i]
        invariant
            i <= a.len(),
            i <= b.len(),
            lex_lt(a@, b@) == lex_lt(a@.skip(i as int), b@.skip(i as int)),
        decreases a.len() - i,
    {
        assert(a@.skip(i as int).drop_first() =~= a@.skip(i + 1));
        assert(b@.skip(i as int).drop_first() =~= b@.skip(i + 1));
        i = i + 1;
    }
    if i == b.len() {
        false
    } else if i == a.len() {
        true
    } else {
        a[i] < b[i]
    }
}

/// `ids` lists terms of `keys` in strictly increasing byte order.
pub open spec fn sorted_ids(keys: Seq<Seq<u8>>, ids: Seq<usize>) -> bool {
    &&& forall|i: int| 0 <= i < ids.len() ==> (#[trigger] ids[i]) < keys.len()
    &&& forall|i: int, j: int| 0 <= i < j < ids.len() ==> lex_lt(keys[ids[i] as int], keys[ids[j] as int])
}

/// `ids` lists each term of `keys` once.
pub open spec fn lists_all(keys: Seq<Seq<u8>>, ids: Seq<usize>) -> bool {
    &&& ids.len() == keys.len()
    &&& forall|x: usize| (x < keys.len()) == ids.contains(x)
}

/// The ids of `keys`, ordered by the bytes of their terms. The keys must be distinct.
pub fn sort_term_ids(keys: &Vec<Vec<u8>>) -> (r: Vec<usize>)
    requires
        forall|i: int, j: int| 0 <= i < j < keys@.len() ==> keys@[i]@ != keys@[j]@,
    ensures
        sorted_ids(keys@.map_values(|k: Vec<u8>| k@), r@),
        lists_all(keys@.map_values(|k: Vec<u8>| k@), r@),
{
    let ghost kv = keys@.map_values(|k: Vec<u8>| k@);
    let mut r: Vec<usize> = Vec::new();
    let mut i: usize = 0;
    while i < keys.len()
        invariant
            i <= keys.len(),
            kv == keys@.map_values(|k: Vec<u8>| k@),
            forall|a: int, b: int| 0 <= a < b < kv.len() ==> kv[a] != kv[b],
            r.len() == i,
            sorted_ids(kv, r@),
            forall|x: usize| (x < i) == r@.contains(x),
        decreases keys.len() - i,
    {
        let mut j: usize = 0;
        let mut found = false;
        while j < r.len() && !found
            invariant
                found ==> j < r.len() && lex_lt(kv[i as int], kv[r@[j as int] as int]),
                i < keys.len(),
                j <= r.len(),
                kv == keys@.map_values(|k: Vec<u8>| k@),
                forall|a: int, b: int| 0 <= a < b < kv.len() ==> kv[a] != kv[b],
                sorted_ids(kv, r@),
                forall|x: usize| (x < i) == r@.contains(x),
                forall|m: int| 0 <= m < j ==> lex_lt(kv[r@[m] as int], kv[i as int]),
            decreases r.len() + (if found { 0int } else { 1int }) - j,
        {
            if bytes_lt(&keys[i], &keys[r[j]]) {
                found = true;
            } else {
                proof {
                    assert(r@.contains(r@[j as int]));
                    assert(kv[r@[j as int] as int] != kv[i as int]);
                    lemma_lex_total(kv[r@[j as int] as int], kv[i as int]);
                }
                j = j + 1;
            }
        }
        let ghost old_r = r@;
        r.insert(j, i);
        proof {
            assert(r@ =~= old_r.insert(j as int, i));
            assert forall|a: int, b: int| 0 <= a < b < r@.len() implies lex_lt(kv[r@[a] as int], kv[r@[b] as int]) by {
                if a < j && b == j {
                } else if a == j && b > j {
                    if b - 1 > j {
                        lemma_lex_trans(kv[i as int], kv[old_r[j as int] as int], kv[old_r[b - 1] as int]);
                    }
                } else if a < j && b > j {
                    if b - 1 > j {
                        lemma_lex_trans(kv[i as int], kv[old_r[j as int] as int], kv[old_r[b - 1] as int]);
                    }
                    lemma_lex_trans(kv[old_r[a] as int], kv[i as int], kv[old_r[b - 1] as int]);
                } else if a > j {
                }
            }
            assert forall|x: usize| (x < i + 1) == r@.contains(x) by {
                if x < i {
                    assert(old_r.contains(x));
                    let k = choose|k: int| 0 <= k < old_r.len() && old_r[k] == x;
                    if k < j {
                        assert(r@[k] == x);
                    } else {
                        assert(r@[k + 1] == x);
                    }
                }
                if x == i {
                    assert(r@[j as int] == x);
                }
                if r@.contains(x) {
                    let k = choose|k: int| 0 <= k < r@.len() && r@[k] == x;
                    if k < j {
                        assert(old_r.contains(x));
                    } else if k > j {
                        assert(old_r[k - 1] == x);
                        assert(old_r.contains(x));
                    }
                }
            }
        }
        i = i + 1;
    }
    r
}

} // verus!
