//! Encoding of schemaless (JSON) terms: a path, a one-byte type tag and the value bytes.
use vstd::prelude::*;
use crate::term_order::lex_lt;

verus! {

/// Byte that ends the path of a JSON term. Path bytes are never this byte.
pub const JSON_END_OF_PATH: u8 = 0;

/// The type of a JSON leaf value, as recorded in the term.
#[derive(Clone, Copy, Debug, PartialEq, Eq, Structural)]
pub enum JsonType {
    Str,
    U64,
    I64,
    Bool,
    Date,
    Bytes,
}

impl JsonType {
    /// The tag byte written after the path.
    pub open spec fn code_spec(self) -> u8 {
        match self {
            JsonType::Str => 115,  // 's'
            JsonType::U64 => 117,  // 'u'
            JsonType::I64 => 105,  // 'i'
            JsonType::Bool => 111,  // 'o'
            JsonType::Date => 100,  // 'd'
            JsonType::Bytes => 98,  // 'b'
        }
    }

    pub fn code(self) -> (r: u8)
        ensures
            r == self.code_spec(),
    {
        match self {
            JsonType::Str => 115,
            JsonType::U64 => 117,
            JsonType::I64 => 105,
            JsonType::Bool => 111,
            JsonType::Date => 100,
            JsonType::Bytes => 98,
        }
    }

    /// The type whose tag is `c`, if any.
    pub fn from_code(c: u8) -> (r: Option<JsonType>)
        ensures
            match r {
                Some(t) => t.code_spec() == c,
                None => forall|t: JsonType| t.code_spec() != c,
            },
    {
        if c == 115 {
            Some(JsonType::Str)
        } else if c == 117 {
            Some(JsonType::U64)
        } else if c == 105 {
            Some(JsonType::I64)
        } else if c == 111 {
            Some(JsonType::Bool)
        } else if c == 100 {
            Some(JsonType::Date)
        } else if c == 98 {
            Some(JsonType::Bytes)
        } else {
            None
        }
    }
}

/// A JSON path can be encoded: none of its bytes ends the path.
pub open spec fn is_json_path(p: Seq<u8>) -> bool {
    forall|i: int| 0 <= i < p.len() ==> p[i] != JSON_END_OF_PATH
}

/// The term bytes of the leaf `value` of type `typ` under `path`.
pub open spec fn json_term_spec(path: Seq<u8>, typ: JsonType, value: Seq<u8>) -> Seq<u8> {
    path + seq![JSON_END_OF_PATH, typ.code_spec()] + value
}

/// `b` is the encoding of the triple `(path, typ, value)`.
pub open spec fn is_encoding_of(b: Seq<u8>, path: Seq<u8>, typ: JsonType, value: Seq<u8>) -> bool {
    is_json_path(path) && b == json_term_spec(path, typ, value)
}

/// The triple that `b` encodes, if it encodes one.
pub open spec fn decode_spec(b: Seq<u8>) -> Option<(Seq<u8>, JsonType, Seq<u8>)> {
    if exists|p: Seq<u8>, t: JsonType, v: Seq<u8>| is_encoding_of(b, p, t, v) {
        Some(choose|p: Seq<u8>, t: JsonType, v: Seq<u8>| is_encoding_of(b, p, t, v))
    } else {
        None
    }
}

/// A byte string encodes at most one triple.
pub proof fn lemma_encoding_unique(
    b: Seq<u8>,
    p1: Seq<u8>,
    t1: JsonType,
    v1: Seq<u8>,
    p2: Seq<u8>,
    t2: JsonType,
    v2: Seq<u8>,
)
    requires
        is_encoding_of(b, p1, t1, v1),
        is_encoding_of(b, p2, t2, v2),
    ensures
        p1 == p2,
        t1 == t2,
        v1 == v2,
{
    if p1.len() < p2.len() {
        assert(b[p1.len() as int] == JSON_END_OF_PATH);
        assert(b[p1.len() as int] == p2[p1.len() as int]);
    } else if p2.len() < p1.len() {
        assert(b[p2.len() as int] == JSON_END_OF_PATH);
        assert(b[p2.len() as int] == p1[p2.len() as int]);
    }
    assert(p1.len() == p2.len());
    assert(p1 =~= b.subrange(0, p1.len() as int));
    assert(p2 =~= b.subrange(0, p2.len() as int));
    assert(b[p1.len() + 1int] == t1.code_spec());
    assert(b[p2.len() + 1int] == t2.code_spec());
    assert(t1 == t2) by {
        match t1 {
            JsonType::Str => {},
            JsonType::U64 => {},
            JsonType::I64 => {},
            JsonType::Bool => {},
            JsonType::Date => {},
            JsonType::Bytes => {},
        }
    }
    assert(v1 =~= b.subrange(p1.len() + 2int, b.len() as int));
    assert(v2 =~= b.subrange(p2.len() + 2int, b.len() as int));
}

/// Decoding an encoded term gives back exactly the path, type and value that were encoded.
pub proof fn lemma_round_trip(path: Seq<u8>, typ: JsonType, value: Seq<u8>)
    requires
        is_json_path(path),
    ensures
        decode_spec(json_term_spec(path, typ, value)) == Some((path, typ, value)),
{
    let b = json_term_spec(path, typ, value);
    assert(is_encoding_of(b, path, typ, value));
    let (p, t, v) = choose|p: Seq<u8>, t: JsonType, v: Seq<u8>| is_encoding_of(b, p, t, v);
    lemma_encoding_unique(b, p, t, v, path, typ, value);
}


/// Two encoded terms under different paths are ordered as their paths are, whatever
/// their types and values.
pub proof fn lemma_path_order(
    p1: Seq<u8>,
    t1: JsonType,
    v1: Seq<u8>,
    p2: Seq<u8>,
    t2: JsonType,
    v2: Seq<u8>,
)
    requires
        is_json_path(p1),
        is_json_path(p2),
        p1 != p2,
    ensures
        lex_lt(json_term_spec(p1, t1, v1), json_term_spec(p2, t2, v2)) == lex_lt(p1, p2),
    decreases p1.len(),
{
    let e1 = json_term_spec(p1, t1, v1);
    let e2 = json_term_spec(p2, t2, v2);
    if p1.len() == 0 {
        assert(p2.len() > 0) by {
            if p2.len() == 0 {
                assert(p1 =~= p2);
            }
        }
        assert(e1[0] == JSON_END_OF_PATH);
        assert(e2[0] == p2[0]);
    } else if p2.len() == 0 {
        assert(e2[0] == JSON_END_OF_PATH);
        assert(e1[0] == p1[0]);
    } else {
        assert(e1[0] == p1[0]);
        assert(e2[0] == p2[0]);
        if p1[0] == p2[0] {
            let q1 = p1.drop_first();
            let q2 = p2.drop_first();
            assert(e1.drop_first() =~= json_term_spec(q1, t1, v1));
            assert(e2.drop_first() =~= json_term_spec(q2, t2, v2));
            assert(q1 != q2) by {
                if q1 == q2 {
                    assert(p1 =~= seq![p1[0]] + q1);
                    assert(p2 =~= seq![p2[0]] + q2);
                }
            }
            lemma_path_order(q1, t1, v1, q2, t2, v2);
        }
    }
}

/// Whether `path` can be encoded: it holds no byte that would end it early.
pub fn is_valid_json_path(path: &Vec<u8>) -> (r: bool)
    ensures
        r == is_json_path(path@),
{
    let mut i: usize = 0;
    while i < path.len()
        invariant
            i <= path.len(),
            forall|j: int| 0 <= j < i ==> path@[j] != JSON_END_OF_PATH,
        decreases path.len() - i,
    {
        if path[i] == JSON_END_OF_PATH {
            return false;
        }
        i = i + 1;
    }
    true
}

/// Appends all of `src` to `dst`.
pub fn append_bytes(dst: &mut Vec<u8>, src: &Vec<u8>)
    ensures
        final(dst)@ == old(dst)@ + src@,
{
    let mut i: usize = 0;
    while i < src.len()
        invariant
            i <= src.len(),
            dst@ == old(dst)@ + src@.subrange(0, i as int),
        decreases src.len() - i,
    {
        dst.push(src[i]);
        i = i + 1;
        assert(src@.subrange(0, i as int) =~= src@.subrange(0, i - 1) + seq![src@[i - 1]]);
    }
    assert(src@.subrange(0, src.len() as int) =~= src@);
}

/// Copies the bytes `b[start..end]` into a new vector.
pub fn copy_range(b: &Vec<u8>, start: usize, end: usize) -> (r: Vec<u8>)
    requires
        start <= end <= b.len(),
    ensures
        r@ == b@.subrange(start as int, end as int),
{
    let mut r: Vec<u8> = Vec::new();
    let mut i: usize = start;
    while i < end
        invariant
            start <= i <= end,
            end <= b.len(),
            r@ == b@.subrange(start as int, i as int),
        decreases end - i,
    {
        r.push(b[i]);
        i = i + 1;
        assert(r@ =~= b@.subrange(start as int, i as int));
    }
    r
}

/// The term prefix for leaves of type `typ` under `path`: the path, the end-of-path byte
/// and the type tag. The leaf's value bytes follow it.
pub fn json_term_prefix(path: &Vec<u8>, typ: JsonType) -> (r: Option<Vec<u8>>)
    ensures
        match r {
            Some(b) => is_json_path(path@) && b@ == json_term_spec(path@, typ, seq![]),
            None => !is_json_path(path@),
        },
{
    if !is_valid_json_path(path) {
        return None;
    }
    let mut b: Vec<u8> = Vec::new();
    append_bytes(&mut b, path);
    b.push(JSON_END_OF_PATH);
    b.push(typ.code());
    assert(b@ =~= json_term_spec(path@, typ, seq![]));
    Some(b)
}

/// Encodes the leaf `value` of type `typ` under `path` as term bytes; `None` when the
/// path holds the end-of-path byte.
pub fn encode_json_term(path: &Vec<u8>, typ: JsonType, value: &Vec<u8>) -> (r: Option<Vec<u8>>)
    ensures
        match r {
            Some(b) => is_json_path(path@) && b@ == json_term_spec(path@, typ, value@),
            None => !is_json_path(path@),
        },
{
    match json_term_prefix(path, typ) {
        Some(mut b) => {
            append_bytes(&mut b, value);
            assert(b@ =~= json_term_spec(path@, typ, value@));
            Some(b)
        },
        None => None,
    }
}

/// The view of a decoded triple.
pub open spec fn decoded_view(r: Option<(Vec<u8>, JsonType, Vec<u8>)>) -> Option<(Seq<u8>, JsonType, Seq<u8>)> {
    match r {
        Some((p, t, v)) => Some((p@, t, v@)),
        None => None,
    }
}

/// Decodes term bytes into (path, type, value); `None` when they encode no such triple.
pub fn decode_json_term(b: &Vec<u8>) -> (r: Option<(Vec<u8>, JsonType, Vec<u8>)>)
    ensures
        decoded_view(r) == decode_spec(b@),
{
    let mut i: usize = 0;
    while i < b.len() && b[i] != JSON_END_OF_PATH
        invariant
            i <= b.len(),
            forall|j: int| 0 <= j < i ==> b@[j] != JSON_END_OF_PATH,
        decreases b.len() - i,
    {
        i = i + 1;
    }
    if b.len() - i < 2 {
        proof {
            assert forall|p: Seq<u8>, t: JsonType, v: Seq<u8>| !is_encoding_of(b@, p, t, v) by {
                if is_encoding_of(b@, p, t, v) {
                    assert(b@[p.len() as int] == JSON_END_OF_PATH);
                    assert(p.len() >= i) by {
                        if p.len() < i {
                            assert(b@[p.len() as int] != JSON_END_OF_PATH);
                        }
                    }
                }
            }
        }
        return None;
    }
    match JsonType::from_code(b[i + 1]) {
        None => {
            proof {
                assert forall|p: Seq<u8>, t: JsonType, v: Seq<u8>| !is_encoding_of(b@, p, t, v) by {
                    if is_encoding_of(b@, p, t, v) {
                        assert(b@[p.len() as int] == JSON_END_OF_PATH);
                        if p.len() < i {
                            assert(b@[p.len() as int] != JSON_END_OF_PATH);
                        }
                        if p.len() > i {
                            assert(b@[i as int] == p[i as int]);
                        }
                        assert(b@[p.len() + 1int] == t.code_spec());
                    }
                }
            }
            None
        },
        Some(t) => {
            let p = copy_range(b, 0, i);
            let v = copy_range(b, i + 2, b.len());
            proof {
                assert(b@ =~= json_term_spec(p@, t, v@));
                assert(is_encoding_of(b@, p@, t, v@));
                let (p2, t2, v2) = choose|p: Seq<u8>, t: JsonType, v: Seq<u8>| is_encoding_of(b@, p, t, v);
                lemma_encoding_unique(b@, p@, t, v@, p2, t2, v2);
            }
            Some((p, t, v))
        },
    }
}

/// The eight big-endian bytes of `v`: the value bytes of a `u64` leaf.
pub open spec fn u64_be_spec(v: u64) -> Seq<u8> {
    seq![
        (v >> 56u64) as u8,
        (v >> 48u64) as u8,
        (v >> 40u64) as u8,
        (v >> 32u64) as u8,
        (v >> 24u64) as u8,
        (v >> 16u64) as u8,
        (v >> 8u64) as u8,
        v as u8,
    ]
}

pub fn u64_value_bytes(v: u64) -> (r: Vec<u8>)
    ensures
        r@ == u64_be_spec(v),
{
    let r: Vec<u8> = vec![
        (v >> 56u64) as u8,
        (v >> 48u64) as u8,
        (v >> 40u64) as u8,
        (v >> 32u64) as u8,
        (v >> 24u64) as u8,
        (v >> 16u64) as u8,
        (v >> 8u64) as u8,
        v as u8,
    ];
    assert(r@ =~= u64_be_spec(v));
    r
}

/// The term of the `u64` leaf `v` under `path`; `None` when the path cannot be encoded.
pub fn json_u64_term(path: &Vec<u8>, v: u64) -> (r: Option<Vec<u8>>)
    ensures
        match r {
            Some(b) => is_json_path(path@) && b@ == json_term_spec(path@, JsonType::U64, u64_be_spec(v)),
            None => !is_json_path(path@),
        },
{
    let value = u64_value_bytes(v);
    encode_json_term(path, JsonType::U64, &value)
}

} // verus!
