use json_postings::json_postings_writer::{JsonPostingsWriter, TermPostings};
use json_postings::json_term::{
    decode_json_term, encode_json_term, is_valid_json_path, json_term_prefix, json_u64_term,
    u64_value_bytes, JsonType,
};
use json_postings::postings_writer::{remap_postings, TermMap};
use json_postings::recorder::{PositionRecorder, PresenceRecorder, Posting};
use json_postings::specialized::{IndexingPosition, SpecializedPostingsWriter};
use json_postings::term_order::{bytes_lt, sort_term_ids};

fn toks(words: &[&str]) -> Vec<Vec<u8>> {
    words.iter().map(|w| w.as_bytes().to_vec()).collect()
}

fn text_term(path: &[u8], word: &str) -> Vec<u8> {
    encode_json_term(&path.to_vec(), JsonType::Str, &word.as_bytes().to_vec()).unwrap()
}

fn docs(ps: &[Posting]) -> Vec<u32> {
    ps.iter().map(|p| p.doc).collect()
}

fn find<'a>(out: &'a [TermPostings], term: &[u8]) -> Option<&'a TermPostings> {
    out.iter().find(|e| e.term == term)
}

#[test]
fn scenario_attrs_document() {
    let mut w = JsonPostingsWriter::new();
    let tag = b"attrs\x01tag".to_vec();
    let count = b"attrs\x01count".to_vec();
    let mut pos = IndexingPosition::new();
    assert!(w.index_text(0, &tag, &toks(&["hello", "world"]), &mut pos));
    let seven = json_u64_term(&count, 7).unwrap();
    w.subscribe(0, 0, &seven);
    assert_eq!(w.total_num_tokens(), 2);
    let out = w.serialize(None);
    assert_eq!(out.len(), 3);
    // "count" sorts before "tag".
    assert_eq!(out[0].term, seven);
    assert_eq!(out[1].term, text_term(&tag, "hello"));
    assert_eq!(out[2].term, text_term(&tag, "world"));
    assert_eq!(out[0].postings.len(), 1);
    assert_eq!(out[0].postings[0].doc, 0);
    assert!(out[0].postings[0].positions.is_none());
    assert_eq!(out[0].postings[0].term_freq(), 0);
    assert_eq!(out[1].postings.len(), 1);
    assert_eq!(out[1].postings[0].doc, 0);
    assert_eq!(out[1].postings[0].positions, Some(vec![0]));
    assert_eq!(out[1].postings[0].term_freq(), 1);
    assert_eq!(out[2].postings[0].doc, 0);
    assert_eq!(out[2].postings[0].positions, Some(vec![1]));
    let (path, typ, value) = decode_json_term(&out[0].term).unwrap();
    assert_eq!(path, count);
    assert_eq!(typ, JsonType::U64);
    assert_eq!(value, vec![0, 0, 0, 0, 0, 0, 0, 7]);
}

#[test]
fn round_trip_each_type() {
    let path = b"a\x01b".to_vec();
    let value = vec![0u8, 255, 3];
    for typ in [
        JsonType::Str,
        JsonType::U64,
        JsonType::I64,
        JsonType::Bool,
        JsonType::Date,
        JsonType::Bytes,
    ] {
        let t = encode_json_term(&path, typ, &value).unwrap();
        let (p, ty, v) = decode_json_term(&t).unwrap();
        assert_eq!(p, path);
        assert_eq!(ty, typ);
        assert_eq!(v, value);
    }
    let empty = encode_json_term(&Vec::new(), JsonType::Str, &Vec::new()).unwrap();
    assert_eq!(empty, vec![0, b's']);
    assert_eq!(decode_json_term(&empty), Some((Vec::new(), JsonType::Str, Vec::new())));
}

#[test]
fn encoding_layout() {
    let t = encode_json_term(&b"ab".to_vec(), JsonType::Bool, &vec![1]).unwrap();
    assert_eq!(t, vec![b'a', b'b', 0, b'o', 1]);
    assert_eq!(json_term_prefix(&b"x".to_vec(), JsonType::Str), Some(vec![b'x', 0, b's']));
}

#[test]
fn path_with_end_byte_is_refused() {
    let bad = vec![b'a', 0, b'b'];
    assert!(!is_valid_json_path(&bad));
    assert!(is_valid_json_path(&b"a\x01b".to_vec()));
    assert_eq!(encode_json_term(&bad, JsonType::Str, &vec![1]), None);
    assert_eq!(json_u64_term(&bad, 1), None);
    let mut w = JsonPostingsWriter::new();
    let mut pos = IndexingPosition::new();
    assert!(!w.index_text(0, &bad, &toks(&["x"]), &mut pos));
    assert_eq!(pos, IndexingPosition::new());
    assert_eq!(w.serialize(None).len(), 0);
}

#[test]
fn malformed_terms_decode_to_none() {
    assert_eq!(decode_json_term(&b"nodelimiter".to_vec()), None);
    assert_eq!(decode_json_term(&vec![b'a', 0]), None);
    assert_eq!(decode_json_term(&vec![b'a', 0, b'z', 1]), None);
    assert_eq!(decode_json_term(&Vec::new()), None);
}

#[test]
fn malformed_term_is_skipped() {
    let mut w = JsonPostingsWriter::new();
    w.subscribe(0, 0, &b"garbage".to_vec());
    w.subscribe(0, 0, &vec![b'p', 0, b'?']);
    assert_eq!(w.serialize(None).len(), 0);
    let good = json_u64_term(&b"n".to_vec(), 1).unwrap();
    w.subscribe(1, 0, &good);
    let out = w.serialize(None);
    assert_eq!(out.len(), 1);
    assert_eq!(out[0].term, good);
    assert_eq!(w.scalar_term_map().len(), 3);
    assert_eq!(w.term_map().len(), 0);
}

#[test]
fn path_decides_order_before_type_and_value() {
    let a = encode_json_term(&b"a".to_vec(), JsonType::U64, &vec![255]).unwrap();
    let ab = encode_json_term(&b"ab".to_vec(), JsonType::Bool, &vec![0]).unwrap();
    let b = encode_json_term(&b"b".to_vec(), JsonType::Bytes, &vec![0]).unwrap();
    assert!(bytes_lt(&a, &ab));
    assert!(!bytes_lt(&ab, &a));
    assert!(bytes_lt(&ab, &b));
    assert!(bytes_lt(&a, &b));
    // Same path: the type tag decides, then the value.
    let s = encode_json_term(&b"a".to_vec(), JsonType::Str, &vec![0]).unwrap();
    let u = encode_json_term(&b"a".to_vec(), JsonType::U64, &vec![0]).unwrap();
    assert!(bytes_lt(&s, &u));
    assert!(bytes_lt(&u, &a));
}

#[test]
fn byte_order() {
    assert!(bytes_lt(&vec![], &vec![0]));
    assert!(!bytes_lt(&vec![], &vec![]));
    assert!(bytes_lt(&vec![1, 2], &vec![1, 3]));
    assert!(bytes_lt(&vec![1, 2], &vec![1, 2, 0]));
    assert!(!bytes_lt(&vec![2], &vec![1, 9]));
    let keys = vec![vec![3], vec![1, 5], vec![], vec![1]];
    assert_eq!(sort_term_ids(&keys), vec![2, 3, 1, 0]);
}

#[test]
fn text_terms_keep_positions_and_others_do_not() {
    let mut w = JsonPostingsWriter::new();
    let mut pos = IndexingPosition::new();
    assert!(w.index_text(0, &b"t".to_vec(), &toks(&["x", "y", "x"]), &mut pos));
    let n = json_u64_term(&b"n".to_vec(), 5).unwrap();
    w.subscribe(0, 3, &n);
    w.subscribe(0, 4, &n);
    let out = w.serialize(None);
    assert_eq!(out.len(), 3);
    let x = find(&out, &text_term(b"t", "x")).unwrap();
    assert_eq!(x.postings.len(), 1);
    assert_eq!(x.postings[0].positions, Some(vec![0, 2]));
    assert_eq!(x.postings[0].term_freq(), 2);
    let y = find(&out, &text_term(b"t", "y")).unwrap();
    assert_eq!(y.postings[0].positions, Some(vec![1]));
    let num = find(&out, &n).unwrap();
    assert_eq!(num.postings.len(), 1);
    assert!(num.postings[0].positions.is_none());
}

#[test]
fn same_doc_updates_one_entry() {
    let mut w: SpecializedPostingsWriter<PositionRecorder> = SpecializedPostingsWriter::new();
    let t = b"term".to_vec();
    let id0 = w.subscribe(4, 1, &t);
    let id1 = w.subscribe(4, 6, &t);
    assert_eq!(id0, id1);
    let id2 = w.subscribe(9, 2, &t);
    assert_eq!(id0, id2);
    let ps = w.term_map().postings(id0 as usize);
    assert_eq!(docs(&ps), vec![4, 9]);
    assert_eq!(ps[0].positions, Some(vec![1, 6]));
    assert_eq!(ps[1].positions, Some(vec![2]));

    let mut p: SpecializedPostingsWriter<PresenceRecorder> = SpecializedPostingsWriter::new();
    p.subscribe(4, 1, &t);
    p.subscribe(4, 6, &t);
    p.subscribe(5, 0, &t);
    let ps = p.term_map().postings(0);
    assert_eq!(docs(&ps), vec![4, 5]);
    assert!(ps[0].positions.is_none());
}

#[test]
fn unordered_ids_follow_first_sight() {
    let mut m: TermMap<PresenceRecorder> = TermMap::new();
    assert_eq!(m.subscribe(0, 0, &b"b".to_vec()), 0);
    assert_eq!(m.subscribe(0, 0, &b"a".to_vec()), 1);
    assert_eq!(m.subscribe(1, 0, &b"b".to_vec()), 0);
    assert_eq!(m.len(), 2);
    assert_eq!(m.find(&b"a".to_vec()), Some(1));
    assert_eq!(m.find(&b"c".to_vec()), None);
    assert_eq!(m.term(0), &b"b".to_vec());
}

#[test]
fn memory_counts_terms_and_postings() {
    let mut m: TermMap<PresenceRecorder> = TermMap::new();
    assert_eq!(m.mem_usage(), 0);
    m.subscribe(0, 0, &vec![1, 2, 3]);
    // 3 term bytes, 16 of entry, 4 for the document.
    assert_eq!(m.mem_usage(), 23);
    m.subscribe(0, 0, &vec![1, 2, 3]);
    assert_eq!(m.mem_usage(), 23);
    m.subscribe(1, 0, &vec![1, 2, 3]);
    assert_eq!(m.mem_usage(), 27);

    let mut p: TermMap<PositionRecorder> = TermMap::new();
    p.subscribe(0, 0, &vec![9]);
    assert_eq!(p.mem_usage(), 1 + 16 + 8);
    p.subscribe(0, 1, &vec![9]);
    assert_eq!(p.mem_usage(), 1 + 16 + 8 + 4);

    let mut w = JsonPostingsWriter::new();
    let mut pos = IndexingPosition::new();
    w.index_text(0, &b"t".to_vec(), &toks(&["ab"]), &mut pos);
    w.subscribe(0, 0, &vec![7]);
    // text: "t\0sab" is 5 bytes + 16 + 8; scalar: 1 + 16 + 4.
    assert_eq!(w.mem_usage(), 29 + 21);
}

#[test]
fn positions_and_token_counts_run_on() {
    let mut w = JsonPostingsWriter::new();
    let mut pos = IndexingPosition::new();
    assert!(w.index_text(0, &b"t".to_vec(), &toks(&["a", "b"]), &mut pos));
    assert_eq!(pos, IndexingPosition { num_tokens: 2, end_position: 2 });
    assert!(w.index_text(0, &b"t".to_vec(), &toks(&["c"]), &mut pos));
    assert_eq!(pos, IndexingPosition { num_tokens: 3, end_position: 3 });
    assert_eq!(w.total_num_tokens(), 3);
    let out = w.serialize(None);
    let c = find(&out, &text_term(b"t", "c")).unwrap();
    assert_eq!(c.postings[0].positions, Some(vec![2]));
    w.subscribe(0, 0, &json_u64_term(&b"n".to_vec(), 1).unwrap());
    assert_eq!(w.total_num_tokens(), 3);
}

#[test]
fn remapped_postings_are_sorted_by_new_id() {
    let mut w = JsonPostingsWriter::new();
    let n = json_u64_term(&b"n".to_vec(), 1).unwrap();
    for d in 0..4u32 {
        w.subscribe(d, 0, &n);
        let mut pos = IndexingPosition::new();
        w.index_text(d, &b"t".to_vec(), &toks(&["w", "w"]), &mut pos);
    }
    let map = vec![3, 0, 2, 1];
    let out = w.serialize(Some(&map));
    assert_eq!(out.len(), 2);
    for e in &out {
        assert_eq!(docs(&e.postings), vec![0, 1, 2, 3]);
    }
    let t = find(&out, &text_term(b"t", "w")).unwrap();
    for p in &t.postings {
        assert_eq!(p.positions, Some(vec![0, 1]));
    }
    let unmapped = w.serialize(None);
    assert_eq!(docs(&unmapped[0].postings), vec![0, 1, 2, 3]);
}

#[test]
fn remap_keeps_positions_with_their_document() {
    let ps = vec![
        Posting { doc: 0, positions: Some(vec![5]) },
        Posting { doc: 1, positions: Some(vec![6, 7]) },
        Posting { doc: 2, positions: Some(vec![8]) },
    ];
    let r = remap_postings(ps, &vec![10, 2, 7]);
    assert_eq!(docs(&r), vec![2, 7, 10]);
    assert_eq!(r[0].positions, Some(vec![6, 7]));
    assert_eq!(r[1].positions, Some(vec![8]));
    assert_eq!(r[2].positions, Some(vec![5]));
}

#[test]
fn u64_values_are_big_endian() {
    assert_eq!(u64_value_bytes(0x0102030405060708), vec![1, 2, 3, 4, 5, 6, 7, 8]);
    assert_eq!(u64_value_bytes(7), vec![0, 0, 0, 0, 0, 0, 0, 7]);
    assert_eq!(JsonType::from_code(b'u'), Some(JsonType::U64));
    assert_eq!(JsonType::from_code(b'x'), None);
    assert_eq!(JsonType::Date.code(), b'd');
}

#[test]
fn new_writer_counts_nothing() {
    let w = JsonPostingsWriter::new();
    assert_eq!(w.total_num_tokens(), 0);
    assert_eq!(w.mem_usage(), 0);
    assert_eq!(w.serialize(None).len(), 0);
}

#[test]
fn repeated_token_across_calls() {
    let mut w = JsonPostingsWriter::new();
    let mut pos = IndexingPosition::new();
    w.index_text(1, &b"t".to_vec(), &toks(&["s", "x", "s"]), &mut pos);
    w.index_text(1, &b"t".to_vec(), &toks(&["s"]), &mut pos);
    let mut pos = IndexingPosition::new();
    w.index_text(3, &b"t".to_vec(), &toks(&["s"]), &mut pos);
    let out = w.serialize(None);
    let e = find(&out, &text_term(b"t", "s")).unwrap();
    assert_eq!(docs(&e.postings), vec![1, 3]);
    assert_eq!(e.postings[0].positions, Some(vec![0, 2, 3]));
    assert_eq!(e.postings[0].term_freq(), 3);
    assert_eq!(e.postings[1].positions, Some(vec![0]));
}
