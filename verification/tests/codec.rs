use json_block::bag;
use json_block::cells::CellStore;
use json_block::dict;
use json_block::errors::CodecError;
use json_block::text;

fn store_with_cell(data: Vec<u8>, bits: usize, children: Vec<usize>) -> (CellStore, usize) {
    let mut s = CellStore::new();
    let i = s.make_cell(data, bits, children).unwrap();
    (s, i)
}

#[test]
fn base64_round_trip_short() {
    for b in [
        b"".to_vec(),
        b"M".to_vec(),
        b"Ma".to_vec(),
        b"Man".to_vec(),
        b"Many hands make light work.".to_vec(),
        vec![0u8, 255u8, 7u8, 128u8],
    ] {
        let t = text::to_text(&b);
        assert_eq!(text::from_text(&t).unwrap(), b);
    }
}

#[test]
fn base64_known_value() {
    assert_eq!(text::to_text(&b"Man".to_vec()), b"TWFu".to_vec());
    assert_eq!(text::to_text(&b"Ma".to_vec()), b"TWE=".to_vec());
    assert_eq!(text::to_text(&b"M".to_vec()), b"TQ==".to_vec());
}

#[test]
fn base64_rejects_malformed() {
    assert_eq!(text::from_text(&b"TWFu!".to_vec()), Err(CodecError::InvalidEncoding));
    assert_eq!(text::from_text(&b"TWF".to_vec()), Err(CodecError::InvalidEncoding));
    assert_eq!(text::from_text(&b"=AAA".to_vec()), Err(CodecError::InvalidEncoding));
    // nonzero spare bits before the padding
    assert_eq!(text::from_text(&b"TR==".to_vec()), Err(CodecError::InvalidEncoding));
}

#[test]
fn make_cell_limits() {
    let mut s = CellStore::new();
    assert_eq!(
        s.make_cell(vec![0u8; 129], 1024, vec![]),
        Err(CodecError::MalformedCell)
    );
    let c = s.make_cell(vec![], 0, vec![]).unwrap();
    assert_eq!(
        s.make_cell(vec![], 0, vec![c, c, c, c, c]),
        Err(CodecError::MalformedCell)
    );
    // payload bytes not matching the bit length
    assert_eq!(s.make_cell(vec![1, 2], 8, vec![]), Err(CodecError::MalformedCell));
    // a child index that names no cell
    assert_eq!(s.make_cell(vec![], 0, vec![77]), Err(CodecError::DanglingReference));
}

#[test]
fn make_cell_deduplicates() {
    let mut s = CellStore::new();
    let a = s.make_cell(vec![0xA0], 4, vec![]).unwrap();
    let b = s.make_cell(vec![0xA0], 4, vec![]).unwrap();
    assert_eq!(a, b);
    // padding bits are cleared, so these are the same cell
    let c = s.make_cell(vec![0xAF], 4, vec![]).unwrap();
    assert_eq!(a, c);
    let d = s.make_cell(vec![0xB0], 4, vec![]).unwrap();
    assert_ne!(a, d);
}

#[test]
fn bag_round_trip_shared_child() {
    let mut s = CellStore::new();
    let leaf = s.make_cell(vec![42], 8, vec![]).unwrap();
    let left = s.make_cell(vec![1], 8, vec![leaf]).unwrap();
    let right = s.make_cell(vec![2], 8, vec![leaf]).unwrap();
    let root = s.make_cell(vec![], 0, vec![left, right]).unwrap();
    let bytes = bag::encode(&s, root);
    let (s2, r2) = bag::decode(&bytes).unwrap();
    // four distinct cells, the shared leaf written once
    assert_eq!(s2.cells.len(), 4);
    let rc = &s2.cells[r2];
    assert_eq!(rc.bit_len, 0);
    assert_eq!(rc.children.len(), 2);
    let lc = &s2.cells[rc.children[0]];
    let rcc = &s2.cells[rc.children[1]];
    assert_eq!(lc.data, vec![1]);
    assert_eq!(rcc.data, vec![2]);
    // both parents reference the same child entry
    assert_eq!(lc.children[0], rcc.children[0]);
    assert_eq!(s2.cells[lc.children[0]].data, vec![42]);
    // determinism: encoding the decoded graph gives the same bytes
    assert_eq!(bag::encode(&s2, r2), bytes);
}

#[test]
fn bag_encode_drops_unreachable() {
    let mut s = CellStore::new();
    let _junk = s.make_cell(vec![9], 8, vec![]).unwrap();
    let root = s.make_cell(vec![1], 8, vec![]).unwrap();
    let bytes = bag::encode(&s, root);
    let (s2, r2) = bag::decode(&bytes).unwrap();
    assert_eq!(s2.cells.len(), 1);
    assert_eq!(s2.cells[r2].data, vec![1]);
}

#[test]
fn bag_truncated_header() {
    assert!(matches!(bag::decode(&vec![]), Err(CodecError::TruncatedBag)));
    assert!(matches!(bag::decode(&vec![0u8; 7]), Err(CodecError::TruncatedBag)));
}

#[test]
fn bag_truncated_record() {
    let (s, root) = store_with_cell(vec![42], 8, vec![]);
    let mut bytes = bag::encode(&s, root);
    bytes.pop();
    assert!(matches!(bag::decode(&bytes), Err(CodecError::TruncatedBag)));
}

#[test]
fn bag_dangling_root() {
    // count = 1, root = 3
    let bytes = vec![0, 0, 0, 1, 0, 0, 0, 3];
    assert!(matches!(bag::decode(&bytes), Err(CodecError::DanglingReference)));
}

#[test]
fn bag_dangling_child() {
    // count = 1, root = 0; record: 0 bits, 1 child, child index 7
    let bytes = vec![0, 0, 0, 1, 0, 0, 0, 0, 0, 0, 1, 0, 0, 0, 7];
    assert!(matches!(bag::decode(&bytes), Err(CodecError::DanglingReference)));
}

#[test]
fn bag_cyclic_child() {
    // count = 2, root = 1; first record references itself
    let bytes = vec![0, 0, 0, 2, 0, 0, 0, 1, 0, 0, 1, 0, 0, 0, 0];
    assert!(matches!(bag::decode(&bytes), Err(CodecError::CyclicReference)));
}

#[test]
fn bag_malformed_cell() {
    // count = 1, root = 0; record claims 1024 payload bits
    let bytes = vec![0, 0, 0, 1, 0, 0, 0, 0, 4, 0, 0];
    assert!(matches!(bag::decode(&bytes), Err(CodecError::MalformedCell)));
    // nonzero padding bits in a 1-bit payload
    let bytes2 = vec![0, 0, 0, 1, 0, 0, 0, 0, 0, 1, 0, 0x41];
    assert!(matches!(bag::decode(&bytes2), Err(CodecError::MalformedCell)));
    // five children
    let bytes3 = vec![0, 0, 0, 1, 0, 0, 0, 0, 0, 0, 5];
    assert!(matches!(bag::decode(&bytes3), Err(CodecError::MalformedCell)));
}

#[test]
fn bag_trailing_bytes() {
    let (s, root) = store_with_cell(vec![42], 8, vec![]);
    let mut bytes = bag::encode(&s, root);
    bytes.push(0);
    assert!(matches!(bag::decode(&bytes), Err(CodecError::InvalidEncoding)));
}

#[test]
fn dict_empty_get() {
    let mut s = CellStore::new();
    let root = dict::empty_dict(&mut s);
    assert_eq!(dict::get(&s, root, 0), Ok(None));
    assert_eq!(dict::get(&s, root, -5), Ok(None));
    assert_eq!(dict::get(&s, root, i32::MAX), Ok(None));
}

#[test]
fn dict_insert_and_get() {
    let mut s = CellStore::new();
    let root = dict::empty_dict(&mut s);
    let v1 = s.make_cell(vec![1], 8, vec![]).unwrap();
    let v2 = s.make_cell(vec![2], 8, vec![]).unwrap();
    let r1 = dict::with_entry(&mut s, root, 7, v1).unwrap();
    assert_eq!(dict::get(&s, r1, 7), Ok(Some(v1)));
    assert_eq!(dict::get(&s, r1, 8), Ok(None));
    // the old snapshot is untouched
    assert_eq!(dict::get(&s, root, 7), Ok(None));
    let r2 = dict::with_entry(&mut s, r1, -3, v2).unwrap();
    assert_eq!(dict::get(&s, r2, 7), Ok(Some(v1)));
    assert_eq!(dict::get(&s, r2, -3), Ok(Some(v2)));
    assert_eq!(dict::get(&s, r2, 0), Ok(None));
}

#[test]
fn dict_overwrite_key() {
    let mut s = CellStore::new();
    let root = dict::empty_dict(&mut s);
    let v1 = s.make_cell(vec![1], 8, vec![]).unwrap();
    let v2 = s.make_cell(vec![2], 8, vec![]).unwrap();
    let r1 = dict::with_entry(&mut s, root, 5, v1).unwrap();
    let r2 = dict::with_entry(&mut s, r1, 5, v2).unwrap();
    assert_eq!(dict::get(&s, r2, 5), Ok(Some(v2)));
    assert_eq!(dict::get(&s, r1, 5), Ok(Some(v1)));
}

#[test]
fn dict_malformed_root() {
    let mut s = CellStore::new();
    // a cell that is none of the three dictionary shapes
    let bad = s.make_cell(vec![0xFF], 8, vec![]).unwrap();
    assert_eq!(dict::get(&s, bad, 1), Err(CodecError::MalformedDictionary));
}
