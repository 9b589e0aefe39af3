use bplist::{as_utf16, as_utf8, from_be_bytes, BPList, Error, Malformed, ReferenceTable, Trailer};

fn trailer_bytes(offset_size: u8, ref_size: u8, num_objects: u64, top: u64, table_start: u64) -> Vec<u8> {
    let mut t = vec![0u8; 6];
    t.push(offset_size);
    t.push(ref_size);
    t.extend_from_slice(&num_objects.to_be_bytes());
    t.extend_from_slice(&top.to_be_bytes());
    t.extend_from_slice(&table_start.to_be_bytes());
    t
}

/// Lays out a file from object encodings: magic, objects, a one-byte offset
/// table, then the footer, with one-byte references.
fn file_of(objects: &[Vec<u8>], top: u64) -> Vec<u8> {
    let mut f = b"bplist00".to_vec();
    let mut offsets = Vec::new();
    for o in objects {
        offsets.push(f.len() as u8);
        f.extend_from_slice(o);
    }
    let table_start = f.len() as u64;
    f.extend_from_slice(&offsets);
    f.extend_from_slice(&trailer_bytes(1, 1, objects.len() as u64, top, table_start));
    f
}

fn text(v: &BPList) -> String {
    match v {
        BPList::Str(s) => s.clone(),
        other => panic!("not a string: {:?}", other),
    }
}

#[test]
fn from_be_bytes_accumulates() {
    assert_eq!(from_be_bytes(&[0x01, 0x02]), 258);
    assert_eq!(from_be_bytes(&[]), 0);
    assert_eq!(from_be_bytes(&[0xff; 8]), u64::MAX);
    assert_eq!(from_be_bytes(&[0x12, 0x34, 0x56, 0x78]), 0x12345678);
}

#[test]
fn utf8_text_is_decoded() {
    assert_eq!(as_utf8(b"abc").unwrap(), "abc");
    assert_eq!(as_utf8(&[0xc3, 0xa9]).unwrap(), "é");
    assert_eq!(as_utf8(&[0xff]), Err(Error::TextEncodingFailure));
}

#[test]
fn utf16_text_is_decoded() {
    assert_eq!(as_utf16(&[0x00, 0xe9]).unwrap(), "é");
    assert_eq!(as_utf16(&[0x00, 0x61, 0x00, 0x62]).unwrap(), "ab");
    assert_eq!(as_utf16(&[0xd8, 0x3d, 0xde, 0x00]).unwrap(), "\u{1f600}");
    assert_eq!(as_utf16(&[0x00, 0x61, 0x00]), Err(Error::TextEncodingFailure));
    assert_eq!(as_utf16(&[0xd8, 0x3d]), Err(Error::TextEncodingFailure));
}

#[test]
fn trailer_fields_are_read_from_the_tail() {
    let mut f = vec![9u8; 5];
    f.extend_from_slice(&trailer_bytes(2, 1, 7, 3, 0x0102));
    let t = Trailer::load(&f).unwrap();
    assert_eq!(t.offset_table_offset_size, 2);
    assert_eq!(t.object_ref_size, 1);
    assert_eq!(t.num_objects, 7);
    assert_eq!(t.top_object_offset, 3);
    assert_eq!(t.offset_table_start, 0x0102);
    assert_eq!(Trailer::load(&[0u8; 31]), Err(Error::UnexpectedEndOfInput));
}

#[test]
fn reference_table_maps_indices_to_offsets() {
    let mut f = vec![0u8, 0x00, 0x08, 0x01, 0x00];
    let start = 1u64;
    f.extend_from_slice(&trailer_bytes(2, 1, 2, 0, start));
    let t = Trailer::load(&f).unwrap();
    let table = ReferenceTable::load(&f, &t).unwrap();
    assert_eq!(table.len(), 2);
    assert_eq!(table.get(&0), Some(8));
    assert_eq!(table.get(&1), Some(256));
    assert_eq!(table.get(&2), None);
}

#[test]
fn reference_table_past_the_end_fails() {
    let mut f = vec![0u8, 0x00];
    f.extend_from_slice(&trailer_bytes(2, 1, 100, 0, 1));
    let t = Trailer::load(&f).unwrap();
    assert!(matches!(ReferenceTable::load(&f, &t), Err(Error::UnexpectedEndOfInput)));
    let mut g = vec![0u8, 0x00];
    g.extend_from_slice(&trailer_bytes(9, 1, 1, 0, 1));
    let t = Trailer::load(&g).unwrap();
    assert!(matches!(ReferenceTable::load(&g, &t), Err(Error::MalformedFormat(Malformed::Width))));
}

#[test]
fn integers_decode_big_endian() {
    let f = file_of(&[vec![0x11, 0x01, 0x02]], 0);
    assert!(matches!(BPList::load(&f), Ok(BPList::Int(258))));
    let f = file_of(&[vec![0x10, 0xff]], 0);
    assert!(matches!(BPList::load(&f), Ok(BPList::Int(255))));
    let f = file_of(&[vec![0x12, 0xff, 0xff, 0xff, 0xff]], 0);
    assert!(matches!(BPList::load(&f), Ok(BPList::Int(4294967295))));
    let f = file_of(&[vec![0x13, 0xff, 0xff, 0xff, 0xff, 0xff, 0xff, 0xff, 0xfe]], 0);
    assert!(matches!(BPList::load(&f), Ok(BPList::Int(-2))));
    let mut sixteen = vec![0x14];
    sixteen.extend_from_slice(&[0xaa; 8]);
    sixteen.extend_from_slice(&[0, 0, 0, 0, 0, 0, 0x01, 0x00]);
    let f = file_of(&[sixteen], 0);
    assert!(matches!(BPList::load(&f), Ok(BPList::Int(256))));
}

#[test]
fn reals_keep_their_bit_pattern() {
    let mut o = vec![0x23];
    o.extend_from_slice(&1.5f64.to_be_bytes());
    let f = file_of(&[o], 0);
    match BPList::load(&f) {
        Ok(BPList::Real(bits)) => assert_eq!(f64::from_bits(bits), 1.5),
        other => panic!("{:?}", other),
    }
    let f = file_of(&[vec![0x21, 0x3f, 0xf0]], 0);
    assert!(matches!(BPList::load(&f), Ok(BPList::Real(0x3ff0))));
}

#[test]
fn singletons_decode() {
    assert!(matches!(BPList::load(&file_of(&[vec![0x00]], 0)), Ok(BPList::Null)));
    assert!(matches!(BPList::load(&file_of(&[vec![0x08]], 0)), Ok(BPList::Bool(false))));
    assert!(matches!(BPList::load(&file_of(&[vec![0x09]], 0)), Ok(BPList::Bool(true))));
    assert!(matches!(BPList::load(&file_of(&[vec![0x0f]], 0)), Ok(BPList::Filler)));
    assert!(matches!(
        BPList::load(&file_of(&[vec![0x03]], 0)),
        Err(Error::MalformedFormat(Malformed::UnknownSingleton))
    ));
}

#[test]
fn strings_decode() {
    let f = file_of(&[vec![0x53, b'a', b'b', b'c']], 0);
    assert_eq!(text(&BPList::load(&f).unwrap()), "abc");
    let f = file_of(&[vec![0x61, 0x00, 0xe9]], 0);
    assert_eq!(text(&BPList::load(&f).unwrap()), "é");
    let f = file_of(&[vec![0x61, 0xdc, 0x00]], 0);
    assert!(matches!(BPList::load(&f), Err(Error::TextEncodingFailure)));
    let f = file_of(&[vec![0x52, 0xff, 0xfe]], 0);
    assert!(matches!(BPList::load(&f), Err(Error::TextEncodingFailure)));
}

#[test]
fn data_and_uid_decode() {
    let f = file_of(&[vec![0x43, 1, 2, 3]], 0);
    match BPList::load(&f) {
        Ok(BPList::Data(d)) => assert_eq!(d, vec![1, 2, 3]),
        other => panic!("{:?}", other),
    }
    let f = file_of(&[vec![0x81, 0x00, 0x12]], 0);
    match BPList::load(&f) {
        Ok(BPList::UID(d)) => assert_eq!(d, vec![0x00, 0x12]),
        other => panic!("{:?}", other),
    }
}

#[test]
fn arrays_follow_references_in_order() {
    let f = file_of(&[vec![0xa3, 1, 2, 1], vec![0x10, 7], vec![0x51, b'x']], 0);
    match BPList::load(&f) {
        Ok(BPList::Array(items)) => {
            assert_eq!(items.len(), 3);
            assert!(matches!(items[0], BPList::Int(7)));
            assert_eq!(text(&items[1]), "x");
            assert!(matches!(items[2], BPList::Int(7)));
        }
        other => panic!("{:?}", other),
    }
}

#[test]
fn dict_pairs_keys_then_values() {
    let f = file_of(
        &[vec![0xd2, 1, 2, 3, 4], vec![0x51, b'a'], vec![0x51, b'b'], vec![0x10, 1], vec![0x10, 2]],
        0,
    );
    let root = BPList::load(&f).unwrap();
    match &root {
        BPList::Dict(pairs) => {
            assert_eq!(pairs.len(), 2);
            assert_eq!(text(&pairs[0].0), "a");
            assert!(matches!(pairs[0].1, BPList::Int(1)));
            assert_eq!(text(&pairs[1].0), "b");
            assert!(matches!(pairs[1].1, BPList::Int(2)));
        }
        other => panic!("{:?}", other),
    }
    assert!(matches!(root.gets("b"), Ok(BPList::Int(2))));
    assert!(matches!(root.gets("a"), Ok(BPList::Int(1))));
    assert!(matches!(root.gets("c"), Err(Error::NotFound)));
}

#[test]
fn escaped_counts_read_the_next_integer() {
    let mut arr = vec![0xaf, 0x10, 15];
    arr.extend(std::iter::repeat(1u8).take(15));
    let f = file_of(&[arr, vec![0x09]], 0);
    match BPList::load(&f) {
        Ok(BPList::Array(items)) => {
            assert_eq!(items.len(), 15);
            assert!(items.iter().all(|i| matches!(i, BPList::Bool(true))));
        }
        other => panic!("{:?}", other),
    }
    let mut s = vec![0x5f, 0x10, 16];
    s.extend_from_slice(b"0123456789abcdef");
    assert_eq!(text(&BPList::load(&file_of(&[s], 0)).unwrap()), "0123456789abcdef");
    let f = file_of(&[vec![0xaf, 0x51, b'x']], 0);
    assert!(matches!(BPList::load(&f), Err(Error::MalformedFormat(Malformed::CountNotInt))));
    let f = file_of(&[vec![0xdf, 0x09]], 0);
    assert!(matches!(BPList::load(&f), Err(Error::MalformedFormat(Malformed::CountNotInt))));
    let f = file_of(&[vec![0x4f, 0x13, 0xff, 0xff, 0xff, 0xff, 0xff, 0xff, 0xff, 0xff]], 0);
    assert!(matches!(BPList::load(&f), Err(Error::MalformedFormat(Malformed::NegativeCount))));
}

#[test]
fn bad_magic_is_malformed() {
    let mut f = file_of(&[vec![0x00]], 0);
    f[7] = b'1';
    assert!(matches!(BPList::load(&f), Err(Error::MalformedFormat(Malformed::Magic))));
    assert!(matches!(BPList::load(b"xplist00"), Err(Error::MalformedFormat(Malformed::Magic))));
    assert!(matches!(BPList::load(b"bpl"), Err(Error::UnexpectedEndOfInput)));
}

#[test]
fn truncated_bodies_end_the_input() {
    let f = file_of(&[vec![0x4f, 0x10, 200, 1, 2, 3]], 0);
    assert!(matches!(BPList::load(&f), Err(Error::UnexpectedEndOfInput)));
    let f = file_of(&[vec![0x6f, 0x10, 100, 0, b'a']], 0);
    assert!(matches!(BPList::load(&f), Err(Error::UnexpectedEndOfInput)));
    let f = file_of(&[vec![0xaf, 0x10, 120, 0]], 0);
    assert!(matches!(BPList::load(&f), Err(Error::UnexpectedEndOfInput)));
    let f = file_of(&[vec![0x8f, 0]], 0);
    assert!(matches!(BPList::load(&f), Ok(BPList::UID(_))));
    let mut g = b"bplist00".to_vec();
    g.extend_from_slice(&trailer_bytes(1, 1, 0, 0, 8));
    g.truncate(20);
    assert!(matches!(BPList::load(&g), Err(Error::UnexpectedEndOfInput)));
}

#[test]
fn dates_and_sets_are_not_implemented() {
    let f = file_of(&[vec![0x33, 0, 0, 0, 0, 0, 0, 0, 0]], 0);
    assert!(matches!(BPList::load(&f), Err(Error::NotImplemented)));
    let f = file_of(&[vec![0xc0]], 0);
    assert!(matches!(BPList::load(&f), Err(Error::NotImplemented)));
    let f = file_of(&[vec![0x70]], 0);
    assert!(matches!(BPList::load(&f), Err(Error::MalformedFormat(Malformed::UnknownMarker))));
}

#[test]
fn references_outside_the_table_are_not_found() {
    let f = file_of(&[vec![0xa1, 5]], 0);
    assert!(matches!(BPList::load(&f), Err(Error::NotFound)));
    let f = file_of(&[vec![0x00]], 3);
    assert!(matches!(BPList::load(&f), Err(Error::NotFound)));
}

#[test]
fn cycles_are_malformed() {
    let f = file_of(&[vec![0xa1, 0]], 0);
    assert!(matches!(BPList::load(&f), Err(Error::MalformedFormat(Malformed::Cycle))));
    let f = file_of(&[vec![0xa1, 1], vec![0xa1, 0]], 0);
    assert!(matches!(BPList::load(&f), Err(Error::MalformedFormat(Malformed::Cycle))));
}

#[test]
fn shared_objects_are_no_cycle() {
    let f = file_of(&[vec![0xa2, 1, 1], vec![0xa1, 2], vec![0x10, 4]], 0);
    match BPList::load(&f) {
        Ok(BPList::Array(items)) => assert_eq!(items.len(), 2),
        other => panic!("{:?}", other),
    }
}

#[test]
fn decoding_is_deterministic() {
    let f = file_of(&[vec![0xd1, 1, 2], vec![0x51, b'k'], vec![0xa2, 3, 3], vec![0x10, 9]], 0);
    let a = BPList::load(&f).unwrap().print(0);
    let b = BPList::load(&f).unwrap().print(0);
    assert_eq!(a, b);
}

#[test]
fn root_is_the_top_object() {
    let f = file_of(&[vec![0x10, 1], vec![0x10, 2]], 1);
    assert!(matches!(BPList::load(&f), Ok(BPList::Int(2))));
}
