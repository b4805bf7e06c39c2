use tenuki::dictionary::bin_format::{
    checked_u32, encode_dict_bin, key_order, parse_dict_bin_header, read_u32, read_u64,
    write_u32, write_u64, AcceptedExactEntry, BinFormatError, DictBinIndex, KeyOrder,
    DICT_BIN_HEADER_LEN, DICT_BIN_MAGIC, DICT_BIN_VERSION,
};

fn entry(source: &str, value: &str) -> AcceptedExactEntry {
    AcceptedExactEntry { source: source.to_string(), value: value.to_string() }
}

#[test]
fn little_endian_fields_round_trip() {
    let mut out = Vec::new();
    write_u32(&mut out, 0x0403_0201);
    write_u64(&mut out, 0x0807_0605_0403_0201);
    assert_eq!(out, vec![1, 2, 3, 4, 1, 2, 3, 4, 5, 6, 7, 8]);
    assert_eq!(read_u32(&out, 0), Some(0x0403_0201));
    assert_eq!(read_u64(&out, 4), Some(0x0807_0605_0403_0201));
    assert_eq!(read_u32(&out, 9), None);
    assert_eq!(read_u64(&out, 5), None);
}

#[test]
fn checked_u32_names_the_field_that_overflows() {
    assert_eq!(checked_u32(7, "key length too large"), Ok(7));
    assert_eq!(checked_u32(u32::MAX as usize, "x"), Ok(u32::MAX));
    if usize::BITS > 32 {
        assert_eq!(
            checked_u32(u32::MAX as usize + 1, "exact count too large"),
            Err(BinFormatError::InvalidData("exact count too large"))
        );
    }
}

#[test]
fn encoded_dictionary_has_the_documented_layout() {
    let entries = vec![entry("ab", "X"), entry("b", "YZ")];
    let (bytes, blob_len) = encode_dict_bin(&entries).unwrap();
    assert_eq!(blob_len, 6);
    assert_eq!(bytes.len(), DICT_BIN_HEADER_LEN + 2 * 16 + 6);
    assert_eq!(&bytes[0..8], &DICT_BIN_MAGIC[..]);
    let header = parse_dict_bin_header(&bytes).unwrap();
    assert_eq!(header.version, DICT_BIN_VERSION);
    assert_eq!(header.exact_count, 2);
    assert_eq!(header.exact_table_offset, 40);
    assert_eq!(header.string_blob_offset, 72);
    assert_eq!(header.string_blob_len, 6);
    // Second entry: key at 3, length 1; value at 4, length 2.
    assert_eq!(read_u32(&bytes, 56), Some(3));
    assert_eq!(read_u32(&bytes, 60), Some(1));
    assert_eq!(read_u32(&bytes, 64), Some(4));
    assert_eq!(read_u32(&bytes, 68), Some(2));
    assert_eq!(&bytes[72..], b"abXbYZ");
}

#[test]
fn written_dictionary_reads_back_every_entry() {
    let entries = vec![
        entry("Attack", "攻撃"),
        entry("Defense", "防御"),
        entry("HP", "体力"),
        entry("攻撃力", "Attack power"),
    ];
    let (bytes, _) = encode_dict_bin(&entries).unwrap();
    let index = DictBinIndex::from_bytes(bytes).unwrap();
    assert_eq!(index.exact_count(), 4);
    for e in &entries {
        assert_eq!(index.lookup(&e.source), Some(e.value.clone()));
    }
    assert_eq!(index.lookup("Att"), None);
    assert_eq!(index.lookup("Zeta"), None);
    assert_eq!(index.lookup(""), None);
    assert_eq!(index.value_string(2), Some("体力".to_string()));
    assert_eq!(index.value_string(4), None);
}

#[test]
fn empty_dictionary_has_no_entries() {
    let (bytes, blob_len) = encode_dict_bin(&[]).unwrap();
    assert_eq!(blob_len, 0);
    assert_eq!(bytes.len(), DICT_BIN_HEADER_LEN);
    let index = DictBinIndex::from_bytes(bytes).unwrap();
    assert_eq!(index.exact_count(), 0);
    assert_eq!(index.lookup("a"), None);
}

#[test]
fn malformed_headers_are_refused() {
    let (bytes, _) = encode_dict_bin(&[entry("a", "b")]).unwrap();
    let mut bad_magic = bytes.clone();
    bad_magic[0] = b'X';
    assert!(DictBinIndex::from_bytes(bad_magic).is_none());
    let mut bad_version = bytes.clone();
    bad_version[8] = 2;
    assert!(parse_dict_bin_header(&bad_version).is_none());
    let truncated = bytes[..bytes.len() - 1].to_vec();
    assert!(parse_dict_bin_header(&truncated).is_none());
    assert!(parse_dict_bin_header(&bytes[..39]).is_none());
}

#[test]
fn keys_compare_in_byte_order() {
    assert_eq!(key_order(b"a", b"b"), KeyOrder::Less);
    assert_eq!(key_order(b"ab", b"a"), KeyOrder::Greater);
    assert_eq!(key_order(b"a", b"ab"), KeyOrder::Less);
    assert_eq!(key_order(b"abc", b"abc"), KeyOrder::Equal);
    assert_eq!(key_order(b"", b""), KeyOrder::Equal);
    assert_eq!(key_order(b"B", b"a"), KeyOrder::Less);
}
