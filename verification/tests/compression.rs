//! Compression of blocks.

use goat_db::storage::sstable::compression::SstableBlockCompression;

#[test]
fn none_roundtrip_preserves_bytes() {
    let input = b"abcabcabc";
    let encoded = SstableBlockCompression::Uncompressed.compress(input);
    let decoded = SstableBlockCompression::Uncompressed
        .decompress(&encoded, input.len())
        .expect("decode");
    assert_eq!(decoded, input);
}

#[test]
fn rle_roundtrip_preserves_bytes() {
    let input = b"aaaaabbbbbccccccccccccddd";
    let encoded = SstableBlockCompression::Rle.compress(input);
    assert!(encoded.len() < input.len());
    let decoded = SstableBlockCompression::Rle
        .decompress(&encoded, input.len())
        .expect("decode");
    assert_eq!(decoded, input);
}

#[test]
fn from_tag_rejects_unknown_value() {
    let err = SstableBlockCompression::from_tag(9).expect_err("unknown tag");
    assert!(err.to_string().contains("unknown compression tag"));
}

#[test]
fn rle_payload_is_as_short_as_can_be() {
    let input = vec![b'a'; 300];
    let encoded = SstableBlockCompression::Rle.compress(&input);
    assert_eq!(encoded, vec![255, b'a', 45, b'a']);
    let longer = vec![200, b'a', 50, b'a', 50, b'a'];
    assert_eq!(SstableBlockCompression::Rle.decompress(&longer, 300).unwrap(), input);
    assert!(encoded.len() < longer.len());
}
