use chunkdir::names::{
    chunk_file_name, decimal_text, has_chunk_tag, zero_padded_text, CHUNK_TAG,
    DEFAULT_OUTPUT_NAME, INDEX_WIDTH, METADATA_FILE,
};

#[test]
fn fixed_names() {
    assert_eq!(CHUNK_TAG, "chunk");
    assert_eq!(METADATA_FILE, "info.json");
    assert_eq!(DEFAULT_OUTPUT_NAME, "reconstructed_file");
    assert_eq!(INDEX_WIDTH, 3);
}

#[test]
fn decimal_has_no_leading_zeros() {
    assert_eq!(decimal_text(0), "0");
    assert_eq!(decimal_text(9), "9");
    assert_eq!(decimal_text(10), "10");
    assert_eq!(decimal_text(1234567890), "1234567890");
    assert_eq!(decimal_text(usize::MAX), format!("{}", usize::MAX));
}

#[test]
fn padding_fills_up_to_the_width() {
    assert_eq!(zero_padded_text(5, 3), "005");
    assert_eq!(zero_padded_text(50, 3), "050");
    assert_eq!(zero_padded_text(500, 3), "500");
    assert_eq!(zero_padded_text(5000, 3), "5000");
    assert_eq!(zero_padded_text(7, 0), "7");
    assert_eq!(zero_padded_text(7, 1), "7");
    assert_eq!(zero_padded_text(0, 5), "00000");
}

#[test]
fn chunk_names_are_zero_padded() {
    assert_eq!(chunk_file_name(0), "chunk000");
    assert_eq!(chunk_file_name(7), "chunk007");
    assert_eq!(chunk_file_name(42), "chunk042");
    assert_eq!(chunk_file_name(999), "chunk999");
    assert_eq!(chunk_file_name(1000), "chunk1000");
    assert_eq!(chunk_file_name(123456), "chunk123456");
}

#[test]
fn chunk_names_agree_with_the_formatter() {
    for index in (0..2000).chain([9_999, 10_000, 65_535, 1_000_000]) {
        assert_eq!(chunk_file_name(index), format!("chunk{:03}", index));
    }
}

#[test]
fn chunk_tag_is_a_prefix() {
    assert!(has_chunk_tag("chunk000"));
    assert!(has_chunk_tag("chunk"));
    assert!(has_chunk_tag("chunky.txt"));
    assert!(has_chunk_tag("chunk\u{e9}"));
    assert!(!has_chunk_tag("chun"));
    assert!(!has_chunk_tag("Chunk000"));
    assert!(!has_chunk_tag("xchunk000"));
    assert!(!has_chunk_tag("info.json"));
    assert!(!has_chunk_tag(""));
    assert!(!has_chunk_tag("\u{e9}chunk"));
}
