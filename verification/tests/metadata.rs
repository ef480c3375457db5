use chunkdir::error::ChunkError;
use chunkdir::metadata::{
    checked_record, name_or_default, output_name, read_recorded_name, write_record, FILENAME_KEY,
};
use chunkdir::reconstruct::plan_reconstruction;

#[test]
fn the_key_of_the_record() {
    assert_eq!(FILENAME_KEY, "original_filename");
}

#[test]
fn the_record_is_a_json_object() {
    assert_eq!(
        write_record("photo.jpg"),
        Ok("{\"original_filename\":\"photo.jpg\"}".to_string())
    );
    assert_eq!(write_record(""), Ok("{\"original_filename\":\"\"}".to_string()));
}

#[test]
fn the_record_escapes_what_json_escapes() {
    assert_eq!(
        write_record("a\"b\\c\n.txt"),
        Ok("{\"original_filename\":\"a\\\"b\\\\c\\n.txt\"}".to_string())
    );
}

#[test]
fn the_record_reads_back_as_the_name() {
    for name in ["photo.jpg", "", "a\"b\\c\n.txt", "\u{e9}t\u{e9}.bin", "chunk000", "info.json", "\u{1}\u{7f}"] {
        let text = write_record(name).unwrap();
        assert_eq!(read_recorded_name(&text), Some(name.to_string()));
        assert_eq!(output_name(Some(&text)), name);
    }
}

#[test]
fn the_name_is_read_from_any_json_object_that_has_it() {
    assert_eq!(
        read_recorded_name(" { \"size\": 3, \"original_filename\" : \"a.bin\" } "),
        Some("a.bin".to_string())
    );
    assert_eq!(
        read_recorded_name("{\"original_filename\":\"first\",\"original_filename\":\"second\"}"),
        Some("second".to_string())
    );
    assert_eq!(
        read_recorded_name("{\"original_filename\":\"\\u0041\\n\"}"),
        Some("A\n".to_string())
    );
}

#[test]
fn a_record_without_a_name_gives_none() {
    assert_eq!(read_recorded_name(""), None);
    assert_eq!(read_recorded_name("not json"), None);
    assert_eq!(read_recorded_name("{\"original_filename\":\"a.bin\""), None);
    assert_eq!(read_recorded_name("{\"original_filename\":\"a.bin\"} x"), None);
    assert_eq!(read_recorded_name("{}"), None);
    assert_eq!(read_recorded_name("{\"filename\":\"a.bin\"}"), None);
    assert_eq!(read_recorded_name("{\"original_filename\":5}"), None);
    assert_eq!(read_recorded_name("{\"original_filename\":null}"), None);
    assert_eq!(read_recorded_name("{\"original_filename\":[\"a.bin\"]}"), None);
    assert_eq!(read_recorded_name("[\"original_filename\"]"), None);
    assert_eq!(read_recorded_name("\"original_filename\""), None);
}

#[test]
fn the_default_name_stands_in() {
    assert_eq!(name_or_default(None), "reconstructed_file");
    assert_eq!(name_or_default(Some("x".to_string())), "x");
    assert_eq!(name_or_default(Some(String::new())), "");
}

#[test]
fn missing_metadata_falls_back_to_the_default_name() {
    assert_eq!(output_name(None), "reconstructed_file");
}

#[test]
fn malformed_metadata_falls_back_to_the_default_name() {
    assert_eq!(output_name(Some("")), "reconstructed_file");
    assert_eq!(output_name(Some("{")), "reconstructed_file");
    assert_eq!(output_name(Some("{\"original_filename\":12}")), "reconstructed_file");
    assert_eq!(output_name(Some("{\"name\":\"a\"}")), "reconstructed_file");
    assert_eq!(output_name(Some("{\"original_filename\":\"a\"}")), "a");
}

#[test]
fn a_record_is_accepted_only_if_it_reads_back() {
    let text = "{\"original_filename\":\"a\"}".to_string();
    assert_eq!(checked_record("a", text.clone(), Some("a".to_string())), Ok(text.clone()));
    assert_eq!(
        checked_record("a", text.clone(), Some("b".to_string())),
        Err(ChunkError::MalformedMetadata)
    );
    assert_eq!(checked_record("a", text.clone(), None), Err(ChunkError::MalformedMetadata));
    assert_eq!(checked_record("", text.clone(), Some(String::new())), Ok(text));
}

#[test]
fn the_plan_names_the_output_and_orders_the_chunks() {
    let entries: Vec<String> =
        ["chunk001", "info.json", "chunk000", "readme"].iter().map(|s| s.to_string()).collect();
    let plan = plan_reconstruction(Some("{\"original_filename\":\"big.iso\"}"), &entries);
    assert_eq!(plan.output_name, "big.iso");
    assert_eq!(plan.chunks, vec!["chunk000".to_string(), "chunk001".to_string()]);
}

#[test]
fn the_plan_without_metadata_uses_the_default_name() {
    let entries: Vec<String> = ["chunk001", "chunk000"].iter().map(|s| s.to_string()).collect();
    let plan = plan_reconstruction(None, &entries);
    assert_eq!(plan.output_name, "reconstructed_file");
    assert_eq!(plan.chunks, vec!["chunk000".to_string(), "chunk001".to_string()]);
    let plan = plan_reconstruction(Some("garbage"), &entries);
    assert_eq!(plan.output_name, "reconstructed_file");
    assert_eq!(plan.chunks, vec!["chunk000".to_string(), "chunk001".to_string()]);
}

#[test]
fn the_plan_for_a_directory_without_chunks_is_empty() {
    let plan = plan_reconstruction(None, &Vec::new());
    assert_eq!(plan.output_name, "reconstructed_file");
    assert!(plan.chunks.is_empty());
}
