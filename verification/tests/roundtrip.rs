use chunkdir::metadata::write_record;
use chunkdir::names::{chunk_file_name, METADATA_FILE};
use chunkdir::reconstruct::plan_reconstruction;
use chunkdir::split::{SplitAction, SplitEvent, Splitter};
use std::collections::HashMap;

/// Splits `data` into a directory held in memory.
fn split(name: &str, data: &[u8], chunk_size: usize, read_limit: usize) -> HashMap<String, Vec<u8>> {
    let record = write_record(name).unwrap();
    let mut files = HashMap::new();
    let mut splitter = Splitter::with_chunk_size(chunk_size).unwrap();
    let mut buffer = vec![0u8; chunk_size];
    let mut position = 0;
    loop {
        let event = match splitter.action() {
            SplitAction::CheckSource => SplitEvent::SourceChecked { is_file: true },
            SplitAction::PrepareTarget => SplitEvent::TargetListed { entries: files.len() },
            SplitAction::StoreMetadata => {
                files.insert(METADATA_FILE.to_string(), record.clone().into_bytes());
                SplitEvent::Stored
            }
            SplitAction::Read { offset, len } => {
                let count = len.min(read_limit).min(data.len() - position);
                buffer[offset..offset + count].copy_from_slice(&data[position..position + count]);
                position += count;
                SplitEvent::Read { count }
            }
            SplitAction::StoreChunk { index, len } => {
                files.insert(chunk_file_name(index), buffer[..len].to_vec());
                SplitEvent::Stored
            }
            SplitAction::Finish => return files,
            SplitAction::Fail(error) => panic!("{:?}", error),
        };
        splitter.advance(event);
    }
}

/// Rebuilds the file from a directory held in memory: its name and bytes.
fn reconstruct(files: &HashMap<String, Vec<u8>>) -> (String, Vec<u8>) {
    let record = files.get(METADATA_FILE).and_then(|bytes| String::from_utf8(bytes.clone()).ok());
    let entries: Vec<String> = files.keys().cloned().collect();
    let plan = plan_reconstruction(record.as_deref(), &entries);
    let mut output = Vec::new();
    for chunk in &plan.chunks {
        output.extend_from_slice(&files[chunk]);
    }
    (plan.output_name, output)
}

fn sample(len: usize) -> Vec<u8> {
    (0..len).map(|i| (i * 7 % 253) as u8).collect()
}

#[test]
fn round_trip() {
    let size = 16;
    for len in [0, 1, 15, 16, 17, 32, 33, 160, 1000] {
        for read_limit in [1, 5, 16, 64] {
            let data = sample(len);
            let files = split("movie.mkv", &data, size, read_limit);
            assert_eq!(files.len(), 1 + (len + size - 1) / size);
            assert_eq!(reconstruct(&files), ("movie.mkv".to_string(), data));
        }
    }
}

#[test]
fn round_trip_of_an_empty_file() {
    let files = split("empty", &[], 8, 8);
    assert_eq!(files.len(), 1);
    assert_eq!(reconstruct(&files), ("empty".to_string(), Vec::new()));
}

#[test]
fn round_trip_keeps_unusual_names() {
    for name in ["a b.txt", "\u{e9}\u{4e2d}.bin", "quote\"back\\slash", "info.json", "chunks.tar", ""] {
        let data = sample(50);
        let files = split(name, &data, 7, 3);
        assert_eq!(reconstruct(&files), (name.to_string(), data));
    }
}

#[test]
fn round_trip_of_a_thousand_chunks() {
    let data = sample(1000);
    let files = split("big", &data, 1, 1);
    assert_eq!(files.len(), 1001);
    assert_eq!(reconstruct(&files), ("big".to_string(), data));
    let data = sample(2999);
    let files = split("big", &data, 3, 2);
    assert_eq!(files.len(), 1001);
    assert_eq!(reconstruct(&files), ("big".to_string(), data));
}

#[test]
fn more_than_a_thousand_chunks_come_back_out_of_order() {
    let data = sample(1001);
    let files = split("big", &data, 1, 1);
    assert_eq!(files.len(), 1002);
    let (name, bytes) = reconstruct(&files);
    assert_eq!(name, "big");
    assert_eq!(bytes.len(), data.len());
    assert_ne!(bytes, data);
    assert_eq!(bytes[..101], data[..101]);
    assert_eq!(bytes[101], data[1000]);
    assert_eq!(bytes[102..], data[101..1000]);
}

#[test]
fn metadata_fallback() {
    let data = sample(40);
    let mut files = split("lost.bin", &data, 16, 16);
    files.remove(METADATA_FILE);
    assert_eq!(reconstruct(&files), ("reconstructed_file".to_string(), data.clone()));
    files.insert(METADATA_FILE.to_string(), b"{\"original_filename\": ".to_vec());
    assert_eq!(reconstruct(&files), ("reconstructed_file".to_string(), data.clone()));
    files.insert(METADATA_FILE.to_string(), vec![0xff, 0xfe]);
    assert_eq!(reconstruct(&files), ("reconstructed_file".to_string(), data.clone()));
    files.insert(METADATA_FILE.to_string(), b"{\"original_filename\": 7}".to_vec());
    assert_eq!(reconstruct(&files), ("reconstructed_file".to_string(), data));
}

#[test]
fn a_missing_chunk_is_passed_over() {
    let data = sample(40);
    let mut files = split("gap.bin", &data, 10, 10);
    files.remove("chunk001");
    let (name, bytes) = reconstruct(&files);
    assert_eq!(name, "gap.bin");
    assert_eq!(bytes, [&data[..10], &data[20..]].concat());
}

#[test]
fn ordering() {
    for count in [0usize, 1, 9, 10, 99, 100, 500, 999, 1000] {
        let data = sample(count);
        let files = split("f", &data, 1, 1);
        let entries: Vec<String> = files.keys().cloned().collect();
        let plan = plan_reconstruction(None, &entries);
        let in_split_order: Vec<String> = (0..count).map(chunk_file_name).collect();
        assert_eq!(plan.chunks, in_split_order);
    }
}
