use chunkdir::listing::chunk_files;
use chunkdir::names::chunk_file_name;
use chunkdir::order::sorts_before_or_equal;

fn names(list: &[&str]) -> Vec<String> {
    list.iter().map(|name| name.to_string()).collect()
}

#[test]
fn order_is_lexicographic_on_bytes() {
    assert!(sorts_before_or_equal("", ""));
    assert!(sorts_before_or_equal("", "a"));
    assert!(!sorts_before_or_equal("a", ""));
    assert!(sorts_before_or_equal("a", "a"));
    assert!(sorts_before_or_equal("a", "ab"));
    assert!(!sorts_before_or_equal("ab", "a"));
    assert!(sorts_before_or_equal("ab", "b"));
    assert!(sorts_before_or_equal("B", "a"));
    assert!(!sorts_before_or_equal("a", "B"));
    assert!(sorts_before_or_equal("chunk1000", "chunk101"));
    assert!(!sorts_before_or_equal("chunk101", "chunk1000"));
    assert!(sorts_before_or_equal("z", "\u{e9}"));
    assert!(sorts_before_or_equal("\u{e9}", "\u{4e2d}"));
    assert!(sorts_before_or_equal("\u{ffff}", "\u{10000}"));
}

#[test]
fn order_agrees_with_the_order_of_strings() {
    let samples = ["", "a", "A", "ab", "b", "chunk000", "chunk1000", "chunk101", "\u{e9}", "z"];
    for a in samples {
        for b in samples {
            assert_eq!(sorts_before_or_equal(a, b), a <= b);
        }
    }
}

#[test]
fn chunk_files_are_picked_and_sorted() {
    let entries = names(&[
        "chunk002", "info.json", "chunk000", "notes.txt", "chunk001", "chunky", "Chunk003", "chunk",
    ]);
    assert_eq!(
        chunk_files(&entries),
        names(&["chunk", "chunk000", "chunk001", "chunk002", "chunky"])
    );
    assert_eq!(chunk_files(&Vec::new()), Vec::<String>::new());
    assert_eq!(chunk_files(&names(&["info.json"])), Vec::<String>::new());
}

#[test]
fn chunk_files_keep_names_that_stand_twice() {
    let entries = names(&["chunk001", "chunk000", "chunk001"]);
    assert_eq!(chunk_files(&entries), names(&["chunk000", "chunk001", "chunk001"]));
}

#[test]
fn gaps_in_the_indices_are_passed_over() {
    let entries = names(&["chunk005", "chunk000", "chunk002"]);
    assert_eq!(chunk_files(&entries), names(&["chunk000", "chunk002", "chunk005"]));
}

#[test]
fn up_to_a_thousand_chunks_sort_in_split_order() {
    for count in [0usize, 1, 2, 10, 11, 100, 101, 999, 1000] {
        let in_split_order: Vec<String> = (0..count).map(chunk_file_name).collect();
        let mut listed: Vec<String> = in_split_order.iter().rev().cloned().collect();
        listed.push("info.json".to_string());
        listed.rotate_left(count / 3);
        assert_eq!(chunk_files(&listed), in_split_order);
    }
}

#[test]
fn more_than_a_thousand_chunks_do_not_sort_in_split_order() {
    let in_split_order: Vec<String> = (0..1001).map(chunk_file_name).collect();
    let sorted = chunk_files(&in_split_order);
    assert_ne!(sorted, in_split_order);
    assert_eq!(sorted[100], "chunk100");
    assert_eq!(sorted[101], "chunk1000");
    assert_eq!(sorted[102], "chunk101");
    assert_eq!(sorted[1000], "chunk999");
}
