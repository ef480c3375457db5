use chunkdir::menu::{render_line, EntryKind, Menu};
use chunkdir::shell::{
    chunk_report, count_chunk_files, directory_choice, directory_menu, exit_status, main_choice,
    main_menu, same_text, DirectoryChoice, MainChoice, EXIT, RECONSTRUCT, RECONSTRUCT_FILE,
    SPLIT_FILE,
};
use chunkdir::error::ChunkError;

fn names(list: &[&str]) -> Vec<String> {
    list.iter().map(|name| name.to_string()).collect()
}

fn entries(menu: &Menu) -> Vec<(String, EntryKind)> {
    (0..menu.len())
        .map(|i| (menu.label(i).unwrap().to_string(), menu.kind(i).unwrap()))
        .collect()
}

#[test]
fn lines_carry_the_colour_of_the_kind() {
    assert_eq!(render_line(1, "music", EntryKind::Directory), "1. music");
    assert_eq!(render_line(2, "set", EntryKind::Chunk), "\x1b[92m2. set\x1b[0m");
    assert_eq!(render_line(3, "Split file", EntryKind::Action), "\x1b[94m3. Split file\x1b[0m");
    assert_eq!(render_line(12, "Exit", EntryKind::Exit), "\x1b[91m12. Exit\x1b[0m");
    assert_eq!(render_line(0, "", EntryKind::Directory), "0. ");
}

#[test]
fn a_new_menu_is_empty() {
    let menu = Menu::new();
    assert_eq!(menu.len(), 0);
    assert_eq!(menu.label(0), None);
    assert_eq!(menu.kind(0), None);
    assert_eq!(menu.line(0), None);
    assert!(menu.lines().is_empty());
    assert_eq!(menu.pick("1"), None);
}

#[test]
fn entries_stand_in_ascending_order_of_their_labels() {
    let mut menu = Menu::new();
    menu.insert("pear".to_string(), EntryKind::Directory);
    menu.insert("apple".to_string(), EntryKind::Chunk);
    menu.insert("zebra".to_string(), EntryKind::Exit);
    menu.insert("Pear".to_string(), EntryKind::Action);
    menu.insert("".to_string(), EntryKind::Directory);
    assert_eq!(
        entries(&menu),
        vec![
            ("".to_string(), EntryKind::Directory),
            ("Pear".to_string(), EntryKind::Action),
            ("apple".to_string(), EntryKind::Chunk),
            ("pear".to_string(), EntryKind::Directory),
            ("zebra".to_string(), EntryKind::Exit),
        ]
    );
    assert_eq!(menu.label(5), None);
    assert_eq!(menu.kind(5), None);
}

#[test]
fn an_entry_with_the_same_label_is_replaced() {
    let mut menu = Menu::new();
    menu.insert("b".to_string(), EntryKind::Directory);
    menu.insert("a".to_string(), EntryKind::Directory);
    menu.insert("c".to_string(), EntryKind::Directory);
    menu.insert("b".to_string(), EntryKind::Exit);
    menu.insert("c".to_string(), EntryKind::Action);
    menu.insert("a".to_string(), EntryKind::Chunk);
    assert_eq!(
        entries(&menu),
        vec![
            ("a".to_string(), EntryKind::Chunk),
            ("b".to_string(), EntryKind::Exit),
            ("c".to_string(), EntryKind::Action),
        ]
    );
}

#[test]
fn lines_are_numbered_from_one() {
    let mut menu = Menu::new();
    menu.insert("docs".to_string(), EntryKind::Directory);
    menu.insert("Reconstruct".to_string(), EntryKind::Action);
    menu.insert("Exit".to_string(), EntryKind::Exit);
    menu.insert("backup".to_string(), EntryKind::Chunk);
    let expected = names(&[
        "\x1b[91m1. Exit\x1b[0m",
        "\x1b[94m2. Reconstruct\x1b[0m",
        "\x1b[92m3. backup\x1b[0m",
        "4. docs",
    ]);
    assert_eq!(menu.lines(), expected);
    for (i, line) in expected.iter().enumerate() {
        assert_eq!(menu.line(i).as_ref(), Some(line));
    }
    assert_eq!(menu.line(4), None);
}

#[test]
fn a_response_picks_the_entry_of_that_number() {
    let mut menu = Menu::new();
    menu.insert("b".to_string(), EntryKind::Directory);
    menu.insert("a".to_string(), EntryKind::Directory);
    menu.insert("c".to_string(), EntryKind::Directory);
    assert_eq!(menu.pick("1\n"), Some("a".to_string()));
    assert_eq!(menu.pick(" 2 "), Some("b".to_string()));
    assert_eq!(menu.pick("+3"), Some("c".to_string()));
    assert_eq!(menu.pick("0"), None);
    assert_eq!(menu.pick("4"), None);
    assert_eq!(menu.pick("a"), None);
    assert_eq!(menu.pick(""), None);
}

#[test]
fn the_first_menu() {
    assert_eq!(RECONSTRUCT_FILE, "Reconstruct file");
    assert_eq!(SPLIT_FILE, "Split file");
    assert_eq!(EXIT, "Exit");
    let menu = main_menu();
    assert_eq!(
        entries(&menu),
        vec![
            ("Exit".to_string(), EntryKind::Exit),
            ("Reconstruct file".to_string(), EntryKind::Action),
            ("Split file".to_string(), EntryKind::Action),
        ]
    );
    assert_eq!(
        menu.lines(),
        names(&[
            "\x1b[91m1. Exit\x1b[0m",
            "\x1b[94m2. Reconstruct file\x1b[0m",
            "\x1b[94m3. Split file\x1b[0m",
        ])
    );
    assert_eq!(menu.pick("3").map(|label| main_choice(&label)), Some(MainChoice::Split));
}

#[test]
fn the_menu_of_a_directory() {
    assert_eq!(RECONSTRUCT, "Reconstruct");
    let menu = directory_menu(&names(&["b", "a", "zeta", "Music"]));
    assert_eq!(
        entries(&menu),
        vec![
            ("Exit".to_string(), EntryKind::Exit),
            ("Music".to_string(), EntryKind::Directory),
            ("Reconstruct".to_string(), EntryKind::Action),
            ("a".to_string(), EntryKind::Directory),
            ("b".to_string(), EntryKind::Directory),
            ("zeta".to_string(), EntryKind::Directory),
        ]
    );
    let menu = directory_menu(&Vec::new());
    assert_eq!(
        entries(&menu),
        vec![("Exit".to_string(), EntryKind::Exit), ("Reconstruct".to_string(), EntryKind::Action)]
    );
}

#[test]
fn the_fixed_entries_win_over_directories_of_their_names() {
    let menu = directory_menu(&names(&["Exit", "Reconstruct", "x", "x"]));
    assert_eq!(
        entries(&menu),
        vec![
            ("Exit".to_string(), EntryKind::Exit),
            ("Reconstruct".to_string(), EntryKind::Action),
            ("x".to_string(), EntryKind::Directory),
        ]
    );
}

#[test]
fn what_the_choices_mean() {
    assert_eq!(main_choice("Reconstruct file"), MainChoice::Reconstruct);
    assert_eq!(main_choice("Split file"), MainChoice::Split);
    assert_eq!(main_choice("Exit"), MainChoice::Exit);
    assert_eq!(main_choice("Reconstruct"), MainChoice::Nothing);
    assert_eq!(main_choice(""), MainChoice::Nothing);
    assert_eq!(directory_choice("Reconstruct"), DirectoryChoice::Reconstruct);
    assert_eq!(directory_choice("Exit"), DirectoryChoice::Exit);
    assert_eq!(directory_choice("Reconstruct file"), DirectoryChoice::Enter);
    assert_eq!(directory_choice("exit"), DirectoryChoice::Enter);
    assert_eq!(directory_choice("music"), DirectoryChoice::Enter);
}

#[test]
fn texts_are_compared_as_a_whole() {
    assert!(same_text("", ""));
    assert!(same_text("Exit", "Exit"));
    assert!(!same_text("Exit", "Exit "));
    assert!(!same_text("Exit", "exit"));
    assert!(!same_text("", "a"));
}

#[test]
fn the_report_on_chunk_files() {
    assert_eq!(chunk_report(0), "\tNo chunk files found in this directory.");
    assert_eq!(chunk_report(1), "\tFound 1 chunk files in this directory.");
    assert_eq!(chunk_report(12), "\tFound 12 chunk files in this directory.");
    assert_eq!(count_chunk_files(&names(&["chunk000", "info.json", "chunk001", "chunky", "x"])), 3);
    assert_eq!(count_chunk_files(&names(&["info.json"])), 0);
    assert_eq!(count_chunk_files(&Vec::new()), 0);
}

#[test]
fn the_exit_status_after_a_split() {
    assert_eq!(exit_status(Ok(())), 0);
    assert_eq!(exit_status(Err(ChunkError::NotFound)), 1);
    assert_eq!(exit_status(Err(ChunkError::AlreadyPopulated)), 1);
    assert_eq!(exit_status(Err(ChunkError::IoFailure)), 1);
    assert_eq!(exit_status(Err(ChunkError::MalformedMetadata)), 1);
}

#[test]
fn the_messages_of_the_errors() {
    assert_eq!(ChunkError::NotFound.message(), "File does not exist.");
    assert_eq!(ChunkError::AlreadyPopulated.message(), "Directory is not empty");
    assert_eq!(ChunkError::IoFailure.message(), "Input or output failed");
    assert_eq!(ChunkError::MalformedMetadata.message(), "File name record is malformed");
}
