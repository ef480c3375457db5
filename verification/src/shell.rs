//! What the interactive shell decides: which menus it shows and what a
//! choice from them means.

use vstd::prelude::*;
use vstd::string::*;
use crate::error::ChunkError;
use crate::listing::chunk_filter;
use crate::menu::{in_order, EntryKind, Menu, MenuItem};
use crate::order::{lemma_first_character_decides, name_le};
use crate::names::{decimal, decimal_text, has_chunk_tag};

verus! {

/// The label of the entry that rebuilds a file, in the first menu.
pub const RECONSTRUCT_FILE: &'static str = "Reconstruct file";

/// The label of the entry that splits a file.
pub const SPLIT_FILE: &'static str = "Split file";

/// The label of the entry that leaves the program.
pub const EXIT: &'static str = "Exit";

/// The label of the entry that rebuilds from the directory shown.
pub const RECONSTRUCT: &'static str = "Reconstruct";

/// Whether two texts are the same.
pub fn same_text(a: &str, b: &str) -> (r: bool)
    ensures
        r == (a@ == b@),
{
    String::from_str(a) == String::from_str(b)
}

/// The entries of the first menu, as they are shown.
pub open spec fn main_entries() -> Seq<MenuItem> {
    seq![
        MenuItem { label: EXIT@, kind: EntryKind::Exit },
        MenuItem { label: RECONSTRUCT_FILE@, kind: EntryKind::Action },
        MenuItem { label: SPLIT_FILE@, kind: EntryKind::Action },
    ]
}

/// The first menu: rebuild a file, split a file, or leave.
pub fn main_menu() -> (r: Menu)
    ensures
        r@ == main_entries(),
{
    proof {
        reveal_strlit("Reconstruct file");
        reveal_strlit("Split file");
        reveal_strlit("Exit");
    }
    let mut menu = Menu::new();
    menu.insert(String::from_str(RECONSTRUCT_FILE), EntryKind::Action);
    proof {
        let shown = menu@;
        assert(RECONSTRUCT_FILE@[0] != SPLIT_FILE@[0]);
        assert forall|i: int| 0 <= i < shown.len() implies (#[trigger] shown[i]).label
            != SPLIT_FILE@ by {
            assert(shown.contains(shown[i]));
        }
    }
    menu.insert(String::from_str(SPLIT_FILE), EntryKind::Action);
    proof {
        let shown = menu@;
        assert(EXIT@[0] != SPLIT_FILE@[0]);
        assert(EXIT@[0] != RECONSTRUCT_FILE@[0]);
        assert forall|i: int| 0 <= i < shown.len() implies (#[trigger] shown[i]).label
            != EXIT@ by {
            assert(shown.contains(shown[i]));
        }
    }
    menu.insert(String::from_str(EXIT), EntryKind::Exit);
    proof {
        let shown = menu@;
        let leave = MenuItem { label: EXIT@, kind: EntryKind::Exit };
        let rebuild = MenuItem { label: RECONSTRUCT_FILE@, kind: EntryKind::Action };
        let split = MenuItem { label: SPLIT_FILE@, kind: EntryKind::Action };
        lemma_first_character_decides(EXIT@, RECONSTRUCT_FILE@);
        lemma_first_character_decides(EXIT@, SPLIT_FILE@);
        lemma_first_character_decides(RECONSTRUCT_FILE@, SPLIT_FILE@);
        assert(shown.contains(leave));
        assert(shown.contains(rebuild));
        assert(shown.contains(split));
        let i = choose|i: int| 0 <= i < shown.len() && shown[i] == leave;
        let j = choose|j: int| 0 <= j < shown.len() && shown[j] == rebuild;
        let k = choose|k: int| 0 <= k < shown.len() && shown[k] == split;
        assert(shown[i].label == EXIT@ && shown[j].label == RECONSTRUCT_FILE@ && shown[k].label
            == SPLIT_FILE@);
        if j < i {
            assert(name_le(shown[j].label, shown[i].label));
        }
        if k < j {
            assert(name_le(shown[k].label, shown[j].label));
        }
        assert(i < j && j < k);
        assert(shown =~= main_entries());
    }
    menu
}

/// Whether `item` is an entry of the menu of a directory with these
/// subdirectories: one of the two fixed entries, or a subdirectory whose name
/// is the label of neither.
pub open spec fn is_directory_entry(subdirectories: Seq<Seq<char>>, item: MenuItem) -> bool {
    ||| item == (MenuItem { label: RECONSTRUCT@, kind: EntryKind::Action })
    ||| item == (MenuItem { label: EXIT@, kind: EntryKind::Exit })
    ||| {
        &&& item.kind == EntryKind::Directory
        &&& subdirectories.contains(item.label)
        &&& item.label != RECONSTRUCT@
        &&& item.label != EXIT@
    }
}

/// The menu of a directory: its subdirectories, to enter one, and the
/// entries that rebuild from this directory and that leave the program.
pub fn directory_menu(subdirectories: &Vec<String>) -> (r: Menu)
    ensures
        in_order(r@),
        forall|item: MenuItem|
            r@.contains(item) <==> is_directory_entry(subdirectories.deep_view(), item),
{
    let ghost names = subdirectories.deep_view();
    let mut menu = Menu::new();
    let mut i: usize = 0;
    while i < subdirectories.len()
        invariant
            i <= subdirectories.len(),
            names == subdirectories.deep_view(),
            forall|item: MenuItem|
                menu@.contains(item) <==> item.kind == EntryKind::Directory && names.take(
                    i as int,
                ).contains(item.label),
        decreases subdirectories.len() - i,
    {
        let ghost before = menu@;
        let ghost name = names[i as int];
        menu.insert(subdirectories[i].clone(), EntryKind::Directory);
        proof {
            let more = names.take(i as int + 1);
            let seen = names.take(i as int);
            assert(more[i as int] == name);
            assert forall|item: MenuItem| menu@.contains(item) <==> item.kind
                == EntryKind::Directory && more.contains(item.label) by {
                if seen.contains(item.label) {
                    let k = choose|k: int| 0 <= k < seen.len() && seen[k] == item.label;
                    assert(more[k] == item.label);
                }
                if more.contains(item.label) && item.label != name {
                    let k = choose|k: int| 0 <= k < more.len() && more[k] == item.label;
                    assert(seen[k] == item.label);
                }
            }
        }
        i = i + 1;
    }
    assert(names.take(i as int) =~= names);
    proof {
        reveal_strlit("Reconstruct");
        reveal_strlit("Exit");
        assert(RECONSTRUCT@[0] != EXIT@[0]);
    }
    menu.insert(String::from_str(RECONSTRUCT), EntryKind::Action);
    menu.insert(String::from_str(EXIT), EntryKind::Exit);
    menu
}

/// What a choice from the first menu asks for.
#[derive(Clone, Copy, Debug, PartialEq, Eq, Structural)]
pub enum MainChoice {
    Reconstruct,
    Split,
    Exit,
    /// The label is none of the menu's.
    Nothing,
}

/// What the label chosen from the first menu asks for.
pub open spec fn main_choice_of(label: Seq<char>) -> MainChoice {
    if label == RECONSTRUCT_FILE@ {
        MainChoice::Reconstruct
    } else if label == SPLIT_FILE@ {
        MainChoice::Split
    } else if label == EXIT@ {
        MainChoice::Exit
    } else {
        MainChoice::Nothing
    }
}

/// What the label chosen from the first menu asks for.
pub fn main_choice(label: &str) -> (r: MainChoice)
    ensures
        r == main_choice_of(label@),
{
    if same_text(label, RECONSTRUCT_FILE) {
        MainChoice::Reconstruct
    } else if same_text(label, SPLIT_FILE) {
        MainChoice::Split
    } else if same_text(label, EXIT) {
        MainChoice::Exit
    } else {
        MainChoice::Nothing
    }
}

/// What a choice from the menu of a directory asks for.
#[derive(Clone, Copy, Debug, PartialEq, Eq, Structural)]
pub enum DirectoryChoice {
    /// Rebuild the file from the directory shown.
    Reconstruct,
    /// Leave the program.
    Exit,
    /// Go into the subdirectory that has the chosen label as its name.
    Enter,
}

/// What the label chosen from the menu of a directory asks for.
pub open spec fn directory_choice_of(label: Seq<char>) -> DirectoryChoice {
    if label == RECONSTRUCT@ {
        DirectoryChoice::Reconstruct
    } else if label == EXIT@ {
        DirectoryChoice::Exit
    } else {
        DirectoryChoice::Enter
    }
}

/// What the label chosen from the menu of a directory asks for.
pub fn directory_choice(label: &str) -> (r: DirectoryChoice)
    ensures
        r == directory_choice_of(label@),
{
    if same_text(label, RECONSTRUCT) {
        DirectoryChoice::Reconstruct
    } else if same_text(label, EXIT) {
        DirectoryChoice::Exit
    } else {
        DirectoryChoice::Enter
    }
}

/// Counts the chunk files among the entries of a directory.
pub fn count_chunk_files(entries: &Vec<String>) -> (r: usize)
    ensures
        r == entries.deep_view().filter(chunk_filter()).len(),
{
    let ghost all = entries.deep_view();
    let mut count: usize = 0;
    let mut i: usize = 0;
    assert(all.take(0).filter(chunk_filter()).len() == 0) by {
        reveal(Seq::filter);
    }
    while i < entries.len()
        invariant
            i <= entries.len(),
            all == entries.deep_view(),
            count <= i,
            count == all.take(i as int).filter(chunk_filter()).len(),
        decreases entries.len() - i,
    {
        proof {
            reveal(Seq::filter);
            assert(all.take(i as int + 1).drop_last() =~= all.take(i as int));
            assert(all.take(i as int + 1).last() == entries[i as int]@);
        }
        if has_chunk_tag(entries[i].as_str()) {
            count = count + 1;
        }
        i = i + 1;
    }
    assert(all.take(i as int) =~= all);
    count
}

/// What the shell says of the chunk files in the directory shown.
pub open spec fn chunk_report_of(count: nat) -> Seq<char> {
    if count == 0 {
        "\tNo chunk files found in this directory."@
    } else {
        "\tFound "@ + decimal(count) + " chunk files in this directory."@
    }
}

/// What the shell says of the chunk files in the directory shown.
pub fn chunk_report(count: usize) -> (r: String)
    ensures
        r@ == chunk_report_of(count as nat),
{
    if count == 0 {
        String::from_str("\tNo chunk files found in this directory.")
    } else {
        let mut report = String::from_str("\tFound ");
        let digits = decimal_text(count);
        report.append(digits.as_str());
        report.append(" chunk files in this directory.");
        report
    }
}

/// The status with which the program ends after a split: 0 where the file
/// was split, 1 where splitting failed.
pub fn exit_status(outcome: Result<(), ChunkError>) -> (r: i32)
    ensures
        r == if outcome is Ok {
            0i32
        } else {
            1i32
        },
{
    match outcome {
        Ok(_) => 0,
        Err(_) => 1,
    }
}

} // verus!
