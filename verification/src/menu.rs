//! A menu of labelled entries, shown in ascending order of their labels and
//! picked by number.

use vstd::prelude::*;
use vstd::string::*;
use crate::names::{decimal, decimal_text};
use crate::order::{lemma_name_le_is_total_order, name_le, sorts_before_or_equal};
use crate::selection::{parse_selection, selection};

verus! {

/// What an entry of a menu stands for; it decides how the entry is shown.
#[derive(Clone, Copy, Debug, PartialEq, Eq, Structural)]
pub enum EntryKind {
    /// A directory that can be entered.
    Directory,
    /// A set of chunks that is at hand.
    Chunk,
    /// Something that the program can do.
    Action,
    /// Leaving the program.
    Exit,
}

/// An entry of a menu.
pub struct MenuItem {
    pub label: Seq<char>,
    pub kind: EntryKind,
}

/// The labels ascend and no label stands twice.
pub open spec fn in_order(items: Seq<MenuItem>) -> bool {
    forall|i: int, j: int|
        0 <= i < j < items.len() ==> name_le(#[trigger] items[i].label, #[trigger] items[j].label)
            && items[i].label != items[j].label
}

/// Whether an entry has this label.
pub open spec fn has_label(items: Seq<MenuItem>, label: Seq<char>) -> bool {
    exists|i: int| 0 <= i < items.len() && (#[trigger] items[i]).label == label
}

/// The characters that switch the terminal to the colour of this kind of
/// entry; none for a directory, which is shown plain.
pub open spec fn colour_of(kind: EntryKind) -> Seq<char> {
    match kind {
        EntryKind::Directory => Seq::empty(),
        EntryKind::Chunk => "\x1b[92m"@,
        EntryKind::Action => "\x1b[94m"@,
        EntryKind::Exit => "\x1b[91m"@,
    }
}

/// The characters that switch the colour off again; none for a directory.
pub open spec fn reset_of(kind: EntryKind) -> Seq<char> {
    match kind {
        EntryKind::Directory => Seq::empty(),
        _ => "\x1b[0m"@,
    }
}

/// The line that shows an entry under the given number: the number, a full
/// stop, a blank and the label, in the colour of the entry's kind.
pub open spec fn menu_line(number: nat, item: MenuItem) -> Seq<char> {
    colour_of(item.kind) + decimal(number) + ". "@ + item.label + reset_of(item.kind)
}

/// Writes the line that shows an entry under the given number.
pub fn render_line(number: usize, label: &str, kind: EntryKind) -> (r: String)
    ensures
        r@ == menu_line(number as nat, MenuItem { label: label@, kind }),
{
    let mut line = match kind {
        EntryKind::Directory => String::new(),
        EntryKind::Chunk => String::from_str("\x1b[92m"),
        EntryKind::Action => String::from_str("\x1b[94m"),
        EntryKind::Exit => String::from_str("\x1b[91m"),
    };
    let digits = decimal_text(number);
    line.append(digits.as_str());
    line.append(". ");
    line.append(label);
    match kind {
        EntryKind::Directory => {
            assert(line@ =~= menu_line(number as nat, MenuItem { label: label@, kind }));
        },
        _ => {
            line.append("\x1b[0m");
        },
    }
    line
}

/// An entry of a menu, as it is held.
struct MenuEntry {
    label: String,
    kind: EntryKind,
}

impl View for MenuEntry {
    type V = MenuItem;

    closed spec fn view(&self) -> MenuItem {
        MenuItem { label: self.label@, kind: self.kind }
    }
}

/// The entries, each by its view.
spec fn items_of(entries: Seq<MenuEntry>) -> Seq<MenuItem> {
    Seq::new(entries.len(), |i: int| entries[i]@)
}

/// A menu: entries with distinct labels, in ascending order of the labels.
pub struct Menu {
    entries: Vec<MenuEntry>,
}

impl View for Menu {
    type V = Seq<MenuItem>;

    closed spec fn view(&self) -> Seq<MenuItem> {
        items_of(self.entries@)
    }
}

impl Menu {
    /// The labels ascend, and none stands twice.
    #[verifier::type_invariant]
    spec fn well_formed(self) -> bool {
        in_order(items_of(self.entries@))
    }

    /// A menu without entries.
    pub fn new() -> (r: Menu)
        ensures
            r@.len() == 0,
    {
        Menu { entries: Vec::new() }
    }

    /// The number of entries.
    pub fn len(&self) -> (r: usize)
        ensures
            r == self@.len(),
            in_order(self@),
    {
        proof {
            use_type_invariant(self);
        }
        self.entries.len()
    }

    /// The label of the entry at `index`, counted from zero.
    pub fn label(&self, index: usize) -> (r: Option<&str>)
        ensures
            r is Some <==> index < self@.len(),
            r matches Some(label) ==> label@ == self@[index as int].label,
    {
        if index < self.entries.len() {
            Some(self.entries[index].label.as_str())
        } else {
            None
        }
    }

    /// The kind of the entry at `index`, counted from zero.
    pub fn kind(&self, index: usize) -> (r: Option<EntryKind>)
        ensures
            r is Some <==> index < self@.len(),
            r matches Some(kind) ==> kind == self@[index as int].kind,
    {
        if index < self.entries.len() {
            Some(self.entries[index].kind)
        } else {
            None
        }
    }

    /// Puts an entry into the menu. An entry that has the same label is
    /// replaced; the others stay.
    pub fn insert(&mut self, label: String, kind: EntryKind)
        ensures
            in_order(final(self)@),
            final(self)@.len() == if has_label(old(self)@, label@) {
                old(self)@.len()
            } else {
                old(self)@.len() + 1
            },
            forall|item: MenuItem|
                final(self)@.contains(item) <==> item == (MenuItem { label: label@, kind }) || (old(
                    self,
                )@.contains(item) && item.label != label@),
    {
        proof {
            use_type_invariant(&*self);
        }
        let ghost before = self@;
        let ghost new_item = MenuItem { label: label@, kind };
        let ghost text = label@;
        let mut entries: Vec<MenuEntry> = Vec::new();
        core::mem::swap(&mut entries, &mut self.entries);
        assert(items_of(entries@) == before);
        let mut at: usize = 0;
        while at < entries.len() && sorts_before_or_equal(
            entries[at].label.as_str(),
            label.as_str(),
        )
            invariant
                at <= entries.len(),
                text == label@,
                forall|k: int| 0 <= k < at ==> name_le(#[trigger] entries[k].label@, text),
            decreases entries.len() - at,
        {
            at = at + 1;
        }
        proof {
            // Every entry from `at` on sorts behind the label, and of those
            // before it only the last can have it.
            assert forall|k: int| 0 <= k < before.len() implies if k < at {
                name_le(#[trigger] before[k].label, text) && (before[k].label == text ==> k == at
                    - 1)
            } else {
                name_le(text, before[k].label) && before[k].label != text
            } by {
                assert(before[k].label == entries[k].label@);
                if k < at {
                    if k < at - 1 {
                        assert(before[at - 1].label == entries[at - 1].label@);
                        lemma_name_le_is_total_order(before[k].label, before[at - 1].label, text);
                    }
                } else {
                    assert(before[at as int].label == entries[at as int].label@);
                    lemma_name_le_is_total_order(before[at as int].label, before[k].label, text);
                    lemma_name_le_is_total_order(text, before[at as int].label, before[k].label);
                }
            }
        }
        if at > 0 && entries[at - 1].label == label {
            entries.set(at - 1, MenuEntry { label, kind });
            proof {
                let after = items_of(entries@);
                assert(after[at - 1] == new_item);
                assert forall|i: int, j: int| 0 <= i < j < after.len() implies name_le(
                    #[trigger] after[i].label,
                    #[trigger] after[j].label,
                ) && after[i].label != after[j].label by {
                    assert(after[i].label == before[i].label);
                    assert(after[j].label == before[j].label);
                }
                assert forall|item: MenuItem| after.contains(item) <==> item == new_item || (
                before.contains(item) && item.label != text) by {
                    if after.contains(item) {
                        let k = choose|k: int| 0 <= k < after.len() && after[k] == item;
                        if k != at - 1 {
                            assert(before[k] == item);
                        }
                    }
                    if before.contains(item) && item.label != text {
                        let k = choose|k: int| 0 <= k < before.len() && before[k] == item;
                        assert(after[k] == item);
                    }
                }
            }
        } else {
            entries.insert(at, MenuEntry { label, kind });
            proof {
                let after = items_of(entries@);
                assert(after[at as int] == new_item);
                assert forall|k: int| 0 <= k < after.len() && k != at implies #[trigger] after[k]
                    == before[if k < at {
                    k
                } else {
                    k - 1
                }] by {}
                assert forall|i: int, j: int| 0 <= i < j < after.len() implies name_le(
                    #[trigger] after[i].label,
                    #[trigger] after[j].label,
                ) && after[i].label != after[j].label by {
                    if i != at {
                        assert(after[i] == before[if i < at {
                            i
                        } else {
                            i - 1
                        }]);
                    }
                    if j != at {
                        assert(after[j] == before[if j < at {
                            j
                        } else {
                            j - 1
                        }]);
                    }
                }
                assert forall|item: MenuItem| after.contains(item) <==> item == new_item || (
                before.contains(item) && item.label != text) by {
                    if after.contains(item) {
                        let k = choose|k: int| 0 <= k < after.len() && after[k] == item;
                        if k < at {
                            assert(before[k] == item);
                        } else if k > at {
                            assert(before[k - 1] == item);
                        }
                    }
                    if before.contains(item) && item.label != text {
                        let k = choose|k: int| 0 <= k < before.len() && before[k] == item;
                        if k < at {
                            assert(after[k] == item);
                        } else {
                            assert(after[k + 1] == item);
                        }
                    }
                }
            }
        }
        core::mem::swap(&mut entries, &mut self.entries);
    }

    /// The line that shows the entry at `index`, under the number
    /// `index + 1`.
    pub fn line(&self, index: usize) -> (r: Option<String>)
        ensures
            r is Some <==> index < self@.len(),
            r matches Some(line) ==> line@ == menu_line((index + 1) as nat, self@[index as int]),
    {
        if index < self.entries.len() {
            let entry = &self.entries[index];
            Some(render_line(index + 1, entry.label.as_str(), entry.kind))
        } else {
            None
        }
    }

    /// The lines that show the menu, one for each entry, numbered from 1.
    pub fn lines(&self) -> (r: Vec<String>)
        ensures
            r@.len() == self@.len(),
            forall|i: int|
                0 <= i < self@.len() ==> (#[trigger] r@[i])@ == menu_line(
                    (i + 1) as nat,
                    self@[i],
                ),
    {
        let mut lines: Vec<String> = Vec::new();
        let mut index: usize = 0;
        while index < self.entries.len()
            invariant
                index <= self.entries@.len(),
                lines@.len() == index,
                forall|i: int|
                    0 <= i < index ==> (#[trigger] lines@[i])@ == menu_line(
                        (i + 1) as nat,
                        self@[i],
                    ),
            decreases self.entries@.len() - index,
        {
            let entry = &self.entries[index];
            lines.push(render_line(index + 1, entry.label.as_str(), entry.kind));
            index = index + 1;
        }
        lines
    }

    /// The label of the entry that the line `response` picks, or `None`
    /// where it picks none: the line must spell the number of an entry.
    pub fn pick(&self, response: &str) -> (r: Option<String>)
        ensures
            r is Some <==> selection(response@, self@.len()) is Some,
            r matches Some(label) ==> label@ == self@[selection(
                response@,
                self@.len(),
            ).unwrap() as int].label,
    {
        match parse_selection(response, self.entries.len()) {
            Some(index) => Some(self.entries[index].label.clone()),
            None => None,
        }
    }
}

} // verus!
