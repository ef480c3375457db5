//! Splitting a file into fixed-size chunks kept in a directory, and putting
//! the chunks back together.
//!
//! The library holds every decision of the two operations and of the menu
//! that drives them, and proves what they come to. It touches no file:
//! the caller reads and writes, reports what happened, and is told what to do
//! next.
//!
//! - [`split`] is the machine that leads a split; [`world`] states what it
//!   does to the source and the target directory, and [`chunks`] which bytes
//!   each chunk holds.
//! - [`reconstruct`] plans the rebuilding of a file: [`metadata`] reads and
//!   writes the record of the file's name, [`listing`] picks the chunk files
//!   and puts them in order, by the names of [`names`] and the order of
//!   [`order`].
//! - [`roundtrip`] shows that a file that is split and rebuilt comes back as
//!   it was.
//! - [`menu`], [`selection`] and [`shell`] are the interactive side: menus,
//!   the reading of a choice, and what a choice means.

pub mod chunks;
pub mod error;
pub mod listing;
pub mod menu;
pub mod metadata;
pub mod names;
pub mod order;
pub mod reconstruct;
pub mod roundtrip;
pub mod selection;
pub mod shell;
pub mod split;
pub mod world;
