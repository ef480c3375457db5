//! Rebuilding the file that was split from a chunk directory: under which
//! name, and from which files in which order.

use vstd::prelude::*;
use vstd::utf8::*;
use crate::listing::{chunk_file_order, chunk_files};
use crate::metadata::{output_name, output_name_of, record_view};
use crate::names::METADATA_FILE;
use crate::world::Files;

verus! {

/// What rebuilding a file comes to.
pub struct Reconstruction {
    /// The name of the file to create, or to overwrite, in the directory.
    pub output_name: String,
    /// The files whose contents make up the output file, in this order.
    pub chunks: Vec<String>,
}

/// Plans the rebuilding of a file from a chunk directory.
///
/// `record` is the text of the directory's record, or `None` where the record
/// is missing or cannot be read as text; `entries` are the names in the
/// directory, in any order. The output file takes the recorded name, or the
/// default one. It is made of the entries that are chunk files, in ascending
/// order of their names.
pub fn plan_reconstruction(record: Option<&str>, entries: &Vec<String>) -> (r: Reconstruction)
    ensures
        r.output_name@ == output_name_of(record_view(record)),
        r.chunks.deep_view() == chunk_file_order(entries.deep_view()),
{
    Reconstruction { output_name: output_name(record), chunks: chunk_files(entries) }
}

/// The text of the record that a directory holds, where it holds one that is
/// text.
pub open spec fn record_in(files: Files) -> Option<Seq<char>> {
    if files.contains_key(METADATA_FILE@) && valid_utf8(files[METADATA_FILE@]) {
        Some(decode_utf8(files[METADATA_FILE@]))
    } else {
        None
    }
}

/// The contents of the named files, one after the other.
pub open spec fn joined(files: Files, names: Seq<Seq<char>>) -> Seq<u8> {
    names.map_values(|name: Seq<char>| files[name]).flatten()
}

/// The file that is rebuilt from the directory `files`, whose entries are
/// listed as `listing`: its name and its contents. Where the output file is
/// one of the chunk files, creating it destroys a chunk before that chunk is
/// read, and nothing is said of what comes out.
pub open spec fn rebuilt(files: Files, listing: Seq<Seq<char>>) -> Option<(Seq<char>, Seq<u8>)> {
    let name = output_name_of(record_in(files));
    let chunks = chunk_file_order(listing);
    if chunks.contains(name) {
        None
    } else {
        Some((name, joined(files, chunks)))
    }
}

} // verus!
