//! Splitting a file and rebuilding it gives the file back.

use vstd::prelude::*;
use vstd::seq_lib::to_multiset_contains;
use vstd::utf8::*;
use crate::chunks::{chunk_count, chunks_of, lemma_chunks_join_to_data};
use crate::listing::{
    chunk_filter, chunk_names, lemma_chunk_names_ascend,
    lemma_listing_sorts_to_index_order, ORDERED_CHUNKS,
};
use crate::metadata::recorded_name;
use crate::names::{is_chunk_name, METADATA_FILE};
use crate::reconstruct::{rebuilt, record_in};
use crate::split::{SplitEvent, SplitState};
use crate::world::{
    lemma_chunk_directory_holds, lemma_names_apart, lemma_split_leaves_chunks, run,
    split_directory, truthful, SplitWorld,
};

verus! {

/// Filtering keeps a sequence free of duplicates, and keeps exactly the
/// elements that pass.
proof fn lemma_filter_of_distinct<A>(s: Seq<A>, pred: spec_fn(A) -> bool)
    requires
        s.no_duplicates(),
    ensures
        s.filter(pred).no_duplicates(),
        forall|x: A| s.filter(pred).contains(x) <==> s.contains(x) && pred(x),
    decreases s.len(),
{
    reveal(Seq::filter);
    if s.len() > 0 {
        let front = s.drop_last();
        lemma_filter_of_distinct(front, pred);
        let kept = front.filter(pred);
        assert forall|x: A| s.contains(x) <==> front.contains(x) || x == s.last() by {
            if front.contains(x) {
                let i = choose|i: int| 0 <= i < front.len() && front[i] == x;
                assert(s[i] == x);
            }
            if s.contains(x) {
                let i = choose|i: int| 0 <= i < s.len() && s[i] == x;
                if i < front.len() {
                    assert(front[i] == x);
                }
            }
            assert(s[s.len() - 1] == s.last());
        }
        if pred(s.last()) {
            let all = kept.push(s.last());
            assert(!front.contains(s.last())) by {
                if front.contains(s.last()) {
                    let i = choose|i: int| 0 <= i < front.len() && front[i] == s.last();
                    assert(s[i] == s[s.len() - 1]);
                }
            }
            assert forall|x: A| all.contains(x) <==> kept.contains(x) || x == s.last() by {
                if kept.contains(x) {
                    let i = choose|i: int| 0 <= i < kept.len() && kept[i] == x;
                    assert(all[i] == x);
                }
                if all.contains(x) {
                    let i = choose|i: int| 0 <= i < all.len() && all[i] == x;
                    if i < kept.len() {
                        assert(kept[i] == x);
                    }
                }
                assert(all[all.len() - 1] == s.last());
            }
            assert forall|i: int, j: int| 0 <= i < all.len() && 0 <= j < all.len() && i
                != j implies all[i] != all[j] by {
                if i < kept.len() && j < kept.len() {
                } else if i < kept.len() {
                    assert(kept.contains(kept[i]));
                } else {
                    assert(kept.contains(kept[j]));
                }
            }
        }
    }
}

/// Two sequences without duplicates that hold the same elements hold them
/// equally often.
proof fn lemma_same_elements<A>(a: Seq<A>, b: Seq<A>)
    requires
        a.no_duplicates(),
        b.no_duplicates(),
        forall|x: A| a.contains(x) <==> b.contains(x),
    ensures
        a.to_multiset() == b.to_multiset(),
{
    a.lemma_multiset_has_no_duplicates();
    b.lemma_multiset_has_no_duplicates();
    assert forall|x: A| a.to_multiset().count(x) == b.to_multiset().count(x) by {
        to_multiset_contains(a, x);
        to_multiset_contains(b, x);
    }
    assert(a.to_multiset() =~= b.to_multiset());
}

/// Splitting a file and rebuilding it from the directory that the split left
/// gives a file of the same name and the same bytes.
///
/// `text` is the record written for `name`, and `listing` the directory's
/// entries, each once, in whatever order the directory gives them. The file
/// has at most a thousand chunks, the most that sort in the order of their
/// indices, and its name is not that of one of its chunk files, which the
/// output would overwrite.
pub proof fn lemma_round_trip(
    name: Seq<char>,
    text: Seq<char>,
    data: Seq<u8>,
    size: nat,
    listing: Seq<Seq<char>>,
)
    requires
        size > 0,
        chunk_count(data.len(), size) <= ORDERED_CHUNKS,
        !chunk_names(chunk_count(data.len(), size)).contains(name),
        recorded_name(text) == Some(name),
        listing.no_duplicates(),
        forall|entry: Seq<char>|
            listing.contains(entry) <==> split_directory(
                encode_utf8(text),
                data,
                size,
            ).contains_key(entry),
    ensures
        rebuilt(split_directory(encode_utf8(text), data, size), listing) == Some((name, data)),
{
    let count = chunk_count(data.len(), size);
    let files = split_directory(encode_utf8(text), data, size);
    let names = chunk_names(count);
    lemma_chunk_directory_holds(encode_utf8(text), data, size, count);
    // The record reads back as the text that was written.
    encode_utf8_valid_utf8(text);
    encode_utf8_decode_utf8(text);
    assert(record_in(files) == Some(text));
    // The chunk files among the entries are the chunks, each once.
    let picked = listing.filter(chunk_filter());
    lemma_filter_of_distinct(listing, chunk_filter());
    assert(names.no_duplicates()) by {
        assert forall|i: int, j: int| 0 <= i < names.len() && 0 <= j < names.len() && i
            != j implies names[i] != names[j] by {
            if i < j {
                lemma_chunk_names_ascend(i as nat, j as nat);
            } else {
                lemma_chunk_names_ascend(j as nat, i as nat);
            }
        }
    }
    assert forall|x: Seq<char>| picked.contains(x) <==> names.contains(x) by {
        lemma_names_apart(0);
        assert(picked.contains(x) <==> listing.contains(x) && chunk_filter()(x));
        assert(listing.contains(x) <==> files.contains_key(x));
        assert(files.contains_key(x) <==> x == METADATA_FILE@ || names.contains(x));
        if names.contains(x) {
            let i = choose|i: int| 0 <= i < names.len() && names[i] == x;
            lemma_names_apart(i as nat);
            assert(is_chunk_name(x));
        }
    }
    lemma_same_elements(picked, names);
    lemma_listing_sorts_to_index_order(listing, count);
    // Their contents, in that order, are the file.
    assert(names.map_values(|name: Seq<char>| files[name]) =~= chunks_of(data, size));
    lemma_chunks_join_to_data(data, size);
}

/// A split that runs to its end, and a rebuild from the directory that it
/// leaves, give back the file: its name and its bytes.
///
/// The caller writes `text`, the record for `name`, when the machine asks for
/// the record, answers every request truthfully, and lists the directory as
/// `listing` for the rebuild. The file has at most a thousand chunks and its
/// name is not that of one of its chunk files.
pub proof fn lemma_split_then_rebuild(
    chunk_size: usize,
    world: SplitWorld,
    events: Seq<SplitEvent>,
    name: Seq<char>,
    text: Seq<char>,
    data: Seq<u8>,
    listing: Seq<Seq<char>>,
)
    requires
        chunk_size > 0,
        world.source == Some(data),
        world.position == 0,
        world.buffer.len() == chunk_size,
        world.target_is_empty(),
        world.record == encode_utf8(text),
        recorded_name(text) == Some(name),
        truthful(SplitState::initial(chunk_size), world, events),
        run(SplitState::initial(chunk_size), world, events).0.stage is Done,
        chunk_count(data.len(), chunk_size as nat) <= ORDERED_CHUNKS,
        !chunk_names(chunk_count(data.len(), chunk_size as nat)).contains(name),
        listing.no_duplicates(),
        forall|entry: Seq<char>|
            listing.contains(entry) <==> run(
                SplitState::initial(chunk_size),
                world,
                events,
            ).1.files().contains_key(entry),
    ensures
        rebuilt(run(SplitState::initial(chunk_size), world, events).1.files(), listing) == Some(
            (name, data),
        ),
{
    lemma_split_leaves_chunks(chunk_size, world, data, events);
    lemma_round_trip(name, text, data, chunk_size as nat, listing);
}

} // verus!
