//! The chunk files among the entries of a directory, in the order in which
//! they are put back together.

use vstd::prelude::*;
use vstd::string::*;
use vstd::utf8::*;
use vstd::relations::*;
use crate::names::{
    chunk_name, decimal, digit_char, has_chunk_tag, is_chunk_name, zero_padded, CHUNK_TAG,
};
use crate::order::{
    ascending, insert_ascending, lemma_first_difference_decides, lemma_name_order_total, name_le,
    name_lt, name_order,
};

verus! {

/// The largest number of chunk files whose names sort in index order.
pub const ORDERED_CHUNKS: usize = 1000;

/// The names of the first `count` chunk files, by index.
pub open spec fn chunk_names(count: nat) -> Seq<Seq<char>> {
    Seq::new(count, |i: int| chunk_name(i as nat))
}

/// What makes an entry a chunk file, as a predicate on names.
pub open spec fn chunk_filter() -> spec_fn(Seq<char>) -> bool {
    |name: Seq<char>| is_chunk_name(name)
}

/// The chunk files among `entries`, in the order in which they are read:
/// ascending by name.
pub open spec fn chunk_file_order(entries: Seq<Seq<char>>) -> Seq<Seq<char>> {
    entries.filter(chunk_filter()).sort_by(name_order())
}

/// Picks the chunk files out of a directory's entries and sorts them by name.
pub fn chunk_files(entries: &Vec<String>) -> (r: Vec<String>)
    ensures
        r.deep_view() == chunk_file_order(entries.deep_view()),
{
    let ghost all = entries.deep_view();
    let mut found: Vec<String> = Vec::new();
    let mut i: usize = 0;
    assert(all.take(0).filter(chunk_filter()) =~= Seq::<Seq<char>>::empty()) by {
        reveal(Seq::filter);
    }
    assert(found.deep_view() =~= Seq::<Seq<char>>::empty());
    while i < entries.len()
        invariant
            i <= entries.len(),
            all == entries.deep_view(),
            ascending(found.deep_view()),
            found.deep_view().to_multiset() == all.take(i as int).filter(
                chunk_filter(),
            ).to_multiset(),
        decreases entries.len() - i,
    {
        let ghost before = found.deep_view();
        proof {
            reveal(Seq::filter);
            assert(all.take(i as int + 1).drop_last() =~= all.take(i as int));
            assert(all.take(i as int + 1).last() == entries[i as int]@);
        }
        if has_chunk_tag(entries[i].as_str()) {
            let at = insert_ascending(&mut found, entries[i].clone());
            proof {
                vstd::seq_lib::to_multiset_insert(before, at as int, entries[i as int]@);
                vstd::seq_lib::to_multiset_build(
                    all.take(i as int).filter(chunk_filter()),
                    entries[i as int]@,
                );
            }
        }
        i = i + 1;
    }
    proof {
        assert(all.take(i as int) =~= all);
        let picked = all.filter(chunk_filter());
        lemma_name_order_total();
        picked.lemma_sort_by_ensures(name_order());
        vstd::seq_lib::lemma_sorted_unique(
            found.deep_view(),
            picked.sort_by(name_order()),
            name_order(),
        );
    }
    found
}

/// An index below a thousand is written as its three digits.
pub proof fn lemma_three_digits(n: nat)
    requires
        n < 1000,
    ensures
        zero_padded(n, 3) == seq![
            digit_char((n / 100) as int),
            digit_char((n / 10 % 10) as int),
            digit_char((n % 10) as int),
        ],
{
    reveal_with_fuel(decimal, 3);
    assert(zero_padded(n, 3) =~= seq![
        digit_char((n / 100) as int),
        digit_char((n / 10 % 10) as int),
        digit_char((n % 10) as int),
    ]);
}

/// The bytes of the name of a chunk file with an index below a thousand.
proof fn lemma_short_chunk_name_bytes(n: nat)
    requires
        n < 1000,
    ensures
        encode_utf8(chunk_name(n)).len() == 8,
        encode_utf8(chunk_name(n)).subrange(0, 5) == encode_utf8(chunk_name(0)).subrange(0, 5),
        encode_utf8(chunk_name(n))[5] == 48 + n / 100,
        encode_utf8(chunk_name(n))[6] == 48 + n / 10 % 10,
        encode_utf8(chunk_name(n))[7] == 48 + n % 10,
{
    reveal_strlit("chunk");
    lemma_three_digits(n);
    lemma_three_digits(0);
    let name = chunk_name(n);
    let first = chunk_name(0);
    assert(name.len() == 8);
    assert(first.len() == 8);
    assert(is_ascii_chars(name));
    assert(is_ascii_chars(first));
    is_ascii_chars_encode_utf8(name);
    is_ascii_chars_encode_utf8(first);
    assert forall|k: int| 0 <= k < 5 implies encode_utf8(name)[k] == encode_utf8(first)[k] by {
        assert(name[k] == CHUNK_TAG@[k]);
        assert(first[k] == CHUNK_TAG@[k]);
    }
    assert(encode_utf8(name).subrange(0, 5) =~= encode_utf8(first).subrange(0, 5));
    assert(encode_utf8(name)[5] == name[5] as u8);
    assert(encode_utf8(name)[6] == name[6] as u8);
    assert(encode_utf8(name)[7] == name[7] as u8);
}

/// Among the first thousand chunk files, the one with the smaller index has
/// the name that sorts first.
pub proof fn lemma_chunk_names_ascend(i: nat, j: nat)
    requires
        i < j,
        j < ORDERED_CHUNKS,
    ensures
        name_lt(chunk_name(i), chunk_name(j)),
        !name_le(chunk_name(j), chunk_name(i)),
{
    lemma_short_chunk_name_bytes(i);
    lemma_short_chunk_name_bytes(j);
    let a = encode_utf8(chunk_name(i));
    let b = encode_utf8(chunk_name(j));
    assert forall|k: int| 0 <= k < 5 implies a[k] == b[k] by {
        assert(a[k] == a.subrange(0, 5)[k]);
        assert(b[k] == b.subrange(0, 5)[k]);
    }
    let at: int = if i / 100 != j / 100 {
        5
    } else if i / 10 % 10 != j / 10 % 10 {
        6
    } else {
        7
    };
    lemma_first_difference_decides(a, b, at);
}

/// The names of up to a thousand chunk files ascend with the index.
pub proof fn lemma_chunk_names_ascending(count: nat)
    requires
        count <= ORDERED_CHUNKS,
    ensures
        ascending(chunk_names(count)),
{
    let names = chunk_names(count);
    assert forall|p: int, q: int| 0 <= p < q < names.len() implies #[trigger] name_order()(
        names[p],
        names[q],
    ) by {
        lemma_chunk_names_ascend(p as nat, q as nat);
    }
}

/// Sorting by name puts up to a thousand chunk files back in the order of
/// their indices, in whatever order the directory lists its entries and
/// whatever else it holds.
pub proof fn lemma_listing_sorts_to_index_order(entries: Seq<Seq<char>>, count: nat)
    requires
        count <= ORDERED_CHUNKS,
        entries.filter(chunk_filter()).to_multiset() == chunk_names(count).to_multiset(),
    ensures
        chunk_file_order(entries) == chunk_names(count),
{
    let picked = entries.filter(chunk_filter());
    lemma_name_order_total();
    picked.lemma_sort_by_ensures(name_order());
    lemma_chunk_names_ascending(count);
    vstd::seq_lib::lemma_sorted_unique(
        picked.sort_by(name_order()),
        chunk_names(count),
        name_order(),
    );
}

/// The limit of the three-digit index: the chunk file with index 1000 sorts
/// before the one with index 101, so the names of more than a thousand chunk
/// files do not ascend with the index, and sorting them by name does not
/// give the order in which they were written.
pub proof fn lemma_order_breaks_past_a_thousand(count: nat)
    requires
        count > ORDERED_CHUNKS,
    ensures
        name_lt(chunk_name(1000), chunk_name(101)),
        !ascending(chunk_names(count)),
{
    reveal_strlit("chunk");
    reveal_with_fuel(decimal, 4);
    lemma_three_digits(101);
    let early = chunk_name(101);
    let late = chunk_name(1000);
    assert(late =~= CHUNK_TAG@ + seq!['1', '0', '0', '0']);
    assert(early.len() == 8);
    assert(late.len() == 9);
    assert(is_ascii_chars(early));
    assert(is_ascii_chars(late));
    is_ascii_chars_encode_utf8(early);
    is_ascii_chars_encode_utf8(late);
    let a = encode_utf8(late);
    let b = encode_utf8(early);
    assert forall|k: int| 0 <= k < 7 implies a[k] == b[k] by {
        assert(a[k] == late[k] as u8);
        assert(b[k] == early[k] as u8);
    }
    assert(a[7] == late[7] as u8);
    assert(b[7] == early[7] as u8);
    lemma_first_difference_decides(a, b, 7);
    let names = chunk_names(count);
    assert(names[101] == early);
    assert(names[1000] == late);
    assert(!name_order()(names[101], names[1000]));
}

} // verus!
