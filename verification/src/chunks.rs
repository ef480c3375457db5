//! How a file is cut into chunks: which bytes each chunk holds.

use vstd::prelude::*;
use vstd::arithmetic::div_mod::{lemma_fundamental_div_mod, lemma_fundamental_div_mod_converse};
use vstd::arithmetic::mul::lemma_mul_is_distributive_add;

verus! {

/// The number of chunks of `size` bytes that a file of `len` bytes is cut
/// into: `len / size`, rounded up.
pub open spec fn chunk_count(len: nat, size: nat) -> nat {
    if len % size == 0 {
        len / size
    } else {
        len / size + 1
    }
}

/// The length of the chunk with the given index: `size`, but for a last
/// chunk that holds the remainder.
pub open spec fn chunk_len(len: nat, size: nat, index: nat) -> nat {
    if index < len / size {
        size
    } else {
        len % size
    }
}

/// The chunk of `data` with the given index.
pub open spec fn chunk_of(data: Seq<u8>, size: nat, index: nat) -> Seq<u8> {
    data.subrange(
        (index * size) as int,
        (index * size + chunk_len(data.len(), size, index)) as int,
    )
}

/// The chunks of `data`, by index.
pub open spec fn chunks_of(data: Seq<u8>, size: nat) -> Seq<Seq<u8>> {
    Seq::new(chunk_count(data.len(), size), |i: int| chunk_of(data, size, i as nat))
}

/// A chunk lies inside the file, and only a last chunk is shorter than `size`.
pub proof fn lemma_chunk_bounds(len: nat, size: nat, index: nat)
    requires
        size > 0,
        index < chunk_count(len, size),
    ensures
        0 < chunk_len(len, size, index) <= size,
        index * size + chunk_len(len, size, index) <= len,
        index + 1 < chunk_count(len, size) ==> chunk_len(len, size, index) == size,
        index + 1 == chunk_count(len, size) ==> index * size + chunk_len(len, size, index) == len,
{
    lemma_fundamental_div_mod(len as int, size as int);
    let q = len / size;
    assert(size * q == q * size) by (nonlinear_arith);
    if index < q {
        assert(index * size + size <= q * size) by (nonlinear_arith)
            requires
                index < q,
        ;
        if index + 1 == chunk_count(len, size) {
            assert(index * size + size == q * size) by (nonlinear_arith)
                requires
                    index + 1 == q,
            ;
        }
    }
}

/// The chunk count is the file's length divided by the chunk size and
/// rounded up: the least number of chunks of that size that hold the file.
/// An empty file has no chunk.
pub proof fn lemma_chunk_count_rounds_up(len: nat, size: nat)
    requires
        size > 0,
    ensures
        chunk_count(len, size) == (len + size - 1) / (size as int),
        chunk_count(len, size) * size >= len,
        len > 0 ==> (chunk_count(len, size) - 1) * size < len,
        len == 0 <==> chunk_count(len, size) == 0,
{
    lemma_fundamental_div_mod(len as int, size as int);
    let q = len / size;
    let r = len % size;
    assert(size * q == q * size) by (nonlinear_arith);
    assert((q + 1) * size == q * size + size) by (nonlinear_arith);
    assert((q - 1) * size == q * size - size) by (nonlinear_arith);
    if q == 0 {
        assert(q * size == 0);
    }
    if r == 0 {
        lemma_fundamental_div_mod_converse(len + size - 1, size as int, q as int, size - 1);
    } else {
        lemma_fundamental_div_mod_converse(len + size - 1, size as int, q as int + 1, r - 1);
    }
}

/// Every chunk but the last is `size` bytes long. The last holds what is left
/// over when the length is divided by `size`, or `size` bytes when nothing is
/// left over; no chunk is empty.
pub proof fn lemma_chunk_lengths(data: Seq<u8>, size: nat)
    requires
        size > 0,
    ensures
        forall|i: int|
            0 <= i < chunks_of(data, size).len() - 1 ==> (#[trigger] chunks_of(data, size)[i]).len()
                == size,
        data.len() > 0 ==> chunks_of(data, size).last().len() == if data.len() % size == 0 {
            size
        } else {
            data.len() % size
        },
        forall|i: int|
            0 <= i < chunks_of(data, size).len() ==> (#[trigger] chunks_of(data, size)[i]).len()
                > 0,
{
    let len = data.len();
    let chunks = chunks_of(data, size);
    lemma_chunk_count_rounds_up(len, size);
    assert forall|i: int| 0 <= i < chunks.len() implies (#[trigger] chunks[i]).len() == chunk_len(
        len,
        size,
        i as nat,
    ) by {
        lemma_chunk_bounds(len, size, i as nat);
    }
    assert forall|i: int| 0 <= i < chunks.len() - 1 implies (#[trigger] chunks[i]).len()
        == size by {
        lemma_chunk_bounds(len, size, i as nat);
    }
    assert forall|i: int| 0 <= i < chunks.len() implies (#[trigger] chunks[i]).len() > 0 by {
        lemma_chunk_bounds(len, size, i as nat);
    }
    if len > 0 {
        lemma_chunk_bounds(len, size, (chunks.len() - 1) as nat);
    }
}

/// A file that holds `index` whole chunks and `extra` more bytes, `extra` at
/// most the chunk size.
pub proof fn lemma_chunk_count_of(len: nat, size: nat, index: nat, extra: nat)
    requires
        size > 0,
        extra <= size,
        len == index * size + extra,
    ensures
        extra == 0 ==> chunk_count(len, size) == index,
        extra > 0 ==> chunk_count(len, size) == index + 1 && chunk_len(len, size, index) == extra,
{
    if extra < size {
        lemma_fundamental_div_mod_converse(len as int, size as int, index as int, extra as int);
    } else {
        lemma_mul_is_distributive_add(size as int, index as int, 1);
        assert(len == (index + 1) * size + 0) by (nonlinear_arith)
            requires
                len == index * size + extra,
                extra == size,
        ;
        lemma_fundamental_div_mod_converse(len as int, size as int, index as int + 1, 0);
    }
}

/// The first `count` chunks, one after the other, are the beginning of the
/// file.
pub proof fn lemma_chunks_join_to_prefix(data: Seq<u8>, size: nat, count: nat)
    requires
        size > 0,
        count <= chunk_count(data.len(), size),
    ensures
        count * size <= data.len() || count == chunk_count(data.len(), size),
        chunks_of(data, size).take(count as int).flatten() == data.take(
            if count == chunk_count(data.len(), size) {
                data.len() as int
            } else {
                (count * size) as int
            },
        ),
    decreases count,
{
    let chunks = chunks_of(data, size);
    let first = chunks.take(count as int);
    let total = chunk_count(data.len(), size);
    first.lemma_flatten_and_flatten_alt_are_equivalent();
    lemma_chunk_count_rounds_up(data.len(), size);
    if count == 0 {
        assert(0 * size == 0);
        assert(first.flatten_alt() =~= data.take(0));
    } else {
        let before = (count - 1) as nat;
        lemma_chunks_join_to_prefix(data, size, before);
        lemma_chunk_bounds(data.len(), size, before);
        chunks.take(before as int).lemma_flatten_and_flatten_alt_are_equivalent();
        assert(first.drop_last() =~= chunks.take(before as int));
        assert(first.last() == chunk_of(data, size, before));
        assert(count * size == before * size + size) by (nonlinear_arith)
            requires
                count == before + 1,
        ;
        let start = (before * size) as int;
        let end = start + chunk_len(data.len(), size, before);
        assert(first.flatten_alt() == data.take(start) + data.subrange(start, end));
        assert(data.take(start) + data.subrange(start, end) =~= data.take(end));
        if count == total {
            assert(end == data.len());
        } else {
            assert(end == count * size);
        }
    }
}

/// The chunks of a file, one after the other, are the file.
pub proof fn lemma_chunks_join_to_data(data: Seq<u8>, size: nat)
    requires
        size > 0,
    ensures
        chunks_of(data, size).flatten() == data,
{
    let chunks = chunks_of(data, size);
    lemma_chunks_join_to_prefix(data, size, chunks.len());
    assert(chunks.take(chunks.len() as int) =~= chunks);
    assert(data.take(data.len() as int) =~= data);
}

} // verus!
