//! The order in which names are sorted: lexicographic on their bytes.

use vstd::prelude::*;
use vstd::utf8::*;
use vstd::string::*;
use vstd::relations::*;

verus! {

/// Lexicographic comparison of `a` and `b` from position `from` on: the first
/// position at which they differ decides, and a string that ends first is the
/// smaller one.
pub open spec fn bytes_le_from(a: Seq<u8>, b: Seq<u8>, from: int) -> bool
    decreases a.len() - from,
{
    if from < 0 || from >= a.len() {
        true
    } else if from >= b.len() {
        false
    } else if a[from] != b[from] {
        a[from] < b[from]
    } else {
        bytes_le_from(a, b, from + 1)
    }
}

/// `a` is at most `b` in lexicographic byte order.
pub open spec fn bytes_le(a: Seq<u8>, b: Seq<u8>) -> bool {
    bytes_le_from(a, b, 0)
}

/// `a` sorts at or before `b`: the order of their UTF-8 encodings.
pub open spec fn name_le(a: Seq<char>, b: Seq<char>) -> bool {
    bytes_le(encode_utf8(a), encode_utf8(b))
}

/// `a` sorts strictly before `b`.
pub open spec fn name_lt(a: Seq<char>, b: Seq<char>) -> bool {
    name_le(a, b) && a != b
}

/// The order as a relation, for the sequence library.
pub open spec fn name_order() -> spec_fn(Seq<char>, Seq<char>) -> bool {
    |a: Seq<char>, b: Seq<char>| name_le(a, b)
}

/// Every string is at most itself.
pub proof fn lemma_bytes_le_reflexive(a: Seq<u8>, from: int)
    ensures
        bytes_le_from(a, a, from),
    decreases a.len() - from,
{
    if 0 <= from < a.len() {
        lemma_bytes_le_reflexive(a, from + 1);
    }
}

/// Of two strings, one is at most the other.
pub proof fn lemma_bytes_le_total(a: Seq<u8>, b: Seq<u8>, from: int)
    ensures
        bytes_le_from(a, b, from) || bytes_le_from(b, a, from),
    decreases a.len() - from,
{
    if 0 <= from < a.len() && from < b.len() && a[from] == b[from] {
        lemma_bytes_le_total(a, b, from + 1);
    }
}

/// A string that is at most a second, which is at most a third, is at most
/// the third.
pub proof fn lemma_bytes_le_transitive(a: Seq<u8>, b: Seq<u8>, c: Seq<u8>, from: int)
    requires
        bytes_le_from(a, b, from),
        bytes_le_from(b, c, from),
    ensures
        bytes_le_from(a, c, from),
    decreases a.len() - from,
{
    if 0 <= from < a.len() && a[from] == b[from] && b[from] == c[from] {
        lemma_bytes_le_transitive(a, b, c, from + 1);
    }
}

/// Two strings that agree before `from` and are each at most the other from
/// there on are the same string.
pub proof fn lemma_bytes_le_antisymmetric(a: Seq<u8>, b: Seq<u8>, from: int)
    requires
        0 <= from,
        from <= a.len(),
        from <= b.len(),
        forall|k: int| 0 <= k < from ==> a[k] == b[k],
        bytes_le_from(a, b, from),
        bytes_le_from(b, a, from),
    ensures
        a == b,
    decreases a.len() - from,
{
    if from < a.len() {
        lemma_bytes_le_antisymmetric(a, b, from + 1);
    } else {
        assert(a =~= b);
    }
}

/// Where two strings agree before position `at` and differ there, the byte
/// at that position decides their order.
pub proof fn lemma_first_difference_decides(a: Seq<u8>, b: Seq<u8>, at: int)
    requires
        0 <= at < a.len(),
        at < b.len(),
        forall|k: int| 0 <= k < at ==> a[k] == b[k],
        a[at] < b[at],
    ensures
        bytes_le(a, b),
        !bytes_le(b, a),
{
    lemma_agreement_skipped(a, b, at);
    lemma_agreement_skipped(b, a, at);
}

/// Positions at which two strings agree do not matter to their order.
pub proof fn lemma_agreement_skipped(a: Seq<u8>, b: Seq<u8>, upto: int)
    requires
        0 <= upto <= a.len(),
        upto <= b.len(),
        forall|k: int| 0 <= k < upto ==> a[k] == b[k],
    ensures
        bytes_le(a, b) == bytes_le_from(a, b, upto),
    decreases upto,
{
    if upto > 0 {
        lemma_agreement_skipped(a, b, upto - 1);
    }
}

/// No character comes before the one with code zero.
proof fn lemma_character_floor(c: char)
    ensures
        '\0' <= c,
{
}

/// Of two names that begin with different ASCII characters, the one with the
/// smaller first character sorts first.
pub proof fn lemma_first_character_decides(a: Seq<char>, b: Seq<char>)
    requires
        a.len() > 0,
        b.len() > 0,
        a[0] < b[0],
        b[0] <= '\u{7f}',
    ensures
        name_lt(a, b),
        !name_le(b, a),
{
    let first_a = seq![a[0]];
    let first_b = seq![b[0]];
    lemma_character_floor(a[0]);
    lemma_character_floor(b[0]);
    assert forall|i: int| 0 <= i < first_a.len() implies '\0' <= #[trigger] first_a[i]
        <= '\u{7f}' by {
        assert(first_a[i] == a[0]);
    }
    assert forall|i: int| 0 <= i < first_b.len() implies '\0' <= #[trigger] first_b[i]
        <= '\u{7f}' by {
        assert(first_b[i] == b[0]);
    }
    is_ascii_chars_encode_utf8(first_a);
    is_ascii_chars_encode_utf8(first_b);
    reveal_with_fuel(encode_utf8, 2);
    assert(first_a.drop_first() =~= Seq::<char>::empty());
    assert(first_b.drop_first() =~= Seq::<char>::empty());
    assert(encode_utf8(first_a) =~= encode_scalar(a[0] as u32));
    assert(encode_utf8(first_b) =~= encode_scalar(b[0] as u32));
    assert(encode_utf8(a)[0] == a[0] as u8);
    assert(encode_utf8(b)[0] == b[0] as u8);
    lemma_first_difference_decides(encode_utf8(a), encode_utf8(b), 0);
}

/// The order on names is reflexive, total, transitive and antisymmetric.
pub proof fn lemma_name_le_is_total_order(a: Seq<char>, b: Seq<char>, c: Seq<char>)
    ensures
        name_le(a, a),
        name_le(a, b) || name_le(b, a),
        name_le(a, b) && name_le(b, c) ==> name_le(a, c),
        name_le(a, b) && name_le(b, a) ==> a == b,
{
    lemma_bytes_le_reflexive(encode_utf8(a), 0);
    lemma_bytes_le_total(encode_utf8(a), encode_utf8(b), 0);
    if name_le(a, b) && name_le(b, c) {
        lemma_bytes_le_transitive(encode_utf8(a), encode_utf8(b), encode_utf8(c), 0);
    }
    if name_le(a, b) && name_le(b, a) {
        lemma_bytes_le_antisymmetric(encode_utf8(a), encode_utf8(b), 0);
        encode_utf8_decode_utf8(a);
        encode_utf8_decode_utf8(b);
    }
}

/// The order on names is a total order.
pub proof fn lemma_name_order_total()
    ensures
        total_ordering(name_order()),
{
    let r = name_order();
    assert forall|x: Seq<char>| #[trigger] r(x, x) by {
        lemma_name_le_is_total_order(x, x, x);
    }
    assert forall|x: Seq<char>, y: Seq<char>| #[trigger] r(x, y) && #[trigger] r(y, x) implies x
        == y by {
        lemma_name_le_is_total_order(x, y, x);
    }
    assert forall|x: Seq<char>, y: Seq<char>, z: Seq<char>| #[trigger]
        r(x, y) && #[trigger] r(y, z) implies r(x, z) by {
        lemma_name_le_is_total_order(x, y, z);
    }
    assert forall|x: Seq<char>, y: Seq<char>| #[trigger] r(x, y) || #[trigger] r(y, x) by {
        lemma_name_le_is_total_order(x, y, x);
    }
}

/// Whether `a` sorts at or before `b`.
pub fn sorts_before_or_equal(a: &str, b: &str) -> (r: bool)
    ensures
        r == name_le(a@, b@),
{
    let x = a.as_bytes();
    let y = b.as_bytes();
    let mut i: usize = 0;
    while i < x.len() && i < y.len() && x[i] == y[i]
        invariant
            i <= x.len(),
            i <= y.len(),
            bytes_le(x@, y@) == bytes_le_from(x@, y@, i as int),
        decreases x.len() - i,
    {
        i = i + 1;
    }
    if i >= x.len() {
        true
    } else if i >= y.len() {
        false
    } else {
        x[i] < y[i]
    }
}

/// The names stand in ascending order.
pub open spec fn ascending(names: Seq<Seq<char>>) -> bool {
    sorted_by(names, name_order())
}

/// Where `name` goes among the ascending `names`: behind every entry that
/// sorts at or before it, and before every entry that sorts after it.
pub(crate) fn insertion_point(names: &Vec<String>, name: &str) -> (at: usize)
    requires
        ascending(names.deep_view()),
    ensures
        at <= names.len(),
        forall|k: int| 0 <= k < at ==> name_le(#[trigger] names[k]@, name@),
        forall|k: int|
            at <= k < names.len() ==> name_le(name@, #[trigger] names[k]@) && !name_le(
                names[k]@,
                name@,
            ),
{
    let mut at: usize = 0;
    while at < names.len() && sorts_before_or_equal(names[at].as_str(), name)
        invariant
            at <= names.len(),
            forall|k: int| 0 <= k < at ==> name_le(#[trigger] names[k]@, name@),
        decreases names.len() - at,
    {
        at = at + 1;
    }
    proof {
        let all = names.deep_view();
        assert forall|k: int| at <= k < names.len() implies name_le(name@, #[trigger] names[k]@)
            && !name_le(names[k]@, name@) by {
            assert(all[k] == names[k]@);
            assert(all[at as int] == names[at as int]@);
            if k > at {
                assert(name_order()(all[at as int], all[k]));
            }
            lemma_name_le_is_total_order(names[at as int]@, names[k]@, name@);
            lemma_name_le_is_total_order(name@, names[k]@, name@);
        }
    }
    at
}

/// Puts `name` into the ascending `names` at its place, behind the entries
/// that equal it.
pub(crate) fn insert_ascending(names: &mut Vec<String>, name: String) -> (at: usize)
    requires
        ascending(old(names).deep_view()),
    ensures
        at <= old(names).len(),
        forall|k: int| 0 <= k < at ==> name_le(#[trigger] old(names)[k]@, name@),
        forall|k: int| at <= k < old(names).len() ==> !name_le(#[trigger] old(names)[k]@, name@),
        final(names).deep_view() == old(names).deep_view().insert(at as int, name@),
        ascending(final(names).deep_view()),
{
    let at = insertion_point(names, name.as_str());
    let ghost before = names.deep_view();
    let ghost held = names@;
    names.insert(at, name);
    proof {
        let after = names.deep_view();
        assert(after =~= before.insert(at as int, name@)) by {
            assert forall|k: int| 0 <= k < after.len() implies after[k] == before.insert(
                at as int,
                name@,
            )[k] by {
                if k < at {
                    assert(names@[k] == held[k]);
                    assert(before[k] == held[k]@);
                } else if k > at {
                    assert(names@[k] == held[k - 1]);
                    assert(before[k - 1] == held[k - 1]@);
                }
            }
        }
        assert forall|p: int, q: int| 0 <= p < q < after.len() implies #[trigger] name_order()(
            after[p],
            after[q],
        ) by {
            if q < at {
                assert(name_order()(before[p], before[q]));
            } else if q == at {
                assert(before[p] == held[p]@);
            } else if p < at {
                assert(name_order()(before[p], before[q - 1]));
            } else if p == at {
                assert(before[q - 1] == held[q - 1]@);
            } else {
                assert(name_order()(before[p - 1], before[q - 1]));
            }
        }
    }
    at
}

} // verus!
