//! The names of the files in a chunk directory.

use vstd::prelude::*;
use vstd::string::*;

verus! {

/// Every chunk file's name starts with this tag.
pub const CHUNK_TAG: &'static str = "chunk";

/// The name of the file that records where the chunks came from.
pub const METADATA_FILE: &'static str = "info.json";

/// The name given to the rebuilt file when no recorded name can be read.
pub const DEFAULT_OUTPUT_NAME: &'static str = "reconstructed_file";

/// The least number of digits in a chunk file's index.
pub const INDEX_WIDTH: usize = 3;

/// The character for the decimal digit `d`.
pub open spec fn digit_char(d: int) -> char {
    if d == 0 {
        '0'
    } else if d == 1 {
        '1'
    } else if d == 2 {
        '2'
    } else if d == 3 {
        '3'
    } else if d == 4 {
        '4'
    } else if d == 5 {
        '5'
    } else if d == 6 {
        '6'
    } else if d == 7 {
        '7'
    } else if d == 8 {
        '8'
    } else {
        '9'
    }
}

/// `n` in decimal, without leading zeros.
pub open spec fn decimal(n: nat) -> Seq<char>
    decreases n,
{
    if n < 10 {
        seq![digit_char(n as int)]
    } else {
        decimal(n / 10).push(digit_char((n % 10) as int))
    }
}

/// `k` zeros.
pub open spec fn zeros(k: nat) -> Seq<char> {
    Seq::new(k, |i: int| '0')
}

/// `n` in decimal, with zeros in front where it has fewer than `width` digits.
pub open spec fn zero_padded(n: nat, width: nat) -> Seq<char> {
    let digits = decimal(n);
    if digits.len() >= width {
        digits
    } else {
        zeros((width - digits.len()) as nat) + digits
    }
}

/// The name of the chunk file with the given index.
pub open spec fn chunk_name(index: nat) -> Seq<char> {
    CHUNK_TAG@ + zero_padded(index, INDEX_WIDTH as nat)
}

/// Whether a directory entry of this name counts as a chunk file: its name
/// starts with the tag.
pub open spec fn is_chunk_name(name: Seq<char>) -> bool {
    CHUNK_TAG@.is_prefix_of(name)
}

/// A number is written with at least one digit, with one digit exactly
/// where it is below ten, and with a zero in front only where it is zero.
pub proof fn lemma_decimal_shape(n: nat)
    ensures
        decimal(n).len() >= 1,
        decimal(n).len() == 1 <==> n < 10,
        decimal(n)[0] == '0' ==> n == 0,
    decreases n,
{
    if n >= 10 {
        lemma_decimal_shape(n / 10);
        assert(decimal(n)[0] == decimal(n / 10)[0]);
    }
}

/// Different numbers are written differently.
pub proof fn lemma_decimal_injective(a: nat, b: nat)
    requires
        decimal(a) == decimal(b),
    ensures
        a == b,
    decreases a,
{
    lemma_decimal_shape(a);
    lemma_decimal_shape(b);
    if a < 10 {
        assert(decimal(a)[0] == digit_char(a as int));
        assert(decimal(b)[0] == digit_char(b as int));
    } else {
        assert(decimal(a).drop_last() =~= decimal(a / 10));
        assert(decimal(b).drop_last() =~= decimal(b / 10));
        assert(decimal(a).last() == digit_char((a % 10) as int));
        assert(decimal(b).last() == digit_char((b % 10) as int));
        lemma_decimal_injective(a / 10, b / 10);
    }
}

/// Different numbers stay different when zeros are put in front.
pub proof fn lemma_zero_padded_injective(a: nat, b: nat, width: nat)
    requires
        zero_padded(a, width) == zero_padded(b, width),
    ensures
        a == b,
{
    let da = decimal(a);
    let db = decimal(b);
    let pa = zero_padded(a, width);
    let pb = zero_padded(b, width);
    lemma_decimal_shape(a);
    lemma_decimal_shape(b);
    let ka = pa.len() - da.len();
    let kb = pb.len() - db.len();
    assert(pa.skip(ka) =~= da);
    assert(pb.skip(kb) =~= db);
    if ka < kb {
        assert(pa[ka] == da[0]);
        assert(pb[ka] == '0');
    } else if kb < ka {
        assert(pb[kb] == db[0]);
        assert(pa[kb] == '0');
    }
    lemma_decimal_injective(a, b);
}

/// Chunk files with different indices have different names.
pub proof fn lemma_chunk_names_differ(i: nat, j: nat)
    requires
        i != j,
    ensures
        chunk_name(i) != chunk_name(j),
{
    let tag = CHUNK_TAG@;
    if chunk_name(i) == chunk_name(j) {
        assert(chunk_name(i).skip(tag.len() as int) =~= zero_padded(i, INDEX_WIDTH as nat));
        assert(chunk_name(j).skip(tag.len() as int) =~= zero_padded(j, INDEX_WIDTH as nat));
        lemma_zero_padded_injective(i, j, INDEX_WIDTH as nat);
    }
}

/// The digit `d` as text.
fn digit_text(d: usize) -> (r: &'static str)
    requires
        d < 10,
    ensures
        r@ == seq![digit_char(d as int)],
{
    proof {
        reveal_strlit("0");
        reveal_strlit("1");
        reveal_strlit("2");
        reveal_strlit("3");
        reveal_strlit("4");
        reveal_strlit("5");
        reveal_strlit("6");
        reveal_strlit("7");
        reveal_strlit("8");
        reveal_strlit("9");
    }
    let r = if d == 0 {
        "0"
    } else if d == 1 {
        "1"
    } else if d == 2 {
        "2"
    } else if d == 3 {
        "3"
    } else if d == 4 {
        "4"
    } else if d == 5 {
        "5"
    } else if d == 6 {
        "6"
    } else if d == 7 {
        "7"
    } else if d == 8 {
        "8"
    } else {
        "9"
    };
    assert(r@ =~= seq![digit_char(d as int)]);
    r
}

/// Writes `n` in decimal.
pub fn decimal_text(n: usize) -> (r: String)
    ensures
        r@ == decimal(n as nat),
    decreases n,
{
    if n < 10 {
        String::from_str(digit_text(n))
    } else {
        let mut text = decimal_text(n / 10);
        text.append(digit_text(n % 10));
        assert(text@ =~= decimal(n as nat));
        text
    }
}

/// Writes `n` in decimal with at least `width` digits.
pub fn zero_padded_text(n: usize, width: usize) -> (r: String)
    ensures
        r@ == zero_padded(n as nat, width as nat),
{
    let digits = decimal_text(n);
    let len = digits.as_str().unicode_len();
    let mut text = String::new();
    let mut k: usize = len;
    while k < width
        invariant
            len <= k,
            k <= width || k == len,
            text@ == zeros((k - len) as nat),
        decreases width - k,
    {
        proof {
            reveal_strlit("0");
        }
        text.append("0");
        k = k + 1;
        assert(text@ =~= zeros((k - len) as nat));
    }
    text.append(digits.as_str());
    assert(text@ =~= zero_padded(n as nat, width as nat));
    text
}

/// The name of the chunk file with the given index.
pub fn chunk_file_name(index: usize) -> (r: String)
    ensures
        r@ == chunk_name(index as nat),
{
    let mut name = String::from_str(CHUNK_TAG);
    let digits = zero_padded_text(index, INDEX_WIDTH);
    name.append(digits.as_str());
    name
}

/// Whether a directory entry of this name counts as a chunk file.
pub fn has_chunk_tag(name: &str) -> (r: bool)
    ensures
        r == is_chunk_name(name@),
{
    let tag = CHUNK_TAG;
    let tag_len = tag.unicode_len();
    if name.unicode_len() < tag_len {
        return false;
    }
    let mut i: usize = 0;
    while i < tag_len
        invariant
            i <= tag_len,
            tag@ == CHUNK_TAG@,
            tag_len == tag@.len(),
            tag_len <= name@.len(),
            forall|k: int| 0 <= k < i ==> name@[k] == tag@[k],
        decreases tag_len - i,
    {
        if name.get_char(i) != tag.get_char(i) {
            assert(!tag@.is_prefix_of(name@)) by {
                if tag@.is_prefix_of(name@) {
                    assert(name@.subrange(0, tag@.len() as int)[i as int] == name@[i as int]);
                }
            }
            return false;
        }
        i = i + 1;
    }
    assert(name@.subrange(0, tag@.len() as int) =~= tag@);
    true
}

} // verus!
