//! Byte offsets into UTF-8 text and the character positions they stand
//! for. The line editor speaks of positions in bytes.

use vstd::prelude::*;
use vstd::utf8::{encode_utf8, encode_scalar, is_char_boundary, char_is_scalar, encode_utf8_first_scalar, encode_utf8_valid_utf8, pop_first_scalar};

verus! {

/// The number of bytes of the UTF-8 encoding of `cs`.
pub open spec fn byte_len(cs: Seq<char>) -> nat {
    encode_utf8(cs).len()
}

/// The number of bytes of the UTF-8 encoding of `c`.
pub open spec fn utf8_width(c: char) -> nat {
    encode_scalar(c as u32).len()
}

pub proof fn lemma_encode_append(a: Seq<char>, b: Seq<char>)
    ensures
        encode_utf8(a + b) == encode_utf8(a) + encode_utf8(b),
    decreases a.len(),
{
    if a.len() == 0 {
        assert(a + b =~= b);
        assert(encode_utf8(a) =~= Seq::<u8>::empty());
        assert(encode_utf8(a) + encode_utf8(b) =~= encode_utf8(b));
    } else {
        assert((a + b).drop_first() =~= a.drop_first() + b);
        assert((a + b)[0] == a[0]);
        lemma_encode_append(a.drop_first(), b);
        assert(encode_utf8(a + b) =~= encode_scalar(a[0] as u32) + (encode_utf8(a.drop_first())
            + encode_utf8(b)));
    }
}

pub proof fn lemma_width(c: char)
    ensures
        1 <= utf8_width(c) <= 4,
{
}

pub proof fn lemma_encode_single(c: char)
    ensures
        encode_utf8(seq![c]) == encode_scalar(c as u32),
{
    assert(seq![c].drop_first() =~= Seq::<char>::empty());
    assert(encode_utf8(Seq::<char>::empty()) =~= Seq::<u8>::empty());
    assert(encode_utf8(seq![c]) =~= encode_scalar(c as u32));
}

pub proof fn lemma_byte_len_step(cs: Seq<char>, k: int)
    requires
        0 <= k < cs.len(),
    ensures
        byte_len(cs.take(k + 1)) == byte_len(cs.take(k)) + utf8_width(cs[k]),
{
    assert(cs.take(k + 1) =~= cs.take(k) + seq![cs[k]]);
    lemma_encode_append(cs.take(k), seq![cs[k]]);
    lemma_encode_single(cs[k]);
}

/// Longer prefixes have longer encodings.
pub proof fn lemma_byte_len_grows(cs: Seq<char>, i: int, j: int)
    requires
        0 <= i <= j <= cs.len(),
    ensures
        byte_len(cs.take(i)) + (j - i) <= byte_len(cs.take(j)),
    decreases j - i,
{
    if i < j {
        lemma_byte_len_grows(cs, i, j - 1);
        lemma_byte_len_step(cs, j - 1);
        lemma_width(cs[j - 1]);
    }
}

/// Longer prefixes have longer encodings, none longer than the whole.
pub proof fn lemma_byte_len_monotone(cs: Seq<char>, i: int, j: int)
    requires
        0 <= i <= j <= cs.len(),
    ensures
        byte_len(cs.take(i)) + (j - i) <= byte_len(cs.take(j)),
        byte_len(cs.take(j)) <= byte_len(cs),
{
    lemma_byte_len_grows(cs, i, j);
    lemma_byte_len_grows(cs, j, cs.len() as int);
    assert(cs.take(cs.len() as int) =~= cs);
}

/// A character boundary of the encoding of `cs` is the end of the encoding
/// of a prefix of `cs`.
pub proof fn lemma_boundary_index(cs: Seq<char>, idx: int)
    requires
        is_char_boundary(encode_utf8(cs), idx),
    ensures
        exists|k: int| 0 <= k <= cs.len() && #[trigger] byte_len(cs.take(k)) == idx,
    decreases cs.len(),
{
    encode_utf8_valid_utf8(cs);
    if idx == 0 {
        assert(cs.take(0) =~= Seq::<char>::empty());
        assert(byte_len(cs.take(0)) == 0);
    } else {
        let bytes = encode_utf8(cs);
        assert(cs.len() > 0);
        encode_utf8_first_scalar(cs);
        assert(pop_first_scalar(bytes) =~= encode_utf8(cs.drop_first()));
        let l = encode_scalar(cs[0] as u32).len() as int;
        assert(is_char_boundary(encode_utf8(cs.drop_first()), idx - l));
        lemma_boundary_index(cs.drop_first(), idx - l);
        let rest = cs.drop_first();
        let k = choose|k: int| 0 <= k <= rest.len() && #[trigger] byte_len(rest.take(k)) == idx - l;
        assert(cs.take(k + 1) =~= seq![cs[0]] + rest.take(k));
        lemma_encode_append(seq![cs[0]], rest.take(k));
        lemma_encode_single(cs[0]);
        assert(byte_len(cs.take(k + 1)) == idx);
    }
}

/// The number of bytes that `c` takes in UTF-8.
pub fn char_width(c: char) -> (r: usize)
    ensures
        r == utf8_width(c),
{
    proof { char_is_scalar(c); }
    let u = c as u32;
    if u < 0x80 {
        1
    } else if u < 0x800 {
        2
    } else if u < 0x10000 {
        3
    } else {
        4
    }
}

/// The character position whose byte offset in `cs` is `pos` (it is
/// unique, see `lemma_char_pos`).
pub open spec fn char_pos(cs: Seq<char>, pos: int) -> int {
    choose|k: int| 0 <= k <= cs.len() && #[trigger] byte_len(cs.take(k)) == pos
}

/// Each byte offset that starts a character stands for exactly one
/// character position.
pub proof fn lemma_char_pos(cs: Seq<char>, k: int)
    requires
        0 <= k <= cs.len(),
    ensures
        char_pos(cs, byte_len(cs.take(k)) as int) == k,
{
    let pos = byte_len(cs.take(k)) as int;
    assert(byte_len(cs.take(k)) == pos);
    let c = char_pos(cs, pos);
    if c < k {
        lemma_byte_len_grows(cs, c, k);
    } else if c > k {
        lemma_byte_len_grows(cs, k, c);
    }
}

/// The byte offset of character position `k` of `cs`.
pub fn byte_offset(cs: &Vec<char>, k: usize) -> (r: usize)
    requires
        k <= cs@.len(),
        byte_len(cs@.take(k as int)) <= usize::MAX,
    ensures
        r == byte_len(cs@.take(k as int)),
{
    let mut i: usize = 0;
    let mut acc: usize = 0;
    assert(cs@.take(0) =~= Seq::<char>::empty());
    while i < k
        invariant
            k <= cs@.len(),
            byte_len(cs@.take(k as int)) <= usize::MAX,
            i <= k,
            acc == byte_len(cs@.take(i as int)),
        decreases k - i,
    {
        proof {
            lemma_byte_len_step(cs@, i as int);
            lemma_byte_len_grows(cs@, i + 1, k as int);
        }
        acc = acc + char_width(cs[i]);
        i = i + 1;
    }
    acc
}

/// The character position at byte offset `pos` of `cs`.
pub fn char_index(cs: &Vec<char>, pos: usize) -> (r: usize)
    requires
        exists|k: int| 0 <= k <= cs@.len() && #[trigger] byte_len(cs@.take(k)) == pos,
    ensures
        r <= cs@.len(),
        byte_len(cs@.take(r as int)) == pos,
{
    let ghost k = choose|k: int| 0 <= k <= cs@.len() && #[trigger] byte_len(cs@.take(k)) == pos;
    let mut i: usize = 0;
    let mut acc: usize = 0;
    assert(cs@.take(0) =~= Seq::<char>::empty());
    proof { lemma_byte_len_monotone(cs@, 0, k); }
    let n = cs.len();
    assert(cs@.len() <= usize::MAX);
    while acc < pos
        invariant
            cs@.len() <= usize::MAX,
            0 <= k <= cs@.len(),
            byte_len(cs@.take(k)) == pos,
            i <= k,
            acc == byte_len(cs@.take(i as int)),
        decreases k - i,
    {
        proof {
            if i == k {
                assert(false);
            }
            lemma_byte_len_step(cs@, i as int);
            lemma_byte_len_monotone(cs@, i + 1, k);
        }
        acc = acc + char_width(cs[i]);
        i = i + 1;
    }
    proof {
        if i < k {
            lemma_byte_len_monotone(cs@, i as int, k);
        }
    }
    i
}

} // verus!
