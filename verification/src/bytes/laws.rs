//! What the byte orders promise of every number.
use crate::bytes;
use vstd::prelude::*;

verus! {

/// The least significant byte first, and each byte behind it 256 times as much.
pub proof fn law_little_endian(a: u8, b: u8, c: u8, d: u8)
    ensures
        bytes::le_value(seq![a, b, c, d]) == a + 0x100 * b + 0x1_0000 * c + 0x100_0000 * d,
        bytes::le_bytes((a + 0x100 * b + 0x1_0000 * c + 0x100_0000 * d) as nat, 4) == seq![
            a,
            b,
            c,
            d,
        ],
{
    let s = seq![a, b, c, d];
    reveal_with_fuel(bytes::le_value, 5);
    assert(s.drop_first() =~= seq![b, c, d]);
    assert(s.drop_first().drop_first() =~= seq![c, d]);
    assert(s.drop_first().drop_first().drop_first() =~= seq![d]);
    assert(s.drop_first().drop_first().drop_first().drop_first() =~= Seq::<u8>::empty());
    bytes::lemma_bytes_of_value(s);
}

/// The most significant byte first.
pub proof fn law_big_endian(a: u8, b: u8, c: u8, d: u8)
    ensures
        bytes::be_value(seq![a, b]) == 0x100 * a + b,
        bytes::be_bytes((0x100 * a + b) as nat, 2) == seq![a, b],
        bytes::be_value(seq![a, b, c, d]) == 0x100_0000 * a + 0x1_0000 * b + 0x100 * c + d,
        bytes::be_bytes((0x100_0000 * a + 0x1_0000 * b + 0x100 * c + d) as nat, 4) == seq![
            a,
            b,
            c,
            d,
        ],
{
    law_little_endian(d, c, b, a);
    assert(seq![a, b, c, d].reverse() =~= seq![d, c, b, a]);
    bytes::lemma_bytes_of_value(seq![a, b, c, d]);
    let t = seq![a, b];
    assert(t.reverse() =~= seq![b, a]);
    reveal_with_fuel(bytes::le_value, 3);
    assert(seq![b, a].drop_first() =~= seq![a]);
    assert(seq![b, a].drop_first().drop_first() =~= Seq::<u8>::empty());
    bytes::lemma_bytes_of_value(t);
}

/// Eight bytes are the four that say how often two to the power 32 goes into the number, and the
/// four of what is left, most significant first.
pub proof fn law_big_endian_halves(hi: u32, lo: u32)
    ensures
        bytes::be_bytes((hi * 0x1_0000_0000 + lo) as nat, 8) == bytes::be_bytes(hi as nat, 4)
            + bytes::be_bytes(lo as nat, 4),
        bytes::be_value(bytes::be_bytes(hi as nat, 4) + bytes::be_bytes(lo as nat, 4)) == hi
            * 0x1_0000_0000 + lo,
{
    let x = (hi * 0x1_0000_0000 + lo) as nat;
    bytes::lemma_pow256();
    bytes::lemma_le_bytes_split(x, 4, 4);
    assert(x % 0x1_0000_0000 == lo);
    assert(x / 0x1_0000_0000 == hi);
    bytes::lemma_bytes_len(hi as nat, 4);
    bytes::lemma_bytes_len(lo as nat, 4);
    bytes::lemma_bytes_len(x, 8);
    assert(bytes::be_bytes(x, 8) =~= bytes::be_bytes(hi as nat, 4) + bytes::be_bytes(lo as nat, 4));
    bytes::lemma_value_of_bytes(x, 8);
}

/// The order of the host is one of the two, for numbers that are written and numbers that are read.
pub proof fn law_native(x: nat, n: nat, s: Seq<u8>)
    ensures
        (forall|y: nat, m: nat| #[trigger] bytes::native_bytes(y, m) == bytes::le_bytes(y, m)) || (
        forall|y: nat, m: nat| #[trigger]
            bytes::native_bytes(y, m) == bytes::be_bytes(y, m)),
        bytes::native_bytes(bytes::native_value(s), s.len()) == s,
        x < bytes::pow256(n) ==> bytes::native_value(bytes::native_bytes(x, n)) == x,
{
    bytes::lemma_bytes_of_value(s);
    if x < bytes::pow256(n) {
        bytes::lemma_value_of_bytes(x, n);
    }
}

} // verus!
