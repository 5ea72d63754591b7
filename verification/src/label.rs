//! Link labels: a hash over the two ends of a link and the destination network part.
use crate::bytes::append;
use vstd::prelude::*;

pub mod label;
pub mod laws;

verus! {

/// The initial value of the hash.
pub const FNV_OFFSET: u64 = 0xcbf29ce484222325;

/// The multiplier of the hash.
pub const FNV_PRIME: u64 = 0x100000001b3;

/// The longest destination network part that a link label is made of.
pub const MAX_HASHED_ADDR: usize = 152;

/// The FNV-1a hash of `data`: for each byte in turn, exclusive or, then a product modulo
/// two to the power 64.
pub open spec fn fnv(data: Seq<u8>) -> u64
    decreases data.len(),
{
    if data.len() == 0 {
        FNV_OFFSET
    } else {
        (fnv(data.drop_last()) ^ data.last() as u64).wrapping_mul(FNV_PRIME)
    }
}

/// Whether `a` comes before `b`, compared from the first byte on.
pub open spec fn lex_less(a: Seq<u8>, b: Seq<u8>) -> bool
    decreases a.len(),
{
    if b.len() == 0 {
        false
    } else if a.len() == 0 {
        true
    } else if a[0] != b[0] {
        a[0] < b[0]
    } else {
        lex_less(a.drop_first(), b.drop_first())
    }
}

/// The bytes that a link label is the hash of: the smaller address, the larger one, the
/// destination network part, and zeros up to a fixed length.
pub open spec fn link_key(mac_a: Seq<u8>, mac_b: Seq<u8>, dst_addr: Seq<u8>) -> Seq<u8> {
    (if lex_less(mac_a, mac_b) {
        mac_a + mac_b
    } else {
        mac_b + mac_a
    }) + dst_addr + Seq::new((MAX_HASHED_ADDR - dst_addr.len()) as nat, |i: int| 0u8)
}

/// The label of the link between two hardware addresses for a destination.
pub open spec fn link_hash(mac_a: Seq<u8>, mac_b: Seq<u8>, dst_addr: Seq<u8>) -> u64 {
    fnv(link_key(mac_a, mac_b, dst_addr))
}

/// The FNV-1a hash of `data`.
pub fn fnvla(data: &[u8]) -> (res: u64)
    ensures
        res == fnv(data@),
{
    let mut hash: u64 = FNV_OFFSET;
    for i in 0..data.len()
        invariant
            hash == fnv(data@.take(i as int)),
    {
        assert(data@.take(i + 1).drop_last() =~= data@.take(i as int));
        hash = hash ^ data[i] as u64;
        hash = hash.wrapping_mul(FNV_PRIME);
    }
    assert(data@.take(data@.len() as int) =~= data@);
    hash
}

/// Whether `a` comes before `b`.
pub fn mac_less(a: &[u8; 6], b: &[u8; 6]) -> (res: bool)
    ensures
        res == lex_less(a@, b@),
{
    let mut i: usize = 0;
    assert(a@.skip(0) =~= a@);
    assert(b@.skip(0) =~= b@);
    while i < 6
        invariant
            i <= 6,
            lex_less(a@, b@) == lex_less(a@.skip(i as int), b@.skip(i as int)),
        decreases 6 - i,
    {
        assert(a@.skip(i as int).drop_first() =~= a@.skip(i + 1));
        assert(b@.skip(i as int).drop_first() =~= b@.skip(i + 1));
        if a[i] != b[i] {
            return a[i] < b[i];
        }
        i += 1;
    }
    false
}

/// The label of the link between two hardware addresses for a destination network part.
pub fn get_link_hash(mac_a: &[u8; 6], mac_b: &[u8; 6], dst_addr: &[u8]) -> (res: u64)
    requires
        dst_addr@.len() <= MAX_HASHED_ADDR,
    ensures
        res == link_hash(mac_a@, mac_b@, dst_addr@),
{
    let mut buf: Vec<u8> = Vec::new();
    if mac_less(mac_a, mac_b) {
        append(&mut buf, mac_a.as_slice());
        append(&mut buf, mac_b.as_slice());
        assert(buf@ =~= mac_a@ + mac_b@);
    } else {
        append(&mut buf, mac_b.as_slice());
        append(&mut buf, mac_a.as_slice());
        assert(buf@ =~= mac_b@ + mac_a@);
    }
    append(&mut buf, dst_addr);
    let ghost start = buf@;
    let pad: usize = MAX_HASHED_ADDR - dst_addr.len();
    for i in 0..pad
        invariant
            buf@ == start + Seq::new(i as nat, |j: int| 0u8),
    {
        buf.push(0);
        assert(buf@ =~= start + Seq::new((i + 1) as nat, |j: int| 0u8));
    }
    fnvla(buf.as_slice())
}

proof fn lemma_lex_total(a: Seq<u8>, b: Seq<u8>)
    requires
        a.len() == b.len(),
    ensures
        lex_less(a, b) ==> !lex_less(b, a),
        !lex_less(a, b) && !lex_less(b, a) ==> a == b,
    decreases a.len(),
{
    if a.len() > 0 && a[0] == b[0] {
        lemma_lex_total(a.drop_first(), b.drop_first());
        if !lex_less(a, b) && !lex_less(b, a) {
            assert(a =~= seq![a[0]] + a.drop_first());
            assert(b =~= seq![b[0]] + b.drop_first());
        }
    } else if a.len() == 0 {
        assert(a =~= b);
    }
}

/// Both ends of a link compute the same label: the order of the two addresses does not matter.
pub proof fn law_link_hash_symmetric(mac_a: Seq<u8>, mac_b: Seq<u8>, dst_addr: Seq<u8>)
    requires
        mac_a.len() == mac_b.len(),
    ensures
        link_hash(mac_a, mac_b, dst_addr) == link_hash(mac_b, mac_a, dst_addr),
{
    lemma_lex_total(mac_a, mac_b);
}

} // verus!
