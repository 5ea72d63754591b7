//! Byte orders: little-endian, big-endian and the order of the host.
use vstd::endian::*;
use vstd::prelude::*;

pub mod laws;

verus! {

/// 256 to the power `n`: the number of values that `n` bytes can hold.
pub open spec fn pow256(n: nat) -> nat
    decreases n,
{
    if n == 0 {
        1
    } else {
        256 * pow256((n - 1) as nat)
    }
}

/// The `n` low bytes of `x`, least significant byte first.
pub open spec fn le_bytes(x: nat, n: nat) -> Seq<u8>
    decreases n,
{
    if n == 0 {
        Seq::empty()
    } else {
        seq![(x % 256) as u8] + le_bytes(x / 256, (n - 1) as nat)
    }
}

/// The number whose bytes are `s`, least significant byte first.
pub open spec fn le_value(s: Seq<u8>) -> nat
    decreases s.len(),
{
    if s.len() == 0 {
        0
    } else {
        s[0] as nat + 256 * le_value(s.drop_first())
    }
}

/// The `n` low bytes of `x`, most significant byte first.
pub open spec fn be_bytes(x: nat, n: nat) -> Seq<u8> {
    le_bytes(x, n).reverse()
}

/// The number whose bytes are `s`, most significant byte first.
pub open spec fn be_value(s: Seq<u8>) -> nat {
    le_value(s.reverse())
}

/// The `n` low bytes of `x` in the order in which the host keeps a number in memory.
pub open spec fn native_bytes(x: nat, n: nat) -> Seq<u8> {
    match endianness() {
        Endian::Little => le_bytes(x, n),
        Endian::Big => be_bytes(x, n),
    }
}

/// The number that the host reads out of the bytes `s` in memory.
pub open spec fn native_value(s: Seq<u8>) -> nat {
    match endianness() {
        Endian::Little => le_value(s),
        Endian::Big => be_value(s),
    }
}

/// `n` bytes have length `n`, in every order.
pub proof fn lemma_bytes_len(x: nat, n: nat)
    ensures
        le_bytes(x, n).len() == n,
        be_bytes(x, n).len() == n,
        native_bytes(x, n).len() == n,
    decreases n,
{
    if n > 0 {
        lemma_bytes_len(x / 256, (n - 1) as nat);
    }
}

/// Reading gives back what was written, if it fits, in every order.
pub proof fn lemma_value_of_bytes(x: nat, n: nat)
    requires
        x < pow256(n),
    ensures
        le_value(le_bytes(x, n)) == x,
        be_value(be_bytes(x, n)) == x,
        native_value(native_bytes(x, n)) == x,
    decreases n,
{
    lemma_bytes_len(x, n);
    if n > 0 {
        assert(x / 256 < pow256((n - 1) as nat));
        lemma_value_of_bytes(x / 256, (n - 1) as nat);
        assert(le_bytes(x, n).drop_first() =~= le_bytes(x / 256, (n - 1) as nat));
    }
    assert(be_bytes(x, n).reverse() =~= le_bytes(x, n));
}

/// Writing gives back what was read, in every order.
pub proof fn lemma_bytes_of_value(s: Seq<u8>)
    ensures
        le_value(s) < pow256(s.len()),
        be_value(s) < pow256(s.len()),
        native_value(s) < pow256(s.len()),
        le_bytes(le_value(s), s.len()) == s,
        be_bytes(be_value(s), s.len()) == s,
        native_bytes(native_value(s), s.len()) == s,
{
    lemma_le_bytes_of_value(s);
    lemma_le_bytes_of_value(s.reverse());
    assert(s.reverse().reverse() =~= s);
}

proof fn lemma_le_bytes_of_value(s: Seq<u8>)
    ensures
        le_value(s) < pow256(s.len()),
        le_bytes(le_value(s), s.len()) == s,
    decreases s.len(),
{
    if s.len() > 0 {
        let rest = s.drop_first();
        lemma_le_bytes_of_value(rest);
        assert((s[0] as nat + 256 * le_value(rest)) / 256 == le_value(rest));
        assert((s[0] as nat + 256 * le_value(rest)) % 256 == s[0] as nat);
        assert(le_bytes(le_value(s), s.len()) =~= s);
    } else {
        assert(le_bytes(0, 0) =~= s);
    }
}

/// The number of values that two, four and eight bytes can hold.
pub proof fn lemma_pow256()
    ensures
        pow256(2) == 0x1_0000,
        pow256(4) == 0x1_0000_0000,
        pow256(8) == 0x1_0000_0000_0000_0000,
{
    reveal_with_fuel(pow256, 9);
}

/// The two bytes of `x`, most significant first.
pub fn u16_to_be(x: u16) -> (res: [u8; 2])
    ensures
        res@ == be_bytes(x as nat, 2),
{
    let res: [u8; 2] = [(x / 256) as u8, (x % 256) as u8];
    proof {
        reveal_with_fuel(le_bytes, 3);
        assert(res@ =~= be_bytes(x as nat, 2));
    }
    res
}

/// The number that two bytes hold, most significant first.
pub fn u16_from_be(hi: u8, lo: u8) -> (res: u16)
    ensures
        res == be_value(seq![hi, lo]),
{
    proof {
        reveal_with_fuel(le_value, 3);
        assert(seq![hi, lo].reverse() =~= seq![lo, hi]);
    }
    hi as u16 * 256 + lo as u16
}

/// The four bytes of `x`, least significant first.
pub fn u32_to_le(x: u32) -> (res: [u8; 4])
    ensures
        res@ == le_bytes(x as nat, 4),
{
    let res: [u8; 4] = [
        (x % 256) as u8,
        (x / 256 % 256) as u8,
        (x / 256 / 256 % 256) as u8,
        (x / 256 / 256 / 256) as u8,
    ];
    proof {
        reveal_with_fuel(le_bytes, 5);
        assert(res@ =~= le_bytes(x as nat, 4));
    }
    res
}

/// The four bytes of `x`, most significant first.
pub fn u32_to_be(x: u32) -> (res: [u8; 4])
    ensures
        res@ == be_bytes(x as nat, 4),
{
    let b = u32_to_le(x);
    let res: [u8; 4] = [b[3], b[2], b[1], b[0]];
    assert(res@ =~= be_bytes(x as nat, 4));
    res
}

/// The number that the four bytes of `s` hold, least significant first.
pub fn u32_from_le(s: &[u8]) -> (res: u32)
    requires
        s@.len() == 4,
    ensures
        res == le_value(s@),
{
    proof {
        reveal_with_fuel(le_value, 5);
        assert(s@.drop_first().drop_first().drop_first().drop_first() =~= Seq::<u8>::empty());
    }
    s[0] as u32 + 256 * (s[1] as u32 + 256 * (s[2] as u32 + 256 * s[3] as u32))
}

/// The number that the four bytes of `s` hold, most significant first.
pub fn u32_from_be(s: &[u8]) -> (res: u32)
    requires
        s@.len() == 4,
    ensures
        res == be_value(s@),
{
    let r: [u8; 4] = [s[3], s[2], s[1], s[0]];
    assert(r@ =~= s@.reverse());
    u32_from_le(r.as_slice())
}

/// The number that the eight bytes of `s` hold, most significant first.
pub fn u64_from_be(s: &[u8]) -> (res: u64)
    requires
        s@.len() == 8,
    ensures
        res == be_value(s@),
{
    let mut res: u64 = 0;
    let ghost r = s@.reverse();
    proof {
        lemma_pow256();
        assert(r.skip(8) =~= Seq::<u8>::empty());
    }
    for i in 0..8usize
        invariant
            s@.len() == 8,
            r == s@.reverse(),
            res == le_value(r.skip(8 - i)),
            pow256(8) == 0x1_0000_0000_0000_0000,
    {
        proof {
            let before = r.skip(8 - i);
            let after = r.skip(8 - i - 1);
            assert(after.drop_first() =~= before);
            assert(after[0] == s@[i as int]);
            lemma_bytes_of_value(after);
            lemma_pow256_mono(after.len(), 8);
        }
        res = res * 256 + s[i] as u64;
    }
    assert(r.skip(0) =~= r);
    res
}

proof fn lemma_pow256_mono(a: nat, b: nat)
    requires
        a <= b,
    ensures
        pow256(a) <= pow256(b),
    decreases b,
{
    if a < b {
        lemma_pow256_mono(a, (b - 1) as nat);
    }
}

/// Appends the bytes of `s` to `buf`.
pub fn append(buf: &mut Vec<u8>, s: &[u8])
    ensures
        final(buf)@ == old(buf)@ + s@,
{
    buf.extend_from_slice(s);
    assert(buf@ =~= old(buf)@ + s@);
}

/// Whether two runs of bytes are the same.
pub fn bytes_eq(a: &[u8], b: &[u8]) -> (res: bool)
    ensures
        res == (a@ == b@),
{
    if a.len() != b.len() {
        return false;
    }
    for i in 0..a.len()
        invariant
            a@.len() == b@.len(),
            forall|j: int| 0 <= j < i ==> a@[j] == b@[j],
    {
        if a[i] != b[i] {
            return false;
        }
    }
    assert(a@ =~= b@);
    true
}

/// `bytemuck::bytes_of` on a `u16`: the two bytes that the host keeps in memory for it.
#[verifier::external_body]
pub(crate) fn bytes_of_u16(x: &u16) -> (res: &[u8])
    ensures
        res@ == native_bytes(*x as nat, 2),
{
    bytemuck::bytes_of(x)
}

/// `bytemuck::bytes_of` on a `u32`: the four bytes that the host keeps in memory for it.
#[verifier::external_body]
pub(crate) fn bytes_of_u32(x: &u32) -> (res: &[u8])
    ensures
        res@ == native_bytes(*x as nat, 4),
{
    bytemuck::bytes_of(x)
}

/// `bytemuck::bytes_of` on a `u64`: the eight bytes that the host keeps in memory for it.
#[verifier::external_body]
pub(crate) fn bytes_of_u64(x: &u64) -> (res: &[u8])
    ensures
        res@ == native_bytes(*x as nat, 8),
{
    bytemuck::bytes_of(x)
}

/// `bytemuck::pod_read_unaligned` as a `u16`: the number that the host has in memory where
/// these two bytes stand. It panics on any other number of bytes.
#[verifier::external_body]
pub(crate) fn read_u16(s: &[u8]) -> (res: u16)
    requires
        s@.len() == 2,
    ensures
        res == native_value(s@),
{
    bytemuck::pod_read_unaligned(s)
}

/// `bytemuck::pod_read_unaligned` as a `u32`: the number that the host has in memory where
/// these four bytes stand. It panics on any other number of bytes.
#[verifier::external_body]
pub(crate) fn read_u32(s: &[u8]) -> (res: u32)
    requires
        s@.len() == 4,
    ensures
        res == native_value(s@),
{
    bytemuck::pod_read_unaligned(s)
}

/// `bytemuck::pod_read_unaligned` as a `u64`: the number that the host has in memory where
/// these eight bytes stand. It panics on any other number of bytes.
#[verifier::external_body]
pub(crate) fn read_u64(s: &[u8]) -> (res: u64)
    requires
        s@.len() == 8,
    ensures
        res == native_value(s@),
{
    bytemuck::pod_read_unaligned(s)
}

/// Numbers of the machine widths read back from their bytes, in every order.
pub proof fn lemma_machine_round_trip(a: u16, b: u32, c: u64)
    ensures
        native_value(native_bytes(a as nat, 2)) == a,
        native_value(native_bytes(b as nat, 4)) == b,
        native_value(native_bytes(c as nat, 8)) == c,
        le_value(le_bytes(b as nat, 4)) == b,
        be_value(be_bytes(a as nat, 2)) == a,
        be_value(be_bytes(b as nat, 4)) == b,
        native_bytes(a as nat, 2).len() == 2,
        native_bytes(b as nat, 4).len() == 4,
        native_bytes(c as nat, 8).len() == 8,
        le_bytes(b as nat, 4).len() == 4,
        be_bytes(b as nat, 4).len() == 4,
        be_bytes(a as nat, 2).len() == 2,
{
    lemma_pow256();
    lemma_value_of_bytes(a as nat, 2);
    lemma_value_of_bytes(b as nat, 4);
    lemma_value_of_bytes(c as nat, 8);
    lemma_bytes_len(a as nat, 2);
    lemma_bytes_len(b as nat, 4);
    lemma_bytes_len(c as nat, 8);
}

/// What two, four and eight bytes hold fits the machine widths, in every order.
pub proof fn lemma_machine_bounds(s: Seq<u8>)
    ensures
        s.len() == 2 ==> native_value(s) <= u16::MAX && be_value(s) <= u16::MAX,
        s.len() == 4 ==> native_value(s) <= u32::MAX && be_value(s) <= u32::MAX && le_value(s)
            <= u32::MAX,
        s.len() == 8 ==> native_value(s) <= u64::MAX && be_value(s) <= u64::MAX,
{
    lemma_pow256();
    lemma_bytes_of_value(s);
}

/// A label reads back from its bytes, most significant first.
pub proof fn lemma_label_round_trip(x: u64)
    ensures
        be_bytes(x as nat, 8).len() == 8,
        be_value(be_bytes(x as nat, 8)) == x,
{
    lemma_pow256();
    lemma_value_of_bytes(x as nat, 8);
    lemma_bytes_len(x as nat, 8);
}

/// The low bytes of a number are those of its remainder, the high ones those of its quotient.
pub proof fn lemma_le_bytes_split(x: nat, n: nat, m: nat)
    ensures
        le_bytes(x, n + m) == le_bytes(x % pow256(n), n) + le_bytes(x / pow256(n), m),
    decreases n,
{
    lemma_pow256_positive(n);
    if n == 0 {
        assert(x / 1 == x);
        assert(le_bytes(x % pow256(n), n) =~= Seq::<u8>::empty());
        assert(le_bytes(x % pow256(n), n) + le_bytes(x / pow256(n), m) =~= le_bytes(x, m));
    } else {
        let k = (n - 1) as nat;
        let p = pow256(k);
        lemma_pow256_positive(k);
        lemma_le_bytes_split(x / 256, k, m);
        vstd::arithmetic::div_mod::lemma_div_denominator(x as int, 256, p as int);
        vstd::arithmetic::div_mod::lemma_mod_breakdown(x as int, 256, p as int);
        let r = x % pow256(n);
        assert(r == 256 * ((x / 256) % p) + x % 256);
        assert(r % 256 == x % 256);
        assert(r / 256 == (x / 256) % p);
        assert(le_bytes(x, n + m) =~= le_bytes(r, n) + le_bytes(x / pow256(n), m));
    }
}

proof fn lemma_pow256_positive(n: nat)
    ensures
        pow256(n) > 0,
    decreases n,
{
    if n > 0 {
        lemma_pow256_positive((n - 1) as nat);
    }
}

} // verus!
