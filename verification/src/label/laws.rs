//! What link labels promise.
use crate::label;
use vstd::prelude::*;

verus! {

/// The hash of nothing is its initial value. One more byte is joined to the hash by exclusive or,
/// and the result multiplied, modulo two to the power 64.
pub proof fn law_fnv(s: Seq<u8>, b: u8)
    ensures
        label::fnv(Seq::empty()) == 0xcbf29ce484222325,
        label::fnv(s.push(b)) == ((label::fnv(s) ^ b as u64) * 0x100000001b3)
            % 0x1_0000_0000_0000_0000,
{
    assert(s.push(b).drop_last() =~= s);
}

/// Of two hardware addresses of the same length that first differ at `i`, the one with the smaller
/// byte there is the smaller.
pub proof fn law_smaller(a: Seq<u8>, b: Seq<u8>, i: int)
    requires
        a.len() == b.len(),
        0 <= i < a.len(),
        forall|j: int| 0 <= j < i ==> a[j] == b[j],
        a[i] < b[i],
    ensures
        label::lex_less(a, b),
        !label::lex_less(b, a),
    decreases i,
{
    if i > 0 {
        let x = a.drop_first();
        let y = b.drop_first();
        assert(a[0] == b[0]);
        assert forall|j: int| 0 <= j < i - 1 implies x[j] == y[j] by {
            assert(x[j] == a[j + 1]);
            assert(y[j] == b[j + 1]);
        }
        law_smaller(x, y, i - 1);
    }
}

/// The label of a link is the hash of the smaller hardware address, the larger one and the
/// destination, filled up with zeros to 164 bytes, whichever end computes it.
pub proof fn law_link_label(lo: Seq<u8>, hi: Seq<u8>, dst_addr: Seq<u8>, zeros: Seq<u8>)
    requires
        lo.len() == 6,
        hi.len() == 6,
        lo == hi || label::lex_less(lo, hi),
        dst_addr.len() + zeros.len() == 152,
        forall|i: int| 0 <= i < zeros.len() ==> zeros[i] == 0,
    ensures
        label::link_hash(lo, hi, dst_addr) == label::fnv(lo + hi + dst_addr + zeros),
        label::link_hash(hi, lo, dst_addr) == label::fnv(lo + hi + dst_addr + zeros),
{
    label::lemma_lex_total(lo, hi);
    label::law_link_hash_symmetric(lo, hi, dst_addr);
    assert(label::link_key(lo, hi, dst_addr) =~= lo + hi + dst_addr + zeros);
}

/// No hardware address is smaller than itself.
pub proof fn law_not_smaller(a: Seq<u8>)
    ensures
        !label::lex_less(a, a),
    decreases a.len(),
{
    if a.len() > 0 {
        law_not_smaller(a.drop_first());
    }
}

/// The labels with a meaning of their own.
pub proof fn law_special_labels()
    ensures
        label::label::UNKNOWN == 0,
        label::label::EGRESS == u64::MAX,
        label::label::MIN_USER == 32,
{
}

} // verus!
