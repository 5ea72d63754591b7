//! What the fast path promises of every frame.
use crate::bytes;
use crate::forward::ForwardEntry;
use crate::label;
use crate::xdp;
use vstd::prelude::*;

verus! {

/// The fast path knows a frame exactly if it has room for both headers and its type, in the order
/// of the host, is that of NHIP.
pub proof fn law_known(s: Seq<u8>)
    ensures
        s.len() < 32 ==> !xdp::is_nhip(s),
        s.len() >= 32 ==> (xdp::is_nhip(s) <==> s.subrange(12, 14) == bytes::native_bytes(
            0x88B5,
            2,
        )),
{
    if s.len() >= 32 {
        bytes::lemma_bytes_of_value(s.subrange(12, 14));
        bytes::lemma_machine_round_trip(0x88B5, 0, 0);
    }
}

/// The label of a frame stands in its bytes 20 to 27, most significant first.
pub proof fn law_label(s: Seq<u8>, l: u64)
    requires
        s.len() >= 32,
    ensures
        xdp::label_of(s) == l <==> s.subrange(20, 28) == bytes::be_bytes(l as nat, 8),
        label::label::UNKNOWN == 0,
        label::label::EGRESS == u64::MAX,
{
    bytes::lemma_bytes_of_value(s.subrange(20, 28));
    bytes::lemma_label_round_trip(l);
}

/// A rewritten frame goes to the hardware address of the entry, from that of the outgoing interface
/// where it is known, with the label of the entry. Every other byte is as it was.
pub proof fn law_rewritten(s: Seq<u8>, entry: ForwardEntry, src_mac: Option<[u8; 6]>)
    requires
        s.len() >= 32,
    ensures
        ({
            let t = xdp::rewritten(s, entry, src_mac);
            &&& t.len() == s.len()
            &&& t.take(6) == entry.dmac@
            &&& src_mac matches Some(m) ==> t.subrange(6, 12) == m@
            &&& src_mac is None ==> t.subrange(6, 12) == s.subrange(6, 12)
            &&& t.subrange(12, 20) == s.subrange(12, 20)
            &&& t.subrange(20, 28) == bytes::be_bytes(entry.next_label as nat, 8)
            &&& t.skip(28) == s.skip(28)
        }),
{
    let t = xdp::rewritten(s, entry, src_mac);
    bytes::lemma_label_round_trip(entry.next_label);
    assert(t.take(6) =~= entry.dmac@);
    match src_mac {
        Some(m) => {
            assert(t.subrange(6, 12) =~= m@);
        },
        None => {
            assert(t.subrange(6, 12) =~= s.subrange(6, 12));
        },
    }
    assert(t.subrange(12, 20) =~= s.subrange(12, 20));
    assert(t.subrange(20, 28) =~= bytes::be_bytes(entry.next_label as nat, 8));
    assert(t.skip(28) =~= s.skip(28));
}

} // verus!
