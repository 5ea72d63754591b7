//! The fast path: what is done with a frame before the daemon sees it.
use crate::bytes;
use crate::forward::ForwardEntry;
use crate::cfg;
use crate::forward;
use crate::header::{NhipHeader, NHIP_ETHERTYPE, NHIP_HEADER_LEN};
use crate::header;
use crate::label::label;
use vstd::prelude::*;

pub mod laws;

verus! {

/// The length of an Ethernet header.
pub const ETH_LEN: usize = 14;

/// What happens to a rewritten frame.
#[derive(Debug, Clone, Copy, PartialEq, Eq, Structural)]
pub enum XdpAction {
    /// It is dropped.
    Drop,
    /// It goes out over the interface that it was redirected to.
    Redirect,
}

/// Whether the fast path knows the frame `s`: an NHIP header behind an Ethernet header whose
/// type, in the order of the host, is that of NHIP.
pub open spec fn is_nhip(s: Seq<u8>) -> bool {
    &&& s.len() >= ETH_LEN + NHIP_HEADER_LEN
    &&& bytes::native_value(s.subrange(12, 14)) == NHIP_ETHERTYPE
}

/// The label of the frame `s`: most significant byte first.
pub open spec fn label_of(s: Seq<u8>) -> nat {
    bytes::be_value(s.subrange(ETH_LEN + 6, ETH_LEN + 14))
}

/// The label to look up for a frame; without one the frame goes to the daemon.
pub fn lookup_label(frame: &[u8]) -> (res: Option<u64>)
    ensures
        match res {
            Some(l) => is_nhip(frame@) && l == label_of(frame@) && l != label::UNKNOWN,
            None => !is_nhip(frame@) || label_of(frame@) == label::UNKNOWN,
        },
{
    if frame.len() < ETH_LEN {
        return None;
    }
    if bytes::read_u16(vstd::slice::slice_subrange(frame, 12, 14)) != NHIP_ETHERTYPE {
        return None;
    }
    if frame.len() < ETH_LEN + NHIP_HEADER_LEN {
        return None;
    }
    let l: u64 = bytes::u64_from_be(vstd::slice::slice_subrange(frame, ETH_LEN + 6, ETH_LEN + 14));
    if l == label::UNKNOWN {
        None
    } else {
        Some(l)
    }
}

/// The frame `s` on its next link: the label and the destination are those of the FastPath
/// entry, and the source is that of the outgoing interface where it is known.
pub open spec fn rewritten(s: Seq<u8>, entry: ForwardEntry, src_mac: Option<[u8; 6]>) -> Seq<u8> {
    entry.dmac@ + (match src_mac {
        Some(m) => m@,
        None => s.subrange(6, 12),
    }) + s.subrange(12, ETH_LEN + 6) + bytes::be_bytes(entry.next_label as nat, 8) + s.skip(
        ETH_LEN + 14,
    )
}

/// The eight bytes of `x`, most significant first.
fn label_bytes(x: u64) -> (res: [u8; 8])
    ensures
        res@ == bytes::be_bytes(x as nat, 8),
{
    let hi: u32 = (x / 0x1_0000_0000) as u32;
    let lo: u32 = (x % 0x1_0000_0000) as u32;
    let a = bytes::u32_to_le(hi);
    let b = bytes::u32_to_le(lo);
    let res: [u8; 8] = [a[3], a[2], a[1], a[0], b[3], b[2], b[1], b[0]];
    proof {
        bytes::lemma_pow256();
        bytes::lemma_le_bytes_split(x as nat, 4, 4);
        bytes::lemma_bytes_len(x as nat, 8);
        bytes::lemma_bytes_len(hi as nat, 4);
        bytes::lemma_bytes_len(lo as nat, 4);
        assert(res@ =~= bytes::be_bytes(x as nat, 8));
    }
    res
}

/// Rewrites a frame for which the FastPath table has an entry. The result is the interface that
/// it goes to; without one the frame has reached its destination network and goes to the
/// daemon as it is.
///
/// * `entry` - what the table has for the label of the frame
/// * `src_mac` - the hardware address of the outgoing interface, if it is known
pub fn rewrite(frame: &mut [u8], entry: &ForwardEntry, src_mac: Option<[u8; 6]>) -> (res: Option<
    u32,
>)
    requires
        old(frame)@.len() >= ETH_LEN + NHIP_HEADER_LEN,
    ensures
        match res {
            Some(ifindex) => {
                &&& entry.next_label != label::EGRESS
                &&& ifindex == entry.ifindex
                &&& final(frame)@ == rewritten(old(frame)@, *entry, src_mac)
            },
            None => entry.next_label == label::EGRESS && final(frame)@ == old(frame)@,
        },
{
    if entry.next_label == label::EGRESS {
        return None;
    }
    let ghost start = frame@;
    let l = label_bytes(entry.next_label);
    for i in 0..8usize
        invariant
            frame@.len() == start.len() >= ETH_LEN + NHIP_HEADER_LEN,
            forall|j: int|
                0 <= j < start.len() ==> #[trigger] frame@[j] == (if ETH_LEN + 6 <= j < ETH_LEN + 6
                    + i {
                    l@[j - ETH_LEN - 6]
                } else {
                    start[j]
                }),
    {
        frame[ETH_LEN + 6 + i] = l[i];
    }
    let ghost labelled = frame@;
    for i in 0..6usize
        invariant
            frame@.len() == labelled.len() >= ETH_LEN + NHIP_HEADER_LEN,
            forall|j: int|
                0 <= j < labelled.len() ==> #[trigger] frame@[j] == (if j < i {
                    entry.dmac@[j]
                } else {
                    labelled[j]
                }),
    {
        frame[i] = entry.dmac[i];
    }
    match src_mac {
        Some(m) => {
            let ghost aimed = frame@;
            for i in 0..6usize
                invariant
                    frame@.len() == aimed.len() >= ETH_LEN + NHIP_HEADER_LEN,
                    forall|j: int|
                        0 <= j < aimed.len() ==> #[trigger] frame@[j] == (if 6 <= j < 6 + i {
                            m@[j - 6]
                        } else {
                            aimed[j]
                        }),
            {
                frame[6 + i] = m[i];
            }
        },
        None => {},
    }
    assert(frame@ =~= rewritten(start, *entry, src_mac));
    Some(entry.ifindex)
}

/// What happens to a rewritten frame, where `code` is what the redirection returned.
pub fn redirect_action(code: i64) -> (res: XdpAction)
    ensures
        res == (if code == 0 {
            XdpAction::Redirect
        } else {
            XdpAction::Drop
        }),
{
    if code == 0 {
        XdpAction::Redirect
    } else {
        XdpAction::Drop
    }
}

/// Rewriting a frame changes its hardware addresses and its label and nothing else, and the new
/// label is the one that the next host looks up.
pub proof fn law_rewrite(s: Seq<u8>, entry: ForwardEntry, src_mac: Option<[u8; 6]>)
    requires
        s.len() >= ETH_LEN + NHIP_HEADER_LEN,
    ensures
        rewritten(s, entry, src_mac).len() == s.len(),
        rewritten(s, entry, src_mac).take(6) == entry.dmac@,
        forall|i: int|
            12 <= i < ETH_LEN + 6 || ETH_LEN + 14 <= i < s.len() ==> rewritten(s, entry, src_mac)[i]
                == s[i],
        label_of(rewritten(s, entry, src_mac)) == entry.next_label,
        is_nhip(s) ==> is_nhip(rewritten(s, entry, src_mac)),
{
    let t = rewritten(s, entry, src_mac);
    bytes::lemma_label_round_trip(entry.next_label);
    assert(t.take(6) =~= entry.dmac@);
    assert(t.subrange(ETH_LEN + 6, ETH_LEN + 14) =~= bytes::be_bytes(
        entry.next_label as nat,
        8,
    ));
    assert(t.subrange(12, 14) =~= s.subrange(12, 14));
}

/// The key under which the slow path enters a packet into the FastPath table is the label that
/// the fast path looks up for a frame with the same header.
pub proof fn law_fastpath_key(eth: Seq<u8>, h: NhipHeader, rest: Seq<u8>)
    requires
        eth.len() == ETH_LEN,
    ensures
        label_of(eth + header::header_bytes(h) + rest) == forward::wire_label(h),
{
    let s = eth + header::header_bytes(h) + rest;
    header::law_header_round_trip(h);
    bytes::lemma_machine_round_trip(h.payload_length, 0, h.link_label);
    assert(s.subrange(ETH_LEN + 6, ETH_LEN + 14) =~= bytes::native_bytes(
        h.link_label as nat,
        8,
    ));
}

/// The fast path knows an NHIP frame exactly if the host keeps the EtherType in memory as it
/// stands in the frame.
pub proof fn law_known_frames(src: Seq<u8>, dst: Seq<u8>, body: Seq<u8>)
    requires
        src.len() == 6,
        dst.len() == 6,
        body.len() >= NHIP_HEADER_LEN,
    ensures
        is_nhip(cfg::eth_header(src, dst, NHIP_ETHERTYPE) + body) <==> bytes::native_bytes(
            NHIP_ETHERTYPE as nat,
            2,
        ) == bytes::be_bytes(NHIP_ETHERTYPE as nat, 2),
{
    let s = cfg::eth_header(src, dst, NHIP_ETHERTYPE) + body;
    let t = bytes::be_bytes(NHIP_ETHERTYPE as nat, 2);
    bytes::lemma_machine_round_trip(NHIP_ETHERTYPE, 0, 0);
    bytes::lemma_bytes_of_value(t);
    assert(s.subrange(12, 14) =~= t);
}

} // verus!
