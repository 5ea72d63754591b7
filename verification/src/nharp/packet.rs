//! The NHARP packet.
use crate::bytes;
use vstd::prelude::*;

verus! {

/// The length of an NHARP packet.
pub const NHARP_PACKET_LEN: usize = 15;

/// A question for, or an announcement of, the hardware address of a node.
#[derive(Debug, Clone, Copy)]
pub struct NharpPacket {
    pub oper: u8,
    pub target_node_id: u32,
    pub source_node_id: u32,
    pub source_mac: [u8; 6],
}

/// The bytes of a packet: the fields in order, each number in the order of the host.
pub open spec fn packet_bytes(p: NharpPacket) -> Seq<u8> {
    seq![p.oper] + bytes::native_bytes(p.target_node_id as nat, 4)
        + bytes::native_bytes(p.source_node_id as nat, 4) + p.source_mac@
}

/// Whether `p` is the packet that the bytes `s` hold.
pub open spec fn is_packet_of(p: NharpPacket, s: Seq<u8>) -> bool {
    &&& p.oper == s[0]
    &&& p.target_node_id == bytes::native_value(s.subrange(1, 5))
    &&& p.source_node_id == bytes::native_value(s.subrange(5, 9))
    &&& p.source_mac@ == s.subrange(9, 15)
}

impl NharpPacket {
    /// The length of a packet.
    pub const SIZE: usize = NHARP_PACKET_LEN;

    /// Whether the packet asks.
    pub fn is_request(&self) -> (res: bool)
        ensures
            res == (self.oper == 1),
    {
        self.oper == 1
    }

    /// Whether the packet answers.
    pub fn is_reply(&self) -> (res: bool)
        ensures
            res == (self.oper == 2),
    {
        self.oper == 2
    }

    /// The answer that `src_node_id` is at `src_mac`, for `dst_node_id`.
    pub fn new_reply(src_node_id: u32, src_mac: [u8; 6], dst_node_id: u32) -> (res: Self)
        ensures
            res == (NharpPacket {
                oper: 2,
                target_node_id: dst_node_id,
                source_node_id: src_node_id,
                source_mac: src_mac,
            }),
    {
        NharpPacket {
            oper: 2,
            target_node_id: dst_node_id,
            source_node_id: src_node_id,
            source_mac: src_mac,
        }
    }

    /// The question of `src_node_id`, at `src_mac`, where `dst_node_id` is.
    pub fn new_request(src_node_id: u32, src_mac: [u8; 6], dst_node_id: u32) -> (res: Self)
        ensures
            res == (NharpPacket {
                oper: 1,
                target_node_id: dst_node_id,
                source_node_id: src_node_id,
                source_mac: src_mac,
            }),
    {
        NharpPacket {
            oper: 1,
            target_node_id: dst_node_id,
            source_node_id: src_node_id,
            source_mac: src_mac,
        }
    }

    /// The bytes of the packet.
    pub fn to_bytes(&self) -> (res: Vec<u8>)
        ensures
            res@ == packet_bytes(*self),
    {
        let mut res: Vec<u8> = Vec::new();
        res.push(self.oper);
        assert(res@ =~= seq![self.oper]);
        bytes::append(&mut res, bytes::bytes_of_u32(&self.target_node_id));
        bytes::append(&mut res, bytes::bytes_of_u32(&self.source_node_id));
        bytes::append(&mut res, self.source_mac.as_slice());
        res
    }

    /// The packet that fifteen bytes hold.
    pub fn from_bytes(data: &[u8]) -> (res: Self)
        requires
            data@.len() == NHARP_PACKET_LEN,
        ensures
            is_packet_of(res, data@),
    {
        let source_mac: [u8; 6] = [data[9], data[10], data[11], data[12], data[13], data[14]];
        assert(source_mac@ =~= data@.subrange(9, 15));
        NharpPacket {
            oper: data[0],
            target_node_id: bytes::read_u32(vstd::slice::slice_subrange(data, 1, 5)),
            source_node_id: bytes::read_u32(vstd::slice::slice_subrange(data, 5, 9)),
            source_mac,
        }
    }
}

/// A packet has [`NHARP_PACKET_LEN`] bytes, and only it is read out of them.
pub proof fn law_packet_round_trip(p: NharpPacket, q: NharpPacket)
    ensures
        packet_bytes(p).len() == NHARP_PACKET_LEN,
        is_packet_of(q, packet_bytes(p)) <==> p == q,
{
    bytes::lemma_machine_round_trip(0, p.target_node_id, 0);
    bytes::lemma_machine_round_trip(0, p.source_node_id, 0);
    let s = packet_bytes(p);
    assert(s.subrange(1, 5) =~= bytes::native_bytes(p.target_node_id as nat, 4));
    assert(s.subrange(5, 9) =~= bytes::native_bytes(p.source_node_id as nat, 4));
    assert(s.subrange(9, 15) =~= p.source_mac@);
    if is_packet_of(q, s) {
        assert forall|i: int| 0 <= i < 6 implies q.source_mac[i] == p.source_mac[i] by {
            assert(q.source_mac@[i] == p.source_mac@[i]);
        }
        assert(q.source_mac =~= p.source_mac);
    }
}

/// Bytes that were read as a packet are written again as they were.
pub proof fn law_packet_bytes_round_trip(p: NharpPacket, s: Seq<u8>)
    requires
        s.len() == NHARP_PACKET_LEN,
        is_packet_of(p, s),
    ensures
        packet_bytes(p) == s,
{
    bytes::lemma_bytes_of_value(s.subrange(1, 5));
    bytes::lemma_bytes_of_value(s.subrange(5, 9));
    assert(packet_bytes(p) =~= s);
}

} // verus!
