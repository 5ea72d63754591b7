//! NHARP at work: what is learnt from a packet, and the frames that ask and answer.
use crate::bytes;
use crate::cfg::{
    build_eth_header, is_my_node_id, pick_node_id_for_netpart, AddressEntry, AddressView,
};
use crate::cfg;
use crate::nharp::packet::NharpPacket;
use crate::nharp::packet;
use vstd::prelude::*;

pub mod laws;

verus! {

/// A hardware address in the NHARP cache.
#[derive(Clone, Copy, PartialEq, Eq, Hash)]
pub struct NharpEntry {
    pub mac: [u8; 6],
    pub _pad: [u8; 2],
}

/// A node in the NHARP cache: the interface that leads to it, and its NodeID.
#[derive(Clone, Copy, PartialEq, Eq, Hash)]
pub struct NharpKey {
    pub ifindex: u32,
    pub node_id: u32,
}

/// The NodeID that a field of a packet stands for: the bytes of the field, most significant
/// first.
pub open spec fn wire_id(field: u32) -> nat {
    bytes::be_value(bytes::native_bytes(field as nat, 4))
}

/// Reads the NodeID in a field of a packet.
pub fn read_wire_id(field: u32) -> (res: u32)
    ensures
        res == wire_id(field),
{
    proof {
        bytes::lemma_bytes_len(field as nat, 4);
    }
    bytes::u32_from_be(bytes::bytes_of_u32(&field))
}

/// The entry for the NHARP cache that says that `node_id`, over the interface `ifindex`, is at
/// `mac`.
pub fn nharp_insert(ifindex: u32, node_id: u32, mac: [u8; 6]) -> (res: (NharpKey, NharpEntry))
    ensures
        res.0 == (NharpKey { ifindex, node_id }),
        res.1.mac == mac,
        res.1._pad@ == seq![0u8, 0u8],
{
    let entry = NharpEntry { mac, _pad: [0; 2] };
    assert(entry._pad@ =~= seq![0u8, 0u8]);
    (NharpKey { ifindex, node_id }, entry)
}

/// The key in the NHARP cache for the sender of a packet from the interface `ifindex`.
pub open spec fn sender_key(ifindex: u32, packet: NharpPacket) -> NharpKey {
    NharpKey { ifindex, node_id: wire_id(packet.source_node_id) as u32 }
}

/// The entry for the NHARP cache that a packet from the interface `ifindex` gives: where its
/// sender is.
pub fn learn_sender(ifindex: u32, packet: &NharpPacket) -> (res: (NharpKey, NharpEntry))
    ensures
        res.0 == sender_key(ifindex, *packet),
        res.1.mac == packet.source_mac,
        res.1._pad@ == seq![0u8, 0u8],
{
    nharp_insert(ifindex, read_wire_id(packet.source_node_id), packet.source_mac)
}

/// A reply that is owed.
#[derive(Clone, Copy)]
pub struct ReplyOwed {
    pub remote_mac: [u8; 6],
    pub remote_node_id: u32,
    pub local_node_id: u32,
}

/// Whether a packet that came in on the interface `ifname` is a request for one of the NodeIDs
/// of that interface.
pub open spec fn asks_for_us(
    packet: NharpPacket,
    config: Seq<AddressView>,
    ifname: Seq<char>,
) -> bool {
    packet.oper == 1 && cfg::has_node_id(
        cfg::iface_addrs(config, ifname),
        wire_id(packet.target_node_id) as u32,
    )
}

/// The reply that a packet from the interface `ifname` calls for: one is owed exactly if the
/// packet is a request and its target is one of the NodeIDs of the interface.
pub fn handle_nharp(packet: &NharpPacket, config: &[AddressEntry], ifname: &str) -> (res: Option<
    ReplyOwed,
>)
    ensures
        res is Some <==> asks_for_us(*packet, cfg::address_table(config@), ifname@),
        res matches Some(r) ==> {
            &&& r.remote_mac == packet.source_mac
            &&& r.remote_node_id == wire_id(packet.source_node_id)
            &&& r.local_node_id == wire_id(packet.target_node_id)
        },
{
    let remote_node_id: u32 = read_wire_id(packet.source_node_id);
    let local_node_id: u32 = read_wire_id(packet.target_node_id);
    if packet.is_request() && is_my_node_id(config, ifname, local_node_id) {
        Some(ReplyOwed { remote_mac: packet.source_mac, remote_node_id, local_node_id })
    } else {
        None
    }
}

/// The packet that asks for `remote_node_id`.
pub open spec fn request_packet(
    local_node_id: u32,
    local_mac: [u8; 6],
    remote_node_id: u32,
) -> NharpPacket {
    NharpPacket {
        oper: 1,
        target_node_id: remote_node_id,
        source_node_id: local_node_id,
        source_mac: local_mac,
    }
}

/// The packet that tells `remote_node_id` where `local_node_id` is.
pub open spec fn reply_packet(
    local_node_id: u32,
    local_mac: [u8; 6],
    remote_node_id: u32,
) -> NharpPacket {
    NharpPacket {
        oper: 2,
        target_node_id: remote_node_id,
        source_node_id: local_node_id,
        source_mac: local_mac,
    }
}

/// The frame with the packet `p` from `src` to `dst`.
pub open spec fn nharp_frame(src: Seq<u8>, dst: Seq<u8>, ether_type: u16, p: NharpPacket) -> Seq<
    u8,
> {
    cfg::eth_header(src, dst, ether_type) + packet::packet_bytes(p)
}

fn build_frame(src: [u8; 6], dst: [u8; 6], ether_type: u16, p: &NharpPacket) -> (res: Vec<u8>)
    ensures
        res@ == nharp_frame(src@, dst@, ether_type, *p),
{
    let eth = build_eth_header(src, dst, ether_type);
    let mut buf: Vec<u8> = Vec::new();
    bytes::append(&mut buf, eth.as_slice());
    let payload = p.to_bytes();
    bytes::append(&mut buf, payload.as_slice());
    assert(buf@ =~= nharp_frame(src@, dst@, ether_type, *p));
    buf
}

/// The frame that tells a remote node that `local_node_id` is at `local_mac`.
///
/// * `remote_mac`, `remote_node_id` - the node that asked
/// * `local_mac`, `local_node_id` - what is announced
/// * `ether_type` - the EtherType of NHARP
pub fn nharp_send_reply(
    remote_mac: [u8; 6],
    remote_node_id: u32,
    local_mac: [u8; 6],
    local_node_id: u32,
    ether_type: u16,
) -> (res: Vec<u8>)
    ensures
        res@ == nharp_frame(
            local_mac@,
            remote_mac@,
            ether_type,
            reply_packet(local_node_id, local_mac, remote_node_id),
        ),
{
    let p = NharpPacket::new_reply(local_node_id, local_mac, remote_node_id);
    build_frame(local_mac, remote_mac, ether_type, &p)
}

/// The frame that asks every node of the link where `remote_node_id` is.
///
/// * `local_mac`, `local_node_id` - the node that asks
/// * `ether_type` - the EtherType of NHARP
pub fn nharp_send_request(
    local_node_id: u32,
    local_mac: [u8; 6],
    remote_node_id: u32,
    ether_type: u16,
) -> (res: Vec<u8>)
    ensures
        res@ == nharp_frame(
            local_mac@,
            Seq::new(6, |i: int| 0xFFu8),
            ether_type,
            request_packet(local_node_id, local_mac, remote_node_id),
        ),
{
    let p = NharpPacket::new_request(local_node_id, local_mac, remote_node_id);
    let all: [u8; 6] = [0xFF; 6];
    assert(all@ =~= Seq::new(6, |i: int| 0xFFu8));
    build_frame(local_mac, all, ether_type, &p)
}

/// The frame that asks every node of the link where `remote_node_id` is, in the name of the local
/// NodeID in the network `net`; nothing where this host has none there.
///
/// * `candidates` - the network parts and NodeIDs of the outgoing interface
/// * `local_mac` - the hardware address of the outgoing interface
/// * `ether_type` - the EtherType of NHARP
pub fn request_for(
    candidates: &[(String, u32)],
    net: &str,
    local_mac: [u8; 6],
    remote_node_id: u32,
    ether_type: u16,
) -> (res: Option<Vec<u8>>)
    ensures
        match cfg::first_node_id(candidates@, net@) {
            None => res is None,
            Some(local_node_id) => res is Some && res.unwrap()@ == nharp_frame(
                local_mac@,
                Seq::new(6, |i: int| 0xFFu8),
                ether_type,
                request_packet(local_node_id, local_mac, remote_node_id),
            ),
        },
{
    match pick_node_id_for_netpart(candidates, net) {
        None => None,
        Some(local_node_id) => Some(
            nharp_send_request(local_node_id, local_mac, remote_node_id, ether_type),
        ),
    }
}

/// A NodeID reads back from the field that it was written to, in the order of the host, exactly
/// if its bytes are the same in both directions or the host keeps the most significant byte
/// first.
pub proof fn law_wire_id(id: u32)
    ensures
        wire_id(id) == id <==> bytes::native_bytes(id as nat, 4) == bytes::be_bytes(id as nat, 4),
{
    bytes::lemma_machine_round_trip(0, id, 0);
    let s = bytes::native_bytes(id as nat, 4);
    bytes::lemma_bytes_of_value(s);
}

} // verus!
