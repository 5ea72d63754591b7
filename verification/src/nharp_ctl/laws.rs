//! What NHARP promises of every packet and every configuration.
use crate::addr;
use crate::bytes;
use crate::cfg::AddressView;
use crate::cfg;
use crate::nharp::packet::NharpPacket;
use crate::nharp::packet;
use crate::nharp_ctl;
use crate::number;
use crate::text;
use vstd::prelude::*;
use vstd::utf8::*;

verus! {

/// A field whose bytes are those of a NodeID, most significant first, stands for that NodeID.
pub proof fn law_field(field: u32, id: u32)
    ensures
        nharp_ctl::wire_id(field) == id <==> bytes::native_bytes(field as nat, 4)
            == bytes::be_bytes(id as nat, 4),
{
    bytes::lemma_machine_round_trip(0, id, 0);
    bytes::lemma_machine_round_trip(0, field, 0);
    bytes::lemma_bytes_of_value(bytes::native_bytes(field as nat, 4));
}

/// What is learnt from a packet is where its sender is: the NodeID in its source field, over the
/// interface that it came in on.
pub proof fn law_sender(ifindex: u32, p: NharpPacket, id: u32)
    ensures
        nharp_ctl::sender_key(ifindex, p).ifindex == ifindex,
        nharp_ctl::sender_key(ifindex, p).node_id == id <==> bytes::native_bytes(
            p.source_node_id as nat,
            4,
        ) == bytes::be_bytes(id as nat, 4),
{
    law_field(p.source_node_id, id);
    bytes::lemma_bytes_len(p.source_node_id as nat, 4);
    bytes::lemma_machine_bounds(bytes::native_bytes(p.source_node_id as nat, 4));
}

/// A packet calls for a reply exactly if it is a request and an address of the interface that it
/// came in on names the NodeID in its target field. Its sender plays no part in that.
pub proof fn law_reply_is_owed(p: NharpPacket, config: Seq<AddressView>, ifname: Seq<char>, id: u32)
    requires
        bytes::native_bytes(p.target_node_id as nat, 4) == bytes::be_bytes(id as nat, 4),
    ensures
        nharp_ctl::asks_for_us(p, config, ifname) <==> p.oper == 1 && exists|a: Seq<char>| #[trigger]
            cfg::laws::has_address(config, ifname, a) && cfg::laws::names_node(a, id),
{
    let addrs = cfg::iface_addrs(config, ifname);
    law_field(p.target_node_id, id);
    cfg::laws::law_has_node_id(addrs, id);
    if cfg::has_node_id(addrs, id) {
        let i = choose|i: int|
            0 <= i < addrs.len() && cfg::laws::names_node(#[trigger] addrs[i], id);
        assert(addrs.contains(addrs[i]));
        cfg::laws::law_iface_has(config, ifname, addrs[i]);
    }
    if exists|a: Seq<char>| #[trigger]
        cfg::laws::has_address(config, ifname, a) && cfg::laws::names_node(a, id) {
        let a = choose|a: Seq<char>| #[trigger]
            cfg::laws::has_address(config, ifname, a) && cfg::laws::names_node(a, id);
        cfg::laws::law_iface_has(config, ifname, a);
        let i = choose|i: int| 0 <= i < addrs.len() && addrs[i] == a;
        assert(cfg::laws::names_node(addrs[i], id));
    }
}

/// A request for the NodeID of a configured address `net:id` calls for a reply.
pub proof fn law_own_node_is_announced(
    p: NharpPacket,
    config: Seq<AddressView>,
    ifname: Seq<char>,
    net: Seq<char>,
    id: u32,
)
    requires
        p.oper == 1,
        bytes::native_bytes(p.target_node_id as nat, 4) == bytes::be_bytes(id as nat, 4),
        cfg::laws::has_address(config, ifname, net.push(':') + number::dec_text(id as nat)),
    ensures
        nharp_ctl::asks_for_us(p, config, ifname),
{
    let digits = number::dec_text(id as nat);
    let a = net.push(':') + digits;
    addr::law_decimal_node_id(id);
    number::law_decimal_round_trip(id as nat);
    assert forall|i: int| 0 <= i < digits.len() implies digits[i] != ':' by {
        assert(number::digit_value(digits[i], 10) is Some);
    }
    assert(cfg::laws::names_node(a, id)) by {
        assert(text::laws::is_free(digits, ':'));
        assert(a == net.push(':') + digits || a == digits);
    }
    law_reply_is_owed(p, config, ifname, id);
}

/// A request is operation 1 and a reply operation 2. Both name the remote node as their target, and
/// the local node and its hardware address as their sender.
pub proof fn law_packets(local_node_id: u32, local_mac: [u8; 6], remote_node_id: u32)
    ensures
        ({
            let q = nharp_ctl::request_packet(local_node_id, local_mac, remote_node_id);
            let r = nharp_ctl::reply_packet(local_node_id, local_mac, remote_node_id);
            &&& q.oper == 1 && r.oper == 2
            &&& q.target_node_id == remote_node_id && r.target_node_id == remote_node_id
            &&& q.source_node_id == local_node_id && r.source_node_id == local_node_id
            &&& q.source_mac == local_mac && r.source_mac == local_mac
        }),
{
}

/// The frame of a packet goes from the one hardware address to the other under the type of NHARP.
pub proof fn law_frame(src: Seq<u8>, dst: Seq<u8>, ether_type: u16, p: NharpPacket)
    requires
        src.len() == 6,
        dst.len() == 6,
    ensures
        ({
            let s = nharp_ctl::nharp_frame(src, dst, ether_type, p);
            &&& s.len() == 29
            &&& s.take(6) == dst
            &&& s.subrange(6, 12) == src
            &&& s[12] == ether_type / 256
            &&& s[13] == ether_type % 256
            &&& s.skip(14) == packet::packet_bytes(p)
        }),
{
    let s = nharp_ctl::nharp_frame(src, dst, ether_type, p);
    let eth = cfg::eth_header(src, dst, ether_type);
    cfg::laws::law_eth_header(src, dst, ether_type);
    packet::law_packet_round_trip(p, p);
    assert(s.take(6) =~= eth.take(6));
    assert(s.subrange(6, 12) =~= eth.subrange(6, 12));
    assert(s[12] == eth[12] && s[13] == eth[13]);
    assert(s.skip(14) =~= packet::packet_bytes(p));
}

} // verus!
