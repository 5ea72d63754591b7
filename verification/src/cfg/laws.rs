//! What the configuration and what is read out of it promise, whatever is configured.
use crate::addr;
use crate::bytes;
use crate::cfg::{AddressView, MacErr, RouteView, RoutingProto, TildeErr};
use crate::cfg;
use crate::header;
use crate::number;
use crate::text;
use vstd::prelude::*;
use vstd::string::*;
use vstd::utf8::*;

verus! {

/// Whether `config` gives the address `a` to the interface `ifname`.
pub open spec fn has_address(config: Seq<AddressView>, ifname: Seq<char>, a: Seq<char>) -> bool {
    exists|k: int|
        0 <= k < config.len() && (#[trigger] config[k]).ifname == ifname
            && config[k].addresses.contains(a)
}

/// The addresses of an interface are those of all its entries, and of no others.
pub proof fn law_iface_has(config: Seq<AddressView>, ifname: Seq<char>, a: Seq<char>)
    ensures
        cfg::iface_addrs(config, ifname).contains(a) <==> has_address(config, ifname, a),
    decreases config.len(),
{
    if config.len() > 0 {
        let init = config.drop_last();
        let e = config.last();
        law_iface_has(init, ifname, a);
        text::lemma_concat_contains(cfg::iface_addrs(init, ifname), e.addresses, a);
        if has_address(init, ifname, a) {
            let k = choose|k: int|
                0 <= k < init.len() && (#[trigger] init[k]).ifname == ifname
                    && init[k].addresses.contains(a);
            assert(config[k].ifname == ifname && config[k].addresses.contains(a));
        }
        if e.ifname == ifname && e.addresses.contains(a) {
            assert(config[config.len() - 1].ifname == ifname);
        }
        if has_address(config, ifname, a) {
            let k = choose|k: int|
                0 <= k < config.len() && (#[trigger] config[k]).ifname == ifname
                    && config[k].addresses.contains(a);
            if k < init.len() {
                assert(init[k].ifname == ifname && init[k].addresses.contains(a));
            }
        }
    }
}

/// The addresses of an interface stand in the order of the configuration.
pub proof fn law_iface_order(
    a: Seq<AddressView>,
    b: Seq<AddressView>,
    e: AddressView,
    ifname: Seq<char>,
)
    ensures
        cfg::iface_addrs(a + b, ifname) == cfg::iface_addrs(a, ifname) + cfg::iface_addrs(b, ifname),
        cfg::iface_addrs(seq![e], ifname) == (if e.ifname == ifname {
            e.addresses
        } else {
            Seq::empty()
        }),
    decreases b.len(),
{
    let none = Seq::<AddressView>::empty();
    assert(seq![e].drop_last() =~= none);
    assert(cfg::iface_addrs(none, ifname) =~= Seq::<Seq<char>>::empty());
    assert(Seq::<Seq<char>>::empty() + e.addresses =~= e.addresses);
    if b.len() == 0 {
        assert(a + b =~= a);
        assert(b =~= none);
        assert(cfg::iface_addrs(a, ifname) + cfg::iface_addrs(b, ifname) =~= cfg::iface_addrs(
            a,
            ifname,
        ));
    } else {
        law_iface_order(a, b.drop_last(), e, ifname);
        assert((a + b).drop_last() =~= a + b.drop_last());
        assert((a + b).last() == b.last());
        assert(cfg::iface_addrs(a + b, ifname) =~= cfg::iface_addrs(a, ifname) + cfg::iface_addrs(
            b,
            ifname,
        ));
    }
}

/// Whether the address `a` names the node `node_id`: behind its last colon, or as a whole where it
/// has none.
pub open spec fn names_node(a: Seq<char>, node_id: u32) -> bool {
    exists|net: Seq<char>, id: Seq<char>|
        #![trigger net.push(':') + id]
        {
            &&& text::laws::is_free(id, ':')
            &&& a == net.push(':') + id || a == id
            &&& addr::node_id_check(encode_utf8(id)) == Ok::<u32, addr::AddrErr>(node_id)
        }
}

/// What stands behind the last colon of an address.
pub proof fn lemma_last_colon(a: Seq<char>)
    ensures
        ({
            let id = text::after_last(a, ':');
            let p = text::last_pos(a, ':');
            &&& text::laws::is_free(id, ':')
            &&& p < 0 ==> a == id
            &&& p >= 0 ==> a == a.take(p).push(':') + id
        }),
{
    let p = text::last_pos(a, ':');
    let id = text::after_last(a, ':');
    text::laws::lemma_has_last(a, ':');
    assert forall|i: int| 0 <= i < id.len() implies id[i] != ':' by {
        assert(id[i] == a[p + 1 + i]);
    }
    if p < 0 {
        assert(id =~= a);
    } else {
        assert(a =~= a.take(p).push(':') + id);
    }
}

/// A NodeID is among the addresses exactly if one of them names it.
pub proof fn law_has_node_id(addrs: Seq<Seq<char>>, node_id: u32)
    ensures
        cfg::has_node_id(addrs, node_id) <==> exists|i: int|
            0 <= i < addrs.len() && names_node(#[trigger] addrs[i], node_id),
{
    if cfg::has_node_id(addrs, node_id) {
        let i = choose|i: int|
            0 <= i < addrs.len() && addr::node_id_check(
                encode_utf8(text::after_last(#[trigger] addrs[i], ':')),
            ) == Ok::<u32, addr::AddrErr>(node_id);
        let a = addrs[i];
        let p = text::last_pos(a, ':');
        let id = text::after_last(a, ':');
        lemma_last_colon(a);
        let net = if p < 0 {
            Seq::<char>::empty()
        } else {
            a.take(p)
        };
        assert(a == net.push(':') + id || a == id);
        assert(names_node(addrs[i], node_id));
    }
    if exists|i: int| 0 <= i < addrs.len() && names_node(#[trigger] addrs[i], node_id) {
        let i = choose|i: int| 0 <= i < addrs.len() && names_node(#[trigger] addrs[i], node_id);
        let a = addrs[i];
        let (net, id) = choose|net: Seq<char>, id: Seq<char>|
            #![trigger net.push(':') + id]
            {
                &&& text::laws::is_free(id, ':')
                &&& a == net.push(':') + id || a == id
                &&& addr::node_id_check(encode_utf8(id)) == Ok::<u32, addr::AddrErr>(node_id)
            };
        text::laws::law_around(net, ':', id);
        assert(text::after_last(addrs[i], ':') == id);
    }
}

/// Six hexadecimal numbers of at most 255 between colons are a hardware address, in that order.
/// Any other number of texts between colons, and any other text there, are refused.
pub proof fn law_mac(v: Seq<Seq<char>>, i: int)
    requires
        v.len() >= 1,
        forall|j: int| 0 <= j < v.len() ==> text::laws::is_free(#[trigger] v[j], ':'),
    ensures
        ({
            let res = cfg::mac_value(text::joined(v, seq![':']));
            let octets = forall|j: int|
                0 <= j < v.len() ==> number::bounded_value(#[trigger] v[j], 16, 255) is Some;
            &&& v.len() != 6 ==> res == Err::<Seq<u8>, MacErr>(MacErr::Parts)
            &&& v.len() == 6 && !octets ==> res == Err::<Seq<u8>, MacErr>(MacErr::Octet)
            &&& v.len() == 6 && octets ==> res is Ok && res.unwrap().len() == 6
            &&& v.len() == 6 && octets && 0 <= i < 6 ==> Some(res.unwrap()[i] as nat)
                == number::bounded_value(v[i], 16, 255)
        }),
{
    text::laws::law_join_then_split(v, ':');
}

/// The NodeID for a network is that of the first candidate in that network.
pub proof fn law_first_node_id(candidates: Seq<(String, u32)>, net: Seq<char>, i: int)
    requires
        0 <= i <= candidates.len(),
        forall|j: int| 0 <= j < i ==> (#[trigger] candidates[j]).0@ != net,
        i < candidates.len() ==> candidates[i].0@ == net,
    ensures
        cfg::first_node_id(candidates, net) == (if i < candidates.len() {
            Some(candidates[i].1)
        } else {
            None
        }),
    decreases candidates.len(),
{
    if i > 0 {
        let rest = candidates.drop_first();
        assert(candidates[0].0@ != net);
        assert forall|j: int| 0 <= j < i - 1 implies (#[trigger] rest[j]).0@ != net by {
            assert(rest[j] == candidates[j + 1]);
        }
        law_first_node_id(rest, net, i - 1);
    }
}

/// An Ethernet header is the hardware address of the receiver, that of the sender, and the type
/// with its most significant byte first.
pub proof fn law_eth_header(src: Seq<u8>, dst: Seq<u8>, ether_type: u16)
    requires
        src.len() == 6,
        dst.len() == 6,
    ensures
        ({
            let s = cfg::eth_header(src, dst, ether_type);
            &&& s.len() == 14
            &&& s.take(6) == dst
            &&& s.subrange(6, 12) == src
            &&& s[12] == ether_type / 256
            &&& s[13] == ether_type % 256
        }),
{
    let s = cfg::eth_header(src, dst, ether_type);
    let hi = (ether_type / 256) as u8;
    let lo = (ether_type % 256) as u8;
    bytes::laws::law_big_endian(hi, lo, 0, 0);
    assert(0x100 * hi + lo == ether_type);
    assert(s.take(6) =~= dst);
    assert(s.subrange(6, 12) =~= src);
}

/// A new packet has version 1 and no flags, its pointer at the start, 64 hops and no label, and
/// announces the lengths of its parts, as far as sixteen bits say them.
pub proof fn law_fresh_header(next: u8, dst_len: nat, src_len: nat, payload_len: nat)
    ensures
        ({
            let h = cfg::fresh_header(next, dst_len, src_len, payload_len);
            &&& h.version_flags == 0x10
            &&& h.pointer == 0
            &&& h.ttl == 64
            &&& h.next_header == next
            &&& h.link_label == 0
            &&& dst_len <= 0xFFFF ==> h.dst_addr_len == dst_len
            &&& src_len <= 0xFFFF ==> h.src_addr_len == src_len
            &&& payload_len <= 0xFFFF ==> h.payload_length == payload_len
            &&& (dst_len - h.dst_addr_len) % 0x1_0000 == 0
            &&& (src_len - h.src_addr_len) % 0x1_0000 == 0
            &&& (payload_len - h.payload_length) % 0x1_0000 == 0
        }),
{
}

/// A built packet is a new header, the two addresses with the most significant byte of each NodeID
/// first, and the payload.
pub proof fn law_built_packet(
    src_addr: Seq<u8>,
    src_node_id: u32,
    dst_addr: Seq<u8>,
    dst_node_id: u32,
    payload: Seq<u8>,
)
    ensures
        ({
            let s = cfg::nhip_packet(src_addr, src_node_id, dst_addr, dst_node_id, payload);
            let n = 18 + dst_addr.len() as int;
            let m = n + 4 + src_addr.len() as int;
            &&& s.len() == m + 4 + payload.len()
            &&& s.take(18) == header::header_bytes(
                cfg::fresh_header(1, dst_addr.len(), src_addr.len(), payload.len()),
            )
            &&& s.subrange(18, n) == dst_addr
            &&& 0x100_0000 * s[n] + 0x1_0000 * s[n + 1] + 0x100 * s[n + 2] + s[n + 3]
                == dst_node_id
            &&& s.subrange(n + 4, m) == src_addr
            &&& 0x100_0000 * s[m] + 0x1_0000 * s[m + 1] + 0x100 * s[m + 2] + s[m + 3]
                == src_node_id
            &&& s.skip(m + 4) == payload
        }),
{
    let s = cfg::nhip_packet(src_addr, src_node_id, dst_addr, dst_node_id, payload);
    let h = cfg::fresh_header(1, dst_addr.len(), src_addr.len(), payload.len());
    let n = 18 + dst_addr.len() as int;
    let m = n + 4 + src_addr.len() as int;
    let a = bytes::be_bytes(dst_node_id as nat, 4);
    let b = bytes::be_bytes(src_node_id as nat, 4);
    header::law_header_round_trip(h);
    bytes::lemma_machine_round_trip(0, dst_node_id, 0);
    bytes::lemma_machine_round_trip(0, src_node_id, 0);
    bytes::laws::law_big_endian(a[0], a[1], a[2], a[3]);
    bytes::laws::law_big_endian(b[0], b[1], b[2], b[3]);
    assert(a =~= seq![a[0], a[1], a[2], a[3]]);
    assert(b =~= seq![b[0], b[1], b[2], b[3]]);
    assert(s.take(18) =~= header::header_bytes(h));
    assert(s.subrange(18, n) =~= dst_addr);
    assert(s.subrange(n + 4, m) =~= src_addr);
    assert(s.skip(m + 4) =~= payload);
}

/// The entry of an interface is the first one with its name.
pub proof fn law_entry(config: Seq<AddressView>, ifname: Seq<char>)
    ensures
        0 <= cfg::entry_pos(config, ifname) <= config.len(),
        forall|i: int|
            0 <= i < cfg::entry_pos(config, ifname) ==> (#[trigger] config[i]).ifname != ifname,
        cfg::entry_pos(config, ifname) < config.len() ==> config[cfg::entry_pos(
            config,
            ifname,
        )].ifname == ifname,
    decreases config.len(),
{
    if config.len() > 0 && config[0].ifname != ifname {
        let rest = config.drop_first();
        law_entry(rest, ifname);
        assert forall|i: int| 0 <= i < cfg::entry_pos(config, ifname) implies (
        #[trigger] config[i]).ifname != ifname by {
            if i > 0 {
                assert(rest[i - 1] == config[i]);
            }
        }
    }
}

/// A leading tilde stands for the prefix of the interface, which its first entry `p` gives: what
/// follows the tilde stays, and any other address stands for itself. Without an entry, and without
/// a prefix, a tilde stands for nothing.
pub proof fn law_expand(rest: Seq<char>, dev: Seq<char>, config: Seq<AddressView>, p: int)
    requires
        0 <= p <= config.len(),
        forall|i: int| 0 <= i < p ==> (#[trigger] config[i]).ifname != dev,
        p < config.len() ==> config[p].ifname == dev,
    ensures
        ({
            let res = cfg::expanded(seq!['~'] + rest, dev, config);
            &&& p == config.len() ==> res == Err::<Seq<char>, TildeErr>(TildeErr::NotConfigured)
            &&& p < config.len() && (config[p].prefix.len() == 0 || config[p].prefix == "none"@)
                ==> res == Err::<Seq<char>, TildeErr>(TildeErr::NoPrefix)
            &&& p < config.len() && config[p].prefix.len() > 0 && config[p].prefix != "none"@ ==> res
                == Ok::<Seq<char>, TildeErr>(config[p].prefix + rest)
        }),
        rest.len() == 0 || rest[0] != '~' ==> cfg::expanded(rest, dev, config) == Ok::<
            Seq<char>,
            TildeErr,
        >(rest),
{
    let a = seq!['~'] + rest;
    assert(a[0] == '~');
    assert(a.skip(1) =~= rest);
    cfg::lemma_entry_pos(config, dev, p);
}

/// Static routes are trusted most, then those of OSPF, then those of RIP, then all others.
pub proof fn law_distance()
    ensures
        cfg::distance(RoutingProto::Static) == 1,
        cfg::distance(RoutingProto::Ospf) == 110,
        cfg::distance(RoutingProto::Rip) == 120,
        cfg::distance(RoutingProto::Unknown) == 255,
{
}

/// A route that is added stands behind those that are there, which stay where they are; one that is
/// there already changes nothing.
pub proof fn law_add_route_behind(routes: Seq<RouteView>, r: RouteView, i: int)
    ensures
        !routes.contains(r) ==> cfg::with_route(routes, r) == routes + seq![r],
        0 <= i < routes.len() ==> cfg::with_route(routes, routes[i]) == routes,
{
    assert(routes.push(r) =~= routes + seq![r]);
    if 0 <= i < routes.len() {
        assert(routes.contains(routes[i]));
    }
}

/// A static route has the fields that it was given.
pub proof fn law_static_route(
    destination: Seq<char>,
    next_hop: Seq<char>,
    dev: Seq<char>,
    priority: u8,
)
    ensures
        ({
            let r = cfg::static_route(destination, next_hop, dev, priority);
            &&& r.destination == destination
            &&& r.next_hop == next_hop
            &&& r.dev == dev
            &&& r.proto == RoutingProto::Static
            &&& r.priority == priority
        }),
{
}

/// The text of a hardware address is two hexadecimal digits for each octet, with colons between
/// them.
pub proof fn law_mac_text(m: Seq<u8>, i: int)
    requires
        m.len() == 6,
        0 <= i < 6,
    ensures
        cfg::mac_text(m).len() == 17,
        cfg::mac_text(m).subrange(3 * i, 3 * i + 2) == number::hex_text(seq![m[i]]),
        i < 5 ==> cfg::mac_text(m)[3 * i + 2] == ':',
{
    assert(cfg::mac_text(m).subrange(3 * i, 3 * i + 2) =~= number::hex_text(seq![m[i]]));
}

} // verus!
