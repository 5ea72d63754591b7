//! What the daemon promises of every frame, every packet and every configuration.
use crate::addr;
use crate::cfg::AddressView;
use crate::cfg;
use crate::daemon::{DeliveryView, PartiesView, PingErr, ReceivedView};
use crate::daemon;
use crate::forward::DynamicView;
use crate::forward;
use crate::header::NHIP_ETHERTYPE;
use crate::header;
use crate::number;
use crate::text;
use vstd::prelude::*;
use vstd::string::*;
use vstd::utf8::*;

verus! {

/// Whether the address `a` is `net`, a colon and `id`, or `front`, a colon and that.
pub open spec fn is_made_of(a: Seq<char>, front: Seq<char>, net: Seq<char>, id: Seq<char>) -> bool {
    &&& text::laws::is_free(net, ':')
    &&& text::laws::is_free(id, ':')
    &&& a == net.push(':') + id || a == front.push(':') + (net.push(':') + id)
}

/// Whether the address `a` is in the network `net`: that is the text in front of its last colon, or
/// the last piece of that text where it holds colons itself. An address without a colon is in the
/// network without a name.
pub open spec fn is_in_network(a: Seq<char>, net: Seq<char>) -> bool {
    ||| text::laws::is_free(a, ':') && net.len() == 0
    ||| exists|front: Seq<char>, id: Seq<char>| #[trigger] is_made_of(a, front, net, id)
}

proof fn lemma_net_piece(a: Seq<char>, net: Seq<char>)
    ensures
        is_in_network(a, net) <==> daemon::net_piece(a) == net,
{
    let p = text::last_pos(a, ':');
    text::laws::law_around(a, ':', a);
    cfg::laws::lemma_last_colon(a);
    let part = daemon::net_part(a);
    let id0 = text::after_last(a, ':');
    if p >= 0 && daemon::net_piece(a) == net {
        let q = text::last_pos(part, ':');
        cfg::laws::lemma_last_colon(part);
        let front = if q < 0 {
            Seq::<char>::empty()
        } else {
            part.take(q)
        };
        if q < 0 {
            assert(a == net.push(':') + id0);
        } else {
            assert((front.push(':') + net).push(':') + id0 =~= front.push(':') + (net.push(':')
                + id0));
        }
        assert(is_made_of(a, front, net, id0));
    }
    if p < 0 {
        assert(text::laws::is_free(a, ':'));
        assert(daemon::net_piece(a) == Seq::<char>::empty());
        if net.len() == 0 {
            assert(net =~= Seq::<char>::empty());
        }
    }
    if is_in_network(a, net) && !(text::laws::is_free(a, ':') && net.len() == 0) {
        let (front, id) = choose|front: Seq<char>, id: Seq<char>|
            #[trigger] is_made_of(a, front, net, id);
        if a == net.push(':') + id {
            text::laws::law_around(net, ':', id);
            assert(part =~= net);
            text::laws::law_around(net, ':', net);
        } else {
            let x = front.push(':') + net;
            assert(a =~= x.push(':') + id);
            text::laws::law_around(x, ':', id);
            assert(part =~= x);
            text::laws::law_around(front, ':', net);
        }
    }
}

/// Whether a packet to this destination is for the interface: one of its addresses is in the
/// network of the destination, and one of them names its node.
pub open spec fn is_for(
    config: Seq<AddressView>,
    ifname: Seq<char>,
    dst_netpart: Seq<u8>,
    dst_node_id: u32,
) -> bool {
    &&& exists|a: Seq<char>, net: Seq<char>|
        #![trigger cfg::laws::has_address(config, ifname, a), encode_utf8(net)]
        cfg::laws::has_address(config, ifname, a) && is_in_network(a, net) && encode_utf8(net)
            == dst_netpart
    &&& exists|a: Seq<char>| #[trigger]
        cfg::laws::has_address(config, ifname, a) && cfg::laws::names_node(a, dst_node_id)
}

proof fn lemma_is_local(config: Seq<AddressView>, ifname: Seq<char>, d: DynamicView)
    ensures
        daemon::is_local(config, ifname, d) <==> is_for(
            config,
            ifname,
            d.dst_netpart,
            d.dst_node_id,
        ),
{
    let addrs = cfg::iface_addrs(config, ifname);
    cfg::laws::law_has_node_id(addrs, d.dst_node_id);
    let by_net = exists|a: Seq<char>, net: Seq<char>|
        #![trigger cfg::laws::has_address(config, ifname, a), encode_utf8(net)]
        cfg::laws::has_address(config, ifname, a) && is_in_network(a, net) && encode_utf8(net)
            == d.dst_netpart;
    let by_node = exists|a: Seq<char>| #[trigger]
        cfg::laws::has_address(config, ifname, a) && cfg::laws::names_node(a, d.dst_node_id);
    if daemon::has_net(addrs, d.dst_netpart) {
        let i = choose|i: int|
            0 <= i < addrs.len() && encode_utf8(daemon::net_piece(#[trigger] addrs[i]))
                == d.dst_netpart;
        let a = addrs[i];
        let net = daemon::net_piece(a);
        assert(addrs.contains(a));
        cfg::laws::law_iface_has(config, ifname, a);
        lemma_net_piece(a, net);
        assert(cfg::laws::has_address(config, ifname, a) && encode_utf8(net) == d.dst_netpart);
        assert(by_net);
    }
    if by_net {
        let (a, net) = choose|a: Seq<char>, net: Seq<char>|
            #![trigger cfg::laws::has_address(config, ifname, a), encode_utf8(net)]
            cfg::laws::has_address(config, ifname, a) && is_in_network(a, net) && encode_utf8(net)
                == d.dst_netpart;
        cfg::laws::law_iface_has(config, ifname, a);
        lemma_net_piece(a, net);
        let i = choose|i: int| 0 <= i < addrs.len() && addrs[i] == a;
        assert(encode_utf8(daemon::net_piece(addrs[i])) == d.dst_netpart);
    }
    if cfg::has_node_id(addrs, d.dst_node_id) {
        let i = choose|i: int|
            0 <= i < addrs.len() && cfg::laws::names_node(#[trigger] addrs[i], d.dst_node_id);
        assert(addrs.contains(addrs[i]));
        cfg::laws::law_iface_has(config, ifname, addrs[i]);
        assert(by_node);
    }
    if by_node {
        let a = choose|a: Seq<char>| #[trigger]
            cfg::laws::has_address(config, ifname, a) && cfg::laws::names_node(a, d.dst_node_id);
        cfg::laws::law_iface_has(config, ifname, a);
        let i = choose|i: int| 0 <= i < addrs.len() && addrs[i] == a;
        assert(cfg::laws::names_node(addrs[i], d.dst_node_id));
    }
}

/// A packet is passed on exactly if it is not for the interface that it came in on. A ping for it is
/// answered, a pong is reported, and nothing else is handled. Neither the source of the packet nor
/// its payload plays a part in that.
pub proof fn law_delivery(config: Seq<AddressView>, ifname: Seq<char>, next: u8, d: DynamicView)
    ensures
        ({
            let res = daemon::delivery(config, ifname, next, d);
            let ours = is_for(config, ifname, d.dst_netpart, d.dst_node_id);
            &&& res is Forward <==> !ours
            &&& res is Pong <==> ours && next == 1
            &&& res is Message <==> ours && next == 2
            &&& res is Ignore <==> ours && next != 1 && next != 2
        }),
{
    lemma_is_local(config, ifname, d);
}

/// What is done with two packets that differ in nothing but their source and their payload is of
/// the same kind.
pub proof fn law_source_plays_no_part(
    config: Seq<AddressView>,
    ifname: Seq<char>,
    next: u8,
    d: DynamicView,
    e: DynamicView,
)
    requires
        d.dst_netpart == e.dst_netpart,
        d.dst_node_id == e.dst_node_id,
    ensures
        ({
            let x = daemon::delivery(config, ifname, next, d);
            let y = daemon::delivery(config, ifname, next, e);
            &&& x is Forward <==> y is Forward
            &&& x is Pong <==> y is Pong
            &&& x is Message <==> y is Message
            &&& x is Ignore <==> y is Ignore
        }),
{
}

/// The text of an address is its network part, a colon and its NodeID in decimal. A network part
/// that is no text is written as invalid.
pub proof fn law_addr_written(net: Seq<char>, raw: Seq<u8>, node_id: u32)
    ensures
        daemon::addr_text(encode_utf8(net), node_id) == net.push(':') + number::dec_text(
            node_id as nat,
        ),
        !valid_utf8(raw) ==> daemon::addr_text(raw, node_id) == "(invalid):"@ + number::dec_text(
            node_id as nat,
        ),
{
    reveal_strlit(":");
    reveal_strlit("(invalid)");
    reveal_strlit("(invalid):");
    encode_utf8_valid_utf8(net);
    encode_utf8_decode_utf8(net);
    assert(net + ":"@ =~= net.push(':'));
    assert("(invalid)"@ + ":"@ =~= "(invalid):"@);
}

/// Every ping to an address `net:id` that is configured on the interface, from whatever source, is
/// answered from that address to its source. A pong is reported with its source in front of its
/// destination.
pub proof fn law_own_address(
    config: Seq<AddressView>,
    ifname: Seq<char>,
    net: Seq<char>,
    id: u32,
    src: Seq<char>,
    src_id: u32,
    payload: Seq<u8>,
)
    requires
        text::laws::is_free(net, ':'),
        cfg::laws::has_address(config, ifname, net.push(':') + number::dec_text(id as nat)),
    ensures
        ({
            let d = DynamicView {
                dst_netpart: encode_utf8(net),
                dst_node_id: id,
                src_netpart: encode_utf8(src),
                src_node_id: src_id,
                payload,
            };
            let local = net.push(':') + number::dec_text(id as nat);
            let remote = src.push(':') + number::dec_text(src_id as nat);
            &&& daemon::delivery(config, ifname, 1, d) == (DeliveryView::Pong { local, remote })
            &&& daemon::delivery(config, ifname, 2, d) == DeliveryView::Message(
                "PONG "@ + remote.push(' ') + local.push('\n'),
            )
        }),
{
    let d = DynamicView {
        dst_netpart: encode_utf8(net),
        dst_node_id: id,
        src_netpart: encode_utf8(src),
        src_node_id: src_id,
        payload,
    };
    let digits = number::dec_text(id as nat);
    let a = net.push(':') + digits;
    addr::law_decimal_node_id(id);
    number::law_decimal_round_trip(id as nat);
    assert forall|i: int| 0 <= i < digits.len() implies digits[i] != ':' by {
        assert(number::digit_value(digits[i], 10) is Some);
    }
    let none = Seq::<char>::empty();
    assert(is_made_of(a, none, net, digits));
    assert(cfg::laws::names_node(a, id)) by {
        assert(a == net.push(':') + digits || a == digits);
    }
    assert(is_for(config, ifname, d.dst_netpart, id)) by {
        assert(cfg::laws::has_address(config, ifname, a) && encode_utf8(net) == d.dst_netpart);
    }
    law_delivery(config, ifname, 1, d);
    law_delivery(config, ifname, 2, d);
    law_addr_written(net, d.dst_netpart, id);
    law_addr_written(src, d.src_netpart, src_id);
    let local = net.push(':') + digits;
    let remote = src.push(':') + number::dec_text(src_id as nat);
    reveal_strlit(" ");
    reveal_strlit("\n");
    assert("PONG "@ + remote + " "@ + local + "\n"@ =~= "PONG "@ + remote.push(' ') + local.push(
        '\n',
    ));
}

/// The two ends of a ping are what the two addresses name: each a network part and the NodeID behind
/// it. A NodeID that is refused is refused for its address, the remote one first.
pub proof fn law_parties(
    local_net: Seq<char>,
    local_id: Seq<char>,
    remote_net: Seq<char>,
    remote_id: Seq<char>,
)
    requires
        text::laws::is_free(local_net, ':'),
        text::laws::is_free(local_id, ':'),
        text::laws::is_free(remote_net, ':'),
        text::laws::is_free(remote_id, ':'),
    ensures
        ({
            let res = daemon::parties_of(
                local_net.push(':') + local_id,
                remote_net.push(':') + remote_id,
            );
            match addr::node_id_check(encode_utf8(remote_id)) {
                Err(e) => res == Err::<PartiesView, PingErr>(PingErr::Remote(e)),
                Ok(r) => match addr::node_id_check(encode_utf8(local_id)) {
                    Err(e) => res == Err::<PartiesView, PingErr>(PingErr::Local(e)),
                    Ok(l) => res == Ok::<PartiesView, PingErr>(
                        PartiesView {
                            local_netpart: local_net,
                            local_node_id: l,
                            remote_netpart: remote_net,
                            remote_node_id: r,
                        },
                    ),
                },
            }
        }),
{
    addr::laws::law_addr_node_id(local_net, local_id);
    addr::laws::law_addr_node_id(remote_net, remote_id);
    text::laws::law_around(local_net, ':', local_id);
    text::laws::law_around(remote_net, ':', remote_id);
}

/// The addresses of an interface are listed in order, each as network part and NodeID; one without a
/// valid NodeID is passed over.
pub proof fn law_addr_pairs(a: Seq<Seq<char>>, b: Seq<Seq<char>>, net: Seq<char>, id: Seq<char>)
    requires
        text::laws::is_free(id, ':'),
    ensures
        daemon::addr_pairs(a + b) == daemon::addr_pairs(a) + daemon::addr_pairs(b),
        match addr::node_id_check(encode_utf8(id)) {
            Ok(n) => daemon::addr_pairs(seq![net.push(':') + id]) == seq![(net, n)],
            Err(_) => daemon::addr_pairs(seq![net.push(':') + id]) == Seq::<(Seq<char>, u32)>::empty(),
        },
        daemon::addr_pairs(seq![id]) == Seq::<(Seq<char>, u32)>::empty(),
    decreases b.len(),
{
    let none = Seq::<Seq<char>>::empty();
    let nothing = Seq::<(Seq<char>, u32)>::empty();
    if b.len() == 0 {
        assert(a + b =~= a);
        assert(daemon::addr_pairs(b) =~= nothing);
        assert(daemon::addr_pairs(a) + daemon::addr_pairs(b) =~= daemon::addr_pairs(a));
    } else {
        law_addr_pairs(a, b.drop_last(), net, id);
        assert((a + b).drop_last() =~= a + b.drop_last());
        assert((a + b).last() == b.last());
        assert(daemon::addr_pairs(a + b) =~= daemon::addr_pairs(a) + daemon::addr_pairs(b));
    }
    let x = net.push(':') + id;
    assert(seq![x].drop_last() =~= none);
    assert(seq![id].drop_last() =~= none);
    assert(daemon::addr_pairs(none) =~= nothing);
    addr::laws::law_addr_node_id(net, id);
    text::laws::law_around(net, ':', id);
    assert(daemon::net_part(x) =~= net);
    assert(nothing.push((net, 0u32)) =~= seq![(net, 0u32)]);
    match addr::node_id_check(encode_utf8(id)) {
        Ok(n) => {
            assert(nothing.push((net, n)) =~= seq![(net, n)]);
        },
        Err(_) => {},
    }
}

/// A frame is known by its length and by its EtherType, which has its most significant byte first:
/// one without room for an Ethernet header is short; behind the type of NHARP stand fifteen bytes,
/// and behind 0x88B5, where NHARP has another type, an NHIP header of eighteen bytes and the
/// addresses that it announces. Any other frame is told by its type.
pub proof fn law_received(data: Seq<u8>, nharp_type: u16)
    ensures
        ({
            let res = daemon::received(data, nharp_type);
            let t = 0x100 * data[12] + data[13];
            if data.len() < 14 {
                res is Short
            } else if t == nharp_type {
                if data.len() < 29 {
                    res is NharpShort
                } else {
                    res == ReceivedView::Nharp(data.subrange(14, 29))
                }
            } else if t == 0x88B5 {
                if data.len() < 32 {
                    res is NhipShort
                } else {
                    let h = header::header_of(data.subrange(14, 32));
                    if data.len() < 32 + h.dst_addr_len + 4 + h.src_addr_len + 4 {
                        res is NhipCut
                    } else {
                        &&& res is Nhip
                        &&& res->Nhip_0 == h
                        &&& res->Nhip_1 == data.skip(32)
                        &&& data == data.take(32) + forward::dynamic_bytes(res->Nhip_2)
                        &&& res->Nhip_2.dst_netpart.len() == h.dst_addr_len
                        &&& res->Nhip_2.src_netpart.len() == h.src_addr_len
                    }
                }
            } else {
                res is Other && res->Other_0 == t
            }
        }),
{
    if data.len() >= 14 {
        assert(data.subrange(12, 14) =~= seq![data[12], data[13]]);
        crate::bytes::laws::law_big_endian(data[12], data[13], 0, 0);
        if data.len() >= 32 {
            let h = header::header_of(data.subrange(14, 32));
            let rest = data.skip(32);
            if rest.len() >= forward::dynamic_len(h.dst_addr_len as nat, h.src_addr_len as nat) {
                forward::law_dynamic_bytes_round_trip(
                    h.dst_addr_len as nat,
                    h.src_addr_len as nat,
                    rest,
                );
                assert(data =~= data.take(32) + rest);
            }
        }
    }
}

/// A ping or pong goes from the one hardware address to the other, as an NHIP packet that is new:
/// from the local address to the remote one, with the payload behind them. It is a ping exactly if
/// `oper` is 1.
pub proof fn law_ping_frame(
    p: PartiesView,
    local_mac: Seq<u8>,
    remote_mac: Seq<u8>,
    payload: Seq<u8>,
    oper: u8,
)
    requires
        local_mac.len() == 6,
        remote_mac.len() == 6,
    ensures
        ({
            let frame = daemon::ping_frame(p, local_mac, remote_mac, payload, oper);
            let dst = encode_utf8(p.remote_netpart);
            let src = encode_utf8(p.local_netpart);
            let next: u8 = if oper == 1 {
                1
            } else {
                2
            };
            &&& frame.take(6) == remote_mac
            &&& frame.subrange(6, 12) == local_mac
            &&& frame[12] == 0x88 && frame[13] == 0xB5
            &&& frame.subrange(14, 32) == header::header_bytes(
                cfg::fresh_header(next, dst.len(), src.len(), payload.len()),
            )
            &&& frame.skip(32) == forward::dynamic_bytes(
                (DynamicView {
                    dst_netpart: dst,
                    dst_node_id: p.remote_node_id,
                    src_netpart: src,
                    src_node_id: p.local_node_id,
                    payload,
                }),
            )
        }),
{
    let frame = daemon::ping_frame(p, local_mac, remote_mac, payload, oper);
    let d = daemon::ping_dynamic(p, payload);
    let h = daemon::ping_header(d, oper);
    header::law_header_round_trip(h);
    cfg::laws::law_eth_header(local_mac, remote_mac, NHIP_ETHERTYPE);
    let eth = cfg::eth_header(local_mac, remote_mac, NHIP_ETHERTYPE);
    assert(eth.len() == 14);
    assert(frame.take(6) =~= eth.take(6));
    assert(frame.subrange(6, 12) =~= eth.subrange(6, 12));
    assert(frame[12] == eth[12] && frame[13] == eth[13]);
    assert(frame.subrange(14, 32) =~= header::header_bytes(h));
    assert(frame.skip(32) =~= forward::dynamic_bytes(d));
}

/// An address list is in the network of a destination exactly if one of its addresses is.
pub proof fn law_has_net(addrs: Seq<Seq<char>>, dst: Seq<u8>)
    ensures
        daemon::has_net(addrs, dst) <==> exists|i: int, net: Seq<char>|
            #![trigger addrs[i], encode_utf8(net)]
            0 <= i < addrs.len() && is_in_network(addrs[i], net) && encode_utf8(net) == dst,
{
    if daemon::has_net(addrs, dst) {
        let i = choose|i: int|
            0 <= i < addrs.len() && encode_utf8(daemon::net_piece(#[trigger] addrs[i])) == dst;
        let net = daemon::net_piece(addrs[i]);
        lemma_net_piece(addrs[i], net);
        assert(is_in_network(addrs[i], net) && encode_utf8(net) == dst);
    }
    if exists|i: int, net: Seq<char>|
        #![trigger addrs[i], encode_utf8(net)]
        0 <= i < addrs.len() && is_in_network(addrs[i], net) && encode_utf8(net) == dst {
        let (i, net) = choose|i: int, net: Seq<char>|
            #![trigger addrs[i], encode_utf8(net)]
            0 <= i < addrs.len() && is_in_network(addrs[i], net) && encode_utf8(net) == dst;
        lemma_net_piece(addrs[i], net);
        assert(encode_utf8(daemon::net_piece(addrs[i])) == dst);
    }
}

/// A pong goes from the destination of the ping to its source, and a pong that came in is reported
/// with its source first.
pub proof fn law_delivery_addresses(
    config: Seq<AddressView>,
    ifname: Seq<char>,
    next: u8,
    d: DynamicView,
)
    ensures
        ({
            let res = daemon::delivery(config, ifname, next, d);
            let dst = daemon::addr_text(d.dst_netpart, d.dst_node_id);
            let src = daemon::addr_text(d.src_netpart, d.src_node_id);
            &&& res is Pong ==> res->local == dst && res->remote == src
            &&& res is Message ==> res->Message_0 == "PONG "@ + src.push(' ') + dst.push('\n')
        }),
{
    let dst = daemon::addr_text(d.dst_netpart, d.dst_node_id);
    let src = daemon::addr_text(d.src_netpart, d.src_node_id);
    reveal_strlit(" ");
    reveal_strlit("\n");
    assert("PONG "@ + src + " "@ + dst + "\n"@ =~= "PONG "@ + src.push(' ') + dst.push('\n'));
}

} // verus!
