//! The daemon: what is done with a received frame, and the frames of ping and pong.
use crate::addr::{get_node_id_from_addr_str, AddrErr};
use crate::addr;
use crate::bytes;
use crate::cfg::{build_eth_header, iface_addresses, make_header, AddressEntry, AddressView};
use crate::cfg;
use crate::forward::{append_dynamic, parse_dynamic, DynamicView, NhipDynamic};
use crate::forward;
use crate::header::{next_header, NhipHeader, NHIP_ETHERTYPE, NHIP_HEADER_LEN};
use crate::header;
use crate::nharp::packet::{NharpPacket, NHARP_PACKET_LEN};
use crate::nharp::packet;
use crate::nharp_ctl;
use crate::number;
use crate::text;
use vstd::prelude::*;
use vstd::string::*;
use vstd::utf8::*;

pub mod laws;

verus! {

/// The network part of an address: the text in front of its last colon.
pub open spec fn net_part(a: Seq<char>) -> Seq<char> {
    a.take(text::last_pos(a, ':'))
}

/// The network parts and NodeIDs of the addresses `addrs`, in order. An address without a
/// colon, or without a valid NodeID behind the last one, is passed over.
pub open spec fn addr_pairs(addrs: Seq<Seq<char>>) -> Seq<(Seq<char>, u32)>
    decreases addrs.len(),
{
    if addrs.len() == 0 {
        Seq::empty()
    } else {
        let before = addr_pairs(addrs.drop_last());
        match addr::addr_node_id(addrs.last()) {
            Ok(id) => before.push((net_part(addrs.last()), id)),
            Err(_) => before,
        }
    }
}

/// What a list of network parts and NodeIDs holds.
pub open spec fn pair_views(v: Seq<(String, u32)>) -> Seq<(Seq<char>, u32)> {
    v.map_values(|p: (String, u32)| (p.0@, p.1))
}

/// All addresses of the interface `ifname`, each as network part and NodeID.
pub fn get_addrs_from_ifindex(config: &[AddressEntry], ifname: &str) -> (res: Vec<(String, u32)>)
    ensures
        pair_views(res@) == addr_pairs(
            cfg::iface_addrs(cfg::address_table(config@), ifname@),
        ),
{
    let addrs = iface_addresses(config, ifname);
    let ghost all = cfg::iface_addrs(cfg::address_table(config@), ifname@);
    let mut res: Vec<(String, u32)> = Vec::new();
    assert(pair_views(res@) =~= addr_pairs(all.take(0)));
    for i in 0..addrs.len()
        invariant
            all == text::views(addrs@),
            pair_views(res@) == addr_pairs(all.take(i as int)),
    {
        let a = &addrs[i];
        assert(all.take(i + 1).drop_last() =~= all.take(i as int));
        assert(all.take(i + 1).last() == a@);
        match get_node_id_from_addr_str(a.as_str()) {
            Ok(id) => {
                let chars = text::to_chars(a.as_str());
                let p: usize = match text::find_last(&chars, ':') {
                    Some(p) => p,
                    None => 0,
                };
                let net = text::text_of(&chars, 0, p);
                assert(net@ =~= net_part(a@));
                let ghost before = pair_views(res@);
                res.push((net, id));
                assert(pair_views(res@) =~= before.push((net@, id)));
            },
            Err(_) => {},
        }
    }
    assert(all.take(all.len() as int) =~= all);
    res
}

/// What a received frame is.
pub enum Received<'a> {
    /// Shorter than an Ethernet header.
    Short,
    /// NHARP, and too short for a packet.
    NharpShort,
    Nharp(NharpPacket),
    /// NHIP, and too short for a header.
    NhipShort,
    /// NHIP, and too short for the addresses that the header announces.
    NhipCut,
    /// The header, the bytes behind it, and what they hold.
    Nhip(NhipHeader, &'a [u8], NhipDynamic<'a>),
    /// Any other EtherType.
    Other(u16),
}

/// What a [`Received`] holds.
pub enum ReceivedView {
    Short,
    NharpShort,
    Nharp(Seq<u8>),
    NhipShort,
    NhipCut,
    Nhip(NhipHeader, Seq<u8>, DynamicView),
    Other(u16),
}

impl<'a> View for Received<'a> {
    type V = ReceivedView;

    open spec fn view(&self) -> ReceivedView {
        match *self {
            Received::Short => ReceivedView::Short,
            Received::NharpShort => ReceivedView::NharpShort,
            Received::Nharp(p) => ReceivedView::Nharp(packet::packet_bytes(p)),
            Received::NhipShort => ReceivedView::NhipShort,
            Received::NhipCut => ReceivedView::NhipCut,
            Received::Nhip(h, rest, d) => ReceivedView::Nhip(h, rest@, d@),
            Received::Other(t) => ReceivedView::Other(t),
        }
    }
}

/// The EtherType of a frame.
pub open spec fn ether_type_of(data: Seq<u8>) -> u16 {
    bytes::be_value(data.subrange(12, 14)) as u16
}

/// What the frame `data` is, where NHARP has the EtherType `nharp_type`.
pub open spec fn received(data: Seq<u8>, nharp_type: u16) -> ReceivedView {
    if data.len() < 14 {
        ReceivedView::Short
    } else if ether_type_of(data) == nharp_type {
        if data.len() - 14 < NHARP_PACKET_LEN {
            ReceivedView::NharpShort
        } else {
            ReceivedView::Nharp(data.subrange(14, 14 + NHARP_PACKET_LEN))
        }
    } else if ether_type_of(data) == NHIP_ETHERTYPE {
        if data.len() - 14 < NHIP_HEADER_LEN {
            ReceivedView::NhipShort
        } else {
            let h = header::header_of(data.subrange(14, 14 + NHIP_HEADER_LEN));
            let rest = data.skip(14 + NHIP_HEADER_LEN);
            let dst_len = h.dst_addr_len as nat;
            let src_len = h.src_addr_len as nat;
            if rest.len() < forward::dynamic_len(dst_len, src_len) {
                ReceivedView::NhipCut
            } else {
                ReceivedView::Nhip(h, rest, forward::dynamic_of(dst_len, src_len, rest))
            }
        }
    } else {
        ReceivedView::Other(ether_type_of(data))
    }
}

/// Takes a received frame apart.
pub fn recv_frame<'a>(data: &'a [u8], nharp_type: u16) -> (res: Received<'a>)
    ensures
        res@ == received(data@, nharp_type),
{
    let len: usize = data.len();
    if len < 14 {
        return Received::Short;
    }
    let ether_type: u16 = bytes::u16_from_be(data[12], data[13]);
    assert(data@.subrange(12, 14) =~= seq![data@[12], data@[13]]);
    if ether_type == nharp_type {
        if len - 14 < NHARP_PACKET_LEN {
            return Received::NharpShort;
        }
        let body = vstd::slice::slice_subrange(data, 14, 14 + NHARP_PACKET_LEN);
        let p = NharpPacket::from_bytes(body);
        proof {
            packet::law_packet_bytes_round_trip(p, body@);
        }
        Received::Nharp(p)
    } else if ether_type == NHIP_ETHERTYPE {
        if len - 14 < NHIP_HEADER_LEN {
            return Received::NhipShort;
        }
        let hdr = NhipHeader::from_bytes(
            vstd::slice::slice_subrange(data, 14, 14 + NHIP_HEADER_LEN),
        );
        let rest = vstd::slice::slice_subrange(data, 14 + NHIP_HEADER_LEN, len);
        assert(rest@ =~= data@.skip(14 + NHIP_HEADER_LEN));
        if rest.len() < hdr.dst_addr_len as usize + 4 + hdr.src_addr_len as usize + 4 {
            return Received::NhipCut;
        }
        let (dynamic, _) = parse_dynamic(&hdr, rest);
        Received::Nhip(hdr, rest, dynamic)
    } else {
        Received::Other(ether_type)
    }
}

/// The piece of an address between its last two colons; nothing where it has no colon.
pub open spec fn net_piece(a: Seq<char>) -> Seq<char> {
    if text::last_pos(a, ':') < 0 {
        Seq::empty()
    } else {
        text::after_last(net_part(a), ':')
    }
}

/// Whether one of the addresses `addrs` is in the network `dst`.
pub open spec fn has_net(addrs: Seq<Seq<char>>, dst: Seq<u8>) -> bool {
    exists|i: int| 0 <= i < addrs.len() && encode_utf8(net_piece(#[trigger] addrs[i])) == dst
}

/// Whether the interface `ifname` has an address in the network `dst_netpart`.
pub fn is_my_net(config: &[AddressEntry], ifname: &str, dst_netpart: &[u8]) -> (res: bool)
    ensures
        res == has_net(cfg::iface_addrs(cfg::address_table(config@), ifname@), dst_netpart@),
{
    let addrs = iface_addresses(config, ifname);
    let ghost all = cfg::iface_addrs(cfg::address_table(config@), ifname@);
    for i in 0..addrs.len()
        invariant
            all == text::views(addrs@),
            all == cfg::iface_addrs(cfg::address_table(config@), ifname@),
            forall|j: int|
                0 <= j < i ==> encode_utf8(net_piece(#[trigger] all[j])) != dst_netpart@,
    {
        assert(all[i as int] == addrs@[i as int]@);
        let chars = text::to_chars(addrs[i].as_str());
        let piece = match text::find_last(&chars, ':') {
            Some(p) => {
                let net = text::text_of(&chars, 0, p);
                assert(net@ =~= net_part(addrs@[i as int]@));
                text::tail(net.as_str(), ':')
            },
            None => String::new(),
        };
        assert(piece@ =~= net_piece(all[i as int]));
        if bytes::bytes_eq(piece.as_str().as_bytes(), dst_netpart) {
            return true;
        }
    }
    false
}

/// The text of a network part.
pub open spec fn net_text(net: Seq<u8>) -> Seq<char> {
    if valid_utf8(net) {
        decode_utf8(net)
    } else {
        "(invalid)"@
    }
}

/// The text of an address.
pub open spec fn addr_text(net: Seq<u8>, node_id: u32) -> Seq<char> {
    net_text(net) + ":"@ + number::dec_text(node_id as nat)
}

fn push_addr(out: &mut String, net: &[u8], node_id: u32)
    ensures
        final(out)@ == old(out)@ + addr_text(net@, node_id),
{
    match text::from_utf8(net) {
        Some(s) => {
            proof {
                encode_utf8_decode_utf8(s@);
            }
            out.append(s);
        },
        None => {
            out.append("(invalid)");
        },
    }
    out.append(":");
    number::push_u32(out, node_id);
    assert(out@ =~= old(out)@ + addr_text(net@, node_id));
}

/// What is done with an NHIP packet.
pub enum Delivery {
    /// It is not for this host and goes to the slow path.
    Forward,
    /// It is a ping: a pong goes from `local` to `remote`.
    Pong { local: String, remote: String },
    /// It is a pong: whoever waits for it is told.
    Message(String),
    /// It is for this host, and nothing handles it.
    Ignore,
}

/// What a [`Delivery`] holds.
pub enum DeliveryView {
    Forward,
    Pong { local: Seq<char>, remote: Seq<char> },
    Message(Seq<char>),
    Ignore,
}

impl View for Delivery {
    type V = DeliveryView;

    open spec fn view(&self) -> DeliveryView {
        match *self {
            Delivery::Forward => DeliveryView::Forward,
            Delivery::Pong { local, remote } => DeliveryView::Pong {
                local: local@,
                remote: remote@,
            },
            Delivery::Message(s) => DeliveryView::Message(s@),
            Delivery::Ignore => DeliveryView::Ignore,
        }
    }
}

/// Whether a packet to `d` is for the interface `ifname`: both its network and its NodeID are
/// among the addresses of that interface.
pub open spec fn is_local(config: Seq<AddressView>, ifname: Seq<char>, d: DynamicView) -> bool {
    let addrs = cfg::iface_addrs(config, ifname);
    has_net(addrs, d.dst_netpart) && cfg::has_node_id(addrs, d.dst_node_id)
}

/// The message to whoever waits for a pong.
pub open spec fn pong_message(d: DynamicView) -> Seq<char> {
    "PONG "@ + addr_text(d.src_netpart, d.src_node_id) + " "@ + addr_text(
        d.dst_netpart,
        d.dst_node_id,
    ) + "\n"@
}

/// What is done with a packet that came in on the interface `ifname`.
pub open spec fn delivery(
    config: Seq<AddressView>,
    ifname: Seq<char>,
    next: u8,
    d: DynamicView,
) -> DeliveryView {
    if !is_local(config, ifname, d) {
        DeliveryView::Forward
    } else if next == next_header::NHIPPING {
        DeliveryView::Pong {
            local: addr_text(d.dst_netpart, d.dst_node_id),
            remote: addr_text(d.src_netpart, d.src_node_id),
        }
    } else if next == next_header::NHIPPONG {
        DeliveryView::Message(pong_message(d))
    } else {
        DeliveryView::Ignore
    }
}

/// Decides what is done with a packet that came in on the interface `ifname`.
pub fn deliver(config: &[AddressEntry], ifname: &str, next: u8, d: &NhipDynamic) -> (res: Delivery)
    ensures
        res@ == delivery(cfg::address_table(config@), ifname@, next, d@),
{
    if !is_my_net(config, ifname, d.dst_netpart) || !cfg::is_my_node_id(
        config,
        ifname,
        d.dst_node_id,
    ) {
        return Delivery::Forward;
    }
    if next == next_header::NHIPPING {
        let mut local = String::new();
        push_addr(&mut local, d.dst_netpart, d.dst_node_id);
        let mut remote = String::new();
        push_addr(&mut remote, d.src_netpart, d.src_node_id);
        assert(local@ =~= addr_text(d@.dst_netpart, d@.dst_node_id));
        assert(remote@ =~= addr_text(d@.src_netpart, d@.src_node_id));
        Delivery::Pong { local, remote }
    } else if next == next_header::NHIPPONG {
        let mut msg = String::new();
        msg.append("PONG ");
        push_addr(&mut msg, d.src_netpart, d.src_node_id);
        msg.append(" ");
        push_addr(&mut msg, d.dst_netpart, d.dst_node_id);
        msg.append("\n");
        assert(msg@ =~= pong_message(d@));
        Delivery::Message(msg)
    } else {
        Delivery::Ignore
    }
}

/// The two ends of a ping or pong.
pub struct PingParties {
    pub local_netpart: String,
    pub local_node_id: u32,
    pub remote_netpart: String,
    pub remote_node_id: u32,
}

/// What a [`PingParties`] holds.
pub struct PartiesView {
    pub local_netpart: Seq<char>,
    pub local_node_id: u32,
    pub remote_netpart: Seq<char>,
    pub remote_node_id: u32,
}

impl View for PingParties {
    type V = PartiesView;

    open spec fn view(&self) -> PartiesView {
        PartiesView {
            local_netpart: self.local_netpart@,
            local_node_id: self.local_node_id,
            remote_netpart: self.remote_netpart@,
            remote_node_id: self.remote_node_id,
        }
    }
}

/// Why a ping or pong was refused.
#[derive(Debug, Clone, Copy, PartialEq, Eq, Structural)]
pub enum PingErr {
    /// The remote address has no valid NodeID.
    Remote(AddrErr),
    /// The local address has no valid NodeID.
    Local(AddrErr),
}

/// The two ends that the addresses `local` and `remote` name: the NodeID behind the last colon
/// and the network part in front of the first.
pub open spec fn parties_of(local: Seq<char>, remote: Seq<char>) -> Result<PartiesView, PingErr> {
    match addr::addr_node_id(remote) {
        Err(e) => Err(PingErr::Remote(e)),
        Ok(remote_node_id) => match addr::addr_node_id(local) {
            Err(e) => Err(PingErr::Local(e)),
            Ok(local_node_id) => Ok(
                PartiesView {
                    local_netpart: text::before_first(local, ':'),
                    local_node_id,
                    remote_netpart: text::before_first(remote, ':'),
                    remote_node_id,
                },
            ),
        },
    }
}

/// Reads the addresses of the two ends of a ping or pong.
pub fn ping_parties(local_addr: &str, remote_addr: &str) -> (res: Result<PingParties, PingErr>)
    ensures
        match res {
            Ok(p) => parties_of(local_addr@, remote_addr@) == Ok::<PartiesView, PingErr>(p@),
            Err(e) => parties_of(local_addr@, remote_addr@) == Err::<PartiesView, PingErr>(e),
        },
{
    let remote_node_id: u32 = match get_node_id_from_addr_str(remote_addr) {
        Ok(id) => id,
        Err(e) => {
            return Err(PingErr::Remote(e));
        },
    };
    let local_node_id: u32 = match get_node_id_from_addr_str(local_addr) {
        Ok(id) => id,
        Err(e) => {
            return Err(PingErr::Local(e));
        },
    };
    Ok(
        PingParties {
            local_netpart: text::head(local_addr, ':'),
            local_node_id,
            remote_netpart: text::head(remote_addr, ':'),
            remote_node_id,
        },
    )
}

/// How a ping or pong is sent.
pub enum PingStep {
    /// The hardware address of the remote node is known: the frame goes there.
    Send([u8; 6]),
    /// It is not: the node `node_id` is asked for in the network `net` first, and the frame then
    /// goes to `target`, which is every node.
    AskThenSend { node_id: u32, net: String, target: [u8; 6] },
}

/// Decides how a ping or pong is sent, where `cached` is what the NHARP cache has for the remote
/// node.
pub fn ping_step(parties: &PingParties, cached: Option<[u8; 6]>) -> (res: PingStep)
    ensures
        match cached {
            Some(mac) => res == PingStep::Send(mac),
            None => {
                &&& res is AskThenSend
                &&& res->node_id == parties.remote_node_id
                &&& res->net@ == parties.remote_netpart@
                &&& res->target@ == Seq::new(6, |i: int| 0xFFu8)
            },
        },
{
    match cached {
        Some(mac) => PingStep::Send(mac),
        None => {
            let all: [u8; 6] = [0xFF; 6];
            assert(all@ =~= Seq::new(6, |i: int| 0xFFu8));
            PingStep::AskThenSend {
                node_id: parties.remote_node_id,
                net: parties.remote_netpart.clone(),
                target: all,
            }
        },
    }
}

/// What stands behind the header of a ping or pong.
pub open spec fn ping_dynamic(p: PartiesView, payload: Seq<u8>) -> DynamicView {
    DynamicView {
        dst_netpart: encode_utf8(p.remote_netpart),
        dst_node_id: p.remote_node_id,
        src_netpart: encode_utf8(p.local_netpart),
        src_node_id: p.local_node_id,
        payload,
    }
}

/// The header of a ping, where `oper` is 1, or a pong.
pub open spec fn ping_header(d: DynamicView, oper: u8) -> NhipHeader {
    cfg::fresh_header(
        if oper == 1 {
            next_header::NHIPPING
        } else {
            next_header::NHIPPONG
        },
        d.dst_netpart.len(),
        d.src_netpart.len(),
        d.payload.len(),
    )
}

/// The frame of a ping, where `oper` is 1, or a pong.
pub open spec fn ping_frame(
    p: PartiesView,
    local_mac: Seq<u8>,
    remote_mac: Seq<u8>,
    payload: Seq<u8>,
    oper: u8,
) -> Seq<u8> {
    let d = ping_dynamic(p, payload);
    cfg::eth_header(local_mac, remote_mac, NHIP_ETHERTYPE) + header::header_bytes(
        ping_header(d, oper),
    ) + forward::dynamic_bytes(d)
}

/// Builds the frame of a ping, where `oper` is 1, or a pong.
pub fn pingpong(
    parties: &PingParties,
    local_mac: [u8; 6],
    remote_mac: [u8; 6],
    payload: &[u8],
    oper: u8,
) -> (res: Vec<u8>)
    ensures
        res@ == ping_frame(parties@, local_mac@, remote_mac@, payload@, oper),
{
    let remote = parties.remote_netpart.as_str().as_bytes();
    let local = parties.local_netpart.as_str().as_bytes();
    let next: u8 = if oper == 1 {
        next_header::NHIPPING
    } else {
        next_header::NHIPPONG
    };
    let hdr = make_header(next, remote.len(), local.len(), payload.len());
    let d = NhipDynamic {
        dst_netpart: remote,
        dst_node_id: parties.remote_node_id,
        src_netpart: local,
        src_node_id: parties.local_node_id,
        payload,
    };
    let eth = build_eth_header(local_mac, remote_mac, NHIP_ETHERTYPE);
    let mut buf: Vec<u8> = Vec::new();
    bytes::append(&mut buf, eth.as_slice());
    let hdr_bytes = hdr.to_bytes();
    bytes::append(&mut buf, hdr_bytes.as_slice());
    append_dynamic(&mut buf, &d);
    assert(d@ == ping_dynamic(parties@, payload@));
    assert(buf@ =~= ping_frame(parties@, local_mac@, remote_mac@, payload@, oper));
    buf
}

proof fn lemma_frame_parts(src: Seq<u8>, dst: Seq<u8>, ether_type: u16, body: Seq<u8>)
    requires
        src.len() == 6,
        dst.len() == 6,
    ensures
        ({
            let frame = cfg::eth_header(src, dst, ether_type) + body;
            &&& frame.len() == 14 + body.len()
            &&& ether_type_of(frame) == ether_type
            &&& frame.skip(14) == body
        }),
{
    let frame = cfg::eth_header(src, dst, ether_type) + body;
    bytes::lemma_machine_round_trip(ether_type, 0, 0);
    assert(frame.subrange(12, 14) =~= bytes::be_bytes(ether_type as nat, 2));
    assert(frame.skip(14) =~= body);
}

/// An NHARP packet arrives as it was sent.
pub proof fn law_nharp_received(src: Seq<u8>, dst: Seq<u8>, nharp_type: u16, p: NharpPacket)
    requires
        src.len() == 6,
        dst.len() == 6,
    ensures
        received(nharp_ctl::nharp_frame(src, dst, nharp_type, p), nharp_type)
            == ReceivedView::Nharp(packet::packet_bytes(p)),
{
    let frame = nharp_ctl::nharp_frame(src, dst, nharp_type, p);
    packet::law_packet_round_trip(p, p);
    lemma_frame_parts(src, dst, nharp_type, packet::packet_bytes(p));
    assert(frame.subrange(14, 14 + NHARP_PACKET_LEN) =~= packet::packet_bytes(p));
}

#[verifier::spinoff_prover]
#[verifier::rlimit(40)]
proof fn lemma_nhip_received(
    src: Seq<u8>,
    dst: Seq<u8>,
    h: NhipHeader,
    d: DynamicView,
    nharp_type: u16,
)
    requires
        src.len() == 6,
        dst.len() == 6,
        h.dst_addr_len == d.dst_netpart.len(),
        h.src_addr_len == d.src_netpart.len(),
        nharp_type != NHIP_ETHERTYPE,
    ensures
        received(
            cfg::eth_header(src, dst, NHIP_ETHERTYPE) + header::header_bytes(h)
                + forward::dynamic_bytes(d),
            nharp_type,
        ) == ReceivedView::Nhip(h, forward::dynamic_bytes(d), d),
{
    let frame = cfg::eth_header(src, dst, NHIP_ETHERTYPE) + header::header_bytes(h)
        + forward::dynamic_bytes(d);
    let body = header::header_bytes(h) + forward::dynamic_bytes(d);
    assert(frame =~= cfg::eth_header(src, dst, NHIP_ETHERTYPE) + body);
    lemma_frame_parts(src, dst, NHIP_ETHERTYPE, body);
    header::law_header_round_trip(h);
    forward::law_dynamic_round_trip(d);
    bytes::lemma_bytes_len(NHIP_ETHERTYPE as nat, 2);
    assert(frame.subrange(14, 14 + NHIP_HEADER_LEN) =~= header::header_bytes(h));
    assert(frame.skip(14 + NHIP_HEADER_LEN) =~= forward::dynamic_bytes(d));
}

/// A ping or pong arrives with the addresses and the payload that it was sent with, unless a
/// network part is longer than its header can say.
#[verifier::spinoff_prover]
#[verifier::rlimit(40)]
pub proof fn law_ping_received(
    p: PartiesView,
    local_mac: Seq<u8>,
    remote_mac: Seq<u8>,
    payload: Seq<u8>,
    oper: u8,
    nharp_type: u16,
)
    requires
        local_mac.len() == 6,
        remote_mac.len() == 6,
        encode_utf8(p.remote_netpart).len() <= u16::MAX,
        encode_utf8(p.local_netpart).len() <= u16::MAX,
        nharp_type != NHIP_ETHERTYPE,
    ensures
        received(ping_frame(p, local_mac, remote_mac, payload, oper), nharp_type)
            == ReceivedView::Nhip(
            ping_header(ping_dynamic(p, payload), oper),
            forward::dynamic_bytes(ping_dynamic(p, payload)),
            ping_dynamic(p, payload),
        ),
{
    let d = ping_dynamic(p, payload);
    let h = ping_header(d, oper);
    assert(h.dst_addr_len == d.dst_netpart.len());
    assert(h.src_addr_len == d.src_netpart.len());
    lemma_nhip_received(local_mac, remote_mac, h, d, nharp_type);
    assert(ping_frame(p, local_mac, remote_mac, payload, oper) == cfg::eth_header(
        local_mac,
        remote_mac,
        NHIP_ETHERTYPE,
    ) + header::header_bytes(h) + forward::dynamic_bytes(d));
}

/// The header of a ping or pong announces the length of its packet, unless a part is longer than
/// the header can say.
pub proof fn law_ping_len(
    p: PartiesView,
    local_mac: Seq<u8>,
    remote_mac: Seq<u8>,
    payload: Seq<u8>,
    oper: u8,
)
    requires
        local_mac.len() == 6,
        remote_mac.len() == 6,
        encode_utf8(p.remote_netpart).len() <= u16::MAX,
        encode_utf8(p.local_netpart).len() <= u16::MAX,
        payload.len() <= u16::MAX,
    ensures
        ping_frame(p, local_mac, remote_mac, payload, oper).len() == 14 + header::packet_len(
            ping_header(ping_dynamic(p, payload), oper),
        ),
{
    let d = ping_dynamic(p, payload);
    header::law_header_round_trip(ping_header(d, oper));
    bytes::lemma_bytes_len(NHIP_ETHERTYPE as nat, 2);
    bytes::lemma_bytes_len(d.dst_node_id as nat, 4);
    bytes::lemma_bytes_len(d.src_node_id as nat, 4);
}

/// A forwarded packet arrives at the next hop with the addresses and the payload that it came
/// with.
#[verifier::spinoff_prover]
#[verifier::rlimit(40)]
pub proof fn law_forwarded_received(
    h: NhipHeader,
    rest: Seq<u8>,
    destination: Seq<char>,
    local_mac: Seq<u8>,
    next_mac: Seq<u8>,
    nharp_type: u16,
)
    requires
        local_mac.len() == 6,
        next_mac.len() == 6,
        rest.len() >= forward::dynamic_len(h.dst_addr_len as nat, h.src_addr_len as nat),
        nharp_type != NHIP_ETHERTYPE,
    ensures
        ({
            let d = forward::dynamic_of(h.dst_addr_len as nat, h.src_addr_len as nat, rest);
            let frame = forward::forwarded_frame(h, d, destination, local_mac, next_mac);
            received(frame, nharp_type) is Nhip && received(frame, nharp_type)->Nhip_1 == rest
                && received(frame, nharp_type)->Nhip_2 == d
        }),
{
    let d = forward::dynamic_of(h.dst_addr_len as nat, h.src_addr_len as nat, rest);
    let new_hdr = forward::forwarded_header(
        h,
        crate::label::link_hash(local_mac, next_mac, d.dst_netpart),
        forward::next_pointer_of(h.pointer, destination, d.dst_netpart),
    );
    lemma_nhip_received(local_mac, next_mac, new_hdr, d, nharp_type);
    forward::law_dynamic_bytes_round_trip(h.dst_addr_len as nat, h.src_addr_len as nat, rest);
}

/// An address that was written from a network part without a colon and a NodeID reads back as
/// these two.
pub proof fn law_addr_text(net: Seq<char>, node_id: u32)
    requires
        forall|i: int| 0 <= i < net.len() ==> net[i] != ':',
    ensures
        addr::addr_node_id(net + ":"@ + number::dec_text(node_id as nat)) == Ok::<u32, AddrErr>(
            node_id,
        ),
        text::before_first(net + ":"@ + number::dec_text(node_id as nat), ':') == net,
{
    let digits = number::dec_text(node_id as nat);
    let a = net + ":"@ + digits;
    reveal_strlit(":");
    number::law_decimal_round_trip(node_id as nat);
    addr::law_decimal_node_id(node_id);
    let n = net.len() as int;
    assert(a[n] == ':');
    assert forall|i: int| n < i < a.len() implies a[i] != ':' by {
        assert(a[i] == digits[i - n - 1]);
        assert(number::digit_value(digits[i - n - 1], 10) is Some);
    }
    text::lemma_last_pos(a, ':', n);
    text::lemma_first_pos(a, ':', n);
    assert(text::after_last(a, ':') =~= digits);
    assert(text::before_first(a, ':') =~= net);
}

/// A ping for this host is answered by a pong with the same payload and the two addresses
/// exchanged, where the network parts are UTF-8 and hold no colon.
pub proof fn law_ping_is_answered(config: Seq<AddressView>, ifname: Seq<char>, d: DynamicView)
    requires
        is_local(config, ifname, d),
        valid_utf8(d.dst_netpart),
        valid_utf8(d.src_netpart),
        forall|i: int|
            0 <= i < decode_utf8(d.dst_netpart).len() ==> decode_utf8(d.dst_netpart)[i] != ':',
        forall|i: int|
            0 <= i < decode_utf8(d.src_netpart).len() ==> decode_utf8(d.src_netpart)[i] != ':',
    ensures
        ({
            let answer = delivery(config, ifname, next_header::NHIPPING, d);
            let parties = parties_of(answer->local, answer->remote);
            &&& answer is Pong
            &&& parties is Ok
            &&& ping_dynamic(parties.unwrap(), d.payload) == (DynamicView {
                dst_netpart: d.src_netpart,
                dst_node_id: d.src_node_id,
                src_netpart: d.dst_netpart,
                src_node_id: d.dst_node_id,
                payload: d.payload,
            })
        }),
{
    law_addr_text(decode_utf8(d.dst_netpart), d.dst_node_id);
    law_addr_text(decode_utf8(d.src_netpart), d.src_node_id);
    decode_utf8_encode_utf8(d.dst_netpart);
    decode_utf8_encode_utf8(d.src_netpart);
}

/// A request for a NodeID of the interface that it comes in on arrives and calls for a reply,
/// where that NodeID reads back from the field that it was written to.
pub proof fn law_request_is_answered(
    config: Seq<AddressView>,
    ifname: Seq<char>,
    local_node_id: u32,
    local_mac: [u8; 6],
    remote_node_id: u32,
    nharp_type: u16,
)
    requires
        cfg::has_node_id(cfg::iface_addrs(config, ifname), remote_node_id),
        nharp_ctl::wire_id(remote_node_id) == remote_node_id,
    ensures
        ({
            let p = nharp_ctl::request_packet(local_node_id, local_mac, remote_node_id);
            let all = Seq::new(6, |i: int| 0xFFu8);
            let frame = nharp_ctl::nharp_frame(local_mac@, all, nharp_type, p);
            &&& received(frame, nharp_type) == ReceivedView::Nharp(packet::packet_bytes(p))
            &&& nharp_ctl::asks_for_us(p, config, ifname)
        }),
{
    let p = nharp_ctl::request_packet(local_node_id, local_mac, remote_node_id);
    law_nharp_received(local_mac@, Seq::new(6, |i: int| 0xFFu8), nharp_type, p);
}

/// A reply arrives and tells its receiver, on the interface `ifindex`, that the NodeID is at the
/// hardware address that was announced, where that NodeID reads back from the field that it was
/// written to.
pub proof fn law_reply_is_learnt(
    local_node_id: u32,
    local_mac: [u8; 6],
    remote_node_id: u32,
    remote_mac: [u8; 6],
    ifindex: u32,
    nharp_type: u16,
)
    requires
        nharp_ctl::wire_id(local_node_id) == local_node_id,
    ensures
        ({
            let p = nharp_ctl::reply_packet(local_node_id, local_mac, remote_node_id);
            let frame = nharp_ctl::nharp_frame(local_mac@, remote_mac@, nharp_type, p);
            &&& received(frame, nharp_type) == ReceivedView::Nharp(packet::packet_bytes(p))
            &&& nharp_ctl::sender_key(ifindex, p) == (nharp_ctl::NharpKey {
                ifindex,
                node_id: local_node_id,
            })
            &&& p.source_mac == local_mac
        }),
{
    let p = nharp_ctl::reply_packet(local_node_id, local_mac, remote_node_id);
    law_nharp_received(local_mac@, remote_mac@, nharp_type, p);
}

/// A packet of [`cfg::build_nhip_packet`] is read with the addresses and the payload that it
/// was made of, and with the bytes of each NodeID in reverse.
#[verifier::spinoff_prover]
#[verifier::rlimit(40)]
pub proof fn law_built_packet_read(
    src_addr: Seq<u8>,
    src_node_id: u32,
    dst_addr: Seq<u8>,
    dst_node_id: u32,
    payload: Seq<u8>,
)
    requires
        src_addr.len() <= u16::MAX,
        dst_addr.len() <= u16::MAX,
    ensures
        ({
            let packet = cfg::nhip_packet(src_addr, src_node_id, dst_addr, dst_node_id, payload);
            let h = header::header_of(packet.take(NHIP_HEADER_LEN as int));
            let d = forward::dynamic_of(
                h.dst_addr_len as nat,
                h.src_addr_len as nat,
                packet.skip(NHIP_HEADER_LEN as int),
            );
            &&& h == cfg::fresh_header(0x01, dst_addr.len(), src_addr.len(), payload.len())
            &&& d.dst_netpart == dst_addr
            &&& d.src_netpart == src_addr
            &&& d.payload == payload
            &&& d.dst_node_id == bytes::le_value(bytes::be_bytes(dst_node_id as nat, 4))
            &&& d.src_node_id == bytes::le_value(bytes::be_bytes(src_node_id as nat, 4))
        }),
{
    let packet = cfg::nhip_packet(src_addr, src_node_id, dst_addr, dst_node_id, payload);
    let h = cfg::fresh_header(0x01, dst_addr.len(), src_addr.len(), payload.len());
    let a = bytes::be_bytes(dst_node_id as nat, 4);
    let b = bytes::be_bytes(src_node_id as nat, 4);
    let rest = dst_addr + a + src_addr + b + payload;
    header::law_header_round_trip(h);
    bytes::lemma_bytes_len(dst_node_id as nat, 4);
    bytes::lemma_bytes_len(src_node_id as nat, 4);
    bytes::lemma_machine_bounds(a);
    bytes::lemma_machine_bounds(b);
    forward::lemma_dynamic_parts(dst_addr, a, src_addr, b, payload);
    assert(packet =~= header::header_bytes(h) + rest);
    assert(packet.take(NHIP_HEADER_LEN as int) =~= header::header_bytes(h));
    assert(packet.skip(NHIP_HEADER_LEN as int) =~= rest);
}

} // verus!
