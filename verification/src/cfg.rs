//! The configuration: interface addresses, routes and static neighbours, and what is read
//! out of them.
use crate::addr;
use crate::bytes;
use crate::header::{NhipHeader, NHIP_DEFAULT_TTL, NHIP_VERSION};
use crate::header;
use crate::number;
use crate::text;
use vstd::prelude::*;
use vstd::string::*;
use vstd::utf8::*;

pub mod ansi_color;
pub mod laws;

verus! {

/// The addresses of one interface.
#[derive(Debug, Clone)]
pub struct AddressEntry {
    pub ifname: String,
    pub prefix: String,
    pub addresses: Vec<String>,
}

/// How a route was learnt.
#[derive(Debug, Clone, Copy, PartialEq, Eq, Structural)]
pub enum RoutingProto {
    Static,
    Ospf,
    Rip,
    Unknown,
}

/// One route.
#[derive(Debug, Clone)]
pub struct RouteEntry {
    pub destination: String,
    pub next_hop: String,
    pub dev: String,
    pub proto: RoutingProto,
    pub priority: u8,
}

/// A neighbour whose hardware address is configured.
#[derive(Debug, Clone)]
pub struct NharpConfigEntry {
    pub node_id: u32,
    pub mac: String,
}

/// What an [`AddressEntry`] holds.
pub struct AddressView {
    pub ifname: Seq<char>,
    pub prefix: Seq<char>,
    pub addresses: Seq<Seq<char>>,
}

/// What a [`RouteEntry`] holds.
pub struct RouteView {
    pub destination: Seq<char>,
    pub next_hop: Seq<char>,
    pub dev: Seq<char>,
    pub proto: RoutingProto,
    pub priority: u8,
}

/// What a [`NharpConfigEntry`] holds.
pub struct NeighborView {
    pub node_id: u32,
    pub mac: Seq<char>,
}

impl View for AddressEntry {
    type V = AddressView;

    open spec fn view(&self) -> AddressView {
        AddressView {
            ifname: self.ifname@,
            prefix: self.prefix@,
            addresses: text::views(self.addresses@),
        }
    }
}

impl View for RouteEntry {
    type V = RouteView;

    open spec fn view(&self) -> RouteView {
        RouteView {
            destination: self.destination@,
            next_hop: self.next_hop@,
            dev: self.dev@,
            proto: self.proto,
            priority: self.priority,
        }
    }
}

impl View for NharpConfigEntry {
    type V = NeighborView;

    open spec fn view(&self) -> NeighborView {
        NeighborView { node_id: self.node_id, mac: self.mac@ }
    }
}

/// What an address configuration holds.
pub open spec fn address_table(config: Seq<AddressEntry>) -> Seq<AddressView> {
    config.map_values(|e: AddressEntry| e@)
}

/// What a routing table holds.
pub open spec fn route_table(config: Seq<RouteEntry>) -> Seq<RouteView> {
    config.map_values(|r: RouteEntry| r@)
}

/// The addresses that `config` gives to the interface `ifname`, in order.
pub open spec fn iface_addrs(config: Seq<AddressView>, ifname: Seq<char>) -> Seq<Seq<char>>
    decreases config.len(),
{
    if config.len() == 0 {
        Seq::empty()
    } else {
        let before = iface_addrs(config.drop_last(), ifname);
        if config.last().ifname == ifname {
            before + config.last().addresses
        } else {
            before
        }
    }
}

/// Whether one of the addresses `addrs` has the NodeID `node_id`: the text behind the last
/// colon, or all of the address where it has none.
pub open spec fn has_node_id(addrs: Seq<Seq<char>>, node_id: u32) -> bool {
    exists|i: int|
        0 <= i < addrs.len() && addr::node_id_check(
            encode_utf8(text::after_last(#[trigger] addrs[i], ':')),
        ) == Ok::<u32, addr::AddrErr>(node_id)
}

/// The addresses of the interface `ifname`, in order.
pub fn iface_addresses(config: &[AddressEntry], ifname: &str) -> (res: Vec<String>)
    ensures
        text::views(res@) == iface_addrs(address_table(config@), ifname@),
{
    let ghost table = address_table(config@);
    let mut res: Vec<String> = Vec::new();
    assert(text::views(res@) =~= iface_addrs(table.take(0), ifname@));
    for i in 0..config.len()
        invariant
            table == address_table(config@),
            text::views(res@) == iface_addrs(table.take(i as int), ifname@),
    {
        let entry = &config[i];
        assert(table.take(i + 1).drop_last() =~= table.take(i as int));
        assert(table.take(i + 1).last() == entry@);
        if text::str_eq(entry.ifname.as_str(), ifname) {
            let ghost before = text::views(res@);
            let ghost all = text::views(entry.addresses@);
            assert(all.take(0) =~= Seq::<Seq<char>>::empty());
            for j in 0..entry.addresses.len()
                invariant
                    all == text::views(entry.addresses@),
                    text::views(res@) == before + all.take(j as int),
            {
                let addr = entry.addresses[j].clone();
                let ghost so_far = text::views(res@);
                res.push(addr);
                assert(text::views(res@) =~= so_far.push(addr@));
                assert(all.take(j + 1) =~= all.take(j as int).push(addr@));
                assert(text::views(res@) =~= before + all.take(j + 1));
            }
            assert(all.take(all.len() as int) =~= all);
        }
    }
    assert(table.take(table.len() as int) =~= table);
    res
}

/// Whether `node_id` is assigned to the interface `ifname`.
pub fn is_my_node_id(config: &[AddressEntry], ifname: &str, node_id: u32) -> (res: bool)
    ensures
        res == has_node_id(iface_addrs(address_table(config@), ifname@), node_id),
{
    let addrs = iface_addresses(config, ifname);
    let ghost all = iface_addrs(address_table(config@), ifname@);
    for i in 0..addrs.len()
        invariant
            all == text::views(addrs@),
            all == iface_addrs(address_table(config@), ifname@),
            forall|j: int|
                0 <= j < i ==> addr::node_id_check(
                    encode_utf8(text::after_last(#[trigger] all[j], ':')),
                ) != Ok::<u32, addr::AddrErr>(node_id),
    {
        let raw = text::tail(addrs[i].as_str(), ':');
        assert(all[i as int] == addrs@[i as int]@);
        match addr::parse_node_id(raw.as_str().as_bytes()) {
            Ok(parsed) => {
                if parsed == node_id {
                    return true;
                }
            },
            Err(_) => {},
        }
    }
    false
}

/// `text` between the escape sequence `ansi_color` and the one that resets the style.
pub fn colorize(text: &str, ansi_color: &str) -> (res: String)
    ensures
        res@ == ansi_color@ + text@ + ansi_color::RESET@,
{
    let mut res = String::new();
    res.append(ansi_color);
    res.append(text);
    res.append(ansi_color::RESET);
    assert(res@ =~= ansi_color@ + text@ + ansi_color::RESET@);
    res
}

/// Why a hardware address was refused.
#[derive(Debug, Clone, Copy, PartialEq, Eq, Structural)]
pub enum MacErr {
    /// There are not six octets.
    Parts,
    /// An octet is not a hexadecimal number of at most 255.
    Octet,
}

/// The hardware address that `s` writes: six hexadecimal octets between colons.
pub open spec fn mac_value(s: Seq<char>) -> Result<Seq<u8>, MacErr> {
    let parts = text::split_on(s, ':');
    if parts.len() != 6 {
        Err(MacErr::Parts)
    } else if exists|i: int|
        0 <= i < 6 && number::bounded_value(#[trigger] parts[i], 16, 255) is None {
        Err(MacErr::Octet)
    } else {
        Ok(Seq::new(6, |i: int| number::bounded_value(parts[i], 16, 255).unwrap() as u8))
    }
}

/// `m` in hexadecimal: two lower-case digits for each octet, colons between them.
pub open spec fn mac_text(m: Seq<u8>) -> Seq<char> {
    Seq::new(
        17,
        |i: int|
            if i % 3 == 0 {
                number::hex_digit(m[i / 3] as nat / 16)
            } else if i % 3 == 1 {
                number::hex_digit(m[i / 3] as nat % 16)
            } else {
                ':'
            },
    )
}

/// Reads a hardware address.
pub fn parse_mac(string: &str) -> (res: Result<[u8; 6], MacErr>)
    ensures
        match res {
            Ok(m) => mac_value(string@) == Ok::<Seq<u8>, MacErr>(m@),
            Err(e) => mac_value(string@) == Err::<Seq<u8>, MacErr>(e),
        },
{
    let parts = text::split(string, ':');
    let ghost all = text::split_on(string@, ':');
    if parts.len() != 6 {
        return Err(MacErr::Parts);
    }
    let mut mac: [u8; 6] = [0; 6];
    for i in 0..6usize
        invariant
            all == text::views(parts@),
            all == text::split_on(string@, ':'),
            parts@.len() == 6,
            forall|j: int|
                0 <= j < i ==> number::bounded_value(#[trigger] all[j], 16, 255) == Some(
                    mac@[j] as nat,
                ),
    {
        assert(all[i as int] == parts@[i as int]@);
        match number::parse_hex_u8(parts[i].as_str()) {
            Some(octet) => {
                mac[i] = octet;
            },
            None => {
                return Err(MacErr::Octet);
            },
        }
    }
    assert(mac@ =~= mac_value(string@).unwrap());
    Ok(mac)
}

/// Writes a hardware address. This does not fail.
pub fn mac_to_str(mac: &[u8; 6]) -> (res: Result<String, MacErr>)
    ensures
        res is Ok,
        res.unwrap()@ == mac_text(mac@),
{
    let mut out = String::new();
    for i in 0..6usize
        invariant
            out@ == mac_text(mac@).take(if i == 0 {
                0
            } else {
                3 * i - 1
            }),
    {
        if i > 0 {
            out.push(':');
        }
        number::push_hex_u8(&mut out, mac[i]);
        assert(out@ =~= mac_text(mac@).take(3 * (i + 1) - 1));
    }
    assert(mac_text(mac@).take(17) =~= mac_text(mac@));
    Ok(out)
}

proof fn lemma_mac_parts(m: Seq<u8>, k: int)
    requires
        m.len() == 6,
        0 <= k < 6,
    ensures
        text::split_on(mac_text(m).skip(3 * k), ':').len() == 6 - k,
        forall|i: int|
            0 <= i < 6 - k ==> #[trigger] text::split_on(mac_text(m).skip(3 * k), ':')[i]
                == mac_text(m).subrange(3 * (k + i), 3 * (k + i) + 2),
    decreases 6 - k,
{
    let s = mac_text(m).skip(3 * k);
    assert(s[0] == mac_text(m)[3 * k]);
    assert(s[1] == mac_text(m)[3 * k + 1]);
    text::lemma_first_pos(s, ':', 2);
    if k < 5 {
        lemma_mac_parts(m, k + 1);
        assert(s.skip(3) =~= mac_text(m).skip(3 * (k + 1)));
        let rest = text::split_on(s.skip(3), ':');
        let all = text::split_on(s, ':');
        assert(all == seq![s.take(2)] + rest);
        assert(s.take(2) =~= mac_text(m).subrange(3 * k, 3 * k + 2));
        assert forall|i: int| 0 <= i < 6 - k implies #[trigger] all[i] == mac_text(m).subrange(
            3 * (k + i),
            3 * (k + i) + 2,
        ) by {
            if i > 0 {
                assert(all[i] == rest[i - 1]);
            }
        }
    } else {
        assert(s =~= mac_text(m).subrange(15, 17));
    }
}

proof fn lemma_octet_text(b: u8)
    ensures
        number::bounded_value(
            seq![number::hex_digit(b as nat / 16), number::hex_digit(b as nat % 16)],
            16,
            255,
        ) == Some(b as nat),
{
    let s = seq![number::hex_digit(b as nat / 16), number::hex_digit(b as nat % 16)];
    reveal_with_fuel(number::digits_value, 3);
    assert(s.drop_last().drop_last() =~= Seq::<char>::empty());
    assert(number::digit_value(s[0], 16) == Some(b as nat / 16));
    assert(number::digit_value(s[1], 16) == Some(b as nat % 16));
}

/// A hardware address that was written reads back as itself.
pub proof fn law_mac_round_trip(m: Seq<u8>)
    requires
        m.len() == 6,
    ensures
        mac_value(mac_text(m)) == Ok::<Seq<u8>, MacErr>(m),
{
    let s = mac_text(m);
    let parts = text::split_on(s, ':');
    assert(s.skip(0) =~= s);
    lemma_mac_parts(m, 0);
    assert forall|i: int| 0 <= i < 6 implies number::bounded_value(#[trigger] parts[i], 16, 255)
        == Some(m[i] as nat) by {
        assert(parts[i] =~= seq![
            number::hex_digit(m[i] as nat / 16),
            number::hex_digit(m[i] as nat % 16),
        ]);
        lemma_octet_text(m[i]);
    }
    assert(mac_value(s).unwrap() =~= m);
}

/// The NodeID of the first candidate whose network part is `net`.
pub open spec fn first_node_id(candidates: Seq<(String, u32)>, net: Seq<char>) -> Option<u32>
    decreases candidates.len(),
{
    if candidates.len() == 0 {
        None
    } else if candidates[0].0@ == net {
        Some(candidates[0].1)
    } else {
        first_node_id(candidates.drop_first(), net)
    }
}

/// The NodeID that goes with the network part of a destination.
///
/// * `candidates` - pairs of a network part and a NodeID
/// * `dst_netpart` - the network part of the destination
pub fn pick_node_id_for_netpart(candidates: &[(String, u32)], dst_netpart: &str) -> (res: Option<
    u32,
>)
    ensures
        res == first_node_id(candidates@, dst_netpart@),
{
    assert(candidates@.skip(0) =~= candidates@);
    for i in 0..candidates.len()
        invariant
            first_node_id(candidates@, dst_netpart@) == first_node_id(
                candidates@.skip(i as int),
                dst_netpart@,
            ),
    {
        assert(candidates@.skip(i as int).drop_first() =~= candidates@.skip(i + 1));
        if text::str_eq(candidates[i].0.as_str(), dst_netpart) {
            return Some(candidates[i].1);
        }
    }
    None
}

/// An Ethernet header: destination, source and type, the type most significant byte first.
pub open spec fn eth_header(src: Seq<u8>, dst: Seq<u8>, ether_type: u16) -> Seq<u8> {
    dst + src + bytes::be_bytes(ether_type as nat, 2)
}

/// Builds an Ethernet header.
pub fn build_eth_header(src_addr: [u8; 6], dst_addr: [u8; 6], ether_type: u16) -> (res: [u8; 14])
    ensures
        res@ == eth_header(src_addr@, dst_addr@, ether_type),
{
    let t = bytes::u16_to_be(ether_type);
    let res: [u8; 14] = [
        dst_addr[0],
        dst_addr[1],
        dst_addr[2],
        dst_addr[3],
        dst_addr[4],
        dst_addr[5],
        src_addr[0],
        src_addr[1],
        src_addr[2],
        src_addr[3],
        src_addr[4],
        src_addr[5],
        t[0],
        t[1],
    ];
    assert(res@ =~= eth_header(src_addr@, dst_addr@, ether_type));
    res
}

/// A length as a header holds it: its low sixteen bits.
pub open spec fn len16(n: nat) -> u16 {
    (n % 0x1_0000) as u16
}

/// The header of a packet that starts on the slow path.
pub open spec fn fresh_header(
    next_header: u8,
    dst_len: nat,
    src_len: nat,
    payload_len: nat,
) -> NhipHeader {
    NhipHeader {
        version_flags: header::nibbles(NHIP_VERSION, 0),
        pointer: 0,
        ttl: NHIP_DEFAULT_TTL,
        next_header,
        payload_length: len16(payload_len),
        link_label: 0,
        dst_addr_len: len16(dst_len),
        src_addr_len: len16(src_len),
    }
}

/// Makes the header of a packet that starts on the slow path.
pub fn make_header(next_header: u8, dst_len: usize, src_len: usize, payload_len: usize) -> (res:
    NhipHeader)
    ensures
        res == fresh_header(next_header, dst_len as nat, src_len as nat, payload_len as nat),
{
    let mut hdr = NhipHeader::new();
    hdr.set_version_flags(NHIP_VERSION, 0);
    hdr.pointer = 0;
    hdr.ttl = NHIP_DEFAULT_TTL;
    hdr.next_header = next_header;
    hdr.link_label = 0;
    hdr.dst_addr_len = (dst_len % 0x1_0000) as u16;
    hdr.src_addr_len = (src_len % 0x1_0000) as u16;
    hdr.payload_length = (payload_len % 0x1_0000) as u16;
    hdr
}

/// An NHIP packet whose NodeIDs stand most significant byte first.
pub open spec fn nhip_packet(
    src_addr: Seq<u8>,
    src_node_id: u32,
    dst_addr: Seq<u8>,
    dst_node_id: u32,
    payload: Seq<u8>,
) -> Seq<u8> {
    header::header_bytes(fresh_header(0x01, dst_addr.len(), src_addr.len(), payload.len()))
        + dst_addr + bytes::be_bytes(dst_node_id as nat, 4) + src_addr + bytes::be_bytes(
        src_node_id as nat,
        4,
    ) + payload
}

/// Builds an NHIP packet.
pub fn build_nhip_packet(
    src_addr: &[u8],
    src_node_id: u32,
    dst_addr: &[u8],
    dst_node_id: u32,
    payload: &[u8],
) -> (res: Vec<u8>)
    ensures
        res@ == nhip_packet(src_addr@, src_node_id, dst_addr@, dst_node_id, payload@),
{
    let hdr = make_header(0x01, dst_addr.len(), src_addr.len(), payload.len());
    let mut buf: Vec<u8> = hdr.to_bytes();
    bytes::append(&mut buf, dst_addr);
    bytes::append(&mut buf, bytes::u32_to_be(dst_node_id).as_slice());
    bytes::append(&mut buf, src_addr);
    bytes::append(&mut buf, bytes::u32_to_be(src_node_id).as_slice());
    bytes::append(&mut buf, payload);
    buf
}

/// Why a tilde could not be expanded.
#[derive(Debug, Clone, Copy, PartialEq, Eq, Structural)]
pub enum TildeErr {
    /// The interface is not configured.
    NotConfigured,
    /// The interface has no prefix.
    NoPrefix,
}

/// The place in `config` of the first entry for the interface `ifname`, or the length of
/// `config` if there is none.
pub open spec fn entry_pos(config: Seq<AddressView>, ifname: Seq<char>) -> int
    decreases config.len(),
{
    if config.len() == 0 || config[0].ifname == ifname {
        0
    } else {
        1 + entry_pos(config.drop_first(), ifname)
    }
}

/// `entry_pos` finds the first entry.
pub proof fn lemma_entry_pos(config: Seq<AddressView>, ifname: Seq<char>, p: int)
    requires
        0 <= p <= config.len(),
        forall|i: int| 0 <= i < p ==> (#[trigger] config[i]).ifname != ifname,
        p < config.len() ==> config[p].ifname == ifname,
    ensures
        entry_pos(config, ifname) == p,
    decreases config.len(),
{
    if p > 0 {
        let rest = config.drop_first();
        assert forall|i: int| 0 <= i < p - 1 implies (#[trigger] rest[i]).ifname != ifname by {
            assert(rest[i] == config[i + 1]);
        }
        assert(config[0].ifname != ifname);
        lemma_entry_pos(rest, ifname, p - 1);
    }
}

/// What `addr` stands for on the interface `dev`: a leading tilde is the prefix of the
/// interface.
pub open spec fn expanded(addr: Seq<char>, dev: Seq<char>, config: Seq<AddressView>) -> Result<
    Seq<char>,
    TildeErr,
> {
    if addr.len() > 0 && addr[0] == '~' {
        let p = entry_pos(config, dev);
        if p >= config.len() {
            Err(TildeErr::NotConfigured)
        } else if config[p].prefix == "none"@ || config[p].prefix.len() == 0 {
            Err(TildeErr::NoPrefix)
        } else {
            Ok(config[p].prefix + addr.skip(1))
        }
    } else {
        Ok(addr)
    }
}

/// The place of the first entry for the interface `ifname`.
pub fn find_entry(config: &[AddressEntry], ifname: &str) -> (res: Option<usize>)
    ensures
        match res {
            Some(p) => p == entry_pos(address_table(config@), ifname@) && p < config@.len(),
            None => entry_pos(address_table(config@), ifname@) == config@.len(),
        },
{
    let ghost table = address_table(config@);
    for i in 0..config.len()
        invariant
            table == address_table(config@),
            forall|j: int| 0 <= j < i ==> (#[trigger] table[j]).ifname != ifname@,
    {
        assert(table[i as int] == config@[i as int]@);
        if text::str_eq(config[i].ifname.as_str(), ifname) {
            proof {
                lemma_entry_pos(table, ifname@, i as int);
            }
            return Some(i);
        }
    }
    proof {
        lemma_entry_pos(table, ifname@, table.len() as int);
    }
    None
}

/// Replaces a leading tilde by the prefix of the interface `dev`.
pub fn expand_tilde(addr: &str, dev: &str, config: &[AddressEntry]) -> (res: Result<
    String,
    TildeErr,
>)
    ensures
        match res {
            Ok(s) => expanded(addr@, dev@, address_table(config@)) == Ok::<Seq<char>, TildeErr>(
                s@,
            ),
            Err(e) => expanded(addr@, dev@, address_table(config@)) == Err::<Seq<char>, TildeErr>(
                e,
            ),
        },
{
    let chars = text::to_chars(addr);
    let len: usize = chars.len();
    if len > 0 && chars[0] == '~' {
        match find_entry(config, dev) {
            None => Err(TildeErr::NotConfigured),
            Some(p) => {
                let prefix = &config[p].prefix;
                assert(address_table(config@)[p as int] == config@[p as int]@);
                if text::str_eq(prefix.as_str(), "none") || prefix.as_str().is_empty() {
                    return Err(TildeErr::NoPrefix);
                }
                let mut res = prefix.clone();
                let rest = text::text_of(&chars, 1, len);
                res.append(rest.as_str());
                assert(rest@ =~= addr@.skip(1));
                Ok(res)
            },
        }
    } else {
        Ok(addr.to_owned())
    }
}

/// An address without a leading tilde stands for itself, whatever is configured.
pub proof fn law_expand_plain(addr: Seq<char>, dev: Seq<char>, config: Seq<AddressView>)
    requires
        addr.len() == 0 || addr[0] != '~',
    ensures
        expanded(addr, dev, config) == Ok::<Seq<char>, TildeErr>(addr),
{
}

/// The administrative distance of a protocol: the smaller, the more its routes are trusted.
pub open spec fn distance(proto: RoutingProto) -> u8 {
    match proto {
        RoutingProto::Static => 1,
        RoutingProto::Ospf => 110,
        RoutingProto::Rip => 120,
        RoutingProto::Unknown => 255,
    }
}

/// The administrative distance of a protocol.
pub fn proto_to_ad(proto: &RoutingProto) -> (res: u8)
    ensures
        res == distance(*proto),
{
    match proto {
        RoutingProto::Static => 1,
        RoutingProto::Ospf => 110,
        RoutingProto::Rip => 120,
        RoutingProto::Unknown => 255,
    }
}

/// A copy of a route.
pub fn copy_route(r: &RouteEntry) -> (res: RouteEntry)
    ensures
        res@ == r@,
{
    RouteEntry {
        destination: r.destination.clone(),
        next_hop: r.next_hop.clone(),
        dev: r.dev.clone(),
        proto: r.proto,
        priority: r.priority,
    }
}

/// The static route with these fields.
pub open spec fn static_route(
    destination: Seq<char>,
    next_hop: Seq<char>,
    dev: Seq<char>,
    priority: u8,
) -> RouteView {
    RouteView { destination, next_hop, dev, proto: RoutingProto::Static, priority }
}

/// Whether `r` is the static route with these fields.
pub fn is_static_route(r: &RouteEntry, destination: &str, next_hop: &str, dev: &str, priority: u8) -> (res:
    bool)
    ensures
        res == (r@ == static_route(destination@, next_hop@, dev@, priority)),
{
    text::str_eq(r.destination.as_str(), destination) && text::str_eq(r.dev.as_str(), dev)
        && text::str_eq(r.next_hop.as_str(), next_hop) && r.proto == RoutingProto::Static
        && r.priority == priority
}

/// `routes` with the route `r`, which is added unless it is there already.
pub open spec fn with_route(routes: Seq<RouteView>, r: RouteView) -> Seq<RouteView> {
    if routes.contains(r) {
        routes
    } else {
        routes.push(r)
    }
}

/// Adds a static route unless it is there already. The result says whether it was added.
pub fn insert_route(
    routes: &mut Vec<RouteEntry>,
    destination: &str,
    next_hop: &str,
    dev: &str,
    priority: u8,
) -> (res: bool)
    ensures
        ({
            let table = route_table(old(routes)@);
            let r = static_route(destination@, next_hop@, dev@, priority);
            &&& res == !table.contains(r)
            &&& route_table(final(routes)@) == with_route(table, r)
        }),
{
    let ghost table = route_table(routes@);
    let ghost r = static_route(destination@, next_hop@, dev@, priority);
    for i in 0..routes.len()
        invariant
            table == route_table(routes@),
            routes@ == old(routes)@,
            r == static_route(destination@, next_hop@, dev@, priority),
            forall|j: int| 0 <= j < i ==> #[trigger] table[j] != r,
    {
        assert(table[i as int] == routes@[i as int]@);
        if is_static_route(&routes[i], destination, next_hop, dev, priority) {
            return false;
        }
    }
    assert(!table.contains(r));
    routes.push(
        RouteEntry {
            destination: destination.to_owned(),
            next_hop: next_hop.to_owned(),
            dev: dev.to_owned(),
            proto: RoutingProto::Static,
            priority,
        },
    );
    assert(route_table(routes@) =~= table.push(r));
    true
}

/// A route is in the table after it was added, and adding it again changes nothing.
pub proof fn law_add_route(routes: Seq<RouteView>, r: RouteView, other: RouteView)
    ensures
        with_route(routes, r).contains(r),
        with_route(routes, r).contains(other) <==> routes.contains(other) || other == r,
        with_route(with_route(routes, r), r) == with_route(routes, r),
{
    text::lemma_push_contains(routes, r, r);
    text::lemma_push_contains(routes, r, other);
}

} // verus!
