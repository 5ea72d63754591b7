//! What the control tool promises of every configuration that it changes or shows.
use crate::addr;
use crate::cfg::{AddressView, NeighborView, RouteView, RoutingProto};
use crate::cfg;
use crate::nhipctl::{AddAddrErr, LocalView};
use crate::nhipctl;
use crate::number;
use crate::text;
use vstd::prelude::*;
use vstd::string::*;
use vstd::utf8::*;

verus! {

/// An address is added as it stands once its tilde is expanded, if it is one text, a colon and a
/// valid NodeID. The texts `v` are those between its colons.
pub proof fn law_added_address(
    address: Seq<char>,
    dev: Seq<char>,
    config: Seq<AddressView>,
    v: Seq<Seq<char>>,
)
    requires
        v.len() >= 1,
        forall|j: int| 0 <= j < v.len() ==> text::laws::is_free(#[trigger] v[j], ':'),
    ensures
        ({
            let res = nhipctl::added_address(address, dev, config);
            match cfg::expanded(address, dev, config) {
                Err(e) => res == Err::<Seq<char>, AddAddrErr>(AddAddrErr::Tilde(e)),
                Ok(a) => a == text::joined(v, seq![':']) ==> if v.len() != 2 {
                    res == Err::<Seq<char>, AddAddrErr>(AddAddrErr::Parts)
                } else {
                    match addr::node_id_check(encode_utf8(v[1])) {
                        Err(e) => res == Err::<Seq<char>, AddAddrErr>(AddAddrErr::NodeId(e)),
                        Ok(_) => res == Ok::<Seq<char>, AddAddrErr>(a),
                    }
                },
            }
        }),
{
    text::laws::law_join_then_split(v, ':');
}

/// An added address stands behind the others of its interface, which stay as they are, unless it is
/// there already. A prefix that is given replaces the old one, and without one that stays. Where the
/// interface has no entry yet, one with this address alone is added behind the others. The first
/// entry of the interface is `p`.
pub proof fn law_address_is_added(
    config: Seq<AddressView>,
    dev: Seq<char>,
    a: Seq<char>,
    prefix: Option<Seq<char>>,
    p: int,
)
    requires
        0 <= p <= config.len(),
        forall|i: int| 0 <= i < p ==> (#[trigger] config[i]).ifname != dev,
        p < config.len() ==> config[p].ifname == dev,
    ensures
        ({
            let after = nhipctl::with_address(config, dev, a, prefix);
            let old_addrs = if p < config.len() {
                config[p].addresses
            } else {
                Seq::empty()
            };
            &&& after.len() == (if p < config.len() {
                config.len()
            } else {
                config.len() + 1
            })
            &&& forall|i: int| 0 <= i < config.len() && i != p ==> after[i] == config[i]
            &&& after[p].ifname == dev
            &&& prefix matches Some(x) ==> after[p].prefix == x
            &&& prefix is None && p < config.len() ==> after[p].prefix == config[p].prefix
            &&& prefix is None && p == config.len() ==> after[p].prefix == "none"@
            &&& old_addrs.contains(a) ==> after[p].addresses == old_addrs
            &&& !old_addrs.contains(a) ==> after[p].addresses == old_addrs + seq![a]
        }),
{
    let after = nhipctl::with_address(config, dev, a, prefix);
    cfg::lemma_entry_pos(config, dev, p);
    if p < config.len() {
        assert(config[p].addresses.push(a) =~= config[p].addresses + seq![a]);
    } else {
        assert(Seq::<Seq<char>>::empty() + seq![a] =~= seq![a]);
    }
}

/// Removing an address takes every occurrence of it away and keeps the others in their order.
pub proof fn law_without(v: Seq<Seq<char>>, w: Seq<Seq<char>>, a: Seq<char>, b: Seq<char>)
    ensures
        nhipctl::without(v + w, a) == nhipctl::without(v, a) + nhipctl::without(w, a),
        nhipctl::without(seq![a], a) == Seq::<Seq<char>>::empty(),
        b != a ==> nhipctl::without(seq![b], a) == seq![b],
        nhipctl::without(Seq::empty(), a) == Seq::<Seq<char>>::empty(),
    decreases w.len(),
{
    let none = Seq::<Seq<char>>::empty();
    assert(nhipctl::without(none, a) =~= none);
    assert(seq![a].drop_last() =~= none);
    assert(seq![b].drop_last() =~= none);
    assert(none.push(b) =~= seq![b]);
    if w.len() == 0 {
        assert(v + w =~= v);
        assert(w =~= none);
        assert(nhipctl::without(v, a) + none =~= nhipctl::without(v, a));
    } else {
        law_without(v, w.drop_last(), a, b);
        assert((v + w).drop_last() =~= v + w.drop_last());
        assert((v + w).last() == w.last());
        assert(nhipctl::without(v + w, a) =~= nhipctl::without(v, a) + nhipctl::without(w, a));
    }
}

/// A removed address goes from the first entry `p` of its interface. Nothing else changes, and
/// nothing at all where the interface has no entry.
pub proof fn law_address_is_removed(
    config: Seq<AddressView>,
    dev: Seq<char>,
    a: Seq<char>,
    p: int,
)
    requires
        0 <= p <= config.len(),
        forall|i: int| 0 <= i < p ==> (#[trigger] config[i]).ifname != dev,
        p < config.len() ==> config[p].ifname == dev,
    ensures
        ({
            let after = nhipctl::without_address(config, dev, a);
            &&& after.len() == config.len()
            &&& forall|i: int| 0 <= i < config.len() && i != p ==> after[i] == config[i]
            &&& p < config.len() ==> {
                &&& after[p].ifname == dev
                &&& after[p].prefix == config[p].prefix
                &&& after[p].addresses == nhipctl::without(config[p].addresses, a)
            }
        }),
{
    cfg::lemma_entry_pos(config, dev, p);
}

/// Removing an address that was just added gives back the addresses of the interface as they were.
pub proof fn law_remove_undoes_add(
    config: Seq<AddressView>,
    dev: Seq<char>,
    a: Seq<char>,
    p: int,
)
    requires
        0 <= p < config.len(),
        forall|i: int| 0 <= i < p ==> (#[trigger] config[i]).ifname != dev,
        config[p].ifname == dev,
        !config[p].addresses.contains(a),
    ensures
        nhipctl::without_address(nhipctl::with_address(config, dev, a, None), dev, a) == config,
{
    let after = nhipctl::with_address(config, dev, a, None);
    let old_addrs = config[p].addresses;
    law_address_is_added(config, dev, a, None, p);
    law_address_is_removed(after, dev, a, p);
    law_without(old_addrs, seq![a], a, a);
    lemma_nothing_removed(old_addrs, a);
    assert(old_addrs + Seq::<Seq<char>>::empty() =~= old_addrs);
    let back = nhipctl::without_address(after, dev, a);
    assert(back[p] == config[p]);
    assert(back =~= config);
}

proof fn lemma_nothing_removed(v: Seq<Seq<char>>, a: Seq<char>)
    requires
        !v.contains(a),
    ensures
        nhipctl::without(v, a) == v,
    decreases v.len(),
{
    if v.len() > 0 {
        let init = v.drop_last();
        assert(v[v.len() - 1] != a);
        assert(!init.contains(a)) by {
            if init.contains(a) {
                let i = choose|i: int| 0 <= i < init.len() && init[i] == a;
                assert(v[i] == a);
            }
        }
        lemma_nothing_removed(init, a);
        assert(init.push(v.last()) =~= v);
    } else {
        assert(v =~= Seq::<Seq<char>>::empty());
    }
}

/// Deleting `default` deletes every default route, whatever its other fields. Deleting any other
/// destination deletes the static route with exactly the given fields. All other routes stay, in
/// their order.
pub proof fn law_routes_deleted(
    a: Seq<RouteView>,
    b: Seq<RouteView>,
    r: RouteView,
    destination: Seq<char>,
    next_hop: Seq<char>,
    dev: Seq<char>,
    priority: u8,
)
    ensures
        nhipctl::without_route(a + b, destination, next_hop, dev, priority)
            == nhipctl::without_route(a, destination, next_hop, dev, priority)
            + nhipctl::without_route(b, destination, next_hop, dev, priority),
        nhipctl::without_route(seq![r], destination, next_hop, dev, priority) == (if destination
            == "default"@ && r.destination == "default"@ || destination != "default"@
            && r.destination == destination && r.next_hop == next_hop && r.dev == dev
            && r.priority == priority && r.proto == RoutingProto::Static {
            Seq::empty()
        } else {
            seq![r]
        }),
    decreases b.len(),
{
    let none = Seq::<RouteView>::empty();
    assert(nhipctl::without_route(none, destination, next_hop, dev, priority) =~= none);
    assert(seq![r].drop_last() =~= none);
    assert(none.push(r) =~= seq![r]);
    if b.len() == 0 {
        assert(a + b =~= a);
        assert(b =~= none);
        assert(nhipctl::without_route(a, destination, next_hop, dev, priority) + none
            =~= nhipctl::without_route(a, destination, next_hop, dev, priority));
    } else {
        law_routes_deleted(a, b.drop_last(), r, destination, next_hop, dev, priority);
        assert((a + b).drop_last() =~= a + b.drop_last());
        assert((a + b).last() == b.last());
        assert(nhipctl::without_route(a + b, destination, next_hop, dev, priority)
            =~= nhipctl::without_route(a, destination, next_hop, dev, priority)
            + nhipctl::without_route(b, destination, next_hop, dev, priority));
    }
}

/// There is a route to a destination exactly if a route of the table has it.
pub proof fn law_has_destination(a: Seq<RouteView>, r: RouteView, destination: Seq<char>)
    ensures
        nhipctl::has_destination(a.push(r), destination) <==> nhipctl::has_destination(
            a,
            destination,
        ) || r.destination == destination,
        !nhipctl::has_destination(Seq::empty(), destination),
{
    let t = a.push(r);
    if nhipctl::has_destination(a, destination) {
        let i = choose|i: int|
            0 <= i < a.len() && (#[trigger] a[i]).destination == destination;
        assert(t[i].destination == destination);
    }
    if r.destination == destination {
        assert(t[a.len() as int].destination == destination);
    }
    if nhipctl::has_destination(t, destination) && r.destination != destination {
        let i = choose|i: int|
            0 <= i < t.len() && (#[trigger] t[i]).destination == destination;
        assert(a[i].destination == destination);
    }
}

/// Removing a neighbour takes those with its NodeID away and keeps the others in their order.
pub proof fn law_other_neighbors(
    a: Seq<NeighborView>,
    b: Seq<NeighborView>,
    e: NeighborView,
    node_id: u32,
)
    ensures
        nhipctl::other_neighbors(a + b, node_id) == nhipctl::other_neighbors(a, node_id)
            + nhipctl::other_neighbors(b, node_id),
        nhipctl::other_neighbors(seq![e], node_id) == (if e.node_id == node_id {
            Seq::empty()
        } else {
            seq![e]
        }),
    decreases b.len(),
{
    let none = Seq::<NeighborView>::empty();
    assert(nhipctl::other_neighbors(none, node_id) =~= none);
    assert(seq![e].drop_last() =~= none);
    assert(none.push(e) =~= seq![e]);
    if b.len() == 0 {
        assert(a + b =~= a);
        assert(b =~= none);
        assert(nhipctl::other_neighbors(a, node_id) + none =~= nhipctl::other_neighbors(a, node_id));
    } else {
        law_other_neighbors(a, b.drop_last(), e, node_id);
        assert((a + b).drop_last() =~= a + b.drop_last());
        assert((a + b).last() == b.last());
        assert(nhipctl::other_neighbors(a + b, node_id) =~= nhipctl::other_neighbors(a, node_id)
            + nhipctl::other_neighbors(b, node_id));
    }
}

/// The neighbours behind a local hardware address are those of its place `p` in the table. Adding
/// one puts it there, last; a hardware address that has no place yet gets one behind the others.
/// Removing the last neighbour takes the place away, and all other places keep what they hold.
pub proof fn law_neighbor_places(
    t: Seq<LocalView>,
    mac: Seq<char>,
    e: NeighborView,
    node_id: u32,
    p: int,
)
    requires
        0 <= p <= t.len(),
        forall|i: int| 0 <= i < p ==> (#[trigger] t[i]).local_mac != mac,
        p < t.len() ==> t[p].local_mac == mac,
    ensures
        p < t.len() ==> nhipctl::entries_of(t, mac) == t[p].entries,
        p == t.len() ==> nhipctl::entries_of(t, mac) == Seq::<NeighborView>::empty(),
        ({
            let added = nhipctl::with_neighbor(t, mac, e);
            let row = LocalView {
                local_mac: mac,
                entries: if p < t.len() {
                    t[p].entries.push(e)
                } else {
                    seq![e]
                },
            };
            added == t.take(p) + seq![row] + (if p < t.len() {
                t.skip(p + 1)
            } else {
                Seq::empty()
            })
        }),
        p == t.len() ==> nhipctl::without_neighbor(t, mac, node_id) == t,
        p < t.len() ==> {
            let left = nhipctl::other_neighbors(t[p].entries, node_id);
            nhipctl::without_neighbor(t, mac, node_id) == t.take(p) + (if left.len() == 0 {
                Seq::empty()
            } else {
                seq![LocalView { local_mac: mac, entries: left }]
            }) + t.skip(p + 1)
        },
{
    nhipctl::lemma_local_pos(t, mac, p);
    let added = nhipctl::with_neighbor(t, mac, e);
    if p < t.len() {
        let row = LocalView { local_mac: mac, entries: t[p].entries.push(e) };
        assert(added =~= t.take(p) + seq![row] + t.skip(p + 1));
        let left = nhipctl::other_neighbors(t[p].entries, node_id);
        if left.len() == 0 {
            assert(t.remove(p) =~= t.take(p) + Seq::<LocalView>::empty() + t.skip(p + 1));
        } else {
            let kept = LocalView { local_mac: mac, entries: left };
            assert(t.update(p, kept) =~= t.take(p) + seq![kept] + t.skip(p + 1));
        }
    } else {
        let row = LocalView { local_mac: mac, entries: seq![e] };
        assert(added =~= t.take(p) + seq![row] + Seq::<LocalView>::empty());
    }
}

/// The line of a route to a destination other than `default` has its fields in columns that start
/// at 0, 36, 62, 73 and 84, where each field fits its column.
pub proof fn law_route_line(r: RouteView)
    requires
        r.destination != "default"@,
        r.destination.len() <= 35,
        r.next_hop.len() <= 25,
        r.dev.len() <= 10,
    ensures
        ({
            let s = nhipctl::route_line(r);
            let proto = match r.proto {
                RoutingProto::Static => "static"@,
                RoutingProto::Ospf => "ospf"@,
                RoutingProto::Rip => "rip"@,
                RoutingProto::Unknown => "unknown"@,
            };
            &&& s.len() == 94
            &&& s.subrange(0, 35) == text::padded(r.destination, 35)
            &&& s.subrange(36, 61) == text::padded(r.next_hop, 25)
            &&& s.subrange(62, 72) == text::padded(r.dev, 10)
            &&& s.subrange(73, 83) == text::padded(proto, 10)
            &&& s.subrange(84, 94) == text::padded(number::dec_text(r.priority as nat), 10)
            &&& s[35] == ' ' && s[61] == ' ' && s[72] == ' ' && s[83] == ' '
        }),
{
    let s = nhipctl::route_line(r);
    let proto = nhipctl::proto_name(r.proto);
    let priority = number::dec_text(r.priority as nat);
    reveal_strlit(" ");
    reveal_strlit("static");
    reveal_strlit("ospf");
    reveal_strlit("rip");
    reveal_strlit("unknown");
    text::laws::law_padded(r.destination, 35);
    text::laws::law_padded(r.next_hop, 25);
    text::laws::law_padded(r.dev, 10);
    text::laws::law_padded(proto, 10);
    lemma_short_decimal(r.priority as nat);
    text::laws::law_padded(priority, 10);
    assert(s.subrange(0, 35) =~= text::padded(r.destination, 35));
    assert(s.subrange(36, 61) =~= text::padded(r.next_hop, 25));
    assert(s.subrange(62, 72) =~= text::padded(r.dev, 10));
    assert(s.subrange(73, 83) =~= text::padded(proto, 10));
    assert(s.subrange(84, 94) =~= text::padded(priority, 10));
}

proof fn lemma_short_decimal(n: nat)
    requires
        n < 0x1_0000_0000,
    ensures
        number::dec_text(n).len() <= 10,
{
    reveal_with_fuel(number::dec_text, 11);
}

/// The line of a neighbour has its fields in columns that start at 0, 11, 47 and 68, where each
/// field fits its column.
pub proof fn law_neighbor_line(ifname: Seq<char>, node_id: u32, mac: Seq<char>, kind: Seq<char>)
    requires
        ifname.len() <= 10,
        mac.len() <= 20,
        kind.len() <= 10,
    ensures
        ({
            let s = nhipctl::neighbor_line(ifname, node_id, mac, kind);
            &&& s.len() == 78
            &&& s.subrange(0, 10) == text::padded(ifname, 10)
            &&& s.subrange(11, 46) == text::padded(number::dec_text(node_id as nat), 35)
            &&& s.subrange(47, 67) == text::padded(mac, 20)
            &&& s.subrange(68, 78) == text::padded(kind, 10)
            &&& s[10] == ' ' && s[46] == ' ' && s[67] == ' '
        }),
{
    let s = nhipctl::neighbor_line(ifname, node_id, mac, kind);
    let id = number::dec_text(node_id as nat);
    reveal_strlit(" ");
    lemma_short_decimal(node_id as nat);
    text::laws::law_padded(ifname, 10);
    text::laws::law_padded(id, 35);
    text::laws::law_padded(mac, 20);
    text::laws::law_padded(kind, 10);
    assert(s.subrange(0, 10) =~= text::padded(ifname, 10));
    assert(s.subrange(11, 46) =~= text::padded(id, 35));
    assert(s.subrange(47, 67) =~= text::padded(mac, 20));
    assert(s.subrange(68, 78) =~= text::padded(kind, 10));
}

/// The line of an interface shows its name in bold, its addresses in cyan with a comma and a space
/// between them, and its prefix in magenta.
pub proof fn law_address_line(e: AddressView)
    ensures
        nhipctl::address_line(e) == text::padded("\x1b[1m"@ + e.ifname + "\x1b[0m"@, 15).push(' ')
            + text::padded(
            "\x1b[36m"@ + text::joined(e.addresses, ", "@) + "\x1b[0m"@,
            20,
        ).push(' ') + text::padded("\x1b[35m"@ + e.prefix + "\x1b[0m"@, 25),
{
    reveal_strlit(" ");
    let a = text::padded("\x1b[1m"@ + e.ifname + "\x1b[0m"@, 15);
    let b = text::padded("\x1b[36m"@ + text::joined(e.addresses, ", "@) + "\x1b[0m"@, 20);
    assert(a + " "@ =~= a.push(' '));
    assert(a.push(' ') + b + " "@ =~= a.push(' ') + b.push(' '));
}

/// The line of a default route differs from that of another route in its first column alone, which
/// shows `default` in red.
pub proof fn law_default_line(r: RouteView, other: RouteView)
    requires
        r.destination == "default"@,
        other == (RouteView { destination: other.destination, ..r }),
        other.destination != "default"@,
        other.destination.len() <= 35,
    ensures
        ({
            let s = nhipctl::route_line(r);
            &&& s.len() == nhipctl::route_line(other).len()
            &&& s.take(35) == text::padded("\x1b[31m"@ + "default"@ + "\x1b[0m"@, 35)
            &&& s.skip(35) == nhipctl::route_line(other).skip(35)
        }),
{
    reveal_strlit("\x1b[31m");
    reveal_strlit("\x1b[0m");
    reveal_strlit("default");
    let s = nhipctl::route_line(r);
    let t = nhipctl::route_line(other);
    let red = "\x1b[31m"@ + "default"@ + "\x1b[0m"@;
    text::laws::law_padded(red, 35);
    text::laws::law_padded(other.destination, 35);
    assert(s.take(35) =~= text::padded(red, 35));
    assert(s.skip(35) =~= t.skip(35));
}

} // verus!
