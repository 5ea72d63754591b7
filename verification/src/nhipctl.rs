//! The control tool: changes to the configuration, and the lines that show it.
use crate::addr::{parse_node_id, AddrErr};
use crate::addr;
use crate::cfg::{
    ansi_color, colorize, expand_tilde, find_entry, AddressEntry, AddressView, NeighborView,
    NharpConfigEntry, RouteEntry, RouteView, RoutingProto, TildeErr,
};
use crate::cfg;
use crate::number;
use crate::text;
use vstd::prelude::*;
use vstd::string::*;
use vstd::utf8::*;

pub mod laws;

verus! {

/// Why an address was not added.
#[derive(Debug, Clone, Copy, PartialEq, Eq, Structural)]
pub enum AddAddrErr {
    /// The tilde could not be expanded.
    Tilde(TildeErr),
    /// The address is not a network part, a colon and a NodeID.
    Parts,
    /// The NodeID is not valid.
    NodeId(AddrErr),
}

/// The address that is added for `address` on the interface `dev`, or why none is.
pub open spec fn added_address(address: Seq<char>, dev: Seq<char>, config: Seq<AddressView>) -> Result<
    Seq<char>,
    AddAddrErr,
> {
    match cfg::expanded(address, dev, config) {
        Err(e) => Err(AddAddrErr::Tilde(e)),
        Ok(a) => {
            let parts = text::split_on(a, ':');
            if parts.len() != 2 {
                Err(AddAddrErr::Parts)
            } else {
                match addr::node_id_check(encode_utf8(parts[1])) {
                    Err(e) => Err(AddAddrErr::NodeId(e)),
                    Ok(_) => Ok(a),
                }
            }
        },
    }
}

/// The entry `e` with the address `a`, and with the prefix `prefix` if one is given.
pub open spec fn entry_with(e: AddressView, a: Seq<char>, prefix: Option<Seq<char>>) -> AddressView {
    AddressView {
        ifname: e.ifname,
        prefix: match prefix {
            Some(p) => p,
            None => e.prefix,
        },
        addresses: if e.addresses.contains(a) {
            e.addresses
        } else {
            e.addresses.push(a)
        },
    }
}

/// `config` with the address `a` on the interface `dev`.
pub open spec fn with_address(
    config: Seq<AddressView>,
    dev: Seq<char>,
    a: Seq<char>,
    prefix: Option<Seq<char>>,
) -> Seq<AddressView> {
    let p = cfg::entry_pos(config, dev);
    if 0 <= p < config.len() {
        config.update(p, entry_with(config[p], a, prefix))
    } else {
        config.push(
            AddressView {
                ifname: dev,
                prefix: match prefix {
                    Some(p) => p,
                    None => "none"@,
                },
                addresses: seq![a],
            },
        )
    }
}

/// The characters of an optional text.
pub open spec fn opt_view(s: Option<&str>) -> Option<Seq<char>> {
    match s {
        Some(t) => Some(t@),
        None => None,
    }
}

/// Adds an address to the interface `dev`, and sets its prefix if one is given. The result is
/// the address that was added.
pub fn add_address(
    config: &mut Vec<AddressEntry>,
    address: &str,
    dev: &str,
    prefix: Option<&str>,
) -> (res: Result<String, AddAddrErr>)
    ensures
        ({
            let table = cfg::address_table(old(config)@);
            match res {
                Ok(a) => {
                    &&& added_address(address@, dev@, table) == Ok::<Seq<char>, AddAddrErr>(a@)
                    &&& cfg::address_table(final(config)@) == with_address(
                        table,
                        dev@,
                        a@,
                        opt_view(prefix),
                    )
                },
                Err(e) => {
                    &&& added_address(address@, dev@, table) == Err::<Seq<char>, AddAddrErr>(e)
                    &&& final(config)@ == old(config)@
                },
            }
        }),
{
    let ghost table = cfg::address_table(config@);
    let expanded = match expand_tilde(address, dev, config.as_slice()) {
        Ok(a) => a,
        Err(e) => {
            return Err(AddAddrErr::Tilde(e));
        },
    };
    let parts = text::split(expanded.as_str(), ':');
    assert(text::split_on(expanded@, ':').len() == parts@.len());
    if parts.len() != 2 {
        return Err(AddAddrErr::Parts);
    }
    assert(text::split_on(expanded@, ':')[1] == parts@[1]@);
    match parse_node_id(parts[1].as_str().as_bytes()) {
        Ok(_) => {},
        Err(e) => {
            return Err(AddAddrErr::NodeId(e));
        },
    }
    match find_entry(config.as_slice(), dev) {
        Some(p) => {
            let old_entry = &config[p];
            assert(table[p as int] == old_entry@);
            let mut addresses = text::copy_texts(&old_entry.addresses);
            if !text::contains_text(&old_entry.addresses, expanded.as_str()) {
                let ghost before = text::views(addresses@);
                addresses.push(expanded.clone());
                assert(text::views(addresses@) =~= before.push(expanded@));
            }
            let entry = AddressEntry {
                ifname: old_entry.ifname.clone(),
                prefix: match prefix {
                    Some(s) => s.to_owned(),
                    None => old_entry.prefix.clone(),
                },
                addresses,
            };
            assert(entry@ == entry_with(table[p as int], expanded@, opt_view(prefix)));
            config.set(p, entry);
        },
        None => {
            let mut addresses: Vec<String> = Vec::new();
            addresses.push(expanded.clone());
            assert(text::views(addresses@) =~= seq![expanded@]);
            config.push(
                AddressEntry {
                    ifname: dev.to_owned(),
                    prefix: match prefix {
                        Some(s) => s.to_owned(),
                        None => "none".to_owned(),
                    },
                    addresses,
                },
            );
        },
    }
    assert(cfg::address_table(config@) =~= with_address(
        table,
        dev@,
        expanded@,
        opt_view(prefix),
    ));
    Ok(expanded)
}

/// The texts of `v` other than `a`, in order.
pub open spec fn without(v: Seq<Seq<char>>, a: Seq<char>) -> Seq<Seq<char>>
    decreases v.len(),
{
    if v.len() == 0 {
        Seq::empty()
    } else {
        let before = without(v.drop_last(), a);
        if v.last() == a {
            before
        } else {
            before.push(v.last())
        }
    }
}

/// `config` without the address `a` on the interface `dev`.
pub open spec fn without_address(
    config: Seq<AddressView>,
    dev: Seq<char>,
    a: Seq<char>,
) -> Seq<AddressView> {
    let p = cfg::entry_pos(config, dev);
    if 0 <= p < config.len() {
        config.update(
            p,
            AddressView {
                ifname: config[p].ifname,
                prefix: config[p].prefix,
                addresses: without(config[p].addresses, a),
            },
        )
    } else {
        config
    }
}

fn remove_text(v: &Vec<String>, a: &str) -> (res: Vec<String>)
    ensures
        text::views(res@) == without(text::views(v@), a@),
{
    let ghost all = text::views(v@);
    let mut res: Vec<String> = Vec::new();
    assert(text::views(res@) =~= without(all.take(0), a@));
    for i in 0..v.len()
        invariant
            all == text::views(v@),
            text::views(res@) == without(all.take(i as int), a@),
    {
        assert(all.take(i + 1).drop_last() =~= all.take(i as int));
        assert(all.take(i + 1).last() == v@[i as int]@);
        if !text::str_eq(v[i].as_str(), a) {
            let t = v[i].clone();
            let ghost before = text::views(res@);
            res.push(t);
            assert(text::views(res@) =~= before.push(t@));
        }
    }
    assert(all.take(all.len() as int) =~= all);
    res
}

/// Removes an address from the interface `dev`. The result is the address, and whether the
/// interface is configured.
pub fn delete_address(config: &mut Vec<AddressEntry>, address: &str, dev: &str) -> (res: Result<
    (String, bool),
    TildeErr,
>)
    ensures
        ({
            let table = cfg::address_table(old(config)@);
            match res {
                Ok(v) => {
                    &&& cfg::expanded(address@, dev@, table) == Ok::<Seq<char>, TildeErr>(v.0@)
                    &&& v.1 == (cfg::entry_pos(table, dev@) < table.len())
                    &&& cfg::address_table(final(config)@) == without_address(table, dev@, v.0@)
                },
                Err(e) => {
                    &&& cfg::expanded(address@, dev@, table) == Err::<Seq<char>, TildeErr>(e)
                    &&& final(config)@ == old(config)@
                },
            }
        }),
{
    let ghost table = cfg::address_table(config@);
    let expanded = match expand_tilde(address, dev, config.as_slice()) {
        Ok(a) => a,
        Err(e) => {
            return Err(e);
        },
    };
    match find_entry(config.as_slice(), dev) {
        Some(p) => {
            let old_entry = &config[p];
            assert(table[p as int] == old_entry@);
            let entry = AddressEntry {
                ifname: old_entry.ifname.clone(),
                prefix: old_entry.prefix.clone(),
                addresses: remove_text(&old_entry.addresses, expanded.as_str()),
            };
            config.set(p, entry);
            assert(cfg::address_table(config@) =~= without_address(table, dev@, expanded@));
            Ok((expanded, true))
        },
        None => Ok((expanded, false)),
    }
}

/// What became of a route that was to be added.
pub struct AddedRoute {
    /// Whether it was added; if not, it was there already.
    pub added: bool,
    pub destination: String,
    pub next_hop: String,
}

/// Adds a static route, with the tildes in its next hop and its destination expanded.
pub fn add_route(
    addrs: &[AddressEntry],
    routes: &mut Vec<RouteEntry>,
    destination: &str,
    via: &str,
    dev: &str,
    priority: u8,
) -> (res: Result<AddedRoute, TildeErr>)
    ensures
        ({
            let config = cfg::address_table(addrs@);
            let table = cfg::route_table(old(routes)@);
            let hop = cfg::expanded(via@, dev@, config);
            let dest = cfg::expanded(destination@, dev@, config);
            match res {
                Ok(v) => {
                    let r = cfg::static_route(v.destination@, v.next_hop@, dev@, priority);
                    &&& hop == Ok::<Seq<char>, TildeErr>(v.next_hop@)
                    &&& dest == Ok::<Seq<char>, TildeErr>(v.destination@)
                    &&& v.added == !table.contains(r)
                    &&& cfg::route_table(final(routes)@) == cfg::with_route(table, r)
                },
                Err(e) => {
                    &&& hop == Err::<Seq<char>, TildeErr>(e) || (hop is Ok && dest == Err::<
                        Seq<char>,
                        TildeErr,
                    >(e))
                    &&& final(routes)@ == old(routes)@
                },
            }
        }),
{
    let next_hop = match expand_tilde(via, dev, addrs) {
        Ok(a) => a,
        Err(e) => {
            return Err(e);
        },
    };
    let dest = match expand_tilde(destination, dev, addrs) {
        Ok(a) => a,
        Err(e) => {
            return Err(e);
        },
    };
    let added = cfg::insert_route(routes, dest.as_str(), next_hop.as_str(), dev, priority);
    Ok(AddedRoute { added, destination: dest, next_hop })
}

/// Whether the deletion of a route takes `r` away: for the destination `default` every default
/// route, else the one static route.
pub open spec fn is_deleted(
    r: RouteView,
    destination: Seq<char>,
    next_hop: Seq<char>,
    dev: Seq<char>,
    priority: u8,
) -> bool {
    if destination == "default"@ {
        r.destination == "default"@
    } else {
        r == cfg::static_route(destination, next_hop, dev, priority)
    }
}

/// The routes that the deletion of a route leaves, in order.
pub open spec fn without_route(
    routes: Seq<RouteView>,
    destination: Seq<char>,
    next_hop: Seq<char>,
    dev: Seq<char>,
    priority: u8,
) -> Seq<RouteView>
    decreases routes.len(),
{
    if routes.len() == 0 {
        Seq::empty()
    } else {
        let before = without_route(routes.drop_last(), destination, next_hop, dev, priority);
        if is_deleted(routes.last(), destination, next_hop, dev, priority) {
            before
        } else {
            before.push(routes.last())
        }
    }
}

fn remove_routes(
    routes: &Vec<RouteEntry>,
    destination: &str,
    next_hop: &str,
    dev: &str,
    priority: u8,
) -> (res: Vec<RouteEntry>)
    ensures
        cfg::route_table(res@) == without_route(
            cfg::route_table(routes@),
            destination@,
            next_hop@,
            dev@,
            priority,
        ),
{
    let ghost table = cfg::route_table(routes@);
    let all_default = text::str_eq(destination, "default");
    let mut res: Vec<RouteEntry> = Vec::new();
    assert(cfg::route_table(res@) =~= without_route(
        table.take(0),
        destination@,
        next_hop@,
        dev@,
        priority,
    ));
    for i in 0..routes.len()
        invariant
            table == cfg::route_table(routes@),
            all_default == (destination@ == "default"@),
            cfg::route_table(res@) == without_route(
                table.take(i as int),
                destination@,
                next_hop@,
                dev@,
                priority,
            ),
    {
        let r = &routes[i];
        assert(table.take(i + 1).drop_last() =~= table.take(i as int));
        assert(table.take(i + 1).last() == r@);
        let deleted = if all_default {
            text::str_eq(r.destination.as_str(), "default")
        } else {
            cfg::is_static_route(r, destination, next_hop, dev, priority)
        };
        if !deleted {
            let copy = cfg::copy_route(r);
            let ghost before = cfg::route_table(res@);
            res.push(copy);
            assert(cfg::route_table(res@) =~= before.push(copy@));
        }
    }
    assert(table.take(table.len() as int) =~= table);
    res
}

/// Whether some route has the destination `destination`.
pub open spec fn has_destination(routes: Seq<RouteView>, destination: Seq<char>) -> bool {
    exists|i: int| 0 <= i < routes.len() && (#[trigger] routes[i]).destination == destination
}

/// Deletes a static route, or all default routes, with the tildes expanded. The result is the
/// destination, and whether there was any route to it; if not, nothing changes.
pub fn delete_route(
    addrs: &[AddressEntry],
    routes: &mut Vec<RouteEntry>,
    destination: &str,
    via: &str,
    dev: &str,
    priority: u8,
) -> (res: Result<(String, bool), TildeErr>)
    ensures
        ({
            let config = cfg::address_table(addrs@);
            let table = cfg::route_table(old(routes)@);
            let hop = cfg::expanded(via@, dev@, config);
            let dest = cfg::expanded(destination@, dev@, config);
            match res {
                Ok(v) => {
                    &&& hop is Ok
                    &&& dest == Ok::<Seq<char>, TildeErr>(v.0@)
                    &&& v.1 == has_destination(table, v.0@)
                    &&& cfg::route_table(final(routes)@) == (if v.1 {
                        without_route(table, v.0@, hop.unwrap(), dev@, priority)
                    } else {
                        table
                    })
                },
                Err(e) => {
                    &&& hop == Err::<Seq<char>, TildeErr>(e) || (hop is Ok && dest == Err::<
                        Seq<char>,
                        TildeErr,
                    >(e))
                    &&& final(routes)@ == old(routes)@
                },
            }
        }),
{
    let ghost table = cfg::route_table(routes@);
    let next_hop = match expand_tilde(via, dev, addrs) {
        Ok(a) => a,
        Err(e) => {
            return Err(e);
        },
    };
    let dest = match expand_tilde(destination, dev, addrs) {
        Ok(a) => a,
        Err(e) => {
            return Err(e);
        },
    };
    let mut found: bool = false;
    for i in 0..routes.len()
        invariant
            table == cfg::route_table(routes@),
            routes@ == old(routes)@,
            found == exists|j: int|
                0 <= j < i && (#[trigger] table[j]).destination == dest@,
    {
        assert(table[i as int] == routes@[i as int]@);
        if text::str_eq(routes[i].destination.as_str(), dest.as_str()) {
            found = true;
        }
    }
    if found {
        let kept = remove_routes(routes, dest.as_str(), next_hop.as_str(), dev, priority);
        *routes = kept;
    }
    Ok((dest, found))
}

/// The static neighbours behind one local hardware address.
pub struct LocalNeighbors {
    pub local_mac: String,
    pub entries: Vec<NharpConfigEntry>,
}

/// What a [`LocalNeighbors`] holds.
pub struct LocalView {
    pub local_mac: Seq<char>,
    pub entries: Seq<NeighborView>,
}

/// What a list of neighbours holds.
pub open spec fn neighbor_views(v: Seq<NharpConfigEntry>) -> Seq<NeighborView> {
    v.map_values(|e: NharpConfigEntry| e@)
}

impl View for LocalNeighbors {
    type V = LocalView;

    open spec fn view(&self) -> LocalView {
        LocalView { local_mac: self.local_mac@, entries: neighbor_views(self.entries@) }
    }
}

/// What a table of static neighbours holds.
pub open spec fn neighbor_table(t: Seq<LocalNeighbors>) -> Seq<LocalView> {
    t.map_values(|e: LocalNeighbors| e@)
}

/// No local hardware address occurs twice.
pub open spec fn distinct(t: Seq<LocalView>) -> bool {
    forall|i: int, j: int|
        0 <= i < j < t.len() ==> (#[trigger] t[i]).local_mac != (#[trigger] t[j]).local_mac
}

/// The place of the local hardware address `mac` in `t`, or the length of `t` if it has none.
pub open spec fn local_pos(t: Seq<LocalView>, mac: Seq<char>) -> int
    decreases t.len(),
{
    if t.len() == 0 || t[0].local_mac == mac {
        0
    } else {
        1 + local_pos(t.drop_first(), mac)
    }
}

/// `p` is `local_pos(t, mac)` if `mac` does not occur before `p`, and stands at `p` unless `p`
/// is the end.
pub proof fn lemma_local_pos(t: Seq<LocalView>, mac: Seq<char>, p: int)
    requires
        0 <= p <= t.len(),
        forall|i: int| 0 <= i < p ==> (#[trigger] t[i]).local_mac != mac,
        p < t.len() ==> t[p].local_mac == mac,
    ensures
        local_pos(t, mac) == p,
    decreases t.len(),
{
    if p > 0 {
        let rest = t.drop_first();
        assert forall|i: int| 0 <= i < p - 1 implies (#[trigger] rest[i]).local_mac != mac by {
            assert(rest[i] == t[i + 1]);
        }
        assert(t[0].local_mac != mac);
        lemma_local_pos(rest, mac, p - 1);
    }
}

proof fn lemma_local_pos_props(t: Seq<LocalView>, mac: Seq<char>)
    ensures
        0 <= local_pos(t, mac) <= t.len(),
        forall|i: int| 0 <= i < local_pos(t, mac) ==> (#[trigger] t[i]).local_mac != mac,
        local_pos(t, mac) < t.len() ==> t[local_pos(t, mac)].local_mac == mac,
    decreases t.len(),
{
    if t.len() > 0 && t[0].local_mac != mac {
        let rest = t.drop_first();
        lemma_local_pos_props(rest, mac);
        assert forall|i: int| 0 <= i < local_pos(t, mac) implies (#[trigger] t[i]).local_mac
            != mac by {
            if i > 0 {
                assert(rest[i - 1] == t[i]);
            }
        }
    }
}

/// The neighbours behind the local hardware address `mac`.
pub open spec fn entries_of(t: Seq<LocalView>, mac: Seq<char>) -> Seq<NeighborView> {
    let p = local_pos(t, mac);
    if 0 <= p < t.len() {
        t[p].entries
    } else {
        Seq::empty()
    }
}

/// `t` with the neighbour `e` behind `mac`.
pub open spec fn with_neighbor(t: Seq<LocalView>, mac: Seq<char>, e: NeighborView) -> Seq<
    LocalView,
> {
    let p = local_pos(t, mac);
    if 0 <= p < t.len() {
        t.update(p, LocalView { local_mac: mac, entries: t[p].entries.push(e) })
    } else {
        t.push(LocalView { local_mac: mac, entries: seq![e] })
    }
}

/// The neighbours of `v` whose NodeID is not `node_id`, in order.
pub open spec fn other_neighbors(v: Seq<NeighborView>, node_id: u32) -> Seq<NeighborView>
    decreases v.len(),
{
    if v.len() == 0 {
        Seq::empty()
    } else {
        let before = other_neighbors(v.drop_last(), node_id);
        if v.last().node_id == node_id {
            before
        } else {
            before.push(v.last())
        }
    }
}

/// `t` without the neighbours with the NodeID `node_id` behind `mac`, and without `mac` itself
/// if none is left.
pub open spec fn without_neighbor(t: Seq<LocalView>, mac: Seq<char>, node_id: u32) -> Seq<
    LocalView,
> {
    let p = local_pos(t, mac);
    if 0 <= p < t.len() {
        let left = other_neighbors(t[p].entries, node_id);
        if left.len() == 0 {
            t.remove(p)
        } else {
            t.update(p, LocalView { local_mac: mac, entries: left })
        }
    } else {
        t
    }
}

fn find_local(table: &Vec<LocalNeighbors>, mac: &str) -> (res: Option<usize>)
    ensures
        match res {
            Some(p) => p == local_pos(neighbor_table(table@), mac@) && p < table@.len(),
            None => local_pos(neighbor_table(table@), mac@) == table@.len(),
        },
        res matches Some(p) ==> neighbor_table(table@)[p as int].local_mac == mac@,
        res is None ==> forall|i: int|
            0 <= i < table@.len() ==> (#[trigger] neighbor_table(table@)[i]).local_mac != mac@,
{
    let ghost t = neighbor_table(table@);
    for i in 0..table.len()
        invariant
            t == neighbor_table(table@),
            forall|j: int| 0 <= j < i ==> (#[trigger] t[j]).local_mac != mac@,
    {
        assert(t[i as int] == table@[i as int]@);
        if text::str_eq(table[i].local_mac.as_str(), mac) {
            proof {
                lemma_local_pos(t, mac@, i as int);
            }
            return Some(i);
        }
    }
    proof {
        lemma_local_pos(t, mac@, t.len() as int);
    }
    None
}

fn copy_neighbor(e: &NharpConfigEntry) -> (res: NharpConfigEntry)
    ensures
        res@ == e@,
{
    NharpConfigEntry { node_id: e.node_id, mac: e.mac.clone() }
}

/// The neighbours of `v` that are kept: all of them, or those whose NodeID is not `drop_id`.
fn copy_neighbors(v: &Vec<NharpConfigEntry>, drop_id: Option<u32>) -> (res: Vec<NharpConfigEntry>)
    ensures
        neighbor_views(res@) == (match drop_id {
            Some(id) => other_neighbors(neighbor_views(v@), id),
            None => neighbor_views(v@),
        }),
{
    let ghost all = neighbor_views(v@);
    let mut res: Vec<NharpConfigEntry> = Vec::new();
    assert(neighbor_views(res@) =~= all.take(0));
    for i in 0..v.len()
        invariant
            all == neighbor_views(v@),
            neighbor_views(res@) == (match drop_id {
                Some(id) => other_neighbors(all.take(i as int), id),
                None => all.take(i as int),
            }),
    {
        assert(all.take(i + 1).drop_last() =~= all.take(i as int));
        assert(all.take(i + 1).last() == v@[i as int]@);
        assert(all.take(i + 1) =~= all.take(i as int).push(v@[i as int]@));
        let dropped: bool = match drop_id {
            Some(id) => v[i].node_id == id,
            None => false,
        };
        if !dropped {
            let e = copy_neighbor(&v[i]);
            let ghost before = neighbor_views(res@);
            res.push(e);
            assert(neighbor_views(res@) =~= before.push(e@));
        }
    }
    assert(all.take(all.len() as int) =~= all);
    res
}

/// Adds a static neighbour behind the local hardware address `local_mac`.
pub fn add_neighbor(table: &mut Vec<LocalNeighbors>, local_mac: &str, node_id: u32, at: &str)
    requires
        distinct(neighbor_table(old(table)@)),
    ensures
        neighbor_table(final(table)@) == with_neighbor(
            neighbor_table(old(table)@),
            local_mac@,
            (NeighborView { node_id, mac: at@ }),
        ),
        distinct(neighbor_table(final(table)@)),
{
    let ghost t = neighbor_table(table@);
    let ghost e = NeighborView { node_id, mac: at@ };
    match find_local(table, local_mac) {
        Some(p) => {
            assert(t[p as int] == table@[p as int]@);
            let mut entries = copy_neighbors(&table[p].entries, None);
            let ghost before = neighbor_views(entries@);
            entries.push(NharpConfigEntry { node_id, mac: at.to_owned() });
            assert(neighbor_views(entries@) =~= before.push(e));
            table.set(p, LocalNeighbors { local_mac: local_mac.to_owned(), entries });
        },
        None => {
            let mut entries: Vec<NharpConfigEntry> = Vec::new();
            entries.push(NharpConfigEntry { node_id, mac: at.to_owned() });
            assert(neighbor_views(entries@) =~= seq![e]);
            table.push(LocalNeighbors { local_mac: local_mac.to_owned(), entries });
        },
    }
    assert(neighbor_table(table@) =~= with_neighbor(t, local_mac@, e));
}

/// Removes the static neighbours with the NodeID `node_id` behind the local hardware address
/// `local_mac`.
pub fn delete_neighbor(table: &mut Vec<LocalNeighbors>, local_mac: &str, node_id: u32)
    requires
        distinct(neighbor_table(old(table)@)),
    ensures
        neighbor_table(final(table)@) == without_neighbor(
            neighbor_table(old(table)@),
            local_mac@,
            node_id,
        ),
        distinct(neighbor_table(final(table)@)),
{
    let ghost t = neighbor_table(table@);
    match find_local(table, local_mac) {
        Some(p) => {
            assert(t[p as int] == table@[p as int]@);
            let entries = copy_neighbors(&table[p].entries, Some(node_id));
            assert(neighbor_views(entries@).len() == entries@.len());
            if entries.is_empty() {
                table.remove(p);
            } else {
                table.set(p, LocalNeighbors { local_mac: local_mac.to_owned(), entries });
            }
        },
        None => {},
    }
    assert(neighbor_table(table@) =~= without_neighbor(t, local_mac@, node_id));
}

/// Adding a neighbour puts it behind its local hardware address, last, and changes nothing
/// behind any other.
pub proof fn law_add_neighbor(
    t: Seq<LocalView>,
    mac: Seq<char>,
    e: NeighborView,
    other: Seq<char>,
)
    ensures
        entries_of(with_neighbor(t, mac, e), mac) == entries_of(t, mac).push(e),
        other != mac ==> entries_of(with_neighbor(t, mac, e), other) == entries_of(t, other),
{
    let p = local_pos(t, mac);
    let after = with_neighbor(t, mac, e);
    lemma_local_pos_props(t, mac);
    lemma_local_pos_props(t, other);
    lemma_local_pos(after, mac, p);
    assert(p == t.len() ==> entries_of(t, mac).push(e) =~= seq![e]);
    if other != mac {
        let q = local_pos(t, other);
        if q < t.len() {
            lemma_local_pos(after, other, q);
        } else {
            lemma_local_pos(after, other, after.len() as int);
        }
    }
}

/// Removing a neighbour leaves the others behind its local hardware address, and changes
/// nothing behind any other.
pub proof fn law_delete_neighbor(t: Seq<LocalView>, mac: Seq<char>, node_id: u32, other: Seq<char>)
    requires
        distinct(t),
    ensures
        entries_of(without_neighbor(t, mac, node_id), mac) == other_neighbors(
            entries_of(t, mac),
            node_id,
        ),
        other != mac ==> entries_of(without_neighbor(t, mac, node_id), other) == entries_of(
            t,
            other,
        ),
{
    let p = local_pos(t, mac);
    let after = without_neighbor(t, mac, node_id);
    lemma_local_pos_props(t, mac);
    lemma_local_pos_props(t, other);
    if p < t.len() {
        let left = other_neighbors(t[p].entries, node_id);
        if left.len() == 0 {
            assert forall|i: int| 0 <= i < after.len() implies (#[trigger] after[i]).local_mac
                != mac by {
                if i < p {
                    assert(after[i] == t[i]);
                } else {
                    assert(after[i] == t[i + 1]);
                    assert(t[p].local_mac == mac);
                }
            }
            lemma_local_pos(after, mac, after.len() as int);
            assert(left =~= Seq::<NeighborView>::empty());
        } else {
            lemma_local_pos(after, mac, p);
        }
        if other != mac {
            let q = local_pos(t, other);
            if left.len() == 0 {
                let r = if q > p {
                    q - 1
                } else {
                    q
                };
                assert forall|i: int| 0 <= i < r implies (#[trigger] after[i]).local_mac != other by {
                    if i < p {
                        assert(after[i] == t[i]);
                    } else {
                        assert(after[i] == t[i + 1]);
                    }
                }
                lemma_local_pos(after, other, r);
            } else if q < t.len() {
                lemma_local_pos(after, other, q);
            } else {
                lemma_local_pos(after, other, after.len() as int);
            }
        }
    } else {
        assert(other_neighbors(entries_of(t, mac), node_id) =~= Seq::<NeighborView>::empty());
    }
}

proof fn lemma_other_neighbors(v: Seq<NeighborView>, node_id: u32, e: NeighborView)
    ensures
        other_neighbors(v, node_id).contains(e) <==> v.contains(e) && e.node_id != node_id,
    decreases v.len(),
{
    if v.len() > 0 {
        let init = v.drop_last();
        lemma_other_neighbors(init, node_id, e);
        assert(v =~= init.push(v.last()));
        text::lemma_push_contains(init, v.last(), e);
        text::lemma_push_contains(other_neighbors(init, node_id), v.last(), e);
    }
}

/// After a neighbour was removed, its NodeID is gone from behind the local hardware address,
/// and every other neighbour is still there.
pub proof fn law_deleted_neighbor_is_gone(
    t: Seq<LocalView>,
    mac: Seq<char>,
    node_id: u32,
    e: NeighborView,
)
    requires
        distinct(t),
    ensures
        entries_of(without_neighbor(t, mac, node_id), mac).contains(e) <==> entries_of(
            t,
            mac,
        ).contains(e) && e.node_id != node_id,
{
    law_delete_neighbor(t, mac, node_id, mac);
    lemma_other_neighbors(entries_of(t, mac), node_id, e);
}

/// The deletion of a route leaves exactly the routes that it does not name.
pub proof fn law_delete_route(
    routes: Seq<RouteView>,
    destination: Seq<char>,
    next_hop: Seq<char>,
    dev: Seq<char>,
    priority: u8,
    r: RouteView,
)
    ensures
        without_route(routes, destination, next_hop, dev, priority).contains(r) <==> {
            &&& routes.contains(r)
            &&& !is_deleted(r, destination, next_hop, dev, priority)
        },
    decreases routes.len(),
{
    if routes.len() > 0 {
        let init = routes.drop_last();
        law_delete_route(init, destination, next_hop, dev, priority, r);
        assert(routes =~= init.push(routes.last()));
        text::lemma_push_contains(init, routes.last(), r);
        text::lemma_push_contains(
            without_route(init, destination, next_hop, dev, priority),
            routes.last(),
            r,
        );
    }
}

proof fn lemma_nothing_deleted(
    routes: Seq<RouteView>,
    destination: Seq<char>,
    next_hop: Seq<char>,
    dev: Seq<char>,
    priority: u8,
)
    requires
        forall|i: int|
            0 <= i < routes.len() ==> !is_deleted(
                #[trigger] routes[i],
                destination,
                next_hop,
                dev,
                priority,
            ),
    ensures
        without_route(routes, destination, next_hop, dev, priority) == routes,
    decreases routes.len(),
{
    if routes.len() > 0 {
        let init = routes.drop_last();
        assert forall|i: int| 0 <= i < init.len() implies !is_deleted(
            #[trigger] init[i],
            destination,
            next_hop,
            dev,
            priority,
        ) by {
            assert(init[i] == routes[i]);
        }
        lemma_nothing_deleted(init, destination, next_hop, dev, priority);
        assert(routes =~= init.push(routes.last()));
    } else {
        assert(routes =~= Seq::<RouteView>::empty());
    }
}

/// Deleting a route that was just added gives back the table as it was.
pub proof fn law_delete_undoes_add(
    routes: Seq<RouteView>,
    destination: Seq<char>,
    next_hop: Seq<char>,
    dev: Seq<char>,
    priority: u8,
)
    requires
        destination != "default"@,
        !routes.contains(cfg::static_route(destination, next_hop, dev, priority)),
    ensures
        without_route(
            cfg::with_route(routes, cfg::static_route(destination, next_hop, dev, priority)),
            destination,
            next_hop,
            dev,
            priority,
        ) == routes,
{
    let r = cfg::static_route(destination, next_hop, dev, priority);
    let after = cfg::with_route(routes, r);
    assert(after.drop_last() =~= routes);
    assert forall|i: int| 0 <= i < routes.len() implies !is_deleted(
        #[trigger] routes[i],
        destination,
        next_hop,
        dev,
        priority,
    ) by {
        assert(routes.contains(routes[i]));
    }
    lemma_nothing_deleted(routes, destination, next_hop, dev, priority);
}

proof fn lemma_entry_pos_props(config: Seq<AddressView>, dev: Seq<char>)
    ensures
        0 <= cfg::entry_pos(config, dev) <= config.len(),
        forall|i: int|
            0 <= i < cfg::entry_pos(config, dev) ==> (#[trigger] config[i]).ifname != dev,
        cfg::entry_pos(config, dev) < config.len() ==> config[cfg::entry_pos(config, dev)].ifname
            == dev,
    decreases config.len(),
{
    if config.len() > 0 && config[0].ifname != dev {
        let rest = config.drop_first();
        lemma_entry_pos_props(rest, dev);
        assert forall|i: int| 0 <= i < cfg::entry_pos(config, dev) implies (
        #[trigger] config[i]).ifname != dev by {
            if i > 0 {
                assert(rest[i - 1] == config[i]);
            }
        }
    }
}

/// After an address was added, the first entry of the interface holds it, every other entry is
/// as it was, and adding it again changes nothing.
pub proof fn law_add_address(
    config: Seq<AddressView>,
    dev: Seq<char>,
    a: Seq<char>,
    prefix: Option<Seq<char>>,
)
    ensures
        ({
            let after = with_address(config, dev, a, prefix);
            let p = cfg::entry_pos(config, dev);
            &&& cfg::entry_pos(after, dev) == p < after.len()
            &&& after[p].addresses.contains(a)
            &&& forall|i: int| 0 <= i < config.len() && i != p ==> after[i] == config[i]
            &&& with_address(after, dev, a, prefix) == after
        }),
{
    let after = with_address(config, dev, a, prefix);
    let p = cfg::entry_pos(config, dev);
    lemma_entry_pos_props(config, dev);
    cfg::lemma_entry_pos(after, dev, p);
    if p < config.len() {
        text::lemma_push_contains(config[p].addresses, a, a);
    } else {
        assert(after[p].addresses[0] == a);
    }
    assert(with_address(after, dev, a, prefix) =~= after);
}

proof fn lemma_without(v: Seq<Seq<char>>, a: Seq<char>, b: Seq<char>)
    ensures
        without(v, a).contains(b) <==> v.contains(b) && b != a,
    decreases v.len(),
{
    if v.len() > 0 {
        let init = v.drop_last();
        lemma_without(init, a, b);
        assert(v =~= init.push(v.last()));
        text::lemma_push_contains(init, v.last(), b);
        text::lemma_push_contains(without(init, a), v.last(), b);
    }
}

/// After an address was removed, it is gone from the first entry of the interface, every other
/// address of that entry is still there, and every other entry is as it was.
pub proof fn law_delete_address(
    config: Seq<AddressView>,
    dev: Seq<char>,
    a: Seq<char>,
    b: Seq<char>,
)
    requires
        cfg::entry_pos(config, dev) < config.len(),
    ensures
        ({
            let after = without_address(config, dev, a);
            let p = cfg::entry_pos(config, dev);
            &&& after.len() == config.len()
            &&& after[p].addresses.contains(b) <==> config[p].addresses.contains(b) && b != a
            &&& forall|i: int| 0 <= i < config.len() && i != p ==> after[i] == config[i]
        }),
{
    let p = cfg::entry_pos(config, dev);
    lemma_entry_pos_props(config, dev);
    lemma_without(config[p].addresses, a, b);
}

/// Whether the addresses of an interface are shown, where `dev` is the only one that was asked
/// for.
pub fn is_shown(entry: &AddressEntry, dev: Option<&str>) -> (res: bool)
    ensures
        res == match dev {
            Some(d) => entry.ifname@ == d@,
            None => true,
        },
{
    match dev {
        Some(d) => text::str_eq(entry.ifname.as_str(), d),
        None => true,
    }
}

/// `s` between the escape sequence `color` and the one that resets the style.
pub open spec fn colored(s: Seq<char>, color: Seq<char>) -> Seq<char> {
    color + s + ansi_color::RESET@
}

/// The line that shows the addresses of an interface.
pub open spec fn address_line(e: AddressView) -> Seq<char> {
    text::padded(colored(e.ifname, ansi_color::BOLD@), 15) + " "@ + text::padded(
        colored(text::joined(e.addresses, ", "@), ansi_color::CYAN@),
        20,
    ) + " "@ + text::padded(colored(e.prefix, ansi_color::MAGENTA@), 25)
}

/// Writes the line that shows the addresses of an interface.
pub fn show_address(entry: &AddressEntry) -> (res: String)
    ensures
        res@ == address_line(entry@),
{
    let addrs = text::join(&entry.addresses, ", ");
    let ifname = colorize(entry.ifname.as_str(), ansi_color::BOLD);
    let addresses = colorize(addrs.as_str(), ansi_color::CYAN);
    let prefix = colorize(entry.prefix.as_str(), ansi_color::MAGENTA);
    let mut line = String::new();
    text::push_padded(&mut line, ifname.as_str(), 15);
    line.append(" ");
    text::push_padded(&mut line, addresses.as_str(), 20);
    line.append(" ");
    text::push_padded(&mut line, prefix.as_str(), 25);
    assert(line@ =~= address_line(entry@));
    line
}

/// The name of a protocol.
pub open spec fn proto_name(p: RoutingProto) -> Seq<char> {
    match p {
        RoutingProto::Static => "static"@,
        RoutingProto::Ospf => "ospf"@,
        RoutingProto::Rip => "rip"@,
        RoutingProto::Unknown => "unknown"@,
    }
}

/// The line that shows a route.
pub open spec fn route_line(r: RouteView) -> Seq<char> {
    let dest = if r.destination == "default"@ {
        colored("default"@, ansi_color::RED@)
    } else {
        r.destination
    };
    text::padded(dest, 35) + " "@ + text::padded(r.next_hop, 25) + " "@ + text::padded(r.dev, 10)
        + " "@ + text::padded(proto_name(r.proto), 10) + " "@ + text::padded(
        number::dec_text(r.priority as nat),
        10,
    )
}

/// Writes the line that shows a route.
pub fn show_route(route: &RouteEntry) -> (res: String)
    ensures
        res@ == route_line(route@),
{
    let dest = if text::str_eq(route.destination.as_str(), "default") {
        colorize("default", ansi_color::RED)
    } else {
        route.destination.clone()
    };
    let proto = match route.proto {
        RoutingProto::Static => "static",
        RoutingProto::Ospf => "ospf",
        RoutingProto::Rip => "rip",
        RoutingProto::Unknown => "unknown",
    };
    let mut priority = String::new();
    number::push_u32(&mut priority, route.priority as u32);
    assert(priority@ =~= number::dec_text(route.priority as nat));
    let mut line = String::new();
    text::push_padded(&mut line, dest.as_str(), 35);
    line.append(" ");
    text::push_padded(&mut line, route.next_hop.as_str(), 25);
    line.append(" ");
    text::push_padded(&mut line, route.dev.as_str(), 10);
    line.append(" ");
    text::push_padded(&mut line, proto, 10);
    line.append(" ");
    text::push_padded(&mut line, priority.as_str(), 10);
    assert(line@ =~= route_line(route@));
    line
}

/// The line that shows a neighbour.
pub open spec fn neighbor_line(
    ifname: Seq<char>,
    node_id: u32,
    mac: Seq<char>,
    kind: Seq<char>,
) -> Seq<char> {
    text::padded(ifname, 10) + " "@ + text::padded(number::dec_text(node_id as nat), 35) + " "@
        + text::padded(mac, 20) + " "@ + text::padded(kind, 10)
}

/// Writes the line that shows a neighbour.
pub fn show_neighbor(ifname: &str, node_id: u32, mac: &str, kind: &str) -> (res: String)
    ensures
        res@ == neighbor_line(ifname@, node_id, mac@, kind@),
{
    let mut id = String::new();
    number::push_u32(&mut id, node_id);
    assert(id@ =~= number::dec_text(node_id as nat));
    let mut line = String::new();
    text::push_padded(&mut line, ifname, 10);
    line.append(" ");
    text::push_padded(&mut line, id.as_str(), 35);
    line.append(" ");
    text::push_padded(&mut line, mac, 20);
    line.append(" ");
    text::push_padded(&mut line, kind, 10);
    assert(line@ =~= neighbor_line(ifname@, node_id, mac@, kind@));
    line
}

} // verus!
