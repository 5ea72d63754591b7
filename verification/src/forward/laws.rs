//! What routing and forwarding promise of every packet and every routing table.
use crate::addr;
use crate::bytes;
use crate::cfg::{AddressView, RouteView, RoutingProto};
use crate::cfg;
use crate::forward::{DynamicView, ForwardAction, NextHop};
use crate::forward;
use crate::header::NhipHeader;
use crate::header;
use crate::label;
use crate::text;
use vstd::prelude::*;
use vstd::string::*;
use vstd::utf8::*;

verus! {

/// The protocols in the order in which their routes are trusted.
pub open spec fn rank(proto: RoutingProto) -> int {
    match proto {
        RoutingProto::Static => 0,
        RoutingProto::Ospf => 1,
        RoutingProto::Rip => 2,
        RoutingProto::Unknown => 3,
    }
}

/// Whether taking `b` does `x` no wrong: `b` is of a protocol that is trusted as much or more; of
/// the same protocol it has as small a priority number or a smaller one; and with the same number
/// its destination is as long or longer.
pub open spec fn does_no_wrong(b: RouteView, x: RouteView) -> bool {
    &&& rank(b.proto) <= rank(x.proto)
    &&& b.proto == x.proto ==> b.priority <= x.priority
    &&& b.proto == x.proto && b.priority == x.priority ==> encode_utf8(b.destination).len()
        >= encode_utf8(x.destination).len()
}

/// The route that is selected is one of the candidates. Its administrative distance is the least
/// of all, its priority number the least of those at that distance, and its destination the longest
/// of those with that number. Of several that are alike in this, it is the first.
pub proof fn law_selection(c: Seq<RouteView>, x: int)
    requires
        0 <= x < c.len(),
    ensures
        forward::best_route(c) matches Some(b) && {
            &&& c.contains(b)
            &&& does_no_wrong(b, c[x])
            &&& b.proto == c[x].proto && b.priority == c[x].priority && encode_utf8(
                b.destination,
            ).len() == encode_utf8(c[x].destination).len() ==> exists|i: int|
                0 <= i <= x && #[trigger] c[i] == b
        },
        forward::best_route(Seq::empty()) is None,
{
    forward::lemma_best_pos(c);
    let p = forward::best_pos(c);
    assert(c[p] == forward::best_route(c).unwrap());
    assert(!forward::better(c[x], c[p]));
    if x < p {
        assert(forward::better(c[p], c[x]));
    }
}

/// A route is a candidate for a destination exactly if it is to that destination, and the
/// candidates stand in the order of the table.
pub proof fn law_matching(a: Seq<RouteView>, b: Seq<RouteView>, r: RouteView, dest: Seq<char>)
    ensures
        forward::matching(a + b, dest) == forward::matching(a, dest) + forward::matching(b, dest),
        forward::matching(seq![r], dest) == (if r.destination == dest {
            seq![r]
        } else {
            Seq::empty()
        }),
        forward::matching(Seq::empty(), dest) == Seq::<RouteView>::empty(),
    decreases b.len(),
{
    assert(seq![r].drop_last() =~= Seq::<RouteView>::empty());
    assert(forward::matching(seq![r].drop_last(), dest) =~= Seq::<RouteView>::empty());
    assert(Seq::<RouteView>::empty().push(r) =~= seq![r]);
    if b.len() == 0 {
        assert(a + b =~= a);
        assert(forward::matching(b, dest) =~= Seq::<RouteView>::empty());
        assert(forward::matching(a, dest) + forward::matching(b, dest) =~= forward::matching(
            a,
            dest,
        ));
    } else {
        law_matching(a, b.drop_last(), r, dest);
        assert((a + b).drop_last() =~= a + b.drop_last());
        assert((a + b).last() == b.last());
        assert(forward::matching(a + b, dest) =~= forward::matching(a, dest) + forward::matching(
            b,
            dest,
        ));
    }
}

/// What stands in front of the blocks that are walked: the text in front of the pointer, with a
/// period at its end.
pub open spec fn front_of(before: Seq<char>) -> Seq<char> {
    if before.len() == 0 || before.last() == '.' {
        before
    } else {
        before.push('.')
    }
}

/// Whether a route to `dest` leads towards the network part with `before` in front of the pointer
/// and `after` behind it: it is a default route, or its destination is the start of that network
/// part, past the pointer and up to its end or the end of one of its blocks.
pub open spec fn leads_towards(dest: Seq<char>, before: Seq<char>, after: Seq<char>) -> bool {
    ||| dest == "default"@
    ||| exists|n: int|
        0 <= n <= after.len() && (n < after.len() ==> after[n] == '.') && dest == front_of(before)
            + #[trigger] after.take(n)
}

/// The candidates are the routes of the table that lead towards the destination.
pub proof fn law_candidates(
    routes: Seq<RouteView>,
    before: Seq<char>,
    after: Seq<char>,
    r: RouteView,
)
    ensures
        forward::candidate_routes(routes, before, after).contains(r) <==> routes.contains(r)
            && leads_towards(r.destination, before, after),
{
    let blocks = text::split_on(after, '.');
    forward::law_candidate_routes(routes, before, after, r);
    assert(forward::lead(before) == front_of(before));
    if exists|k: nat|
        1 <= k <= blocks.len() && r.destination == #[trigger] forward::walked(before, blocks, k) {
        let k = choose|k: nat|
            1 <= k <= blocks.len() && r.destination == #[trigger] forward::walked(
                before,
                blocks,
                k,
            );
        text::lemma_first_pieces(after, '.', k as int);
        let j = text::joined(blocks.take(k as int), seq!['.']);
        assert(r.destination == front_of(before) + after.take(j.len() as int));
    }
    if exists|n: int|
        0 <= n <= after.len() && (n < after.len() ==> after[n] == '.') && r.destination == front_of(
            before,
        ) + #[trigger] after.take(n) {
        let n = choose|n: int|
            0 <= n <= after.len() && (n < after.len() ==> after[n] == '.') && r.destination
                == front_of(before) + #[trigger] after.take(n);
        text::laws::law_starts_are_pieces(after, '.', n);
        let k = choose|k: int|
            1 <= k <= blocks.len() && #[trigger] text::joined(blocks.take(k), seq!['.'])
                == after.take(n);
        assert(r.destination == forward::walked(before, blocks, k as nat));
    }
}

proof fn lemma_split_behind(a: Seq<char>, c: char, b: Seq<char>)
    requires
        text::laws::is_free(b, c),
    ensures
        text::split_on(a.push(c) + b, c) == text::split_on(a, c).push(b),
    decreases a.len(),
{
    let s = a.push(c) + b;
    let p = text::first_pos(a, c);
    text::lemma_first_pos_props(a, c);
    let x = a.take(p);
    text::laws::law_split(b, c, b);
    if p < a.len() {
        let rest = a.skip(p + 1);
        lemma_split_behind(rest, c, b);
        assert(s =~= x.push(c) + (rest.push(c) + b));
        text::laws::law_split(x, c, rest.push(c) + b);
        assert(a =~= x.push(c) + rest);
        text::laws::law_split(x, c, rest);
        assert(seq![x] + text::split_on(rest, c).push(b) =~= (seq![x] + text::split_on(
            rest,
            c,
        )).push(b));
    } else {
        assert(x =~= a);
        text::laws::law_split(a, c, b);
        assert(seq![a] + seq![b] =~= seq![a].push(b));
    }
}

proof fn lemma_same_way(
    routes: Seq<RouteView>,
    before: Seq<char>,
    x: Seq<Seq<char>>,
    y: Seq<Seq<char>>,
    n: nat,
)
    requires
        n <= x.len(),
        n <= y.len(),
        x.take(n as int) == y.take(n as int),
    ensures
        forward::on_the_way(routes, before, x, n) == forward::on_the_way(routes, before, y, n),
    decreases n,
{
    if n > 0 {
        let m = n - 1;
        assert(x.take(m) =~= x.take(n as int).take(m));
        assert(y.take(m) =~= y.take(n as int).take(m));
        lemma_same_way(routes, before, x, y, m as nat);
    }
}

/// The default routes come first among the candidates, and behind them the routes along the blocks,
/// those to the shorter start of the destination first.
pub proof fn law_candidate_order(
    routes: Seq<RouteView>,
    before: Seq<char>,
    after: Seq<char>,
    block: Seq<char>,
)
    requires
        text::laws::is_free(block, '.'),
    ensures
        forward::candidate_routes(routes, before, block) == forward::matching(routes, "default"@)
            + forward::matching(routes, front_of(before) + block),
        forward::candidate_routes(routes, before, after.push('.') + block)
            == forward::candidate_routes(routes, before, after) + forward::matching(
            routes,
            front_of(before) + (after.push('.') + block),
        ),
{
    let def = forward::matching(routes, "default"@);
    assert(forward::lead(before) == front_of(before));
    text::laws::law_split(block, '.', after);
    let one = seq![block];
    assert(one.take(1) =~= one);
    assert(forward::walked(before, one, 1) == front_of(before) + block);
    assert(forward::on_the_way(routes, before, one, 0) =~= Seq::<RouteView>::empty());
    assert(forward::on_the_way(routes, before, one, 1) =~= forward::matching(
        routes,
        front_of(before) + block,
    ));
    let x = text::split_on(after, '.');
    let s = after.push('.') + block;
    let y = text::split_on(s, '.');
    lemma_split_behind(after, '.', block);
    assert(y == x.push(block));
    let n = x.len();
    assert(x.take(n as int) =~= y.take(n as int));
    lemma_same_way(routes, before, x, y, n);
    assert(y.take(n as int + 1) =~= y);
    text::laws::law_split_then_join(s, '.');
    assert(forward::walked(before, y, n + 1) == front_of(before) + s);
    let way = forward::on_the_way(routes, before, x, n);
    let last = forward::matching(routes, front_of(before) + s);
    assert(forward::on_the_way(routes, before, y, n + 1) == way + last);
    assert(def + (way + last) =~= def + way + last);
}

proof fn lemma_sides(before: Seq<char>, after: Seq<char>, pointer: u8)
    requires
        encode_utf8(before).len() == pointer,
        pointer == 0 || after.len() > 0,
    ensures
        ({
            let dst = encode_utf8(before + after);
            &&& forward::points_inside(dst, pointer)
            &&& forward::is_text(dst, pointer)
            &&& !forward::is_refused(dst, pointer)
            &&& decode_utf8(forward::before_pointer(dst, pointer)) == before
            &&& decode_utf8(forward::after_pointer(dst, pointer)) == after
        }),
{
    let dst = encode_utf8(before + after);
    text::lemma_encode_concat(before, after);
    if after.len() > 0 {
        assert(encode_utf8(after).len() > 0);
    }
    assert(dst.take(pointer as int) =~= encode_utf8(before));
    assert(dst.skip(pointer as int) =~= encode_utf8(after));
    encode_utf8_valid_utf8(before);
    encode_utf8_valid_utf8(after);
    encode_utf8_decode_utf8(before);
    encode_utf8_decode_utf8(after);
}

/// A packet takes the best of the routes that lead towards its destination, and has no route in the
/// table exactly if none of them does. The destination has `before` in front of the pointer and
/// `after` behind it.
pub proof fn law_route_of_packet(
    routes: Seq<RouteView>,
    before: Seq<char>,
    after: Seq<char>,
    pointer: u8,
    x: RouteView,
)
    requires
        encode_utf8(before).len() == pointer,
        pointer == 0 || after.len() > 0,
    ensures
        !forward::is_refused(encode_utf8(before + after), pointer),
        match forward::route_for(routes, encode_utf8(before + after), pointer) {
            Some(b) => {
                &&& routes.contains(b)
                &&& leads_towards(b.destination, before, after)
                &&& routes.contains(x) && leads_towards(x.destination, before, after)
                    ==> does_no_wrong(b, x)
            },
            None => routes.contains(x) ==> !leads_towards(x.destination, before, after),
        },
{
    lemma_sides(before, after, pointer);
    let c = forward::candidate_routes(routes, before, after);
    law_candidates(routes, before, after, x);
    lemma_best_of(c, x);
    if c.len() > 0 {
        law_candidates(routes, before, after, forward::best_route(c).unwrap());
    }
}

proof fn lemma_best_of(c: Seq<RouteView>, x: RouteView)
    ensures
        match forward::best_route(c) {
            Some(b) => c.contains(b) && (c.contains(x) ==> does_no_wrong(b, x)),
            None => !c.contains(x),
        },
{
    if c.len() > 0 {
        law_selection(c, 0);
        if c.contains(x) {
            let i = choose|i: int| 0 <= i < c.len() && c[i] == x;
            law_selection(c, i);
        }
    }
}

/// Where the pointer stands behind the network part, and where it stands at the start of one that is
/// no text, a packet takes the best of the default routes, and no other route.
pub proof fn law_default_routes_only(
    routes: Seq<RouteView>,
    dst: Seq<u8>,
    pointer: u8,
    x: RouteView,
)
    requires
        0 < pointer && pointer >= dst.len() || pointer == 0 && !valid_utf8(dst),
    ensures
        !forward::is_refused(dst, pointer),
        match forward::route_for(routes, dst, pointer) {
            Some(b) => {
                &&& routes.contains(b)
                &&& b.destination == "default"@
                &&& routes.contains(x) && x.destination == "default"@ ==> does_no_wrong(b, x)
            },
            None => routes.contains(x) ==> x.destination != "default"@,
        },
{
    let c = forward::routes_for(routes, dst, pointer);
    forward::law_routes_by_pointer(routes, dst, pointer, x);
    lemma_best_of(c, x);
    if c.len() > 0 {
        forward::law_routes_by_pointer(routes, dst, pointer, forward::best_route(c).unwrap());
    }
}

/// A packet is refused exactly if its pointer stands inside the network part, behind its start, and
/// what stands on one side of it is no text.
pub proof fn law_refused(a: Seq<u8>, b: Seq<u8>, pointer: u8)
    requires
        pointer == a.len(),
    ensures
        forward::is_refused(a + b, pointer) <==> a.len() > 0 && b.len() > 0 && !(valid_utf8(a)
            && valid_utf8(b)),
{
    assert((a + b).take(pointer as int) =~= a);
    assert((a + b).skip(pointer as int) =~= b);
}

/// The pointer parts the destination: behind it stands what is still to be walked.
pub proof fn law_pointed_part(a: Seq<u8>, b: Seq<u8>, pointer: u8)
    ensures
        forward::after_pointer(b, 0) == b,
        b.len() > 0 && pointer == a.len() ==> forward::after_pointer(a + b, pointer) == b,
        0 < pointer && a.len() <= pointer ==> forward::after_pointer(a, pointer) == Seq::<
            u8,
        >::empty(),
{
    assert(b.skip(0) =~= b);
    if b.len() > 0 && pointer == a.len() {
        assert((a + b).skip(pointer as int) =~= b);
    }
}

/// The routing table comes first: a packet takes a connected route only where no route of the table
/// leads towards its destination.
pub proof fn law_table_first(
    pointer: u8,
    dst: Seq<u8>,
    routes: Seq<RouteView>,
    config: Seq<AddressView>,
    ifaces: Seq<Seq<char>>,
)
    ensures
        forward::route_for(routes, dst, pointer) is Some ==> forward::packet_route(
            pointer,
            dst,
            routes,
            config,
            ifaces,
        ) == forward::route_for(routes, dst, pointer),
        forward::route_for(routes, dst, pointer) is None ==> forward::packet_route(
            pointer,
            dst,
            routes,
            config,
            ifaces,
        ) == forward::connected_route(config, ifaces, dst),
{
}

/// Whether one of the addresses of `e` is in the network `net`: that is the text in front of its
/// first colon.
pub open spec fn has_address_in(e: AddressView, net: Seq<char>) -> bool {
    exists|j: int|
        0 <= j < e.addresses.len() && text::before_first(#[trigger] e.addresses[j], ':') == net
}

/// Whether the interface of `e` is in use and in the network `net`.
pub open spec fn is_connected(e: AddressView, ifaces: Seq<Seq<char>>, net: Seq<char>) -> bool {
    ifaces.contains(e.ifname) && has_address_in(e, net)
}

proof fn lemma_first_to_push(s: Seq<RouteView>, r: RouteView, dst: Seq<u8>)
    ensures
        forward::first_to(s.push(r), dst) == (if forward::first_to(s, dst) is Some {
            forward::first_to(s, dst)
        } else if encode_utf8(r.destination) == dst {
            Some(r)
        } else {
            None
        }),
    decreases s.len(),
{
    let t = s.push(r);
    if s.len() > 0 {
        lemma_first_to_push(s.drop_first(), r, dst);
        assert(t.drop_first() =~= s.drop_first().push(r));
        assert(t[0] == s[0]);
    } else {
        assert(t.drop_first() =~= Seq::<RouteView>::empty());
        assert(forward::first_to(t.drop_first(), dst) is None);
        assert(t[0] == r);
    }
}

proof fn lemma_first_to_concat(a: Seq<RouteView>, b: Seq<RouteView>, dst: Seq<u8>)
    ensures
        forward::first_to(a + b, dst) == (if forward::first_to(a, dst) is Some {
            forward::first_to(a, dst)
        } else {
            forward::first_to(b, dst)
        }),
    decreases b.len(),
{
    if b.len() == 0 {
        assert(a + b =~= a);
    } else {
        let init = b.drop_last();
        lemma_first_to_concat(a, init, dst);
        lemma_first_to_push(a + init, b.last(), dst);
        lemma_first_to_push(init, b.last(), dst);
        assert((a + init).push(b.last()) =~= a + b);
        assert(init.push(b.last()) =~= b);
    }
}

proof fn lemma_first_to_once(more: Seq<RouteView>, dst: Seq<u8>)
    ensures
        forward::first_to(forward::with_routes(Seq::empty(), more), dst) == forward::first_to(
            more,
            dst,
        ),
    decreases more.len(),
{
    let none = Seq::<RouteView>::empty();
    if more.len() > 0 {
        let init = more.drop_last();
        let r = more.last();
        let once = forward::with_routes(none, init);
        lemma_first_to_once(init, dst);
        lemma_first_to_push(init, r, dst);
        lemma_first_to_push(once, r, dst);
        assert(init.push(r) =~= more);
        if once.contains(r) {
            forward::lemma_first_to(once, dst);
        }
    }
}

proof fn lemma_same_text(a: Seq<char>, b: Seq<char>)
    requires
        encode_utf8(a) == encode_utf8(b),
    ensures
        a == b,
{
    encode_utf8_decode_utf8(a);
    encode_utf8_decode_utf8(b);
}

proof fn lemma_first_at(addrs: Seq<Seq<char>>, dev: Seq<char>, net: Seq<char>)
    requires
        net.len() > 0,
    ensures
        forward::first_to(forward::connected_at(addrs, dev), encode_utf8(net)) == (if exists|j: int|
            0 <= j < addrs.len() && text::before_first(#[trigger] addrs[j], ':') == net {
            Some(
                RouteView {
                    destination: net,
                    next_hop: "local:0"@,
                    dev,
                    proto: RoutingProto::Static,
                    priority: 0,
                },
            )
        } else {
            None
        }),
    decreases addrs.len(),
{
    if addrs.len() > 0 {
        let init = addrs.drop_last();
        let last = text::before_first(addrs.last(), ':');
        let before = forward::connected_at(init, dev);
        lemma_first_at(init, dev, net);
        if last.len() > 0 {
            lemma_first_to_push(
                before,
                cfg::static_route(last, "local:0"@, dev, 0),
                encode_utf8(net),
            );
        }
        if encode_utf8(last) == encode_utf8(net) {
            lemma_same_text(last, net);
        }
        if exists|j: int|
            0 <= j < init.len() && text::before_first(#[trigger] init[j], ':') == net {
            let j = choose|j: int|
                0 <= j < init.len() && text::before_first(#[trigger] init[j], ':') == net;
            assert(text::before_first(addrs[j], ':') == net);
        } else if exists|j: int|
            0 <= j < addrs.len() && text::before_first(#[trigger] addrs[j], ':') == net {
            let j = choose|j: int|
                0 <= j < addrs.len() && text::before_first(#[trigger] addrs[j], ':') == net;
            if j < init.len() {
                assert(init[j] == addrs[j]);
            }
            assert(j == addrs.len() - 1);
        }
        if last == net {
            assert(text::before_first(addrs[addrs.len() - 1], ':') == net);
        }
    }
}

proof fn lemma_first_connected(
    config: Seq<AddressView>,
    ifaces: Seq<Seq<char>>,
    net: Seq<char>,
    i: int,
)
    requires
        net.len() > 0,
        0 <= i <= config.len(),
        forall|k: int| 0 <= k < i ==> !is_connected(#[trigger] config[k], ifaces, net),
        i < config.len() ==> is_connected(config[i], ifaces, net),
    ensures
        forward::first_to(forward::connected(config, ifaces), encode_utf8(net)) == (if i
            < config.len() {
            Some(
                RouteView {
                    destination: net,
                    next_hop: "local:0"@,
                    dev: config[i].ifname,
                    proto: RoutingProto::Static,
                    priority: 0,
                },
            )
        } else {
            None
        }),
    decreases config.len(),
{
    if config.len() > 0 {
        let init = config.drop_last();
        let e = config.last();
        let m = if i < config.len() {
            i
        } else {
            init.len() as int
        };
        assert forall|k: int| 0 <= k < m implies !is_connected(#[trigger] init[k], ifaces, net) by {
            assert(init[k] == config[k]);
        }
        if m < init.len() {
            assert(init[m] == config[m]);
        }
        lemma_first_connected(init, ifaces, net, m);
        if ifaces.contains(e.ifname) {
            lemma_first_at(e.addresses, e.ifname, net);
            lemma_first_to_concat(
                forward::connected(init, ifaces),
                forward::connected_at(e.addresses, e.ifname),
                encode_utf8(net),
            );
        }
        if i >= init.len() {
            assert(i == config.len() ==> !is_connected(config[config.len() - 1], ifaces, net));
        }
    }
}

/// A packet to a network that this host is in goes out over the first configured interface in that
/// network that is in use, straight to its destination. A packet to any other network has no such
/// route.
pub proof fn law_connected_network(
    config: Seq<AddressView>,
    ifaces: Seq<Seq<char>>,
    net: Seq<char>,
    i: int,
)
    requires
        net.len() > 0,
        0 <= i <= config.len(),
        forall|k: int| 0 <= k < i ==> !is_connected(#[trigger] config[k], ifaces, net),
        i < config.len() ==> is_connected(config[i], ifaces, net),
    ensures
        forward::connected_route(config, ifaces, encode_utf8(net)) == (if i < config.len() {
            Some(
                RouteView {
                    destination: net,
                    next_hop: "local:1"@,
                    dev: config[i].ifname,
                    proto: RoutingProto::Static,
                    priority: 0,
                },
            )
        } else {
            None
        }),
{
    lemma_first_connected(config, ifaces, net, i);
    lemma_first_to_once(forward::connected(config, ifaces), encode_utf8(net));
}

/// The routes to the connected networks stand in the order of the configuration: those of each
/// interface that is in use, one for each of its addresses, to the text in front of its first
/// colon. An address without such a text gives none.
pub proof fn law_connected_list(
    a: Seq<AddressView>,
    b: Seq<AddressView>,
    e: AddressView,
    ifaces: Seq<Seq<char>>,
    i: int,
)
    ensures
        forward::connected(a + b, ifaces) == forward::connected(a, ifaces) + forward::connected(
            b,
            ifaces,
        ),
        ifaces.contains(e.ifname) ==> forward::connected(seq![e], ifaces) == forward::connected_at(
            e.addresses,
            e.ifname,
        ),
        !ifaces.contains(e.ifname) ==> forward::connected(seq![e], ifaces) == Seq::<
            RouteView,
        >::empty(),
        0 <= i < e.addresses.len() ==> forward::connected_at(e.addresses.take(i + 1), e.ifname) == (
        if text::before_first(e.addresses[i], ':').len() == 0 {
            forward::connected_at(e.addresses.take(i), e.ifname)
        } else {
            forward::connected_at(e.addresses.take(i), e.ifname).push(
                RouteView {
                    destination: text::before_first(e.addresses[i], ':'),
                    next_hop: "local:0"@,
                    dev: e.ifname,
                    proto: RoutingProto::Static,
                    priority: 0,
                },
            )
        }),
        forward::connected_at(Seq::empty(), e.ifname) == Seq::<RouteView>::empty(),
    decreases b.len(),
{
    if b.len() == 0 {
        assert(a + b =~= a);
        assert(forward::connected(b, ifaces) =~= Seq::<RouteView>::empty());
        assert(forward::connected(a, ifaces) + forward::connected(b, ifaces) =~= forward::connected(
            a,
            ifaces,
        ));
    } else {
        law_connected_list(a, b.drop_last(), e, ifaces, i);
        assert((a + b).drop_last() =~= a + b.drop_last());
        assert((a + b).last() == b.last());
        assert(forward::connected(a + b, ifaces) =~= forward::connected(a, ifaces)
            + forward::connected(b, ifaces));
    }
    let one = seq![e];
    assert(one.drop_last() =~= Seq::<AddressView>::empty());
    assert(forward::connected(one.drop_last(), ifaces) =~= Seq::<RouteView>::empty());
    assert(one.last() == e);
    assert(Seq::<RouteView>::empty() + forward::connected_at(e.addresses, e.ifname)
        =~= forward::connected_at(e.addresses, e.ifname));
    if 0 <= i < e.addresses.len() {
        assert(e.addresses.take(i + 1).drop_last() =~= e.addresses.take(i));
        assert(e.addresses.take(i + 1).last() == e.addresses[i]);
    }
}

/// Adding routes keeps the routes of a table where they stand.
pub proof fn law_added_routes_behind(routes: Seq<RouteView>, more: Seq<RouteView>)
    ensures
        forward::with_routes(routes, more).len() >= routes.len(),
        forward::with_routes(routes, more).take(routes.len() as int) == routes,
    decreases more.len(),
{
    if more.len() > 0 {
        let before = forward::with_routes(routes, more.drop_last());
        law_added_routes_behind(routes, more.drop_last());
        let after = forward::with_routes(routes, more);
        assert(after.take(routes.len() as int) =~= before.take(routes.len() as int));
    } else {
        assert(routes.take(routes.len() as int) =~= routes);
    }
}

/// The next hop of a packet: over the route `local:1` it is the destination itself, or every node
/// where the destination is the NodeID 1,000,000,000; over any other route it is the node that the
/// route names. A route that names no node has none.
pub proof fn law_next_hop(net: Seq<char>, id: Seq<char>, dst_node_id: u32)
    requires
        text::laws::is_free(id, ':'),
    ensures
        forward::hop_of("local:1"@, 1_000_000_000) == NextHop::Everyone,
        dst_node_id != 1_000_000_000 ==> forward::hop_of("local:1"@, dst_node_id) == NextHop::Node(
            dst_node_id,
        ),
        net.push(':') + id != "local:1"@ ==> match addr::node_id_check(encode_utf8(id)) {
            Ok(n) => forward::hop_of(net.push(':') + id, dst_node_id) == NextHop::Node(n),
            Err(_) => forward::hop_of(net.push(':') + id, dst_node_id) == NextHop::Invalid,
        },
        forward::hop_of(id, dst_node_id) == NextHop::Invalid,
{
    addr::laws::law_addr_node_id(net, id);
    reveal_strlit("local:1");
    if id == "local:1"@ {
        assert(id[5] == ':');
    }
}

/// The bytes of a packet behind its header: the network part and the NodeID of the destination, the
/// network part and the NodeID of the source, and the payload. The NodeIDs have their least
/// significant byte first.
pub proof fn law_dynamic_layout(d: DynamicView)
    ensures
        ({
            let s = forward::dynamic_bytes(d);
            let n = d.dst_netpart.len() as int;
            let m = d.src_netpart.len() as int;
            &&& s.len() == n + 4 + m + 4 + d.payload.len()
            &&& s.take(n) == d.dst_netpart
            &&& s[n] + 0x100 * s[n + 1] + 0x1_0000 * s[n + 2] + 0x100_0000 * s[n + 3]
                == d.dst_node_id
            &&& s.subrange(n + 4, n + 4 + m) == d.src_netpart
            &&& s[n + m + 4] + 0x100 * s[n + m + 5] + 0x1_0000 * s[n + m + 6] + 0x100_0000 * s[n
                + m + 7] == d.src_node_id
            &&& s.skip(n + m + 8) == d.payload
        }),
{
    let s = forward::dynamic_bytes(d);
    let n = d.dst_netpart.len() as int;
    let m = d.src_netpart.len() as int;
    let a = bytes::le_bytes(d.dst_node_id as nat, 4);
    let b = bytes::le_bytes(d.src_node_id as nat, 4);
    bytes::lemma_machine_round_trip(0, d.dst_node_id, 0);
    bytes::lemma_machine_round_trip(0, d.src_node_id, 0);
    bytes::laws::law_little_endian(a[0], a[1], a[2], a[3]);
    bytes::laws::law_little_endian(b[0], b[1], b[2], b[3]);
    assert(a =~= seq![a[0], a[1], a[2], a[3]]);
    assert(b =~= seq![b[0], b[1], b[2], b[3]]);
    assert(s.take(n) =~= d.dst_netpart);
    assert(s.subrange(n + 4, n + 4 + m) =~= d.src_netpart);
    assert(s.skip(n + m + 8) =~= d.payload);
}

/// The frame of a forwarded packet: the hardware addresses of the next hop and of this host, the
/// EtherType of NHIP, and the packet with the label of the link and one hop less. The rest of the
/// header and all that stands behind it are as they came.
pub proof fn law_forwarded_frame(
    h: NhipHeader,
    d: DynamicView,
    destination: Seq<char>,
    local_mac: Seq<u8>,
    next_mac: Seq<u8>,
)
    requires
        local_mac.len() == 6,
        next_mac.len() == 6,
        h.ttl > 0,
    ensures
        ({
            let frame = forward::forwarded_frame(h, d, destination, local_mac, next_mac);
            let came = header::header_bytes(h);
            &&& frame.len() == 32 + forward::dynamic_bytes(d).len()
            &&& frame.take(6) == next_mac
            &&& frame.subrange(6, 12) == local_mac
            &&& frame[12] == 0x88 && frame[13] == 0xB5
            &&& frame[14] == h.version_flags
            &&& frame[16] == h.ttl - 1
            &&& frame[17] == h.next_header
            &&& frame.subrange(18, 20) == came.subrange(4, 6)
            &&& frame.subrange(20, 28) == bytes::native_bytes(
                label::link_hash(local_mac, next_mac, d.dst_netpart) as nat,
                8,
            )
            &&& frame.subrange(28, 32) == came.subrange(14, 18)
            &&& frame.skip(32) == forward::dynamic_bytes(d)
        }),
{
    let frame = forward::forwarded_frame(h, d, destination, local_mac, next_mac);
    let hash = label::link_hash(local_mac, next_mac, d.dst_netpart);
    let new_hdr = forward::forwarded_header(
        h,
        hash,
        forward::next_pointer_of(h.pointer, destination, d.dst_netpart),
    );
    let s = header::header_bytes(new_hdr);
    let came = header::header_bytes(h);
    header::law_header_round_trip(new_hdr);
    header::law_header_round_trip(h);
    bytes::lemma_machine_round_trip(header::NHIP_ETHERTYPE, 0, hash);
    bytes::lemma_machine_round_trip(h.payload_length, 0, h.link_label);
    bytes::lemma_machine_round_trip(h.dst_addr_len, 0, 0);
    bytes::lemma_machine_round_trip(h.src_addr_len, 0, 0);
    bytes::laws::law_big_endian(0x88, 0xB5, 0, 0);
    let eth = cfg::eth_header(local_mac, next_mac, header::NHIP_ETHERTYPE);
    assert(eth[12] == 0x88 && eth[13] == 0xB5);
    assert(frame.take(6) =~= next_mac);
    assert(frame.subrange(6, 12) =~= local_mac);
    assert(frame.subrange(14, 32) =~= s);
    assert forall|i: int| 0 <= i < 18 implies frame[14 + i] == s[i] by {
        assert(frame.subrange(14, 32)[i] == s[i]);
    }
    assert(frame.subrange(18, 20) =~= s.subrange(4, 6));
    assert(s.subrange(4, 6) =~= came.subrange(4, 6));
    assert(s.subrange(6, 14) =~= bytes::native_bytes(hash as nat, 8));
    assert(frame.subrange(20, 28) =~= s.subrange(6, 14));
    assert(s.subrange(14, 18) =~= came.subrange(14, 18));
    assert(frame.subrange(28, 32) =~= s.subrange(14, 18));
    assert(frame.skip(32) =~= forward::dynamic_bytes(d));
}

/// The pointer of a forwarded packet stands in the second byte of its header.
proof fn lemma_pointer_byte(
    h: NhipHeader,
    d: DynamicView,
    destination: Seq<char>,
    local_mac: Seq<u8>,
    next_mac: Seq<u8>,
)
    requires
        local_mac.len() == 6,
        next_mac.len() == 6,
    ensures
        forward::forwarded_frame(h, d, destination, local_mac, next_mac)[15]
            == forward::next_pointer_of(h.pointer, destination, d.dst_netpart),
{
    let new_hdr = forward::forwarded_header(
        h,
        label::link_hash(local_mac, next_mac, d.dst_netpart),
        forward::next_pointer_of(h.pointer, destination, d.dst_netpart),
    );
    header::law_header_round_trip(new_hdr);
    bytes::lemma_bytes_len(header::NHIP_ETHERTYPE as nat, 2);
}

/// Over a default route a packet leaves with exactly the pointer that it came with.
pub proof fn law_default_route_keeps_pointer(
    h: NhipHeader,
    d: DynamicView,
    local_mac: Seq<u8>,
    next_mac: Seq<u8>,
)
    requires
        local_mac.len() == 6,
        next_mac.len() == 6,
    ensures
        forward::forwarded_frame(h, d, "default"@, local_mac, next_mac)[15] == h.pointer,
{
    lemma_pointer_byte(h, d, "default"@, local_mac, next_mac);
}

/// Over a route to the first `n` bytes of the destination a packet leaves with a pointer behind the
/// period that follows them, whatever pointer it came with; over a route to the whole network part
/// it leaves with 0xFF, and over no other.
pub proof fn law_route_moves_pointer(
    h: NhipHeader,
    d: DynamicView,
    destination: Seq<char>,
    n: int,
    local_mac: Seq<u8>,
    next_mac: Seq<u8>,
)
    requires
        local_mac.len() == 6,
        next_mac.len() == 6,
        addr::addr_check(d.dst_netpart) is Ok,
        destination != "default"@,
        0 <= n <= d.dst_netpart.len(),
        n < d.dst_netpart.len() ==> d.dst_netpart[n] == '.' as u8,
        encode_utf8(destination) == d.dst_netpart.take(n),
    ensures
        ({
            let pointer = forward::forwarded_frame(h, d, destination, local_mac, next_mac)[15];
            &&& n < d.dst_netpart.len() ==> pointer == n + 1 && pointer != 0xFF
            &&& n == d.dst_netpart.len() ==> pointer == 0xFF
        }),
{
    let dst = d.dst_netpart;
    lemma_pointer_byte(h, d, destination, local_mac, next_mac);
    addr::lemma_first_fault(dst, 0);
    if n < dst.len() {
        assert(dst[dst.len() - 1] != '.' as u8);
        assert(n + 1 < dst.len());
        assert(addr::addr_fault(dst, n + 1) is None);
        assert(dst[n + 1] != ':' as u8);
    }
}

proof fn lemma_walked_len(before: Seq<char>, after: Seq<char>, n: int)
    requires
        0 <= n <= after.len(),
    ensures
        encode_utf8(before).len() <= encode_utf8(before + after.take(n)).len() <= encode_utf8(
            before + after,
        ).len(),
{
    text::lemma_encode_concat(before, after.take(n));
    text::lemma_encode_concat(before, after);
    text::lemma_encode_concat(after.take(n), after.skip(n));
    assert(after.take(n) + after.skip(n) =~= after);
}

proof fn lemma_pointer_behind(pointer: u8, destination: Seq<char>, dst: Seq<u8>)
    requires
        destination != "default"@,
        encode_utf8(destination).len() <= 254,
    ensures
        ({
            let next = forward::next_pointer_of(pointer, destination, dst);
            next == 0xFF || next == encode_utf8(destination).len() + 1
        }),
{
}

/// A packet that takes a route of the table leaves with the pointer that it came with, if that is a
/// default route; otherwise it leaves with a later one, or with 0xFF. So its way past the blocks of
/// its destination never goes back.
pub proof fn law_pointer_goes_on(
    routes: Seq<RouteView>,
    before: Seq<char>,
    after: Seq<char>,
    pointer: u8,
)
    requires
        encode_utf8(before).len() == pointer,
        pointer == 0 || after.len() > 0,
        before.len() == 0 || before.last() == '.',
        encode_utf8(before + after).len() <= 254,
    ensures
        forward::route_for(routes, encode_utf8(before + after), pointer) matches Some(r) ==> {
            let next = forward::next_pointer_of(
                pointer,
                r.destination,
                encode_utf8(before + after),
            );
            if r.destination == "default"@ {
                next == pointer
            } else {
                next > pointer
            }
        },
{
    let dst = encode_utf8(before + after);
    match forward::route_for(routes, dst, pointer) {
        Some(r) => {
            law_route_of_packet(routes, before, after, pointer, r);
            if r.destination != "default"@ {
                let n = choose|n: int|
                    0 <= n <= after.len() && (n < after.len() ==> after[n] == '.') && r.destination
                        == front_of(before) + #[trigger] after.take(n);
                lemma_walked_len(before, after, n);
                lemma_pointer_behind(pointer, r.destination, dst);
            }
        },
        None => {},
    }
}

/// A packet can go on exactly if its hop limit is not 0, its destination fits a link label, and the
/// length of the route's destination leaves room for a pointer. A destination in an accepted
/// network part always does.
pub proof fn law_forwardable(h: NhipHeader, d: DynamicView, destination: Seq<char>)
    ensures
        h.ttl == 0 ==> !forward::forwardable(h, d, destination),
        d.dst_netpart.len() > 152 ==> !forward::forwardable(h, d, destination),
        h.ttl > 0 && d.dst_netpart.len() <= 152 && (destination == "default"@ || encode_utf8(
            destination,
        ).len() < 255) ==> forward::forwardable(h, d, destination),
        destination != "default"@ && encode_utf8(destination).len() % 256 == 255
            ==> !forward::forwardable(h, d, destination),
{
}

/// How the forwarding of a packet ends: it is refused exactly if the route names no next hop; the
/// next hop is asked for, in the network of the source, exactly if its hardware address is unknown
/// and needed; else the packet goes on if it can, to that address, and not at all if it cannot.
pub proof fn law_outcome(
    action: ForwardAction,
    h: NhipHeader,
    d: DynamicView,
    route: RouteView,
    src_net: Seq<char>,
    cached: Option<[u8; 6]>,
    ifindex: u32,
    local_mac: Seq<u8>,
)
    requires
        forward::is_outcome(action, h, d, route, src_net, cached, ifindex, local_mac),
        local_mac.len() == 6,
    ensures
        ({
            let hop = forward::hop_of(route.next_hop, d.dst_node_id);
            &&& action is Refuse <==> hop is Invalid
            &&& action is Ask <==> hop is Node && cached is None
            &&& action is Ask ==> action->node_id == hop->Node_0 && action->net@ == src_net
            &&& action is Send ==> h.ttl > 0
            &&& (hop is Everyone || hop is Node && cached is Some) ==> (if forward::forwardable(
                h,
                d,
                route.destination,
            ) {
                action is Send
            } else {
                action is Overrun
            })
            &&& action is Send ==> {
                let f = action->Send_0;
                let next = f.frame@.take(6);
                &&& hop is Everyone ==> next == seq![0xFFu8, 0xFF, 0xFF, 0xFF, 0xFF, 0xFF]
                &&& hop is Node ==> next == cached.unwrap()@
                &&& f.frame@ == forward::forwarded_frame(h, d, route.destination, local_mac, next)
                &&& f.entry.dmac@ == next
                &&& f.entry.ifindex == ifindex
                &&& f.entry._pad@ == seq![0u8, 2u8]
                &&& f.entry.next_label == label::link_hash(local_mac, next, d.dst_netpart)
                &&& f.current_label == bytes::be_value(header::header_bytes(h).subrange(6, 14))
            }
        }),
{
    if action is Send {
        let all = Seq::new(6, |i: int| 0xFFu8);
        let next = match cached {
            Some(mac) => if forward::hop_of(route.next_hop, d.dst_node_id) is Everyone {
                all
            } else {
                mac@
            },
            None => all,
        };
        law_forwarded_frame(h, d, route.destination, local_mac, next);
        assert(all =~= seq![0xFFu8, 0xFF, 0xFF, 0xFF, 0xFF, 0xFF]);
        bytes::lemma_machine_round_trip(h.payload_length, 0, h.link_label);
        assert(header::header_bytes(h).subrange(6, 14) =~= bytes::native_bytes(
            h.link_label as nat,
            8,
        ));
    }
}

/// A network part without a name, or one that is no text, is no connected network.
pub proof fn law_unconnected(config: Seq<AddressView>, ifaces: Seq<Seq<char>>, dst: Seq<u8>)
    requires
        dst.len() == 0 || !valid_utf8(dst),
    ensures
        forward::connected_route(config, ifaces, dst) is None,
{
    let all = forward::connected(config, ifaces);
    lemma_first_to_once(all, dst);
    forward::lemma_first_to(all, dst);
    match forward::first_to(all, dst) {
        Some(r) => {
            encode_utf8_valid_utf8(r.destination);
            lemma_connected_named(config, ifaces, r);
            assert(r.destination.len() > 0);
            assert(encode_utf8(r.destination).len() > 0);
        },
        None => {},
    }
}

proof fn lemma_connected_named(config: Seq<AddressView>, ifaces: Seq<Seq<char>>, r: RouteView)
    ensures
        forward::connected(config, ifaces).contains(r) ==> r.destination.len() > 0,
    decreases config.len(),
{
    if config.len() > 0 {
        let e = config.last();
        lemma_connected_named(config.drop_last(), ifaces, r);
        lemma_connected_at_named(e.addresses, e.ifname, r);
        text::lemma_concat_contains(
            forward::connected(config.drop_last(), ifaces),
            forward::connected_at(e.addresses, e.ifname),
            r,
        );
    }
}

proof fn lemma_connected_at_named(addrs: Seq<Seq<char>>, dev: Seq<char>, r: RouteView)
    ensures
        forward::connected_at(addrs, dev).contains(r) ==> r.destination.len() > 0,
    decreases addrs.len(),
{
    if addrs.len() > 0 {
        let net = text::before_first(addrs.last(), ':');
        lemma_connected_at_named(addrs.drop_last(), dev, r);
        text::lemma_push_contains(
            forward::connected_at(addrs.drop_last(), dev),
            cfg::static_route(net, "local:0"@, dev, 0),
            r,
        );
    }
}

/// Routes are added one after the other.
pub proof fn law_added_one_by_one(routes: Seq<RouteView>, more: Seq<RouteView>, r: RouteView)
    ensures
        forward::with_routes(routes, Seq::empty()) == routes,
        forward::with_routes(routes, more.push(r)) == cfg::with_route(
            forward::with_routes(routes, more),
            r,
        ),
{
    assert(more.push(r).drop_last() =~= more);
}

} // verus!
