//! Slow-path forwarding: the dynamic part of a packet, route selection and the rewritten frame.
use crate::addr;
use crate::bytes;
use crate::cfg::{
    build_eth_header, insert_route, proto_to_ad, AddressEntry, AddressView, RouteEntry, RouteView,
};
use crate::cfg;
use crate::header::{NhipHeader, NHIP_ETHERTYPE, NHIP_HEADER_LEN};
use crate::header;
use crate::label;
use crate::text;
use vstd::prelude::*;
use vstd::string::*;
use vstd::utf8::*;

pub mod laws;

verus! {

/// An entry of the FastPath table.
#[derive(Clone, Copy, Debug)]
pub struct ForwardEntry {
    pub next_label: u64,
    pub ifindex: u32,
    pub dmac: [u8; 6],
    pub _pad: [u8; 2],
}

/// What stands behind the static header: the two addresses and the payload.
#[derive(Clone, Copy)]
pub struct NhipDynamic<'a> {
    pub dst_netpart: &'a [u8],
    pub dst_node_id: u32,
    pub src_netpart: &'a [u8],
    pub src_node_id: u32,
    pub payload: &'a [u8],
}

/// What a [`NhipDynamic`] holds.
#[verifier::ext_equal]
pub struct DynamicView {
    pub dst_netpart: Seq<u8>,
    pub dst_node_id: u32,
    pub src_netpart: Seq<u8>,
    pub src_node_id: u32,
    pub payload: Seq<u8>,
}

impl<'a> View for NhipDynamic<'a> {
    type V = DynamicView;

    open spec fn view(&self) -> DynamicView {
        DynamicView {
            dst_netpart: self.dst_netpart@,
            dst_node_id: self.dst_node_id,
            src_netpart: self.src_netpart@,
            src_node_id: self.src_node_id,
            payload: self.payload@,
        }
    }
}

/// The bytes of a dynamic part: destination and source, each a network part and a NodeID with
/// its least significant byte first, then the payload.
pub open spec fn dynamic_bytes(d: DynamicView) -> Seq<u8> {
    d.dst_netpart + bytes::le_bytes(d.dst_node_id as nat, 4) + d.src_netpart + bytes::le_bytes(
        d.src_node_id as nat,
        4,
    ) + d.payload
}

/// The least number of bytes behind a header with these address lengths.
pub open spec fn dynamic_len(dst_len: nat, src_len: nat) -> nat {
    dst_len + 4 + src_len + 4
}

/// The dynamic part that `rest` holds behind a header with these address lengths.
pub open spec fn dynamic_of(dst_len: nat, src_len: nat, rest: Seq<u8>) -> DynamicView {
    let d = dst_len as int;
    let s = src_len as int;
    DynamicView {
        dst_netpart: rest.subrange(0, d),
        dst_node_id: bytes::le_value(rest.subrange(d, d + 4)) as u32,
        src_netpart: rest.subrange(d + 4, d + 4 + s),
        src_node_id: bytes::le_value(rest.subrange(d + 4 + s, d + 8 + s)) as u32,
        payload: rest.skip(d + 8 + s),
    }
}

/// Whether the pointer stands inside the network part `dst`: at its start, or in front of one of
/// its bytes.
pub open spec fn points_inside(dst: Seq<u8>, pointer: u8) -> bool {
    pointer == 0 || pointer < dst.len()
}

/// The bytes of `dst` in front of the pointer, where the pointer stands inside it.
pub open spec fn before_pointer(dst: Seq<u8>, pointer: u8) -> Seq<u8> {
    if points_inside(dst, pointer) {
        dst.take(pointer as int)
    } else {
        Seq::empty()
    }
}

/// The bytes of `dst` from the pointer on, where the pointer stands inside it.
pub open spec fn after_pointer(dst: Seq<u8>, pointer: u8) -> Seq<u8> {
    if points_inside(dst, pointer) {
        dst.skip(pointer as int)
    } else {
        Seq::empty()
    }
}

/// The part of `dst` that the pointer points to: all of it for the pointer 0, and nothing where
/// the pointer stands behind it.
pub fn pointed_part<'a>(dst: &'a [u8], pointer: u8) -> (res: &'a [u8])
    ensures
        res@ == after_pointer(dst@, pointer),
{
    let len: usize = dst.len();
    let p: usize = pointer as usize;
    let res = if p < len {
        vstd::slice::slice_subrange(dst, p, len)
    } else {
        vstd::slice::slice_subrange(dst, len, len)
    };
    assert(res@ =~= after_pointer(dst@, pointer));
    res
}

/// Parses the dynamic part of a packet. Beside it comes the part of the destination network part
/// that the pointer of the header points to.
///
/// * `hdr` - the static header
/// * `rest` - the bytes behind the static header
pub fn parse_dynamic<'a>(hdr: &NhipHeader, rest: &'a [u8]) -> (res: (NhipDynamic<'a>, &'a [u8]))
    requires
        rest@.len() >= dynamic_len(hdr.dst_addr_len as nat, hdr.src_addr_len as nat),
    ensures
        res.0@ == dynamic_of(hdr.dst_addr_len as nat, hdr.src_addr_len as nat, rest@),
        res.1@ == after_pointer(res.0@.dst_netpart, hdr.pointer),
        0 < hdr.pointer < hdr.dst_addr_len ==> res.1@ == rest@.subrange(
            hdr.pointer as int,
            hdr.dst_addr_len as int,
        ),
{
    let d: usize = hdr.dst_addr_len as usize;
    let s: usize = hdr.src_addr_len as usize;
    let len: usize = rest.len();
    let payload = vstd::slice::slice_subrange(rest, d + 8 + s, len);
    assert(payload@ =~= rest@.skip(d + 8 + s));
    let dst_netpart = vstd::slice::slice_subrange(rest, 0, d);
    let pointed = pointed_part(dst_netpart, hdr.pointer);
    assert(0 < hdr.pointer < d ==> pointed@ =~= rest@.subrange(hdr.pointer as int, d as int));
    let dynamic = NhipDynamic {
        dst_netpart,
        dst_node_id: bytes::u32_from_le(vstd::slice::slice_subrange(rest, d, d + 4)),
        src_netpart: vstd::slice::slice_subrange(rest, d + 4, d + 4 + s),
        src_node_id: bytes::u32_from_le(vstd::slice::slice_subrange(rest, d + 4 + s, d + 8 + s)),
        payload,
    };
    (dynamic, pointed)
}

/// Appends the bytes of a dynamic part.
pub fn append_dynamic(buf: &mut Vec<u8>, d: &NhipDynamic)
    ensures
        final(buf)@ == old(buf)@ + dynamic_bytes(d@),
{
    bytes::append(buf, d.dst_netpart);
    bytes::append(buf, bytes::u32_to_le(d.dst_node_id).as_slice());
    bytes::append(buf, d.src_netpart);
    bytes::append(buf, bytes::u32_to_le(d.src_node_id).as_slice());
    bytes::append(buf, d.payload);
    assert(buf@ =~= old(buf)@ + dynamic_bytes(d@));
}

/// What is read out of two network parts with four bytes behind each, and a payload.
pub proof fn lemma_dynamic_parts(
    dst: Seq<u8>,
    a: Seq<u8>,
    src: Seq<u8>,
    b: Seq<u8>,
    payload: Seq<u8>,
)
    requires
        a.len() == 4,
        b.len() == 4,
    ensures
        ({
            let rest = dst + a + src + b + payload;
            let d = dynamic_of(dst.len(), src.len(), rest);
            &&& rest.len() >= dynamic_len(dst.len(), src.len())
            &&& d.dst_netpart == dst
            &&& d.dst_node_id == bytes::le_value(a) as u32
            &&& d.src_netpart == src
            &&& d.src_node_id == bytes::le_value(b) as u32
            &&& d.payload == payload
        }),
{
    let rest = dst + a + src + b + payload;
    let n = dst.len() as int;
    let m = src.len() as int;
    assert(rest.subrange(0, n) =~= dst);
    assert(rest.subrange(n, n + 4) =~= a);
    assert(rest.subrange(n + 4, n + 4 + m) =~= src);
    assert(rest.subrange(n + 4 + m, n + 8 + m) =~= b);
    assert(rest.skip(n + 8 + m) =~= payload);
}

/// A dynamic part reads back as itself behind a header with its address lengths.
pub proof fn law_dynamic_round_trip(d: DynamicView)
    ensures
        dynamic_bytes(d).len() >= dynamic_len(d.dst_netpart.len(), d.src_netpart.len()),
        dynamic_of(d.dst_netpart.len(), d.src_netpart.len(), dynamic_bytes(d)) == d,
{
    bytes::lemma_machine_round_trip(0, d.dst_node_id, 0);
    bytes::lemma_machine_round_trip(0, d.src_node_id, 0);
    lemma_dynamic_parts(
        d.dst_netpart,
        bytes::le_bytes(d.dst_node_id as nat, 4),
        d.src_netpart,
        bytes::le_bytes(d.src_node_id as nat, 4),
        d.payload,
    );
}

/// Bytes that were read as a dynamic part are written again as they were.
pub proof fn law_dynamic_bytes_round_trip(dst_len: nat, src_len: nat, rest: Seq<u8>)
    requires
        rest.len() >= dynamic_len(dst_len, src_len),
    ensures
        dynamic_bytes(dynamic_of(dst_len, src_len, rest)) == rest,
{
    let d = dst_len as int;
    let s = src_len as int;
    let a = rest.subrange(d, d + 4);
    let b = rest.subrange(d + 4 + s, d + 8 + s);
    bytes::lemma_bytes_of_value(a);
    bytes::lemma_bytes_of_value(b);
    bytes::lemma_machine_bounds(a);
    bytes::lemma_machine_bounds(b);
    assert(dynamic_bytes(dynamic_of(dst_len, src_len, rest)) =~= rest);
}

/// The routes of `routes` with the destination `dest`, in order.
pub open spec fn matching(routes: Seq<RouteView>, dest: Seq<char>) -> Seq<RouteView>
    decreases routes.len(),
{
    if routes.len() == 0 {
        Seq::empty()
    } else {
        let before = matching(routes.drop_last(), dest);
        if routes.last().destination == dest {
            before.push(routes.last())
        } else {
            before
        }
    }
}

/// What stands in front of the pointer, with a period behind it unless there is one or nothing
/// stands there.
pub open spec fn lead(before: Seq<char>) -> Seq<char> {
    if before.len() == 0 || before.last() == '.' {
        before
    } else {
        before.push('.')
    }
}

/// The destination that is looked up once `n` of the blocks behind the pointer have been
/// walked: what stands in front of the pointer, then these blocks with periods between them.
pub open spec fn walked(before: Seq<char>, blocks: Seq<Seq<char>>, n: nat) -> Seq<char> {
    lead(before) + text::joined(blocks.take(n as int), seq!['.'])
}

/// The routes to the destinations that the first `n` blocks give, in that order.
pub open spec fn on_the_way(
    routes: Seq<RouteView>,
    before: Seq<char>,
    blocks: Seq<Seq<char>>,
    n: nat,
) -> Seq<RouteView>
    decreases n,
{
    if n == 0 {
        Seq::empty()
    } else {
        on_the_way(routes, before, blocks, (n - 1) as nat) + matching(
            routes,
            walked(before, blocks, n),
        )
    }
}

/// The routes that come into question: the default routes, then those to the destinations
/// along the blocks behind the pointer.
pub open spec fn candidate_routes(
    routes: Seq<RouteView>,
    before: Seq<char>,
    after: Seq<char>,
) -> Seq<RouteView> {
    let blocks = text::split_on(after, '.');
    matching(routes, "default"@) + on_the_way(routes, before, blocks, blocks.len())
}

/// Whether `a` is to be preferred to `b`: the smaller administrative distance, then the
/// smaller priority, then the longer destination in bytes.
pub open spec fn better(a: RouteView, b: RouteView) -> bool {
    if cfg::distance(a.proto) != cfg::distance(b.proto) {
        cfg::distance(a.proto) < cfg::distance(b.proto)
    } else if a.priority != b.priority {
        a.priority < b.priority
    } else {
        encode_utf8(a.destination).len() > encode_utf8(b.destination).len()
    }
}

/// The place of the first of the best routes.
pub open spec fn best_pos(c: Seq<RouteView>) -> int
    decreases c.len(),
{
    if c.len() <= 1 {
        0
    } else {
        let p = best_pos(c.drop_last());
        if better(c.last(), c[p]) {
            c.len() - 1
        } else {
            p
        }
    }
}

/// The best of the routes `c`.
pub open spec fn best_route(c: Seq<RouteView>) -> Option<RouteView> {
    if c.len() == 0 {
        None
    } else {
        Some(c[best_pos(c)])
    }
}

/// What a list of candidates holds.
pub open spec fn candidate_table(c: Seq<&RouteEntry>) -> Seq<RouteView> {
    c.map_values(|r: &RouteEntry| r@)
}

/// Appends the routes with the destination `dest` to `candidates`.
fn add_matching<'a>(candidates: &mut Vec<&'a RouteEntry>, routes: &'a Vec<RouteEntry>, dest: &str)
    ensures
        candidate_table(final(candidates)@) == candidate_table(old(candidates)@) + matching(
            cfg::route_table(routes@),
            dest@,
        ),
{
    let ghost table = cfg::route_table(routes@);
    let ghost start = candidate_table(candidates@);
    assert(start + matching(table.take(0), dest@) =~= start);
    for i in 0..routes.len()
        invariant
            table == cfg::route_table(routes@),
            candidate_table(candidates@) == start + matching(table.take(i as int), dest@),
    {
        let r = &routes[i];
        assert(table.take(i + 1).drop_last() =~= table.take(i as int));
        assert(table.take(i + 1).last() == r@);
        if text::str_eq(r.destination.as_str(), dest) {
            let ghost before = candidate_table(candidates@);
            candidates.push(r);
            assert(candidate_table(candidates@) =~= before.push(r@));
            assert(candidate_table(candidates@) =~= start + matching(table.take(i + 1), dest@));
        }
    }
    assert(table.take(table.len() as int) =~= table);
}

/// Whether the route `a` is to be preferred to `b`.
fn prefer(a: &RouteEntry, b: &RouteEntry) -> (res: bool)
    ensures
        res == better(a@, b@),
{
    let x: u8 = proto_to_ad(&a.proto);
    let y: u8 = proto_to_ad(&b.proto);
    if x != y {
        x < y
    } else if a.priority != b.priority {
        a.priority < b.priority
    } else {
        a.destination.as_str().as_bytes().len() > b.destination.as_str().as_bytes().len()
    }
}

/// The most suitable of the candidates: by administrative distance, then by priority, then by
/// the length of the destination; the first of those that are left.
pub fn filter_candidates<'a>(candidates: &Vec<&'a RouteEntry>) -> (res: Option<&'a RouteEntry>)
    ensures
        match res {
            Some(r) => best_route(candidate_table(candidates@)) == Some(r@),
            None => best_route(candidate_table(candidates@)) is None,
        },
{
    let ghost table = candidate_table(candidates@);
    if candidates.len() == 0 {
        return None;
    }
    let mut best: usize = 0;
    for i in 1..candidates.len()
        invariant
            table == candidate_table(candidates@),
            1 <= i <= candidates@.len(),
            best < i,
            best == best_pos(table.take(i as int)),
    {
        assert(table.take(i + 1).drop_last() =~= table.take(i as int));
        assert(table.take(i + 1).last() == candidates@[i as int]@);
        assert(table.take(i + 1)[best as int] == candidates@[best as int]@);
        if prefer(candidates[i], candidates[best]) {
            best = i;
        }
    }
    assert(table.take(table.len() as int) =~= table);
    Some(candidates[best])
}

/// Takes one route out of the routing table.
///
/// * `routes` - the routing table
/// * `dst_before_pointer` - the network part of the destination in front of the pointer
/// * `dst_after_pointer` - the network part of the destination behind the pointer
pub fn select_route<'a>(
    routes: &'a Vec<RouteEntry>,
    dst_before_pointer: &str,
    dst_after_pointer: &str,
) -> (res: Option<&'a RouteEntry>)
    ensures
        match res {
            Some(r) => best_route(
                candidate_routes(
                    cfg::route_table(routes@),
                    dst_before_pointer@,
                    dst_after_pointer@,
                ),
            ) == Some(r@),
            None => best_route(
                candidate_routes(
                    cfg::route_table(routes@),
                    dst_before_pointer@,
                    dst_after_pointer@,
                ),
            ) is None,
        },
{
    let ghost table = cfg::route_table(routes@);
    let ghost before = dst_before_pointer@;
    let ghost blocks = text::split_on(dst_after_pointer@, '.');
    let mut candidates: Vec<&RouteEntry> = Vec::new();
    assert(candidate_table(candidates@) + matching(table, "default"@) =~= matching(
        table,
        "default"@,
    ));
    add_matching(&mut candidates, routes, "default");
    let mut processed: String = dst_before_pointer.to_owned();
    let front = text::to_chars(dst_before_pointer);
    let len: usize = front.len();
    if len > 0 && front[len - 1] != '.' {
        processed.push('.');
    }
    let parts = text::split(dst_after_pointer, '.');
    assert(processed@ =~= walked(before, blocks, 0));
    assert(candidate_table(candidates@) =~= matching(table, "default"@) + on_the_way(
        table,
        before,
        blocks,
        0,
    ));
    for i in 0..parts.len()
        invariant
            table == cfg::route_table(routes@),
            blocks == text::views(parts@),
            processed@ == walked(before, blocks, i as nat),
            candidate_table(candidates@) == matching(table, "default"@) + on_the_way(
                table,
                before,
                blocks,
                i as nat,
            ),
    {
        if i > 0 {
            processed.push('.');
        }
        processed.append(parts[i].as_str());
        assert(blocks[i as int] == parts@[i as int]@);
        assert(blocks.take(i + 1).drop_last() =~= blocks.take(i as int));
        assert(processed@ =~= walked(before, blocks, (i + 1) as nat));
        add_matching(&mut candidates, routes, processed.as_str());
        assert(candidate_table(candidates@) =~= matching(table, "default"@) + on_the_way(
            table,
            before,
            blocks,
            (i + 1) as nat,
        ));
    }
    assert(parts@.len() == blocks.len());
    filter_candidates(&candidates)
}

proof fn lemma_best_pos(c: Seq<RouteView>)
    requires
        c.len() > 0,
    ensures
        0 <= best_pos(c) < c.len(),
        forall|i: int| 0 <= i < c.len() ==> !better(#[trigger] c[i], c[best_pos(c)]),
        forall|i: int| 0 <= i < best_pos(c) ==> better(c[best_pos(c)], #[trigger] c[i]),
    decreases c.len(),
{
    if c.len() > 1 {
        let init = c.drop_last();
        lemma_best_pos(init);
        let p = best_pos(init);
        let q = best_pos(c);
        assert forall|i: int| 0 <= i < c.len() implies !better(#[trigger] c[i], c[q]) by {
            if i < init.len() {
                assert(init[i] == c[i]);
                assert(!better(init[i], init[p]));
            }
        }
        assert forall|i: int| 0 <= i < q implies better(c[q], #[trigger] c[i]) by {
            assert(init[i] == c[i]);
            assert(!better(init[i], init[p]));
        }
    }
}

/// The route that is taken is one of the candidates; none of them is better, and those in
/// front of it are worse.
pub proof fn law_best_route(c: Seq<RouteView>, i: int)
    requires
        0 <= i < c.len(),
    ensures
        0 <= best_pos(c) < c.len(),
        best_route(c) == Some(c[best_pos(c)]),
        !better(c[i], c[best_pos(c)]),
        i < best_pos(c) ==> better(c[best_pos(c)], c[i]),
{
    lemma_best_pos(c);
}

proof fn lemma_matching(routes: Seq<RouteView>, dest: Seq<char>, r: RouteView)
    ensures
        matching(routes, dest).contains(r) <==> routes.contains(r) && r.destination == dest,
    decreases routes.len(),
{
    if routes.len() > 0 {
        let init = routes.drop_last();
        let last = routes.last();
        lemma_matching(init, dest, r);
        assert(routes =~= init.push(last));
        text::lemma_push_contains(init, last, r);
        text::lemma_push_contains(matching(init, dest), last, r);
    }
}

proof fn lemma_on_the_way(
    routes: Seq<RouteView>,
    before: Seq<char>,
    blocks: Seq<Seq<char>>,
    n: nat,
    r: RouteView,
)
    ensures
        on_the_way(routes, before, blocks, n).contains(r) <==> routes.contains(r) && exists|k: nat|
            1 <= k <= n && r.destination == #[trigger] walked(before, blocks, k),
    decreases n,
{
    if n > 0 {
        let m = (n - 1) as nat;
        lemma_on_the_way(routes, before, blocks, m, r);
        lemma_matching(routes, walked(before, blocks, n), r);
        text::lemma_concat_contains(
            on_the_way(routes, before, blocks, m),
            matching(routes, walked(before, blocks, n)),
            r,
        );
    }
}

/// A route comes into question exactly if it is in the routing table, and its destination is
/// `default` or one of those along the blocks behind the pointer.
pub proof fn law_candidate_routes(
    routes: Seq<RouteView>,
    before: Seq<char>,
    after: Seq<char>,
    r: RouteView,
)
    ensures
        candidate_routes(routes, before, after).contains(r) <==> {
            &&& routes.contains(r)
            &&& r.destination == "default"@ || exists|k: nat|
                1 <= k <= text::split_on(after, '.').len() && r.destination == #[trigger] walked(
                    before,
                    text::split_on(after, '.'),
                    k,
                )
        },
{
    let blocks = text::split_on(after, '.');
    lemma_matching(routes, "default"@, r);
    lemma_on_the_way(routes, before, blocks, blocks.len(), r);
    text::lemma_concat_contains(
        matching(routes, "default"@),
        on_the_way(routes, before, blocks, blocks.len()),
        r,
    );
}

/// What is known of a packet before a route is looked for.
pub enum Slowpath<'a> {
    /// The dynamic part is too short: the packet is dropped.
    TooShort,
    /// The network part of the source is not UTF-8: the packet is refused.
    BadSource,
    /// The dynamic part, and the network part of the source as text.
    Parsed(NhipDynamic<'a>, &'a str),
}

/// Takes a packet apart for forwarding.
///
/// * `hdr` - the static header
/// * `rest` - the bytes behind the static header
pub fn begin_slowpath<'a>(hdr: &NhipHeader, rest: &'a [u8]) -> (res: Slowpath<'a>)
    ensures
        match res {
            Slowpath::TooShort => rest@.len() < dynamic_len(
                hdr.dst_addr_len as nat,
                hdr.src_addr_len as nat,
            ),
            Slowpath::BadSource => rest@.len() >= dynamic_len(
                hdr.dst_addr_len as nat,
                hdr.src_addr_len as nat,
            ) && !valid_utf8(
                dynamic_of(hdr.dst_addr_len as nat, hdr.src_addr_len as nat, rest@).src_netpart,
            ),
            Slowpath::Parsed(d, src) => {
                &&& rest@.len() >= dynamic_len(hdr.dst_addr_len as nat, hdr.src_addr_len as nat)
                &&& d@ == dynamic_of(hdr.dst_addr_len as nat, hdr.src_addr_len as nat, rest@)
                &&& encode_utf8(src@) == d@.src_netpart
            },
        },
{
    let min_rest: usize = hdr.dst_addr_len as usize + 4 + hdr.src_addr_len as usize + 4;
    if rest.len() < min_rest {
        return Slowpath::TooShort;
    }
    let (d, _) = parse_dynamic(hdr, rest);
    match text::from_utf8(d.src_netpart) {
        Some(src) => Slowpath::Parsed(d, src),
        None => Slowpath::BadSource,
    }
}

/// Which route a packet takes.
pub enum RouteChoice<'a> {
    /// The network part of the destination is not UTF-8 on both sides of the pointer: the
    /// packet is refused.
    BadDestination,
    /// No route in the table leads to the destination.
    NoRoute,
    Via(&'a RouteEntry),
}

/// Whether the network part `dst` is UTF-8 on both sides of the pointer.
pub open spec fn is_text(dst: Seq<u8>, pointer: u8) -> bool {
    valid_utf8(before_pointer(dst, pointer)) && valid_utf8(after_pointer(dst, pointer))
}

/// Whether a packet to `dst` with this pointer is refused: the pointer stands inside the network
/// part, behind its start, and the network part is not UTF-8 on both sides of it.
pub open spec fn is_refused(dst: Seq<u8>, pointer: u8) -> bool {
    0 < pointer < dst.len() && !is_text(dst, pointer)
}

/// The routes that come into question for a packet to `dst` with this pointer. Where the pointer
/// stands behind the network part, or that is not UTF-8, there is no block to walk, and only the
/// default routes do.
pub open spec fn routes_for(routes: Seq<RouteView>, dst: Seq<u8>, pointer: u8) -> Seq<RouteView> {
    if points_inside(dst, pointer) && is_text(dst, pointer) {
        candidate_routes(
            routes,
            decode_utf8(before_pointer(dst, pointer)),
            decode_utf8(after_pointer(dst, pointer)),
        )
    } else {
        matching(routes, "default"@)
    }
}

/// The route for a packet to `dst` with this pointer.
pub open spec fn route_for(routes: Seq<RouteView>, dst: Seq<u8>, pointer: u8) -> Option<
    RouteView,
> {
    best_route(routes_for(routes, dst, pointer))
}

/// The best of the default routes.
fn choose_default<'a>(routes: &'a Vec<RouteEntry>) -> (res: RouteChoice<'a>)
    ensures
        ({
            let route = best_route(matching(cfg::route_table(routes@), "default"@));
            match res {
                RouteChoice::BadDestination => false,
                RouteChoice::NoRoute => route is None,
                RouteChoice::Via(r) => route == Some(r@),
            }
        }),
{
    let mut candidates: Vec<&RouteEntry> = Vec::new();
    add_matching(&mut candidates, routes, "default");
    assert(candidate_table(candidates@) =~= matching(cfg::route_table(routes@), "default"@));
    match filter_candidates(&candidates) {
        Some(r) => RouteChoice::Via(r),
        None => RouteChoice::NoRoute,
    }
}

/// Selects the route of a packet.
///
/// * `pointer` - the pointer of the header
/// * `dst_netpart` - the network part of the destination
/// * `routes` - the routing table
pub fn choose_route<'a>(pointer: u8, dst_netpart: &[u8], routes: &'a Vec<RouteEntry>) -> (res:
    RouteChoice<'a>)
    ensures
        ({
            let route = route_for(cfg::route_table(routes@), dst_netpart@, pointer);
            match res {
                RouteChoice::BadDestination => is_refused(dst_netpart@, pointer),
                RouteChoice::NoRoute => !is_refused(dst_netpart@, pointer) && route is None,
                RouteChoice::Via(r) => !is_refused(dst_netpart@, pointer) && route == Some(r@),
            }
        }),
{
    let p: usize = pointer as usize;
    if p != 0 && p >= dst_netpart.len() {
        return choose_default(routes);
    }
    let front = vstd::slice::slice_subrange(dst_netpart, 0, p);
    assert(front@ =~= before_pointer(dst_netpart@, pointer));
    let before = match text::from_utf8(front) {
        Some(s) => s,
        None => {
            return RouteChoice::BadDestination;
        },
    };
    let after = match text::from_utf8(pointed_part(dst_netpart, pointer)) {
        Some(s) => s,
        None => {
            return if p == 0 {
                choose_default(routes)
            } else {
                RouteChoice::BadDestination
            };
        },
    };
    proof {
        encode_utf8_decode_utf8(before@);
        encode_utf8_decode_utf8(after@);
        encode_utf8_valid_utf8(before@);
        encode_utf8_valid_utf8(after@);
    }
    match select_route(routes, before, after) {
        Some(r) => RouteChoice::Via(r),
        None => RouteChoice::NoRoute,
    }
}

/// Where the next hop of a route is.
#[derive(Clone, Copy, Debug)]
pub enum NextHop {
    /// The next hop has no valid NodeID: the packet is refused.
    Invalid,
    /// Every node of the destination network.
    Everyone,
    /// The node whose hardware address is to be looked up.
    Node(u32),
}

/// The next hop of a route for the destination `dst_node_id`.
pub open spec fn hop_of(next_hop: Seq<char>, dst_node_id: u32) -> NextHop {
    if next_hop == "local:1"@ {
        if dst_node_id == addr::BROADCAST_NODE_ID {
            NextHop::Everyone
        } else {
            NextHop::Node(dst_node_id)
        }
    } else {
        match addr::addr_node_id(next_hop) {
            Ok(id) => NextHop::Node(id),
            Err(_) => NextHop::Invalid,
        }
    }
}

/// Finds the next hop of a route: the destination itself where the route is `local:1`, else
/// the node that the next hop of the route names.
pub fn find_next_hop(route: &RouteEntry, dst_node_id: u32) -> (res: NextHop)
    ensures
        res == hop_of(route.next_hop@, dst_node_id),
{
    if text::str_eq(route.next_hop.as_str(), "local:1") {
        if dst_node_id == addr::BROADCAST_NODE_ID {
            NextHop::Everyone
        } else {
            NextHop::Node(dst_node_id)
        }
    } else {
        match addr::get_node_id_from_addr_str(route.next_hop.as_str()) {
            Ok(id) => NextHop::Node(id),
            Err(_) => NextHop::Invalid,
        }
    }
}

/// The pointer of a packet that took the route to `destination`.
pub open spec fn next_pointer_of(pointer: u8, destination: Seq<char>, dst: Seq<u8>) -> u8 {
    if destination == "default"@ {
        pointer
    } else {
        let raw = (encode_utf8(destination).len() % 256 + 1) as u8;
        if raw >= dst.len() || dst[raw as int] == addr::ADDR_PARTS_SEPARATOR {
            0xFF
        } else {
            raw
        }
    }
}

/// The header of a packet on its next link.
pub open spec fn forwarded_header(h: NhipHeader, new_label: u64, pointer: u8) -> NhipHeader {
    NhipHeader { link_label: new_label, pointer, ttl: (h.ttl - 1) as u8, ..h }
}

/// The frame that goes to the next hop.
pub open spec fn forwarded_frame(
    h: NhipHeader,
    d: DynamicView,
    destination: Seq<char>,
    local_mac: Seq<u8>,
    next_mac: Seq<u8>,
) -> Seq<u8> {
    cfg::eth_header(local_mac, next_mac, NHIP_ETHERTYPE) + header::header_bytes(
        forwarded_header(
            h,
            label::link_hash(local_mac, next_mac, d.dst_netpart),
            next_pointer_of(h.pointer, destination, d.dst_netpart),
        ),
    ) + dynamic_bytes(d)
}

/// What is done to forward a packet: an entry for the FastPath table, and a frame to send.
pub struct Forwarded {
    pub current_label: u64,
    pub entry: ForwardEntry,
    pub frame: Vec<u8>,
}

/// The label of a packet: the bytes of the header field, most significant first.
pub open spec fn wire_label(h: NhipHeader) -> nat {
    bytes::be_value(bytes::native_bytes(h.link_label as nat, 8))
}

/// Reads the label of a packet.
pub fn current_label(hdr: &NhipHeader) -> (res: u64)
    ensures
        res == wire_label(*hdr),
{
    proof {
        bytes::lemma_bytes_len(hdr.link_label as nat, 8);
    }
    bytes::u64_from_be(bytes::bytes_of_u64(&hdr.link_label))
}

/// The FastPath entry for `ifindex` and `dmac`.
pub fn fastpath_entry(next_label: u64, ifindex: u32, dmac: [u8; 6]) -> (res: ForwardEntry)
    ensures
        res == (ForwardEntry { next_label, ifindex, dmac, _pad: res._pad }),
        res._pad@ == seq![0u8, 2u8],
{
    let res = ForwardEntry { next_label, ifindex, dmac, _pad: [0, 2] };
    assert(res._pad@ =~= seq![0u8, 2u8]);
    res
}

/// Whether `f` forwards the packet `h`, `d` that took the route to `destination` over the link
/// from `local_mac`, on the interface `ifindex`, to `next_mac`.
pub open spec fn is_forwarded(
    f: Forwarded,
    h: NhipHeader,
    d: DynamicView,
    destination: Seq<char>,
    ifindex: u32,
    local_mac: Seq<u8>,
    next_mac: Seq<u8>,
) -> bool {
    &&& f.current_label == wire_label(h)
    &&& f.entry.next_label == label::link_hash(local_mac, next_mac, d.dst_netpart)
    &&& f.entry.ifindex == ifindex
    &&& f.entry.dmac@ == next_mac
    &&& f.entry._pad@ == seq![0u8, 2u8]
    &&& f.frame@ == forwarded_frame(h, d, destination, local_mac, next_mac)
}

/// Whether a packet that took the route to `destination` can go on: its hop limit is not used
/// up, a link label can be made of its destination, and the pointer can say how much of it has
/// been walked.
pub open spec fn forwardable(h: NhipHeader, d: DynamicView, destination: Seq<char>) -> bool {
    &&& h.ttl > 0
    &&& d.dst_netpart.len() <= label::MAX_HASHED_ADDR
    &&& destination != "default"@ ==> encode_utf8(destination).len() % 256 != 255
}

/// Whether a packet that took the route to `destination` can go on.
pub fn can_forward(hdr: &NhipHeader, dynamic: &NhipDynamic, destination: &str) -> (res: bool)
    ensures
        res == forwardable(*hdr, dynamic@, destination@),
{
    hdr.ttl > 0 && dynamic.dst_netpart.len() <= label::MAX_HASHED_ADDR && (text::str_eq(
        destination,
        "default",
    ) || destination.as_bytes().len() % 256 != 255)
}

/// Forwards a packet over the link to its next hop.
///
/// * `hdr`, `dynamic` - the packet
/// * `destination` - the destination of the route
/// * `out_ifindex`, `local_mac` - the outgoing interface
/// * `next_mac` - the hardware address of the next hop
pub fn forward_packet(
    hdr: &NhipHeader,
    dynamic: &NhipDynamic,
    destination: &str,
    out_ifindex: u32,
    local_mac: [u8; 6],
    next_mac: [u8; 6],
) -> (res: Forwarded)
    requires
        forwardable(*hdr, dynamic@, destination@),
    ensures
        is_forwarded(
            res,
            *hdr,
            dynamic@,
            destination@,
            out_ifindex,
            local_mac@,
            next_mac@,
        ),
{
    let dst = dynamic.dst_netpart;
    let new_label: u64 = label::get_link_hash(&local_mac, &next_mac, dst);
    let new_pointer: u8 = if text::str_eq(destination, "default") {
        hdr.pointer
    } else {
        let raw: u8 = (destination.as_bytes().len() % 256) as u8 + 1;
        if raw as usize >= dst.len() || dst[raw as usize] == addr::ADDR_PARTS_SEPARATOR {
            0xFF
        } else {
            raw
        }
    };
    let mut new_hdr = *hdr;
    new_hdr.link_label = new_label;
    new_hdr.pointer = new_pointer;
    new_hdr.ttl = hdr.ttl - 1;
    let eth = build_eth_header(local_mac, next_mac, NHIP_ETHERTYPE);
    let mut frame: Vec<u8> = Vec::new();
    bytes::append(&mut frame, eth.as_slice());
    let hdr_bytes = new_hdr.to_bytes();
    bytes::append(&mut frame, hdr_bytes.as_slice());
    append_dynamic(&mut frame, dynamic);
    assert(frame@ =~= forwarded_frame(*hdr, dynamic@, destination@, local_mac@, next_mac@));
    Forwarded {
        current_label: current_label(hdr),
        entry: fastpath_entry(new_label, out_ifindex, next_mac),
        frame,
    }
}

/// How the forwarding of a packet ends.
pub enum ForwardAction {
    /// The next hop has no valid NodeID: the packet is refused.
    Refuse,
    /// The hardware address of this node is unknown: it is asked for in the name of the NodeID
    /// that this host has in the network `net`, and the packet dropped.
    Ask { node_id: u32, net: String },
    /// The packet goes on.
    Send(Forwarded),
    /// The packet would go on and cannot: its hop limit is used up, or an address is too long.
    Overrun,
}

/// Whether `action` sends the packet to `next_mac`, if it can go on.
pub open spec fn is_sent(
    action: ForwardAction,
    h: NhipHeader,
    d: DynamicView,
    destination: Seq<char>,
    ifindex: u32,
    local_mac: Seq<u8>,
    next_mac: Seq<u8>,
) -> bool {
    if forwardable(h, d, destination) {
        action is Send && is_forwarded(
            action->Send_0,
            h,
            d,
            destination,
            ifindex,
            local_mac,
            next_mac,
        )
    } else {
        action is Overrun
    }
}

/// Whether the forwarding of a packet over `route` ends in `action`, where `src_net` is the network
/// part of its source and `cached` what the NHARP cache has for the next hop. An unknown next hop
/// is asked for in the network of the source.
pub open spec fn is_outcome(
    action: ForwardAction,
    h: NhipHeader,
    d: DynamicView,
    route: RouteView,
    src_net: Seq<char>,
    cached: Option<[u8; 6]>,
    ifindex: u32,
    local_mac: Seq<u8>,
) -> bool {
    match hop_of(route.next_hop, d.dst_node_id) {
        NextHop::Invalid => action is Refuse,
        NextHop::Everyone => is_sent(
            action,
            h,
            d,
            route.destination,
            ifindex,
            local_mac,
            Seq::new(6, |i: int| 0xFFu8),
        ),
        NextHop::Node(id) => match cached {
            None => action is Ask && action->node_id == id && action->net@ == src_net,
            Some(mac) => is_sent(action, h, d, route.destination, ifindex, local_mac, mac@),
        },
    }
}

/// Ends the forwarding of a packet over `route`, where `src_net` is the network part of its source
/// and `cached` what the NHARP cache has for the next hop.
pub fn finish_slowpath(
    hdr: &NhipHeader,
    dynamic: &NhipDynamic,
    route: &RouteEntry,
    src_net: &str,
    cached: Option<[u8; 6]>,
    out_ifindex: u32,
    local_mac: [u8; 6],
) -> (res: ForwardAction)
    ensures
        is_outcome(res, *hdr, dynamic@, route@, src_net@, cached, out_ifindex, local_mac@),
{
    let next_mac: [u8; 6] = match find_next_hop(route, dynamic.dst_node_id) {
        NextHop::Invalid => {
            return ForwardAction::Refuse;
        },
        NextHop::Everyone => {
            let all: [u8; 6] = [0xFF; 6];
            assert(all@ =~= Seq::new(6, |i: int| 0xFFu8));
            all
        },
        NextHop::Node(id) => match cached {
            None => {
                return ForwardAction::Ask { node_id: id, net: src_net.to_owned() };
            },
            Some(mac) => mac,
        },
    };
    if !can_forward(hdr, dynamic, route.destination.as_str()) {
        return ForwardAction::Overrun;
    }
    ForwardAction::Send(
        forward_packet(
            hdr,
            dynamic,
            route.destination.as_str(),
            out_ifindex,
            local_mac,
            next_mac,
        ),
    )
}

/// Which routes come into question for a packet. For the pointer 0, which is the start of the
/// network part, these are the default routes and the routes to the first blocks of `dst`. For a
/// pointer behind a period they are the default routes and the routes to what stands in front of
/// that period, the period and the first blocks behind it. For a pointer behind the network part,
/// and for the pointer 0 where that is not UTF-8, they are the default routes.
pub proof fn law_routes_by_pointer(
    routes: Seq<RouteView>,
    dst: Seq<u8>,
    pointer: u8,
    r: RouteView,
)
    requires
        !is_refused(dst, pointer),
    ensures
        pointer == 0 && valid_utf8(dst) ==> (routes_for(routes, dst, pointer).contains(r) <==> {
            let blocks = text::split_on(decode_utf8(dst), '.');
            &&& routes.contains(r)
            &&& r.destination == "default"@ || exists|k: int|
                1 <= k <= blocks.len() && r.destination == #[trigger] text::joined(
                    blocks.take(k),
                    seq!['.'],
                )
        }),
        0 < pointer < dst.len() && dst[pointer - 1] == addr::BLOCK_SEPARATOR ==> (routes_for(
            routes,
            dst,
            pointer,
        ).contains(r) <==> {
            let front = decode_utf8(dst.take(pointer - 1));
            let blocks = text::split_on(decode_utf8(dst.skip(pointer as int)), '.');
            &&& routes.contains(r)
            &&& r.destination == "default"@ || exists|k: int|
                1 <= k <= blocks.len() && r.destination == front.push('.') + (
                #[trigger] text::joined(blocks.take(k), seq!['.']))
        }),
        (0 < pointer && pointer >= dst.len()) || (pointer == 0 && !valid_utf8(dst)) ==> (routes_for(
            routes,
            dst,
            pointer,
        ).contains(r) <==> {
            &&& routes.contains(r)
            &&& r.destination == "default"@
        }),
{
    if pointer == 0 {
        assert(before_pointer(dst, pointer) =~= Seq::<u8>::empty());
        assert(after_pointer(dst, pointer) =~= dst);
    }
    if points_inside(dst, pointer) && is_text(dst, pointer) {
        let before = decode_utf8(before_pointer(dst, pointer));
        let after = decode_utf8(after_pointer(dst, pointer));
        let blocks = text::split_on(after, '.');
        law_candidate_routes(routes, before, after, r);
        if pointer == 0 {
            assert(before =~= Seq::<char>::empty());
        } else if dst[pointer - 1] == addr::BLOCK_SEPARATOR {
            text::lemma_decode_period(dst.take(pointer as int));
            assert(dst.take(pointer as int).drop_last() =~= dst.take(pointer - 1));
        }
        if pointer == 0 || dst[pointer - 1] == addr::BLOCK_SEPARATOR {
            assert(lead(before) == before);
            assert forall|k: int| 1 <= k <= blocks.len() implies walked(before, blocks, k as nat)
                == before + #[trigger] text::joined(blocks.take(k), seq!['.']) by {}
            assert forall|k: nat| 1 <= k <= blocks.len() implies #[trigger] walked(
                before,
                blocks,
                k,
            ) == before + text::joined(blocks.take(k as int), seq!['.']) by {}
            if pointer == 0 {
                assert forall|k: int| #![trigger text::joined(blocks.take(k), seq!['.'])]
                    before + text::joined(blocks.take(k), seq!['.']) == text::joined(
                    blocks.take(k),
                    seq!['.'],
                ) by {
                    assert(before + text::joined(blocks.take(k), seq!['.']) =~= text::joined(
                        blocks.take(k),
                        seq!['.'],
                    ));
                }
            }
        }
    } else {
        lemma_matching(routes, "default"@, r);
    }
}

/// A packet with a valid pointer leaves with a valid pointer: the new one stands behind the
/// period that follows the destination of the route, or says that the NodeID comes next.
pub proof fn law_new_pointer_is_valid(
    pointer: u8,
    dst: Seq<u8>,
    routes: Seq<RouteView>,
    config: Seq<AddressView>,
    ifaces: Seq<Seq<char>>,
)
    requires
        addr::pointer_ok(dst, pointer),
        dst.len() <= addr::MAX_ADDR_LEN,
        !is_refused(dst, pointer),
    ensures
        packet_route(pointer, dst, routes, config, ifaces) matches Some(r) ==> addr::pointer_ok(
            dst,
            next_pointer_of(pointer, r.destination, dst),
        ),
{
    lemma_new_pointer(routes, dst, pointer);
    law_connected_route(config, ifaces, dst, 0);
}

proof fn lemma_new_pointer(routes: Seq<RouteView>, dst: Seq<u8>, pointer: u8)
    requires
        addr::pointer_ok(dst, pointer),
        dst.len() <= addr::MAX_ADDR_LEN,
        !is_refused(dst, pointer),
    ensures
        route_for(routes, dst, pointer) matches Some(r) ==> addr::pointer_ok(
            dst,
            next_pointer_of(pointer, r.destination, dst),
        ),
{
    let c = routes_for(routes, dst, pointer);
    if c.len() > 0 {
        lemma_best_pos(c);
        let r = c[best_pos(c)];
        assert(c.contains(r));
        law_routes_by_pointer(routes, dst, pointer, r);
        if r.destination != "default"@ {
            assert(points_inside(dst, pointer) && is_text(dst, pointer)) by {
                if !(points_inside(dst, pointer) && is_text(dst, pointer)) {
                    lemma_matching(routes, "default"@, r);
                }
            }
            let p = pointer as int;
            let before = before_pointer(dst, pointer);
            let after = after_pointer(dst, pointer);
            let text = decode_utf8(after);
            let blocks = text::split_on(text, '.');
            decode_utf8_encode_utf8(before);
            decode_utf8_encode_utf8(after);
            assert(points_inside(dst, pointer));
            assert(dst =~= before + after);
            if p > 0 {
                text::lemma_decode_period(before);
                assert(before.drop_last() =~= dst.take(p - 1));
                let front = decode_utf8(dst.take(p - 1));
                let k = choose|k: int|
                    1 <= k <= blocks.len() && r.destination == front.push('.') + (
                    #[trigger] text::joined(blocks.take(k), seq!['.']));
                lemma_walk_stops(before, after, dst, k, r.destination);
            } else {
                assert(after =~= dst);
                assert(decode_utf8(before) =~= Seq::<char>::empty());
                let k = choose|k: int|
                    1 <= k <= blocks.len() && r.destination == #[trigger] text::joined(
                        blocks.take(k),
                        seq!['.'],
                    );
                assert(r.destination =~= decode_utf8(before) + text::joined(
                    blocks.take(k),
                    seq!['.'],
                ));
                lemma_walk_stops(before, after, dst, k, r.destination);
            }
        }
    }
}

/// The destination along the first `k` blocks ends with `dst` or in front of a period.
proof fn lemma_walk_stops(
    before: Seq<u8>,
    after: Seq<u8>,
    dst: Seq<u8>,
    k: int,
    destination: Seq<char>,
)
    requires
        dst == before + after,
        valid_utf8(before),
        valid_utf8(after),
        1 <= k <= text::split_on(decode_utf8(after), '.').len(),
        destination == decode_utf8(before) + text::joined(
            text::split_on(decode_utf8(after), '.').take(k),
            seq!['.'],
        ),
    ensures
        encode_utf8(destination).len() <= dst.len(),
        encode_utf8(destination).len() < dst.len() ==> dst[encode_utf8(destination).len() as int]
            == addr::BLOCK_SEPARATOR,
{
    let text = decode_utf8(after);
    let j = text::joined(text::split_on(text, '.').take(k), seq!['.']);
    let rest = text.skip(j.len() as int);
    text::lemma_first_pieces(text, '.', k);
    decode_utf8_encode_utf8(before);
    decode_utf8_encode_utf8(after);
    text::lemma_encode_concat(decode_utf8(before), j);
    assert(text =~= j + rest);
    text::lemma_encode_concat(j, rest);
    let n = encode_utf8(destination).len() as int;
    assert(n == before.len() + encode_utf8(j).len());
    if n < dst.len() {
        assert(encode_utf8(rest).len() > 0);
        assert(rest.len() > 0);
        assert(rest[0] == '.');
        assert(rest =~= seq!['.'] + rest.drop_first());
        text::lemma_encode_concat(seq!['.'], rest.drop_first());
        text::lemma_encode_period();
        assert(dst[n] == encode_utf8(rest)[0]);
    }
}

/// Forwarding changes the label, the pointer and the hop limit of a packet and nothing else:
/// the next hop reads the same addresses and the same payload.
pub proof fn law_forwarding_keeps_packet(
    h: NhipHeader,
    rest: Seq<u8>,
    destination: Seq<char>,
    local_mac: Seq<u8>,
    next_mac: Seq<u8>,
)
    requires
        local_mac.len() == 6,
        next_mac.len() == 6,
        rest.len() >= dynamic_len(h.dst_addr_len as nat, h.src_addr_len as nat),
        h.ttl > 0,
    ensures
        ({
            let d = dynamic_of(h.dst_addr_len as nat, h.src_addr_len as nat, rest);
            let frame = forwarded_frame(h, d, destination, local_mac, next_mac);
            let got = header::header_of(frame.subrange(14, 14 + NHIP_HEADER_LEN));
            &&& frame.len() == 14 + NHIP_HEADER_LEN + rest.len()
            &&& frame.skip(14 + NHIP_HEADER_LEN) == rest
            &&& got.ttl == h.ttl - 1
            &&& got == (NhipHeader {
                link_label: got.link_label,
                pointer: got.pointer,
                ttl: got.ttl,
                ..h
            })
            &&& got.link_label == label::link_hash(local_mac, next_mac, d.dst_netpart)
        }),
{
    let d = dynamic_of(h.dst_addr_len as nat, h.src_addr_len as nat, rest);
    let frame = forwarded_frame(h, d, destination, local_mac, next_mac);
    let new_hdr = forwarded_header(
        h,
        label::link_hash(local_mac, next_mac, d.dst_netpart),
        next_pointer_of(h.pointer, destination, d.dst_netpart),
    );
    law_dynamic_bytes_round_trip(h.dst_addr_len as nat, h.src_addr_len as nat, rest);
    header::law_header_round_trip(new_hdr);
    bytes::lemma_bytes_len(NHIP_ETHERTYPE as nat, 2);
    assert(frame.subrange(14, 14 + NHIP_HEADER_LEN) =~= header::header_bytes(new_hdr));
    assert(frame.skip(14 + NHIP_HEADER_LEN) =~= rest);
}

/// The routes to the networks that the addresses `addrs` of the interface `dev` are in: the text
/// in front of the first colon of each address, unless it is empty.
pub open spec fn connected_at(addrs: Seq<Seq<char>>, dev: Seq<char>) -> Seq<RouteView>
    decreases addrs.len(),
{
    if addrs.len() == 0 {
        Seq::empty()
    } else {
        let before = connected_at(addrs.drop_last(), dev);
        let net = text::before_first(addrs.last(), ':');
        if net.len() == 0 {
            before
        } else {
            before.push(cfg::static_route(net, "local:0"@, dev, 0))
        }
    }
}

/// The routes to the networks that this host is in, over the interfaces `ifaces`.
pub open spec fn connected(config: Seq<AddressView>, ifaces: Seq<Seq<char>>) -> Seq<RouteView>
    decreases config.len(),
{
    if config.len() == 0 {
        Seq::empty()
    } else {
        let before = connected(config.drop_last(), ifaces);
        let e = config.last();
        if ifaces.contains(e.ifname) {
            before + connected_at(e.addresses, e.ifname)
        } else {
            before
        }
    }
}

/// `routes` with each of the routes `more` that is not there already.
pub open spec fn with_routes(routes: Seq<RouteView>, more: Seq<RouteView>) -> Seq<RouteView>
    decreases more.len(),
{
    if more.len() == 0 {
        routes
    } else {
        cfg::with_route(with_routes(routes, more.drop_last()), more.last())
    }
}

proof fn lemma_with_routes_concat(routes: Seq<RouteView>, a: Seq<RouteView>, b: Seq<RouteView>)
    ensures
        with_routes(routes, a + b) == with_routes(with_routes(routes, a), b),
    decreases b.len(),
{
    if b.len() == 0 {
        assert(a + b =~= a);
    } else {
        lemma_with_routes_concat(routes, a, b.drop_last());
        assert((a + b).drop_last() =~= a + b.drop_last());
    }
}

/// Adds the routes to the networks that this host is in.
pub fn check_connected(
    addr_cfg: &[AddressEntry],
    ifaces: &Vec<String>,
    routes: &mut Vec<RouteEntry>,
)
    ensures
        cfg::route_table(final(routes)@) == with_routes(
            cfg::route_table(old(routes)@),
            connected(cfg::address_table(addr_cfg@), text::views(ifaces@)),
        ),
{
    let ghost table = cfg::address_table(addr_cfg@);
    let ghost names = text::views(ifaces@);
    let ghost start = cfg::route_table(routes@);
    for i in 0..addr_cfg.len()
        invariant
            table == cfg::address_table(addr_cfg@),
            names == text::views(ifaces@),
            cfg::route_table(routes@) == with_routes(start, connected(table.take(i as int), names)),
    {
        let entry = &addr_cfg[i];
        assert(table.take(i + 1).drop_last() =~= table.take(i as int));
        assert(table.take(i + 1).last() == entry@);
        if text::contains_text(ifaces, entry.ifname.as_str()) {
            let ghost before = cfg::route_table(routes@);
            let ghost all = text::views(entry.addresses@);
            for j in 0..entry.addresses.len()
                invariant
                    all == text::views(entry.addresses@),
                    cfg::route_table(routes@) == with_routes(
                        before,
                        connected_at(all.take(j as int), entry.ifname@),
                    ),
            {
                assert(all.take(j + 1).drop_last() =~= all.take(j as int));
                assert(all.take(j + 1).last() == entry.addresses@[j as int]@);
                let net = text::head(entry.addresses[j].as_str(), ':');
                if !net.as_str().is_empty() {
                    let ghost so_far = connected_at(all.take(j as int), entry.ifname@);
                    let ghost r = cfg::static_route(net@, "local:0"@, entry.ifname@, 0);
                    insert_route(routes, net.as_str(), "local:0", entry.ifname.as_str(), 0);
                    assert(so_far.push(r).drop_last() =~= so_far);
                }
            }
            assert(all.take(all.len() as int) =~= all);
            proof {
                lemma_with_routes_concat(
                    start,
                    connected(table.take(i as int), names),
                    connected_at(all, entry.ifname@),
                );
            }
        }
    }
    assert(table.take(table.len() as int) =~= table);
}

/// Checking the connected networks adds each route once, keeps every other route, and changes
/// nothing when it is done again.
pub proof fn law_connected_routes(routes: Seq<RouteView>, more: Seq<RouteView>, r: RouteView)
    ensures
        with_routes(routes, more).contains(r) <==> routes.contains(r) || more.contains(r),
        with_routes(with_routes(routes, more), more) == with_routes(routes, more),
    decreases more.len(),
{
    lemma_with_routes_contains(routes, more, r);
    let after = with_routes(routes, more);
    assert forall|i: int| 0 <= i < more.len() implies after.contains(#[trigger] more[i]) by {
        lemma_with_routes_contains(routes, more, more[i]);
        assert(more.contains(more[i]));
    }
    lemma_with_routes_known(after, more);
}

proof fn lemma_with_routes_contains(routes: Seq<RouteView>, more: Seq<RouteView>, r: RouteView)
    ensures
        with_routes(routes, more).contains(r) <==> routes.contains(r) || more.contains(r),
    decreases more.len(),
{
    if more.len() > 0 {
        let init = more.drop_last();
        lemma_with_routes_contains(routes, init, r);
        cfg::law_add_route(with_routes(routes, init), more.last(), r);
        assert(more =~= init.push(more.last()));
        text::lemma_push_contains(init, more.last(), r);
    }
}

proof fn lemma_with_routes_known(routes: Seq<RouteView>, more: Seq<RouteView>)
    requires
        forall|i: int| 0 <= i < more.len() ==> routes.contains(#[trigger] more[i]),
    ensures
        with_routes(routes, more) == routes,
    decreases more.len(),
{
    if more.len() > 0 {
        let init = more.drop_last();
        assert forall|i: int| 0 <= i < init.len() implies routes.contains(#[trigger] init[i]) by {
            assert(init[i] == more[i]);
        }
        assert(routes.contains(more[more.len() - 1]));
        lemma_with_routes_known(routes, init);
    }
}

/// The first of the routes `routes` whose destination has the bytes `dst`.
pub open spec fn first_to(routes: Seq<RouteView>, dst: Seq<u8>) -> Option<RouteView>
    decreases routes.len(),
{
    if routes.len() == 0 {
        None
    } else if encode_utf8(routes[0].destination) == dst {
        Some(routes[0])
    } else {
        first_to(routes.drop_first(), dst)
    }
}

/// The route for a packet to `dst` where that is a network that this host is in: over the
/// interface in that network, to the destination itself.
pub open spec fn connected_route(
    config: Seq<AddressView>,
    ifaces: Seq<Seq<char>>,
    dst: Seq<u8>,
) -> Option<RouteView> {
    match first_to(with_routes(Seq::empty(), connected(config, ifaces)), dst) {
        Some(r) => Some(RouteView { next_hop: "local:1"@, ..r }),
        None => None,
    }
}

/// Finds a route for a packet that the routing table has none for: its destination may be a
/// network that this host is in.
pub fn deliver_connected(addr_cfg: &[AddressEntry], ifaces: &Vec<String>, dst_netpart: &[u8]) -> (res:
    Option<RouteEntry>)
    ensures
        ({
            let route = connected_route(
                cfg::address_table(addr_cfg@),
                text::views(ifaces@),
                dst_netpart@,
            );
            match res {
                Some(r) => route == Some(r@),
                None => route is None,
            }
        }),
{
    let mut routes: Vec<RouteEntry> = Vec::new();
    assert(cfg::route_table(routes@) =~= Seq::<RouteView>::empty());
    check_connected(addr_cfg, ifaces, &mut routes);
    let ghost table = cfg::route_table(routes@);
    assert(table.skip(0) =~= table);
    for i in 0..routes.len()
        invariant
            table == cfg::route_table(routes@),
            table == with_routes(
                Seq::empty(),
                connected(cfg::address_table(addr_cfg@), text::views(ifaces@)),
            ),
            first_to(table, dst_netpart@) == first_to(table.skip(i as int), dst_netpart@),
    {
        let r = &routes[i];
        assert(table.skip(i as int).drop_first() =~= table.skip(i + 1));
        assert(table.skip(i as int)[0] == r@);
        if bytes::bytes_eq(r.destination.as_str().as_bytes(), dst_netpart) {
            return Some(
                RouteEntry {
                    destination: r.destination.clone(),
                    next_hop: "local:1".to_owned(),
                    dev: r.dev.clone(),
                    proto: r.proto,
                    priority: r.priority,
                },
            );
        }
    }
    None
}

/// The route for a packet: the one that the routing table gives, else the connected one.
pub open spec fn packet_route(
    pointer: u8,
    dst: Seq<u8>,
    routes: Seq<RouteView>,
    config: Seq<AddressView>,
    ifaces: Seq<Seq<char>>,
) -> Option<RouteView> {
    match route_for(routes, dst, pointer) {
        Some(r) => Some(r),
        None => connected_route(config, ifaces, dst),
    }
}

/// The way that a packet takes.
pub enum PacketRoute {
    /// The network part of the destination is not UTF-8 on both sides of the pointer: the
    /// packet is refused.
    BadDestination,
    /// No route leads to the destination, and it is no network that this host is in: the packet
    /// is dropped.
    NoRoute,
    Via(RouteEntry),
}

/// Finds the route of a packet: by the routing table, and where no route matches by the networks
/// that this host is in.
///
/// * `pointer` - the pointer of the header
/// * `dst` - the network part of the destination
/// * `routes` - the routing table
/// * `addrs`, `ifaces` - the addresses of this host, and the interfaces that it uses
pub fn route_packet(
    pointer: u8,
    dst: &[u8],
    routes: &Vec<RouteEntry>,
    addrs: &[AddressEntry],
    ifaces: &Vec<String>,
) -> (res: PacketRoute)
    ensures
        ({
            let route = packet_route(
                pointer,
                dst@,
                cfg::route_table(routes@),
                cfg::address_table(addrs@),
                text::views(ifaces@),
            );
            match res {
                PacketRoute::BadDestination => is_refused(dst@, pointer),
                PacketRoute::NoRoute => !is_refused(dst@, pointer) && route is None,
                PacketRoute::Via(r) => !is_refused(dst@, pointer) && route == Some(r@),
            }
        }),
{
    match choose_route(pointer, dst, routes) {
        RouteChoice::BadDestination => PacketRoute::BadDestination,
        RouteChoice::Via(r) => PacketRoute::Via(cfg::copy_route(r)),
        RouteChoice::NoRoute => match deliver_connected(addrs, ifaces, dst) {
            Some(r) => PacketRoute::Via(r),
            None => PacketRoute::NoRoute,
        },
    }
}

proof fn lemma_first_to(routes: Seq<RouteView>, dst: Seq<u8>)
    ensures
        match first_to(routes, dst) {
            Some(r) => routes.contains(r) && encode_utf8(r.destination) == dst,
            None => forall|r: RouteView|
                routes.contains(r) ==> encode_utf8(#[trigger] r.destination) != dst,
        },
    decreases routes.len(),
{
    if routes.len() > 0 {
        let rest = routes.drop_first();
        lemma_first_to(rest, dst);
        assert(routes.contains(routes[0]));
        match first_to(rest, dst) {
            Some(r) => {
                let i = choose|i: int| 0 <= i < rest.len() && rest[i] == r;
                assert(routes[i + 1] == r);
            },
            None => {},
        }
        assert forall|r: RouteView| routes.contains(r) && r != routes[0] implies rest.contains(r) by {
            let i = choose|i: int| 0 <= i < routes.len() && routes[i] == r;
            assert(rest[i - 1] == r);
        }
    }
}

/// A packet has a connected route exactly if its destination is the network part of an address
/// on one of the interfaces. That route leads over such an interface, and its next hop is the
/// destination itself.
pub proof fn law_connected_route(
    config: Seq<AddressView>,
    ifaces: Seq<Seq<char>>,
    dst: Seq<u8>,
    dst_node_id: u32,
)
    ensures
        connected_route(config, ifaces, dst) is Some <==> exists|r: RouteView|
            connected(config, ifaces).contains(r) && encode_utf8(#[trigger] r.destination) == dst,
        connected_route(config, ifaces, dst) matches Some(r) ==> {
            &&& connected(config, ifaces).contains(RouteView { next_hop: "local:0"@, ..r })
            &&& encode_utf8(r.destination) == dst
            &&& hop_of(r.next_hop, dst_node_id) == if dst_node_id == addr::BROADCAST_NODE_ID {
                NextHop::Everyone
            } else {
                NextHop::Node(dst_node_id)
            }
        },
{
    let all = connected(config, ifaces);
    let once = with_routes(Seq::empty(), all);
    lemma_first_to(once, dst);
    assert forall|r: RouteView| once.contains(r) <==> all.contains(r) by {
        lemma_with_routes_contains(Seq::empty(), all, r);
    }
    match first_to(once, dst) {
        Some(r) => {
            lemma_connected_hops(config, ifaces, r);
            assert(all.contains(r));
        },
        None => {},
    }
}

proof fn lemma_connected_hops(config: Seq<AddressView>, ifaces: Seq<Seq<char>>, r: RouteView)
    ensures
        connected(config, ifaces).contains(r) ==> r.next_hop == "local:0"@,
    decreases config.len(),
{
    if config.len() > 0 {
        let e = config.last();
        let before = connected(config.drop_last(), ifaces);
        lemma_connected_hops(config.drop_last(), ifaces, r);
        lemma_connected_at_hops(e.addresses, e.ifname, r);
        text::lemma_concat_contains(before, connected_at(e.addresses, e.ifname), r);
    }
}

proof fn lemma_connected_at_hops(addrs: Seq<Seq<char>>, dev: Seq<char>, r: RouteView)
    ensures
        connected_at(addrs, dev).contains(r) ==> r.next_hop == "local:0"@,
    decreases addrs.len(),
{
    if addrs.len() > 0 {
        let net = text::before_first(addrs.last(), ':');
        lemma_connected_at_hops(addrs.drop_last(), dev, r);
        text::lemma_push_contains(
            connected_at(addrs.drop_last(), dev),
            cfg::static_route(net, "local:0"@, dev, 0),
            r,
        );
    }
}

} // verus!
