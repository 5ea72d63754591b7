use nhip::addr::validate_pointer;
use nhip::cfg::{build_eth_header, AddressEntry, RouteEntry, RoutingProto};
use nhip::forward::{
    begin_slowpath, choose_route, current_label, fastpath_entry, filter_candidates, find_next_hop,
    finish_slowpath, parse_dynamic, pointed_part, route_packet, select_route, ForwardAction, Forwarded, NextHop, NhipDynamic,
    PacketRoute, RouteChoice, Slowpath,
};
use nhip::header::{NhipHeader, NHIP_ETHERTYPE};
use nhip::label::get_link_hash;

fn route(destination: &str, next_hop: &str, proto: RoutingProto, priority: u8) -> RouteEntry {
    RouteEntry {
        destination: destination.to_string(),
        next_hop: next_hop.to_string(),
        dev: "eth0".to_string(),
        proto,
        priority,
    }
}

fn header(dst: &[u8], src: &[u8]) -> NhipHeader {
    let mut h = NhipHeader::new();
    h.dst_addr_len = dst.len() as u16;
    h.src_addr_len = src.len() as u16;
    h
}

fn body(dst: &[u8], dst_id: u32, src: &[u8], src_id: u32, payload: &[u8]) -> Vec<u8> {
    let mut v = dst.to_vec();
    v.extend_from_slice(&dst_id.to_le_bytes());
    v.extend_from_slice(src);
    v.extend_from_slice(&src_id.to_le_bytes());
    v.extend_from_slice(payload);
    v
}

fn sent(action: ForwardAction) -> Forwarded {
    match action {
        ForwardAction::Send(f) => f,
        _ => panic!("not sent"),
    }
}

#[test]
fn dynamic_part() {
    let rest = body(b"ru.msk", 0x01020304, b"ru", 7, b"hello");
    let (d, pointed) = parse_dynamic(&header(b"ru.msk", b"ru"), &rest);
    assert_eq!(pointed, b"ru.msk");
    assert_eq!(d.dst_netpart, b"ru.msk");
    assert_eq!(d.dst_node_id, 0x01020304);
    assert_eq!(d.src_netpart, b"ru");
    assert_eq!(d.src_node_id, 7);
    assert_eq!(d.payload, b"hello");
}

#[test]
fn pointed_destination() {
    let rest = body(b"ru.msk", 1, b"ru", 7, b"hello");
    let pointed = |pointer: u8| {
        let mut h = header(b"ru.msk", b"ru");
        h.pointer = pointer;
        parse_dynamic(&h, &rest).1.to_vec()
    };
    assert_eq!(pointed(0), b"ru.msk");
    assert_eq!(pointed(3), b"msk");
    assert_eq!(pointed(5), b"k");
    assert_eq!(pointed(6), b"");
    assert_eq!(pointed(0xFF), b"");
    assert_eq!(pointed_part(b"a.b", 2), b"b");
}

#[test]
fn slowpath_start() {
    let h = header(b"ab", b"c");
    let rest = body(b"ab", 1, b"c", 2, b"");
    assert!(matches!(begin_slowpath(&h, &rest[..10]), Slowpath::TooShort));
    match begin_slowpath(&h, &rest) {
        Slowpath::Parsed(d, src) => {
            assert_eq!(src, "c");
            assert_eq!(d.payload, b"");
        }
        _ => panic!("not parsed"),
    }
    let bad = body(b"ab", 1, b"\xff", 2, b"");
    assert!(matches!(begin_slowpath(&h, &bad), Slowpath::BadSource));
}

#[test]
fn best_candidate() {
    let ospf = route("a", "h1", RoutingProto::Ospf, 0);
    let late = route("a", "h2", RoutingProto::Static, 9);
    let soon = route("a", "h3", RoutingProto::Static, 3);
    let long = route("abc", "h4", RoutingProto::Static, 3);
    let twin = route("xyz", "h5", RoutingProto::Static, 3);
    let pick = |c: Vec<&RouteEntry>| filter_candidates(&c).map(|r| r.next_hop.clone());
    assert_eq!(pick(vec![]), None);
    assert_eq!(pick(vec![&ospf]), Some("h1".to_string()));
    assert_eq!(pick(vec![&ospf, &late]), Some("h2".to_string()));
    assert_eq!(pick(vec![&ospf, &late, &soon]), Some("h3".to_string()));
    assert_eq!(pick(vec![&soon, &late, &long]), Some("h4".to_string()));
    assert_eq!(pick(vec![&long, &twin]), Some("h4".to_string()));
    assert_eq!(pick(vec![&twin, &long]), Some("h5".to_string()));
}

#[test]
fn destination_length_counts_bytes() {
    let wide = route("яя", "h1", RoutingProto::Static, 0);
    let narrow = route("abc", "h2", RoutingProto::Static, 0);
    let best = filter_candidates(&vec![&narrow, &wide]).unwrap();
    assert_eq!(best.next_hop, "h1");
}

#[test]
fn route_selection() {
    let routes = vec![
        route("default", "gw:1", RoutingProto::Static, 5),
        route("ru.msk", "m:2", RoutingProto::Static, 5),
        route("ru.msk.home", "h:3", RoutingProto::Static, 5),
        route("ru.spb", "s:4", RoutingProto::Static, 0),
        route("ru", "r:5", RoutingProto::Static, 9),
    ];
    let pick = |b: &str, a: &str| select_route(&routes, b, a).map(|r| r.next_hop.clone());
    // `default` is longer than `ru.msk`.
    assert_eq!(pick("ru.", "msk"), Some("gw:1".to_string()));
    assert_eq!(pick("ru.", "msk.home.x"), Some("h:3".to_string()));
    assert_eq!(pick("ru", "msk.home.x"), Some("h:3".to_string()));
    assert_eq!(pick("", "ru.msk.home.x"), Some("h:3".to_string()));
    assert_eq!(pick("ru.msk.", "home"), Some("h:3".to_string()));
    assert_eq!(pick("ru.", "spb"), Some("s:4".to_string()));
    assert_eq!(pick("ru.", "nsk"), Some("gw:1".to_string()));
    assert_eq!(pick("", ""), Some("gw:1".to_string()));
    let rest = routes[1..].to_vec();
    assert!(select_route(&rest, "", "").is_none());
    assert!(select_route(&rest, "ru.", "nsk").is_none());
    assert_eq!(select_route(&rest, "", "ru.nsk").unwrap().next_hop, "r:5");
}

#[test]
fn route_of_a_packet() {
    let hop = |pointer: u8, dst: &[u8], routes: &Vec<RouteEntry>| {
        match choose_route(pointer, dst, routes) {
            RouteChoice::Via(r) => Some(r.next_hop.clone()),
            RouteChoice::NoRoute => None,
            RouteChoice::BadDestination => panic!("no text"),
        }
    };
    let first = vec![route("a", "h:1", RoutingProto::Static, 5)];
    assert_eq!(hop(0, b"a.b", &first), Some("h:1".to_string()));
    assert_eq!(hop(2, b"a.b", &first), None);
    let both = vec![route("a.b", "h:2", RoutingProto::Static, 5)];
    assert_eq!(hop(0, b"a.b", &both), Some("h:2".to_string()));
    assert_eq!(hop(2, b"a.b", &both), Some("h:2".to_string()));
    assert_eq!(hop(2, b"a.b.c", &both), Some("h:2".to_string()));
    assert_eq!(hop(4, b"a.b.c", &both), None);
    let doubled = vec![
        route(".a", "h:3", RoutingProto::Static, 5),
        route("a..b", "h:3", RoutingProto::Static, 5),
    ];
    assert_eq!(hop(0, b"a.b", &doubled), None);
    assert_eq!(hop(2, b"a.b", &doubled), None);
}

#[test]
fn pointer_behind_the_network_part() {
    let routes = vec![
        route("a.b", "h:1", RoutingProto::Static, 5),
        route("", "h:2", RoutingProto::Static, 5),
        route(".", "h:3", RoutingProto::Static, 5),
    ];
    assert!(matches!(choose_route(0xFF, b"a.b", &routes), RouteChoice::NoRoute));
    assert!(matches!(choose_route(3, b"a.b", &routes), RouteChoice::NoRoute));
    assert!(matches!(choose_route(0xFF, b"\xff", &routes), RouteChoice::NoRoute));
    let with_default = vec![route("default", "gw:1", RoutingProto::Static, 5)];
    match choose_route(0xFF, b"a.b", &with_default) {
        RouteChoice::Via(r) => assert_eq!(r.next_hop, "gw:1"),
        _ => panic!("no route"),
    }
}

#[test]
fn destinations_that_are_no_text() {
    let routes = vec![route("default", "gw:1", RoutingProto::Static, 5)];
    assert!(matches!(choose_route(1, "я".as_bytes(), &routes), RouteChoice::BadDestination));
    assert!(matches!(choose_route(2, b"a.\xff", &routes), RouteChoice::BadDestination));
    assert!(matches!(choose_route(2, b"\xff.a", &routes), RouteChoice::BadDestination));
}

#[test]
fn no_text_at_pointer_zero_leaves_the_default_routes() {
    let routes = vec![
        route("a", "h:1", RoutingProto::Static, 0),
        route("default", "gw:1", RoutingProto::Static, 5),
        route("default", "gw:2", RoutingProto::Static, 4),
    ];
    match choose_route(0, b"\xff", &routes) {
        RouteChoice::Via(r) => assert_eq!(r.next_hop, "gw:2"),
        _ => panic!("no route"),
    }
    assert!(matches!(choose_route(0, b"\xff", &routes[..1].to_vec()), RouteChoice::NoRoute));
}

#[test]
fn way_of_a_packet() {
    let addrs = vec![AddressEntry {
        ifname: "eth1".to_string(),
        prefix: "none".to_string(),
        addresses: vec!["ru.msk:5".to_string()],
    }];
    let ifaces = vec!["eth1".to_string()];
    let routes = vec![route("ru.spb", "s:4", RoutingProto::Static, 0)];
    let way = |pointer: u8, dst: &[u8], routes: &Vec<RouteEntry>| {
        match route_packet(pointer, dst, routes, &addrs, &ifaces) {
            PacketRoute::Via(r) => Some((r.next_hop, r.dev)),
            PacketRoute::NoRoute => None,
            PacketRoute::BadDestination => panic!("no text"),
        }
    };
    let pair = |a: &str, b: &str| Some((a.to_string(), b.to_string()));
    assert_eq!(way(0, b"ru.spb.x", &routes), pair("s:4", "eth0"));
    assert_eq!(way(0, b"ru.msk", &routes), pair("local:1", "eth1"));
    assert_eq!(way(0xFF, b"ru.msk", &routes), pair("local:1", "eth1"));
    assert_eq!(way(0, b"ru.nsk", &routes), None);
    let table = vec![route("ru", "r:1", RoutingProto::Static, 0)];
    assert_eq!(way(0, b"ru.msk", &table), pair("r:1", "eth0"));
    let refused = route_packet(1, b"\xff.", &routes, &addrs, &ifaces);
    assert!(matches!(refused, PacketRoute::BadDestination));
}

#[test]
fn next_hops() {
    let hop = |s: &str, id: u32| find_next_hop(&route("x", s, RoutingProto::Static, 0), id);
    assert!(matches!(hop("local:1", 7), NextHop::Node(7)));
    assert!(matches!(hop("local:1", 1_000_000_000), NextHop::Everyone));
    assert!(matches!(hop("gw:1k", 7), NextHop::Node(1000)));
    assert!(matches!(hop("gw:1g", 7), NextHop::Node(1_000_000_000)));
    assert!(matches!(hop("local:0", 7), NextHop::Node(0)));
    assert!(matches!(hop("gw", 7), NextHop::Invalid));
    assert!(matches!(hop("gw:z", 7), NextHop::Invalid));
}

#[test]
fn wire_labels() {
    let mut h = NhipHeader::new();
    h.link_label = 0x0102030405060708u64.to_be();
    assert_eq!(current_label(&h), 0x0102030405060708);
}

#[test]
fn fastpath_entries() {
    let e = fastpath_entry(9, 3, [1; 6]);
    assert_eq!((e.next_label, e.ifindex, e.dmac, e._pad), (9, 3, [1; 6], [0, 2]));
}

#[test]
fn forwarding_rewrites_the_header() {
    let local = [2, 0, 0, 0, 0, 1];
    let next = [2, 0, 0, 0, 0, 2];
    let dst: &[u8] = b"ru.msk";
    let mut h = header(dst, b"ru");
    h.link_label = 77u64.to_be();
    let rest = body(dst, 5, b"ru", 6, b"hi");
    let (d, _) = parse_dynamic(&h, &rest);
    let r = route("ru", "gw:1", RoutingProto::Static, 0);
    let f = sent(finish_slowpath(&h, &d, &r, "ru", Some(next), 4, local));
    assert_eq!(f.current_label, 77);
    let label = get_link_hash(&local, &next, dst);
    assert_eq!(label, 0x24307f696d1fb926);
    assert_eq!((f.entry.next_label, f.entry.ifindex, f.entry.dmac), (label, 4, next));
    let mut new_hdr = h;
    new_hdr.link_label = label;
    new_hdr.pointer = 3;
    new_hdr.ttl = 63;
    let mut want = build_eth_header(local, next, NHIP_ETHERTYPE).to_vec();
    want.extend_from_slice(&new_hdr.to_bytes());
    want.extend_from_slice(&rest);
    assert_eq!(f.frame, want);
}

#[test]
fn forwarding_moves_the_pointer() {
    let pointer = |destination: &str, dst: &[u8], old: u8| {
        let mut h = header(dst, b"");
        h.pointer = old;
        let rest = body(dst, 5, b"", 6, b"");
        let (d, _) = parse_dynamic(&h, &rest);
        let r = route(destination, "gw:1", RoutingProto::Static, 0);
        sent(finish_slowpath(&h, &d, &r, "ru", Some([1; 6]), 4, [2; 6])).frame[15]
    };
    assert_eq!(pointer("default", b"ru.msk", 3), 3);
    assert_eq!(pointer("ru", b"ru.msk", 0), 3);
    assert_eq!(pointer("ru.msk", b"ru.msk", 3), 0xFF);
    assert_eq!(pointer("ru", b"ru.:", 0), 0xFF);
}

#[test]
fn forwarding_without_a_hardware_address() {
    let h = header(b"ru", b"");
    let rest = body(b"ru", 1_000_000_000, b"", 6, b"");
    let (d, _) = parse_dynamic(&h, &rest);
    let finish = |hop: &str, d: &NhipDynamic| {
        let r = route("default", hop, RoutingProto::Static, 0);
        finish_slowpath(&h, d, &r, "src.net", None, 4, [2; 6])
    };
    assert!(matches!(finish("gw", &d), ForwardAction::Refuse));
    let asked = |action: ForwardAction| match action {
        ForwardAction::Ask { node_id, net } => (node_id, net),
        _ => panic!("nothing asked"),
    };
    assert_eq!(asked(finish("gw:8", &d)), (8, "src.net".to_string()));
    let f = sent(finish("local:1", &d));
    assert_eq!(f.frame[..6], [0xFF; 6]);
    assert_eq!(f.entry.dmac, [0xFF; 6]);
    let one = NhipDynamic { dst_node_id: 3, ..d };
    assert_eq!(asked(finish("local:1", &one)), (3, "src.net".to_string()));
}

#[test]
fn forwarding_that_overruns() {
    let finish = |h: &NhipHeader, dst: &[u8], destination: &str| {
        let rest = body(dst, 5, b"", 6, b"");
        let (d, _) = parse_dynamic(h, &rest);
        let r = route(destination, "gw:1", RoutingProto::Static, 0);
        finish_slowpath(h, &d, &r, "ru", Some([1; 6]), 4, [2; 6])
    };
    let mut h = header(b"ru", b"");
    assert!(matches!(finish(&h, b"ru", "ru"), ForwardAction::Send(_)));
    assert!(matches!(finish(&h, b"ru", &"a".repeat(255)), ForwardAction::Overrun));
    assert!(matches!(finish(&h, b"ru", &"a".repeat(256)), ForwardAction::Send(_)));
    h.ttl = 0;
    assert!(matches!(finish(&h, b"ru", "ru"), ForwardAction::Overrun));
    let long = vec![b'a'; 153];
    assert!(matches!(finish(&header(&long, b""), &long, "ru"), ForwardAction::Overrun));
    assert!(matches!(finish(&header(&long[1..], b""), &long[1..], "ru"), ForwardAction::Send(_)));
}

#[test]
fn new_pointer_is_valid() {
    let dst: &[u8] = b"ru.msk.home";
    let rest = body(dst, 5, b"", 6, b"");
    let routes = vec![
        route("ru", "gw:1", RoutingProto::Static, 9),
        route("ru.msk", "gw:2", RoutingProto::Static, 5),
        route("ru.msk.home", "gw:3", RoutingProto::Static, 7),
    ];
    let mut seen = vec![];
    let mut h = header(dst, b"");
    for pointer in [0, 3, 7] {
        assert!(validate_pointer(dst, pointer));
        h.pointer = pointer;
        let (d, _) = parse_dynamic(&h, &rest);
        let RouteChoice::Via(r) = choose_route(pointer, d.dst_netpart, &routes) else {
            panic!("no route");
        };
        let f = sent(finish_slowpath(&h, &d, r, "ru", Some([1; 6]), 4, [2; 6]));
        assert!(validate_pointer(dst, f.frame[15]));
        seen.push((r.next_hop.clone(), f.frame[15]));
    }
    assert_eq!(
        seen,
        vec![("gw:2".to_string(), 7), ("gw:2".to_string(), 7), ("gw:3".to_string(), 0xFF)]
    );
}
