use nhip::addr::AddrErr;
use nhip::cfg::{
    insert_route, AddressEntry, NharpConfigEntry, RouteEntry, RoutingProto, TildeErr,
};
use nhip::forward::{check_connected, deliver_connected};
use nhip::ctl::{parse_ping, read_command};
use nhip::nhipctl::{
    add_address, add_neighbor, add_route, delete_address, delete_neighbor, delete_route, is_shown,
    show_address, show_neighbor, show_route, AddAddrErr,
    LocalNeighbors,
};
use nhip::nhipping::{
    check_pong, fill_payload, loss_percent, more_attempts, next_step, ping_request, push_response,
    resolve_src, AttemptStep, PingCount, PingEvent, PongCheck, SourceErr,
};

fn entry(ifname: &str, prefix: &str, addresses: &[&str]) -> AddressEntry {
    AddressEntry {
        ifname: ifname.to_string(),
        prefix: prefix.to_string(),
        addresses: addresses.iter().map(|a| a.to_string()).collect(),
    }
}

fn rows(routes: &[RouteEntry]) -> Vec<(String, String, String, u8)> {
    routes
        .iter()
        .map(|r| (r.destination.clone(), r.next_hop.clone(), r.dev.clone(), r.priority))
        .collect()
}

fn row(d: &str, h: &str, i: &str, p: u8) -> (String, String, String, u8) {
    (d.to_string(), h.to_string(), i.to_string(), p)
}

#[test]
fn ping_commands() {
    let c = parse_ping("PING ru.msk:5 ru.spb:8 3 00ff\n").unwrap();
    assert_eq!((c.dst_addr.as_str(), c.src_addr.as_str()), ("ru.msk:5", "ru.spb:8"));
    assert_eq!((c.ifindex, c.payload), (3, vec![0x00, 0xff]));
    let c = parse_ping("PINGED\ta b\u{2003}x  zz").unwrap();
    assert_eq!((c.ifindex, c.payload), (0, vec![0xee]));
    assert_eq!(parse_ping("PING a b 3 0fF").unwrap().payload, vec![0xee]);
    assert_eq!(parse_ping("PING a b 3 AbcD").unwrap().payload, vec![0xab, 0xcd]);
    assert!(parse_ping("PING a b 3").is_none());
    assert!(parse_ping("PING a b 3 00 11").is_none());
    assert!(parse_ping(" PING a b 3 00").is_none());
    assert!(parse_ping("PIN").is_none());
}

#[test]
fn commands_out_of_bytes() {
    let c = read_command(b"PING a b 3 00").unwrap();
    assert_eq!(c.payload, vec![0]);
    let c = read_command(b"PING a\xff b 3 00").unwrap();
    assert_eq!(c.dst_addr, "a\u{fffd}");
    assert!(read_command(b"").is_none());
}

#[test]
fn ping_command_round_trip() {
    let text = ping_request("ru.msk:5", "ru.spb:8", 42, &[0x01, 0xAB]);
    assert_eq!(text, "PING ru.msk:5 ru.spb:8 42 01ab\n");
    let c = read_command(text.as_bytes()).unwrap();
    assert_eq!((c.dst_addr.as_str(), c.src_addr.as_str()), ("ru.msk:5", "ru.spb:8"));
    assert_eq!((c.ifindex, c.payload), (42, vec![0x01, 0xAB]));
    // Without a payload there are only four words.
    assert!(parse_ping(&ping_request("a:1", "b:2", 1, &[])).is_none());
}

#[test]
fn pong_answers() {
    assert_eq!(check_pong("PONG a:1 b:2\n", "a:1", "b:2"), PongCheck::Match);
    assert_eq!(check_pong("PONG a:1 b:2\n", "b:2", "a:1"), PongCheck::Other);
    assert_eq!(check_pong("PING a:1 b:2\n", "a:1", "b:2"), PongCheck::Other);
    assert_eq!(check_pong("PONG a:1\n", "a:1", "b:2"), PongCheck::Malformed);
    assert_eq!(check_pong("", "a:1", "b:2"), PongCheck::Other);
}

#[test]
fn responses_accumulate() {
    let mut r = String::from("PO");
    push_response(&mut r, b"NG \xe2\x98\x83\xff");
    assert_eq!(r, "PONG \u{2603}\u{fffd}");
}

#[test]
fn attempts() {
    assert!(more_attempts(5, 4));
    assert!(!more_attempts(5, 5));
    assert!(more_attempts(0, 1_000_000));
    assert!(!more_attempts(0, u32::MAX));
}

#[test]
fn attempt_steps() {
    let c = PingCount { attempt: 3, success: 2 };
    let answer = |check: PongCheck, ms: u64| next_step(PingEvent::Answer(check), ms, c);
    let counts = |attempt: u32, success: u32| PingCount { attempt, success };
    assert_eq!(answer(PongCheck::Match, 0), (AttemptStep::Answered, counts(4, 3)));
    assert_eq!(answer(PongCheck::Match, 5000), (AttemptStep::Answered, counts(4, 3)));
    assert_eq!(answer(PongCheck::Other, 5000), (AttemptStep::Wait, c));
    assert_eq!(answer(PongCheck::Malformed, 0), (AttemptStep::Broken, c));
    let silence = |ms: u64| next_step(PingEvent::Silence, ms, c);
    assert_eq!(silence(1999), (AttemptStep::Wait, c));
    assert_eq!(silence(2000), (AttemptStep::Lost, counts(4, 2)));
}

#[test]
fn losses() {
    assert_eq!(loss_percent(0, 0), 100);
    assert_eq!(loss_percent(5, 5), 0);
    assert_eq!(loss_percent(1, 3), 66);
    assert_eq!(loss_percent(0, 65535), 100);
}

#[test]
fn payload_pattern() {
    let mut buf = vec![9; 300];
    fill_payload(258, &mut buf);
    assert_eq!(buf[0], 1);
    assert_eq!(buf[254], 255);
    assert_eq!(buf[255], 0);
    assert_eq!(buf[256], 1);
    assert_eq!(buf[257], 2);
    assert_eq!(buf[258], 9);
    let mut empty: Vec<u8> = vec![];
    fill_payload(0, &mut empty);
    assert!(empty.is_empty());
}

#[test]
fn source_addresses() {
    let two = vec![entry("eth0", "ru.msk", &["~:5", "x:6"]), entry("eth1", "none", &["~:1"])];
    let got = |d: Option<&str>, s: Option<&str>| resolve_src(d, s, &two);
    assert_eq!(got(Some("eth0"), Some("x:6")), Ok(("eth0".to_string(), "ru.msk:5".to_string())));
    assert_eq!(got(Some("eth0"), None), Err(SourceErr::ManyAddresses));
    assert_eq!(got(Some("eth9"), None), Err(SourceErr::NotConfigured));
    assert_eq!(got(Some("eth1"), None), Err(SourceErr::Tilde(TildeErr::NoPrefix)));
    assert_eq!(got(None, None), Err(SourceErr::ManyInterfaces));
    assert_eq!(resolve_src(None, None, &[]), Err(SourceErr::NoInterface));
    assert_eq!(resolve_src(None, Some("x:6"), &two[..1]), Err(SourceErr::OnlyManyAddresses));
    let bare = vec![entry("eth0", "none", &[])];
    assert_eq!(resolve_src(None, None, &bare), Err(SourceErr::OnlyNoAddress));
    assert_eq!(resolve_src(Some("eth0"), None, &bare), Err(SourceErr::NoAddress));
    let one = vec![entry("eth0", "none", &["x:6"])];
    assert_eq!(resolve_src(None, None, &one), Ok(("eth0".to_string(), "x:6".to_string())));
}

#[test]
fn adding_addresses() {
    let mut config = vec![];
    assert_eq!(add_address(&mut config, "ru.msk:5", "eth0", None), Ok("ru.msk:5".to_string()));
    assert_eq!(config[0].prefix, "none");
    assert_eq!(
        add_address(&mut config, "ru.msk:5", "eth0", Some("ru.msk")),
        Ok("ru.msk:5".to_string())
    );
    assert_eq!(add_address(&mut config, "~:6", "eth0", None), Ok("ru.msk:6".to_string()));
    assert_eq!(config.len(), 1);
    assert_eq!(config[0].addresses, vec!["ru.msk:5", "ru.msk:6"]);
    assert_eq!(config[0].prefix, "ru.msk");
    assert_eq!(add_address(&mut config, "x:1", "eth1", Some("y")), Ok("x:1".to_string()));
    assert_eq!((config[1].ifname.as_str(), config[1].prefix.as_str()), ("eth1", "y"));
}

#[test]
fn refused_addresses() {
    let mut config = vec![entry("eth0", "none", &["a:1"])];
    let mut refused = |a: &str, d: &str| {
        let err = add_address(&mut config, a, d, Some("p")).unwrap_err();
        assert_eq!(config.len(), 1);
        assert_eq!(config[0].prefix, "none");
        assert_eq!(config[0].addresses, vec!["a:1"]);
        err
    };
    assert_eq!(refused("~:1", "eth0"), AddAddrErr::Tilde(TildeErr::NoPrefix));
    assert_eq!(refused("~:1", "eth1"), AddAddrErr::Tilde(TildeErr::NotConfigured));
    assert_eq!(refused("a", "eth0"), AddAddrErr::Parts);
    assert_eq!(refused("a:b:1", "eth0"), AddAddrErr::Parts);
    assert_eq!(refused("a:", "eth0"), AddAddrErr::NodeId(AddrErr::NoNodeId));
    assert_eq!(refused("a:3g", "eth0"), AddAddrErr::NodeId(AddrErr::NodeIdOutOfRange));
}

#[test]
fn unchecked_network_part_is_added() {
    let mut config = vec![];
    assert_eq!(add_address(&mut config, "!!:1", "eth0", None), Ok("!!:1".to_string()));
}

#[test]
fn deleting_addresses() {
    let mut config = vec![entry("eth0", "ru", &["a:1", "ru:2", "a:1"]), entry("eth1", "ru", &["a:1"])];
    assert_eq!(delete_address(&mut config, "a:1", "eth0"), Ok(("a:1".to_string(), true)));
    assert_eq!(config[0].addresses, vec!["ru:2"]);
    assert_eq!(delete_address(&mut config, "~:2", "eth0"), Ok(("ru:2".to_string(), true)));
    assert!(config[0].addresses.is_empty());
    assert_eq!(config[1].addresses, vec!["a:1"]);
    assert_eq!(delete_address(&mut config, "a:1", "eth9"), Ok(("a:1".to_string(), false)));
    assert_eq!(delete_address(&mut config, "~:1", "eth9"), Err(TildeErr::NotConfigured));
}

#[test]
fn adding_routes() {
    let addrs = vec![entry("eth0", "ru.msk", &[])];
    let mut routes = vec![];
    let a = add_route(&addrs, &mut routes, "~.home", "~:1", "eth0", 7).unwrap();
    assert!(a.added);
    assert_eq!((a.destination.as_str(), a.next_hop.as_str()), ("ru.msk.home", "ru.msk:1"));
    assert!(!add_route(&addrs, &mut routes, "~.home", "~:1", "eth0", 7).unwrap().added);
    assert!(add_route(&addrs, &mut routes, "~.home", "~:1", "eth0", 8).unwrap().added);
    assert_eq!(
        rows(&routes),
        vec![row("ru.msk.home", "ru.msk:1", "eth0", 7), row("ru.msk.home", "ru.msk:1", "eth0", 8)]
    );
    assert_eq!(routes[0].proto, RoutingProto::Static);
    let e = add_route(&addrs, &mut routes, "x", "~:1", "eth9", 8).err();
    assert_eq!(e, Some(TildeErr::NotConfigured));
    let e = add_route(&addrs, &mut routes, "~", "x:1", "eth9", 8).err();
    assert_eq!(e, Some(TildeErr::NotConfigured));
    assert_eq!(routes.len(), 2);
}

#[test]
fn deleting_routes() {
    let mut routes = vec![];
    assert!(insert_route(&mut routes, "a", "h:1", "eth0", 1));
    assert!(insert_route(&mut routes, "default", "h:1", "eth0", 1));
    assert!(insert_route(&mut routes, "default", "h:2", "eth1", 2));
    assert!(!insert_route(&mut routes, "a", "h:1", "eth0", 1));
    let gone = delete_route(&[], &mut routes, "b", "h:1", "eth0", 1);
    assert_eq!(gone, Ok(("b".to_string(), false)));
    let gone = delete_route(&[], &mut routes, "a", "h:9", "eth0", 1);
    assert_eq!(gone, Ok(("a".to_string(), true)));
    assert_eq!(routes.len(), 3);
    let gone = delete_route(&[], &mut routes, "a", "h:1", "eth0", 1);
    assert_eq!(gone, Ok(("a".to_string(), true)));
    assert_eq!(
        rows(&routes),
        vec![row("default", "h:1", "eth0", 1), row("default", "h:2", "eth1", 2)]
    );
    let gone = delete_route(&[], &mut routes, "default", "h:7", "eth7", 7);
    assert_eq!(gone, Ok(("default".to_string(), true)));
    assert!(routes.is_empty());
    let gone = delete_route(&[], &mut routes, "~", "h:7", "eth7", 7);
    assert_eq!(gone, Err(TildeErr::NotConfigured));
}

#[test]
fn other_protocols_are_kept() {
    let mut routes = vec![RouteEntry {
        destination: "a".to_string(),
        next_hop: "h:1".to_string(),
        dev: "eth0".to_string(),
        proto: RoutingProto::Ospf,
        priority: 1,
    }];
    assert!(insert_route(&mut routes, "a", "h:1", "eth0", 1));
    assert_eq!(delete_route(&[], &mut routes, "a", "h:1", "eth0", 1), Ok(("a".to_string(), true)));
    assert_eq!(routes.len(), 1);
    assert_eq!(routes[0].proto, RoutingProto::Ospf);
}

#[test]
fn connected_networks() {
    let addrs = vec![
        entry("eth0", "none", &["ru.msk:5", ":6", "ru.msk:7", "lone"]),
        entry("eth1", "none", &["ru.spb:1"]),
        entry("eth2", "none", &["ru.nsk:1"]),
    ];
    let ifaces = vec!["eth0".to_string(), "eth2".to_string()];
    let mut routes = vec![];
    check_connected(&addrs, &ifaces, &mut routes);
    let want = vec![
        row("ru.msk", "local:0", "eth0", 0),
        row("lone", "local:0", "eth0", 0),
        row("ru.nsk", "local:0", "eth2", 0),
    ];
    assert_eq!(rows(&routes), want);
    check_connected(&addrs, &ifaces, &mut routes);
    assert_eq!(rows(&routes), want);
}

#[test]
fn connected_delivery() {
    let addrs = vec![
        entry("eth0", "none", &["ru.spb:1"]),
        entry("eth1", "none", &["ru.msk:5"]),
        entry("eth2", "none", &["ru.msk:6"]),
    ];
    let ifaces = vec!["eth1".to_string(), "eth2".to_string()];
    let r = deliver_connected(&addrs, &ifaces, b"ru.msk").unwrap();
    assert_eq!((r.destination.as_str(), r.next_hop.as_str()), ("ru.msk", "local:1"));
    assert_eq!((r.dev.as_str(), r.priority), ("eth1", 0));
    assert!(deliver_connected(&addrs, &ifaces, b"ru.spb").is_none());
    assert!(deliver_connected(&addrs, &ifaces, b"ru").is_none());
    assert!(deliver_connected(&addrs, &ifaces, b"").is_none());
}

#[test]
fn neighbors() {
    let mut table = vec![];
    add_neighbor(&mut table, "m1", 5, "x");
    add_neighbor(&mut table, "m2", 5, "y");
    add_neighbor(&mut table, "m1", 6, "z");
    add_neighbor(&mut table, "m1", 5, "w");
    let list = |t: &Vec<LocalNeighbors>| {
        t.iter()
            .map(|l| {
                let e: Vec<(u32, String)> =
                    l.entries.iter().map(|e| (e.node_id, e.mac.clone())).collect();
                (l.local_mac.clone(), e)
            })
            .collect::<Vec<_>>()
    };
    let at = |id: u32, m: &str| (id, m.to_string());
    assert_eq!(
        list(&table),
        vec![
            ("m1".to_string(), vec![at(5, "x"), at(6, "z"), at(5, "w")]),
            ("m2".to_string(), vec![at(5, "y")]),
        ]
    );
    delete_neighbor(&mut table, "m1", 5);
    assert_eq!(list(&table)[0], ("m1".to_string(), vec![at(6, "z")]));
    delete_neighbor(&mut table, "m1", 6);
    assert_eq!(list(&table), vec![("m2".to_string(), vec![at(5, "y")])]);
    delete_neighbor(&mut table, "m3", 5);
    delete_neighbor(&mut table, "m2", 9);
    assert_eq!(list(&table).len(), 1);
    let e = NharpConfigEntry { node_id: 1, mac: "q".to_string() };
    assert_eq!((e.node_id, e.mac.as_str()), (1, "q"));
}

#[test]
fn address_lines() {
    let e = entry("eth0", "p", &["a:1", "b:2"]);
    let bold = "\x1b[1meth0\x1b[0m";
    let cyan = "\x1b[36ma:1, b:2\x1b[0m";
    let magenta = "\x1b[35mp\x1b[0m";
    assert_eq!(show_address(&e), format!("{:<15} {:<20} {:<25}", bold, cyan, magenta));
    assert!(is_shown(&e, None) && is_shown(&e, Some("eth0")) && !is_shown(&e, Some("eth")));
}

#[test]
fn route_lines() {
    let mut routes = vec![];
    insert_route(&mut routes, "ru.msk", "h:1", "eth0", 10);
    insert_route(&mut routes, "default", "h:1", "eth0", 255);
    assert_eq!(
        show_route(&routes[0]),
        format!("{:<35} {:<25} {:<10} {:<10} {:<10}", "ru.msk", "h:1", "eth0", "static", 10)
    );
    let red = "\x1b[31mdefault\x1b[0m";
    assert_eq!(
        show_route(&routes[1]),
        format!("{:<35} {:<25} {:<10} {:<10} {:<10}", red, "h:1", "eth0", "static", 255)
    );
}

#[test]
fn neighbor_lines() {
    let mac = "00:00:00:00:00:01";
    assert_eq!(
        show_neighbor("eth0", 1234567890, mac, "Static"),
        format!("{:<10} {:<35} {:<20} {:<10}", "eth0", 1234567890, mac, "Static")
    );
    let long = "an-interface-with-a-long-name";
    assert_eq!(
        show_neighbor(long, 0, mac, "eBPF"),
        format!("{:<10} {:<35} {:<20} {:<10}", long, 0, mac, "eBPF")
    );
}
