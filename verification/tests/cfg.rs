use nhip::cfg::{
    ansi_color, build_eth_header, build_nhip_packet, colorize, expand_tilde, is_my_node_id,
    mac_to_str, parse_mac, pick_node_id_for_netpart, proto_to_ad, AddressEntry, MacErr,
    RoutingProto, TildeErr,
};
use nhip::iface::{
    get_ifaces, get_ifname_from_mac, get_mac, iface_path, ifname_from_index, ifname_to_index,
    pin_dir, pin_path, IfaceFile, LookupErr,
};
use nhip::socket::buffer_size;

fn entry(ifname: &str, prefix: &str, addresses: &[&str]) -> AddressEntry {
    AddressEntry {
        ifname: ifname.to_string(),
        prefix: prefix.to_string(),
        addresses: addresses.iter().map(|a| a.to_string()).collect(),
    }
}

fn file(name: &str, content: Option<&str>) -> IfaceFile {
    IfaceFile { name: name.to_string(), content: content.map(|c| c.to_string()) }
}

#[test]
fn node_ids_of_an_interface() {
    let config = vec![
        entry("eth0", "none", &["ru.msk:5", "ru.msk:1k", "ru.msk:bad!"]),
        entry("eth1", "none", &["ru.spb:6"]),
        entry("eth0", "none", &["9"]),
    ];
    assert!(is_my_node_id(&config, "eth0", 5));
    assert!(is_my_node_id(&config, "eth0", 1000));
    assert!(is_my_node_id(&config, "eth0", 9));
    assert!(!is_my_node_id(&config, "eth0", 6));
    assert!(is_my_node_id(&config, "eth1", 6));
    assert!(!is_my_node_id(&config, "eth2", 5));
    assert!(!is_my_node_id(&[], "eth0", 5));
}

#[test]
fn colors() {
    assert_eq!(colorize("x", ansi_color::RED), "\x1b[31mx\x1b[0m");
    assert_eq!(colorize("", ansi_color::BOLD), "\x1b[1m\x1b[0m");
    assert_eq!(ansi_color::GREEN, "\x1b[32m");
    assert_eq!(ansi_color::YELLOW, "\x1b[33m");
    assert_eq!(ansi_color::BLUE, "\x1b[34m");
    assert_eq!(ansi_color::CYAN, "\x1b[36m");
    assert_eq!(ansi_color::MAGENTA, "\x1b[35m");
}

#[test]
fn mac_addresses() {
    assert_eq!(parse_mac("00:1b:2C:ff:+a:9"), Ok([0, 0x1b, 0x2c, 0xff, 0x0a, 9]));
    assert_eq!(parse_mac("00:1b:2c:ff:0a"), Err(MacErr::Parts));
    assert_eq!(parse_mac(""), Err(MacErr::Parts));
    assert_eq!(parse_mac("00:1b:2c:ff:0a:"), Err(MacErr::Octet));
    assert_eq!(parse_mac("00:1b:2c:ff:0a:100"), Err(MacErr::Octet));
    assert_eq!(parse_mac("00:1b:2c:ff:0a:0g"), Err(MacErr::Octet));
    assert_eq!(parse_mac("00:1b:2c:ff:0a:09\n"), Err(MacErr::Octet));
}

#[test]
fn mac_round_trip() {
    let mac = [0x00, 0x1b, 0xa0, 0xff, 0x0a, 0x90];
    let text = mac_to_str(&mac).unwrap();
    assert_eq!(text, "00:1b:a0:ff:0a:90");
    assert_eq!(parse_mac(&text), Ok(mac));
}

#[test]
fn node_id_for_a_network() {
    let candidates = vec![
        ("ru.spb".to_string(), 1),
        ("ru.msk".to_string(), 2),
        ("ru.msk".to_string(), 3),
    ];
    assert_eq!(pick_node_id_for_netpart(&candidates, "ru.msk"), Some(2));
    assert_eq!(pick_node_id_for_netpart(&candidates, "ru"), None);
    assert_eq!(pick_node_id_for_netpart(&[], "ru"), None);
}

#[test]
fn ethernet_header() {
    let h = build_eth_header([1, 2, 3, 4, 5, 6], [7, 8, 9, 10, 11, 12], 0x88B5);
    assert_eq!(h, [7, 8, 9, 10, 11, 12, 1, 2, 3, 4, 5, 6, 0x88, 0xB5]);
}

#[test]
fn nhip_packet() {
    let p = build_nhip_packet(b"ab", 0x01020304, b"cde", 0x05060708, b"xy");
    let mut want = vec![0x10, 0, 64, 1];
    want.extend_from_slice(&2u16.to_ne_bytes());
    want.extend_from_slice(&[0; 8]);
    want.extend_from_slice(&3u16.to_ne_bytes());
    want.extend_from_slice(&2u16.to_ne_bytes());
    want.extend_from_slice(b"cde\x05\x06\x07\x08ab\x01\x02\x03\x04xy");
    assert_eq!(p, want);
}

#[test]
fn nhip_packet_cuts_lengths() {
    let p = build_nhip_packet(b"", 0, b"", 0, &vec![0; 0x10003]);
    assert_eq!(p.len(), 18 + 8 + 0x10003);
    assert_eq!(p[4..6], 3u16.to_ne_bytes());
}

#[test]
fn tilde_expansion() {
    let config = vec![
        entry("eth0", "ru.msk", &[]),
        entry("eth1", "none", &[]),
        entry("eth2", "", &[]),
        entry("eth0", "other", &[]),
    ];
    assert_eq!(expand_tilde("~:5", "eth0", &config), Ok("ru.msk:5".to_string()));
    assert_eq!(expand_tilde("~", "eth0", &config), Ok("ru.msk".to_string()));
    assert_eq!(expand_tilde("a~:5", "eth9", &config), Ok("a~:5".to_string()));
    assert_eq!(expand_tilde("", "eth9", &config), Ok(String::new()));
    assert_eq!(expand_tilde("~:5", "eth9", &config), Err(TildeErr::NotConfigured));
    assert_eq!(expand_tilde("~:5", "eth1", &config), Err(TildeErr::NoPrefix));
    assert_eq!(expand_tilde("~:5", "eth2", &config), Err(TildeErr::NoPrefix));
}

#[test]
fn administrative_distances() {
    assert_eq!(proto_to_ad(&RoutingProto::Static), 1);
    assert_eq!(proto_to_ad(&RoutingProto::Ospf), 110);
    assert_eq!(proto_to_ad(&RoutingProto::Rip), 120);
    assert_eq!(proto_to_ad(&RoutingProto::Unknown), 255);
}

#[test]
fn interface_indices() {
    assert_eq!(ifname_to_index(" 12\n"), Some(12));
    assert_eq!(ifname_to_index("\u{a0}7\u{3000}"), Some(7));
    assert_eq!(ifname_to_index("+7"), Some(7));
    assert_eq!(ifname_to_index("1 2"), None);
    assert_eq!(ifname_to_index(""), None);
    assert_eq!(ifname_to_index("-1"), None);
    assert_eq!(ifname_to_index("4294967296"), None);
    assert_eq!(iface_path("eth0", "ifindex"), "/sys/class/net/eth0/ifindex");
}

#[test]
fn interface_by_index() {
    let files = vec![
        file("lo", Some("1\n")),
        file("eth0", None),
        file("eth1", Some("x\n")),
        file("eth2", Some("3\n")),
        file("eth3", Some("3\n")),
    ];
    assert_eq!(ifname_from_index(&files, 3), Some("eth2".to_string()));
    assert_eq!(ifname_from_index(&files, 1), Some("lo".to_string()));
    assert_eq!(ifname_from_index(&files, 2), None);
}

#[test]
fn interface_mac() {
    assert_eq!(get_mac("00:01:02:03:04:05\n"), Ok([0, 1, 2, 3, 4, 5]));
    assert_eq!(get_mac("\n"), Err(MacErr::Parts));
    assert_eq!(get_mac("00:01:02:03:04:x"), Err(MacErr::Octet));
}

#[test]
fn usable_interfaces() {
    let names = |v: &[&str]| v.iter().map(|s| s.to_string()).collect::<Vec<String>>();
    assert_eq!(get_ifaces(&names(&["lo", "eth0", "", "wlan0"])), Some(names(&["eth0", "wlan0"])));
    assert_eq!(get_ifaces(&names(&["lo", ""])), None);
    assert_eq!(get_ifaces(&[]), None);
}

#[test]
fn interface_by_mac() {
    let good = vec![
        file("eth0", Some("00:00:00:00:00:01")),
        file("eth1", Some("00:00:00:00:00:02")),
        file("eth2", None),
    ];
    assert_eq!(get_ifname_from_mac(&good, &[0, 0, 0, 0, 0, 2]), Ok("eth1".to_string()));
    assert_eq!(get_ifname_from_mac(&good, &[0, 0, 0, 0, 0, 3]), Err(LookupErr::Unreadable));
    assert_eq!(get_ifname_from_mac(&good[..2], &[0, 0, 0, 0, 0, 3]), Err(LookupErr::NotFound));
    let line = vec![file("eth0", Some("00:00:00:00:00:01\n"))];
    assert_eq!(
        get_ifname_from_mac(&line, &[0, 0, 0, 0, 0, 1]),
        Err(LookupErr::Mac(MacErr::Octet))
    );
}

#[test]
fn pin_paths() {
    assert_eq!(pin_dir(Some("box\n")), "/sys/fs/bpf/nhip/box");
    assert_eq!(pin_path(None, "nharp"), "/sys/fs/bpf/nhip/default/nharp");
}

#[test]
fn socket_buffer() {
    assert_eq!(buffer_size(16), 16 * 1024 * 1024);
    assert_eq!(buffer_size(0), 0);
    assert_eq!(buffer_size(255), 267_386_880);
}
