use nhip::cfg::AddressEntry;
use nhip::daemon::{
    deliver, get_addrs_from_ifindex, is_my_net, ping_parties, ping_step, pingpong, recv_frame,
    Delivery, PingErr, PingStep, Received,
};
use nhip::addr::AddrErr;
use nhip::forward::NhipDynamic;
use nhip::header::{next_header, NhipHeader};
use nhip::nharp::packet::NharpPacket;
use nhip::nharp_ctl::{
    handle_nharp, learn_sender, nharp_insert, nharp_send_reply, nharp_send_request, read_wire_id,
    request_for,
};

const NHARP: u16 = 0x88B6;

fn entry(ifname: &str, addresses: &[&str]) -> AddressEntry {
    AddressEntry {
        ifname: ifname.to_string(),
        prefix: "none".to_string(),
        addresses: addresses.iter().map(|a| a.to_string()).collect(),
    }
}

fn dynamic<'a>(dst: &'a [u8], dst_id: u32, src: &'a [u8], src_id: u32) -> NhipDynamic<'a> {
    NhipDynamic {
        dst_netpart: dst,
        dst_node_id: dst_id,
        src_netpart: src,
        src_node_id: src_id,
        payload: b"data",
    }
}

#[test]
fn addresses_of_an_interface() {
    let config = vec![
        entry("eth0", &["ru.msk:5", "nocolon", "a:b:7", "ru:bad!"]),
        entry("eth1", &["x:1"]),
        entry("eth0", &[":3"]),
    ];
    assert_eq!(
        get_addrs_from_ifindex(&config, "eth0"),
        vec![("ru.msk".to_string(), 5), ("a:b".to_string(), 7), (String::new(), 3)]
    );
    assert!(get_addrs_from_ifindex(&config, "eth9").is_empty());
}

#[test]
fn short_frames() {
    assert!(matches!(recv_frame(&[0; 13], NHARP), Received::Short));
    let mut f = vec![0; 14];
    f[12] = 0x08;
    assert!(matches!(recv_frame(&f, NHARP), Received::Other(0x0800)));
    f[12] = 0x88;
    f[13] = 0xB6;
    assert!(matches!(recv_frame(&f, NHARP), Received::NharpShort));
    f[13] = 0xB5;
    f.extend_from_slice(&[0; 17]);
    assert!(matches!(recv_frame(&f, NHARP), Received::NhipShort));
    f.extend_from_slice(&[0; 1]);
    assert!(matches!(recv_frame(&f, NHARP), Received::NhipCut));
    f.extend_from_slice(&[0; 8]);
    assert!(matches!(recv_frame(&f, NHARP), Received::Nhip(_, _, _)));
}

#[test]
fn nharp_request_frame() {
    let frame = nharp_send_request(3, [1, 2, 3, 4, 5, 6], 9, NHARP);
    let mut want = vec![0xFF; 6];
    want.extend_from_slice(&[1, 2, 3, 4, 5, 6, 0x88, 0xB6, 1]);
    want.extend_from_slice(&9u32.to_ne_bytes());
    want.extend_from_slice(&3u32.to_ne_bytes());
    want.extend_from_slice(&[1, 2, 3, 4, 5, 6]);
    assert_eq!(frame, want);
    match recv_frame(&frame, NHARP) {
        Received::Nharp(p) => {
            assert!(p.is_request());
            assert_eq!((p.target_node_id, p.source_node_id), (9, 3));
            assert_eq!(p.source_mac, [1, 2, 3, 4, 5, 6]);
        }
        _ => panic!("no NHARP packet"),
    }
}

#[test]
fn nharp_request_in_a_network() {
    let candidates = vec![("ru.spb".to_string(), 4), ("ru.msk".to_string(), 3)];
    let frame = request_for(&candidates, "ru.msk", [1, 2, 3, 4, 5, 6], 9, NHARP).unwrap();
    assert_eq!(frame, nharp_send_request(3, [1, 2, 3, 4, 5, 6], 9, NHARP));
    assert!(request_for(&candidates, "ru", [1, 2, 3, 4, 5, 6], 9, NHARP).is_none());
    assert!(request_for(&[], "", [1, 2, 3, 4, 5, 6], 9, NHARP).is_none());
}

#[test]
fn nharp_reply_frame() {
    let frame = nharp_send_reply([9; 6], 5, [1; 6], 4, NHARP);
    let mut want = vec![9, 9, 9, 9, 9, 9, 1, 1, 1, 1, 1, 1, 0x88, 0xB6, 2];
    want.extend_from_slice(&5u32.to_ne_bytes());
    want.extend_from_slice(&4u32.to_ne_bytes());
    want.extend_from_slice(&[1; 6]);
    assert_eq!(frame, want);
}

#[test]
fn nharp_learning() {
    assert_eq!(read_wire_id(0x01020304u32.to_be()), 0x01020304);
    let p = NharpPacket::new_reply(7u32.to_be(), [3; 6], 0);
    let (key, value) = learn_sender(2, &p);
    assert_eq!((key.ifindex, key.node_id), (2, 7));
    assert_eq!((value.mac, value._pad), ([3; 6], [0, 0]));
    let (key, value) = nharp_insert(1, 2, [4; 6]);
    assert_eq!((key.ifindex, key.node_id, value.mac), (1, 2, [4; 6]));
}

#[test]
fn nharp_answers() {
    let config = vec![entry("eth0", &["ru.msk:5"])];
    let ask = NharpPacket::new_request(7u32.to_be(), [3; 6], 5u32.to_be());
    let owed = handle_nharp(&ask, &config, "eth0").unwrap();
    assert_eq!((owed.remote_node_id, owed.local_node_id, owed.remote_mac), (7, 5, [3; 6]));
    assert!(handle_nharp(&ask, &config, "eth1").is_none());
    let other = NharpPacket::new_request(7u32.to_be(), [3; 6], 6u32.to_be());
    assert!(handle_nharp(&other, &config, "eth0").is_none());
    let reply = NharpPacket::new_reply(7u32.to_be(), [3; 6], 5u32.to_be());
    assert!(handle_nharp(&reply, &config, "eth0").is_none());
}

#[test]
fn nharp_palindromic_id_is_answered() {
    // The bytes of this NodeID are the same in both directions.
    let id = 0x01020201;
    let config = vec![entry("eth0", &["ru.msk:16908801"])];
    let frame = nharp_send_request(1, [1; 6], id, NHARP);
    match recv_frame(&frame, NHARP) {
        Received::Nharp(p) => {
            assert_eq!(handle_nharp(&p, &config, "eth0").unwrap().local_node_id, id)
        }
        _ => panic!("no NHARP packet"),
    }
}

#[test]
fn nharp_palindromic_id_is_learnt() {
    let id = 0x0a00000a;
    let frame = nharp_send_reply([9; 6], 5, [7; 6], id, NHARP);
    match recv_frame(&frame, NHARP) {
        Received::Nharp(p) => {
            let (key, value) = learn_sender(3, &p);
            assert_eq!((key.ifindex, key.node_id, value.mac), (3, id, [7; 6]));
        }
        _ => panic!("no NHARP packet"),
    }
}

#[test]
fn local_networks() {
    let config = vec![entry("eth0", &["ru.msk:5", "a:b:7", "lone"])];
    assert!(is_my_net(&config, "eth0", b"ru.msk"));
    assert!(is_my_net(&config, "eth0", b"b"));
    assert!(!is_my_net(&config, "eth0", b"a:b"));
    assert!(is_my_net(&config, "eth0", b""));
    assert!(!is_my_net(&config, "eth1", b"ru.msk"));
    assert!(!is_my_net(&[], "eth0", b""));
}

#[test]
fn delivery() {
    let config = vec![entry("eth0", &["ru.msk:5"])];
    let d = dynamic(b"ru.msk", 5, b"ru.spb", 8);
    match deliver(&config, "eth0", next_header::NHIPPING, &d) {
        Delivery::Pong { local, remote } => {
            assert_eq!(local, "ru.msk:5");
            assert_eq!(remote, "ru.spb:8");
        }
        _ => panic!("no pong"),
    }
    match deliver(&config, "eth0", next_header::NHIPPONG, &d) {
        Delivery::Message(m) => assert_eq!(m, "PONG ru.spb:8 ru.msk:5\n"),
        _ => panic!("no message"),
    }
    assert!(matches!(deliver(&config, "eth0", next_header::UDP, &d), Delivery::Ignore));
    assert!(matches!(deliver(&config, "eth1", next_header::UDP, &d), Delivery::Forward));
    let far = dynamic(b"ru.msk", 6, b"ru.spb", 8);
    assert!(matches!(deliver(&config, "eth0", next_header::UDP, &far), Delivery::Forward));
    let away = dynamic(b"ru.nsk", 5, b"ru.spb", 8);
    assert!(matches!(deliver(&config, "eth0", next_header::UDP, &away), Delivery::Forward));
    let odd = dynamic(b"ru.msk", 5, b"\xff", 8);
    match deliver(&config, "eth0", next_header::NHIPPONG, &odd) {
        Delivery::Message(m) => assert_eq!(m, "PONG (invalid):8 ru.msk:5\n"),
        _ => panic!("no message"),
    }
}

#[test]
fn parties() {
    let p = ping_parties("ru.msk:5", "ru.spb:1k").unwrap();
    assert_eq!((p.local_netpart.as_str(), p.local_node_id), ("ru.msk", 5));
    assert_eq!((p.remote_netpart.as_str(), p.remote_node_id), ("ru.spb", 1000));
    let q = ping_parties("a:b:5", "c:d:6").unwrap();
    assert_eq!((q.local_netpart.as_str(), q.remote_netpart.as_str()), ("a", "c"));
    assert_eq!(ping_parties("a", "b").err(), Some(PingErr::Remote(AddrErr::NoNodeId)));
    assert_eq!(ping_parties("a", "b:1").err(), Some(PingErr::Local(AddrErr::NoNodeId)));
    assert_eq!(ping_parties("a:x", "b:1").err(), Some(PingErr::Local(AddrErr::InvalidChar)));
}

#[test]
fn ping_steps() {
    let p = ping_parties("ru.msk:5", "ru.spb:8").unwrap();
    match ping_step(&p, Some([5; 6])) {
        PingStep::Send(mac) => assert_eq!(mac, [5; 6]),
        _ => panic!("asked"),
    }
    match ping_step(&p, None) {
        PingStep::AskThenSend { node_id, net, target } => {
            assert_eq!((node_id, net.as_str(), target), (8, "ru.spb", [0xFF; 6]));
        }
        _ => panic!("not asked"),
    }
}

#[test]
fn ping_frames() {
    let p = ping_parties("ab:5", "cde:6").unwrap();
    let frame = pingpong(&p, [1; 6], [2; 6], b"xyz", 1);
    let mut want = vec![2, 2, 2, 2, 2, 2, 1, 1, 1, 1, 1, 1, 0x88, 0xB5, 0x10, 0, 64, 1];
    want.extend_from_slice(&3u16.to_ne_bytes());
    want.extend_from_slice(&[0; 8]);
    want.extend_from_slice(&3u16.to_ne_bytes());
    want.extend_from_slice(&2u16.to_ne_bytes());
    want.extend_from_slice(b"cde\x06\x00\x00\x00ab\x05\x00\x00\x00xyz");
    assert_eq!(frame, want);
    let hdr = NhipHeader::from_bytes(&frame[14..32]);
    assert_eq!(frame.len(), 14 + hdr.total_packet_len());
    assert_eq!(pingpong(&p, [1; 6], [2; 6], b"xyz", 2)[17], next_header::NHIPPONG);
}

#[test]
fn ping_is_answered_by_a_pong() {
    let ours = vec![entry("eth0", &["ru.spb:8"])];
    let theirs = vec![entry("eth0", &["ru.msk:5"])];
    let parties = ping_parties("ru.spb:8", "ru.msk:5").unwrap();
    let ping = pingpong(&parties, [1; 6], [2; 6], b"data", 1);
    let answer = match recv_frame(&ping, NHARP) {
        Received::Nhip(h, _, d) => {
            assert_eq!(d.payload, b"data");
            match deliver(&theirs, "eth0", h.next_header, &d) {
                Delivery::Pong { local, remote } => {
                    let back = ping_parties(&local, &remote).unwrap();
                    pingpong(&back, [2; 6], [1; 6], d.payload, 2)
                }
                _ => panic!("no pong"),
            }
        }
        _ => panic!("no packet"),
    };
    match recv_frame(&answer, NHARP) {
        Received::Nhip(h, rest, d) => {
            assert_eq!(rest.len(), 6 + 4 + 6 + 4 + 4);
            match deliver(&ours, "eth0", h.next_header, &d) {
                Delivery::Message(m) => assert_eq!(m, "PONG ru.msk:5 ru.spb:8\n"),
                _ => panic!("no message"),
            }
        }
        _ => panic!("no packet"),
    }
}
