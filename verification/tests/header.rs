use nhip::header::{flags, next_header, NhipHeader, NHIP_HEADER_LEN};
use nhip::label::{fnvla, get_link_hash, label, mac_less};
use nhip::nharp::packet::NharpPacket;
use nhip::nharp::{Operation, NHARP_NEXT_HEADER};

#[test]
fn new_header_values() {
    let h = NhipHeader::new();
    assert_eq!(h, NhipHeader::default());
    assert_eq!(h.version_flags, 1);
    assert_eq!(h.ttl, 64);
    assert_eq!(h.pointer, 0);
    assert_eq!(h.next_header, next_header::NHIPPING);
    assert_eq!(h.payload_length, 15);
    assert_eq!(h.link_label, 0);
    assert_eq!((h.dst_addr_len, h.src_addr_len), (0, 0));
}

#[test]
fn version_and_flags() {
    let mut h = NhipHeader::new();
    h.set_version_flags(0x21, 0x35);
    assert_eq!(h.version_flags, 0x15);
    assert_eq!(h.version(), 1);
    assert_eq!(h.flags(), 5);
}

#[test]
fn flags_are_independent() {
    let mut h = NhipHeader::new();
    h.set_version_flags(1, flags::RESERVERD);
    h.set_multicast(true);
    assert!(h.is_multicast() && !h.is_broadcast());
    h.set_broadcast(true);
    assert_eq!(h.version_flags, 0x1F);
    h.set_multicast(false);
    assert!(!h.is_multicast() && h.is_broadcast());
    h.set_broadcast(false);
    assert_eq!(h.version_flags, 0x13);
}

#[test]
fn lengths() {
    let mut h = NhipHeader::new();
    h.dst_addr_len = 6;
    h.src_addr_len = 10;
    h.payload_length = 100;
    assert_eq!(h.total_header_len(), 18 + 6 + 4 + 10 + 4);
    assert_eq!(h.total_packet_len(), 142);
}

#[test]
fn header_bytes_in_host_order() {
    let h = NhipHeader {
        version_flags: 0x10,
        pointer: 3,
        ttl: 7,
        next_header: 2,
        payload_length: 0x0102,
        link_label: 0x0102030405060708,
        dst_addr_len: 0x0a0b,
        src_addr_len: 0x0c0d,
    };
    let mut want = vec![0x10, 3, 7, 2];
    want.extend_from_slice(&0x0102u16.to_ne_bytes());
    want.extend_from_slice(&0x0102030405060708u64.to_ne_bytes());
    want.extend_from_slice(&0x0a0bu16.to_ne_bytes());
    want.extend_from_slice(&0x0c0du16.to_ne_bytes());
    let bytes = h.to_bytes();
    assert_eq!(bytes, want);
    assert_eq!(bytes.len(), NHIP_HEADER_LEN);
    assert_eq!(NhipHeader::from_bytes(&bytes), h);
}

#[test]
fn operations() {
    assert_eq!(Operation::from_u8(1), Some(Operation::Request));
    assert_eq!(Operation::from_u8(2), Some(Operation::Reply));
    assert_eq!(Operation::from_u8(0), None);
    assert_eq!(Operation::from_u8(3), None);
    assert_eq!(Operation::Request.to_u8(), 1);
    assert_eq!(Operation::Reply.to_u8(), 2);
    assert_eq!(NHARP_NEXT_HEADER, 0x3A);
}

#[test]
fn nharp_packet_bytes() {
    let p = NharpPacket::new_request(0x01020304, [9, 8, 7, 6, 5, 4], 0x0a0b0c0d);
    assert!(p.is_request() && !p.is_reply());
    let mut want = vec![1];
    want.extend_from_slice(&0x0a0b0c0du32.to_ne_bytes());
    want.extend_from_slice(&0x01020304u32.to_ne_bytes());
    want.extend_from_slice(&[9, 8, 7, 6, 5, 4]);
    let bytes = p.to_bytes();
    assert_eq!(bytes, want);
    assert_eq!(bytes.len(), NharpPacket::SIZE);
    let q = NharpPacket::from_bytes(&bytes);
    assert_eq!(q.oper, 1);
    assert_eq!(q.target_node_id, 0x0a0b0c0d);
    assert_eq!(q.source_node_id, 0x01020304);
    assert_eq!(q.source_mac, [9, 8, 7, 6, 5, 4]);
    let r = NharpPacket::new_reply(1, [0; 6], 2);
    assert!(r.is_reply() && !r.is_request());
    assert_eq!((r.source_node_id, r.target_node_id), (1, 2));
}

#[test]
fn hash_values() {
    assert_eq!(fnvla(b""), 0xcbf29ce484222325);
    assert_eq!(fnvla(b"a"), 0xaf63dc4c8601ec8c);
    assert_eq!(fnvla(b"foobar"), 0x85944171f73967e8);
}

#[test]
fn link_hash_is_symmetric() {
    let a = [2, 0, 0, 0, 0, 1];
    let b = [2, 0, 0, 0, 0, 2];
    assert!(mac_less(&a, &b) && !mac_less(&b, &a) && !mac_less(&a, &a));
    assert_eq!(get_link_hash(&a, &b, b"ru.msk"), 0x24307f696d1fb926);
    assert_eq!(get_link_hash(&b, &a, b"ru.msk"), 0x24307f696d1fb926);
    assert_eq!(get_link_hash(&b, &a, b""), 0xf39919fa28effb28);
}

#[test]
fn labels() {
    assert_eq!(label::UNKNOWN, 0);
    assert_eq!(label::EGRESS, u64::MAX);
    assert_eq!(label::MIN_USER, 32);
}
