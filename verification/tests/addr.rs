use nhip::addr::{
    get_node_id_from_addr_str, is_letter, letter_multiplier, next_pointer, parse_node_id, validate_addr,
    validate_pointer, AddrErr, BROADCAST_NODE_ID, MAX_ADDR_LEN, MAX_NODE_ID,
};

#[test]
fn accepts_network_parts() {
    assert_eq!(validate_addr(b"ru.msk.home"), Ok(()));
    assert_eq!(validate_addr(b"A-z_9"), Ok(()));
    assert_eq!(validate_addr(b"a.b.c.d.e.f.g.h"), Ok(()));
}

#[test]
fn refuses_empty_network_part() {
    assert_eq!(validate_addr(b""), Err(AddrErr::Empty));
}

#[test]
fn refuses_long_network_part() {
    let long = vec![b'a'; MAX_ADDR_LEN + 1];
    assert_eq!(validate_addr(&long), Err(AddrErr::TooLong));
}

#[test]
fn block_length_starts_again_at_each_period() {
    assert_eq!(validate_addr(b"abcdefghijklmnop"), Ok(()));
    assert_eq!(validate_addr(b"abcdefghijklmnopq"), Err(AddrErr::BlockTooLong));
    assert_eq!(validate_addr(b"aaaaaaaaaa.bbbbbbbbbb"), Ok(()));
    assert_eq!(validate_addr(b"abcdefgh.ijklmnop.q"), Ok(()));
    assert_eq!(validate_addr(b"a.abcdefghijklmnopq"), Err(AddrErr::BlockTooLong));
    let longest = ["abcdefghijklmnop"; 8].join(".");
    assert_eq!(longest.len(), MAX_ADDR_LEN);
    assert_eq!(validate_addr(longest.as_bytes()), Ok(()));
}

#[test]
fn refuses_ninth_block() {
    assert_eq!(validate_addr(b"a.b.c.d.e.f.g.h.i"), Err(AddrErr::TooManyBlocks));
}

#[test]
fn refuses_empty_blocks() {
    assert_eq!(validate_addr(b".a"), Err(AddrErr::EmptyBlock));
    assert_eq!(validate_addr(b"a..b"), Err(AddrErr::EmptyBlock));
    assert_eq!(validate_addr(b"a."), Err(AddrErr::EmptyBlock));
    assert_eq!(validate_addr(b"."), Err(AddrErr::EmptyBlock));
}

#[test]
fn refuses_foreign_characters() {
    assert_eq!(validate_addr(b"a:b"), Err(AddrErr::InvalidChar));
    assert_eq!(validate_addr("я".as_bytes()), Err(AddrErr::InvalidChar));
}

#[test]
fn pointers() {
    assert!(validate_pointer(b"ru.msk", 0));
    assert!(validate_pointer(b"ru.msk", 0xFF));
    assert!(validate_pointer(b"ru.msk", 3));
    assert!(!validate_pointer(b"ru.msk", 2));
    assert!(!validate_pointer(b"ru.msk", 7));
    assert!(validate_pointer(b"ru.", 3));
}

#[test]
fn node_id_letters() {
    assert_eq!(parse_node_id(b"1g73m12k3"), Ok(1_073_012_003));
    assert_eq!(parse_node_id(b"1G73"), Ok(1_000_000_073));
    assert_eq!(parse_node_id(b"5k"), Ok(5_000));
    assert_eq!(parse_node_id(b"2M1"), Ok(2_000_001));
    assert_eq!(parse_node_id(b"g"), Ok(0));
}

#[test]
fn node_id_dot_behind_letter() {
    assert_eq!(parse_node_id(b"1g.73"), Ok(1_073_000_000));
    assert_eq!(parse_node_id(b"1m.12.36"), Ok(1_012_036));
    assert_eq!(parse_node_id(b"1k.5"), Ok(1_005));
}

#[test]
fn node_id_leading_zeros() {
    assert_eq!(parse_node_id(b"0.032.007.001"), Ok(32_007_001));
    assert_eq!(parse_node_id(b"32.7.1"), Ok(32_007_001));
}

#[test]
fn node_id_variants_agree() {
    let id = 1_012_036;
    assert_eq!(parse_node_id(b"1m12.36"), Ok(id));
    assert_eq!(parse_node_id(b"1m12k36"), Ok(id));
    assert_eq!(parse_node_id(b"1.12.36"), Ok(id));
    assert_eq!(parse_node_id(b"1.012.36"), Ok(id));
    assert_eq!(parse_node_id(b"0.001.012.036"), Ok(id));
}

#[test]
fn node_id_groups_of_any_length() {
    assert_eq!(parse_node_id(b"1.1000"), Ok(11_000));
    assert_eq!(parse_node_id(b"12.3456"), Ok(123_456));
    assert_eq!(parse_node_id(b"1000.5"), Ok(10_005));
    assert_eq!(parse_node_id(b"1.2.3456"), Ok(123_456));
    assert_eq!(parse_node_id(b"1..2"), Ok(12));
    assert_eq!(parse_node_id(b".5.6"), Ok(56));
    assert_eq!(parse_node_id(b"5."), Ok(5));
    assert_eq!(parse_node_id(b"."), Ok(0));
    assert_eq!(parse_node_id(b"1m12.3456"), Ok(1_003_468));
    assert_eq!(parse_node_id(b"1m1..2"), Ok(1_000_003));
}

#[test]
fn node_id_groups_in_front_of_a_letter() {
    assert_eq!(parse_node_id(b"1.2k"), Ok(2_001));
    assert_eq!(parse_node_id(b"5.3k"), Ok(3_005));
    assert_eq!(parse_node_id(b"1.2.3k"), Ok(3_003));
    assert_eq!(parse_node_id(b"1.2.m"), Ok(3));
    assert_eq!(parse_node_id(b"1m.2.5k"), Ok(1_007_000));
    assert_eq!(parse_node_id(b"1m.2k"), Ok(1_002_000));
    assert_eq!(parse_node_id(b"1g..73"), Ok(1_073_000_000));
    assert_eq!(parse_node_id(b"1g.73.5.6"), Ok(1_073_005_006));
    assert_eq!(parse_node_id(b"1m."), Ok(1_000_000));
}

#[test]
fn next_pointers() {
    assert_eq!(next_pointer(b"ru.msk"), Some(3));
    assert_eq!(next_pointer(b"ru"), Some(0xFF));
    assert_eq!(next_pointer(b"ru."), Some(0xFF));
    assert_eq!(next_pointer(b""), Some(0xFF));
    assert_eq!(next_pointer(b".a"), Some(1));
    let mut long = vec![b'a'; 253];
    long.extend_from_slice(b".b");
    assert_eq!(next_pointer(&long), Some(254));
    assert_eq!(next_pointer(&[b"a".as_slice(), &long].concat()), None);
}

#[test]
fn node_id_plain_decimal() {
    assert_eq!(parse_node_id(b"0"), Ok(0));
    assert_eq!(parse_node_id(b"42"), Ok(42));
    assert_eq!(parse_node_id(b"1000000000"), Ok(BROADCAST_NODE_ID));
    assert_eq!(parse_node_id(b"4294967295"), Ok(u32::MAX));
}

#[test]
fn node_id_errors() {
    assert_eq!(parse_node_id(b""), Err(AddrErr::NoNodeId));
    assert_eq!(parse_node_id(b"12345678901234567"), Err(AddrErr::NodeIdTooLong));
    assert_eq!(parse_node_id(b"12x"), Err(AddrErr::InvalidChar));
    assert_eq!(parse_node_id(b"1g-"), Err(AddrErr::InvalidChar));
    assert_eq!(parse_node_id(b"4294967296"), Err(AddrErr::NodeIdOutOfRange));
    assert_eq!(parse_node_id(b"2g"), Err(AddrErr::NodeIdOutOfRange));
    assert_eq!(parse_node_id(b"1g73m741k823"), Ok(MAX_NODE_ID));
    assert_eq!(parse_node_id(b"1g73m741k824"), Err(AddrErr::NodeIdOutOfRange));
    assert_eq!(parse_node_id(b"9999999999999999"), Err(AddrErr::NodeIdOutOfRange));
}

#[test]
fn letters() {
    assert!(is_letter(b'k') && is_letter(b'M') && !is_letter(b'x'));
    assert_eq!(letter_multiplier(b'g'), Some(1_000_000_000));
    assert_eq!(letter_multiplier(b'm'), Some(1_000_000));
    assert_eq!(letter_multiplier(b'K'), Some(1_000));
    assert_eq!(letter_multiplier(b'1'), None);
}

#[test]
fn node_id_of_address() {
    assert_eq!(get_node_id_from_addr_str("ru.msk:1k5"), Ok(1_005));
    assert_eq!(get_node_id_from_addr_str("a:b:7"), Ok(7));
    assert_eq!(get_node_id_from_addr_str("ru.msk"), Err(AddrErr::NoNodeId));
    assert_eq!(get_node_id_from_addr_str("ru.msk:"), Err(AddrErr::NoNodeId));
    assert_eq!(get_node_id_from_addr_str("ru.msk:z"), Err(AddrErr::InvalidChar));
}
