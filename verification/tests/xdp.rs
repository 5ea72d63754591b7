use nhip::bytes::{u16_from_be, u16_to_be, u32_from_be, u32_from_le, u32_to_be, u32_to_le, u64_from_be};
use nhip::forward::fastpath_entry;
use nhip::label::label;
use nhip::number::{parse_hex_u8, parse_u32};
use nhip::text::{head, split, tail, trim, whitespace, words};
use nhip::xdp::{lookup_label, redirect_action, rewrite, XdpAction};

fn frame(label: u64) -> Vec<u8> {
    let mut f: Vec<u8> = (0..40).collect();
    f[12..14].copy_from_slice(&0x88B5u16.to_ne_bytes());
    f[20..28].copy_from_slice(&label.to_be_bytes());
    f
}

#[test]
fn frames_for_the_daemon() {
    assert_eq!(lookup_label(&[0; 13]), None);
    assert_eq!(lookup_label(&frame(7)[..31]), None);
    assert_eq!(lookup_label(&frame(0)), None);
    let mut other = frame(7);
    other[12] = 0;
    assert_eq!(lookup_label(&other), None);
}

#[test]
fn frames_with_a_label() {
    assert_eq!(lookup_label(&frame(7)), Some(7));
    assert_eq!(lookup_label(&frame(0x0102030405060708)[..32]), Some(0x0102030405060708));
}

#[test]
fn rewriting_touches_addresses_and_label() {
    let start = frame(7);
    let entry = fastpath_entry(0xa1b2c3d4e5f60718, 9, [0xd0, 0xd1, 0xd2, 0xd3, 0xd4, 0xd5]);
    let mut f = start.clone();
    assert_eq!(rewrite(&mut f, &entry, Some([0xe0; 6])), Some(9));
    assert_eq!(f[..6], [0xd0, 0xd1, 0xd2, 0xd3, 0xd4, 0xd5]);
    assert_eq!(f[6..12], [0xe0; 6]);
    assert_eq!(f[12..20], start[12..20]);
    assert_eq!(f[20..28], [0xa1, 0xb2, 0xc3, 0xd4, 0xe5, 0xf6, 0x07, 0x18]);
    assert_eq!(f[28..], start[28..]);
    assert_eq!(lookup_label(&f), Some(0xa1b2c3d4e5f60718));
    let mut g = start.clone();
    assert_eq!(rewrite(&mut g, &entry, None), Some(9));
    assert_eq!(g[6..12], start[6..12]);
}

#[test]
fn egress_leaves_the_frame() {
    let mut f = frame(7);
    let entry = fastpath_entry(label::EGRESS, 9, [1; 6]);
    assert_eq!(rewrite(&mut f, &entry, Some([2; 6])), None);
    assert_eq!(f, frame(7));
}

#[test]
fn redirections() {
    assert_eq!(redirect_action(0), XdpAction::Redirect);
    assert_eq!(redirect_action(-1), XdpAction::Drop);
    assert_eq!(redirect_action(4), XdpAction::Drop);
}

#[test]
fn byte_orders() {
    assert_eq!(u16_to_be(0x0102), [1, 2]);
    assert_eq!(u16_from_be(1, 2), 0x0102);
    assert_eq!(u32_to_le(0x01020304), [4, 3, 2, 1]);
    assert_eq!(u32_to_be(0x01020304), [1, 2, 3, 4]);
    assert_eq!(u32_from_le(&[4, 3, 2, 1]), 0x01020304);
    assert_eq!(u32_from_be(&[1, 2, 3, 4]), 0x01020304);
    assert_eq!(u64_from_be(&[1, 2, 3, 4, 5, 6, 7, 8]), 0x0102030405060708);
    assert_eq!(u64_from_be(&[0xff; 8]), u64::MAX);
}

#[test]
fn numbers() {
    assert_eq!(parse_u32("4294967295"), Some(u32::MAX));
    assert_eq!(parse_u32("4294967296"), None);
    assert_eq!(parse_u32("99999999999999999999999999"), None);
    assert_eq!(parse_u32("+"), None);
    assert_eq!(parse_u32("00000000000000000007"), Some(7));
    assert_eq!(parse_hex_u8("fF"), Some(255));
    assert_eq!(parse_hex_u8("100"), None);
    assert_eq!(parse_hex_u8("0ff"), Some(255));
}

#[test]
fn pieces_of_text() {
    assert_eq!(split("a:b::c", ':'), vec!["a", "b", "", "c"]);
    assert_eq!(split("", ':'), vec![""]);
    assert_eq!(head("a:b:c", ':'), "a");
    assert_eq!(tail("a:b:c", ':'), "c");
    assert_eq!((head("abc", ':'), tail("abc", ':')), ("abc".to_string(), "abc".to_string()));
    assert_eq!(trim("\t\u{2029} a b\u{85}\n"), "a b");
    assert_eq!(trim(" \n"), "");
    assert_eq!(words(" a\u{b}b\u{1680}c\u{200b}d\n"), vec!["a", "b", "c\u{200b}d"]);
    assert!(words(" \r\n").is_empty());
}

#[test]
fn white_space() {
    let is_white = |v: u32| {
        matches!(
            v,
            0x9..=0xd
                | 0x20
                | 0x85
                | 0xa0
                | 0x1680
                | 0x2000..=0x200a
                | 0x2028
                | 0x2029
                | 0x202f
                | 0x205f
                | 0x3000
        )
    };
    for v in 0..=0x10ffff {
        if let Some(c) = char::from_u32(v) {
            assert_eq!(whitespace(c), is_white(v), "{:#x}", v);
            assert_eq!(whitespace(c), c.is_whitespace(), "{:#x}", v);
        }
    }
}
