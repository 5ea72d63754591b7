//! What the header promises: where its fields stand and what its bits mean.
use crate::bytes;
use crate::header::{flags, NhipHeader};
use crate::header;
use vstd::prelude::*;

verus! {

/// The fields of a header stand in this order: version and flags, pointer, hop limit, next header,
/// length of the payload, label, and the lengths of the two network parts, that of the destination
/// first.
pub proof fn law_layout(h: NhipHeader)
    ensures
        ({
            let s = header::header_bytes(h);
            &&& s.len() == 18
            &&& s[0] == h.version_flags
            &&& s[1] == h.pointer
            &&& s[2] == h.ttl
            &&& s[3] == h.next_header
            &&& s.subrange(4, 6) == bytes::native_bytes(h.payload_length as nat, 2)
            &&& s.subrange(6, 14) == bytes::native_bytes(h.link_label as nat, 8)
            &&& s.subrange(14, 16) == bytes::native_bytes(h.dst_addr_len as nat, 2)
            &&& s.subrange(16, 18) == bytes::native_bytes(h.src_addr_len as nat, 2)
        }),
{
    let s = header::header_bytes(h);
    header::law_header_round_trip(h);
    bytes::lemma_machine_round_trip(h.payload_length, 0, h.link_label);
    bytes::lemma_machine_round_trip(h.dst_addr_len, 0, 0);
    bytes::lemma_machine_round_trip(h.src_addr_len, 0, 0);
    assert(s.subrange(4, 6) =~= bytes::native_bytes(h.payload_length as nat, 2));
    assert(s.subrange(6, 14) =~= bytes::native_bytes(h.link_label as nat, 8));
    assert(s.subrange(14, 16) =~= bytes::native_bytes(h.dst_addr_len as nat, 2));
    assert(s.subrange(16, 18) =~= bytes::native_bytes(h.src_addr_len as nat, 2));
}

/// The multicast flag is the fourth bit from the right and the broadcast flag the third. Setting or
/// clearing one changes that bit alone.
pub proof fn law_flag_bits(b: u8)
    ensures
        header::has_flag(b, flags::MULTICAST) == (b & 8 != 0),
        header::has_flag(b, flags::BROADCAST) == (b & 4 != 0),
        header::with_flag(b, flags::MULTICAST, true) == b | 8,
        header::with_flag(b, flags::MULTICAST, false) == b & 0xF7,
        header::with_flag(b, flags::BROADCAST, true) == b | 4,
        header::with_flag(b, flags::BROADCAST, false) == b & 0xFB,
{
    assert((b & 8 != 0) == ((b / 8) % 2 == 1)) by (bit_vector);
    assert((b & 4 != 0) == ((b / 4) % 2 == 1)) by (bit_vector);
    assert((b | 8) == (if (b / 8) % 2 == 1 {
        b as int
    } else {
        b + 8
    })) by (bit_vector);
    assert((b & 0xF7) == (if (b / 8) % 2 == 1 {
        b - 8
    } else {
        b as int
    })) by (bit_vector);
    assert((b | 4) == (if (b / 4) % 2 == 1 {
        b as int
    } else {
        b + 4
    })) by (bit_vector);
    assert((b & 0xFB) == (if (b / 4) % 2 == 1 {
        b - 4
    } else {
        b as int
    })) by (bit_vector);
}

/// The version stands in the upper half of its byte and the flags in the lower half.
pub proof fn law_nibbles(version: u8, flags: u8)
    requires
        version < 16,
        flags < 16,
    ensures
        header::nibbles(version, flags) == 16 * version + flags,
{
}

/// The initial values of a header.
pub proof fn law_new_header()
    ensures
        ({
            let h = header::new_header();
            &&& h.version_flags == 1
            &&& h.pointer == 0
            &&& h.ttl == 64
            &&& h.next_header == 1
            &&& h.payload_length == 15
            &&& h.link_label == 0
            &&& h.dst_addr_len == 0
            &&& h.src_addr_len == 0
        }),
{
}

/// A packet is as long as its header, its two network parts, its two NodeIDs and its payload.
pub proof fn law_packet_len(h: NhipHeader)
    ensures
        header::packet_len(h) == 18 + h.dst_addr_len + 4 + h.src_addr_len + 4 + h.payload_length,
{
}

/// The numbers that the protocol assigns.
pub proof fn law_assigned_numbers()
    ensures
        header::NHIP_ETHERTYPE == 0x88B5,
        header::NHIP_VERSION == 1,
        header::next_header::NHIPPING == 1,
        header::next_header::NHIPPONG == 2,
        header::next_header::TCP == 6,
        header::next_header::UDP == 17,
        flags::RESERVERD == 3,
{
}

} // verus!
