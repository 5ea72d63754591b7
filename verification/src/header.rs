//! The static NHIP header.
use crate::bytes;
use vstd::prelude::*;

pub mod flags;
pub mod laws;
pub mod next_header;

verus! {

/// The EtherType of NHIP frames.
pub const NHIP_ETHERTYPE: u16 = 0x88B5;

/// The length of the static header.
pub const NHIP_HEADER_LEN: usize = 18;

/// The hop limit of a new packet.
pub const NHIP_DEFAULT_TTL: u8 = 64;

/// The protocol version.
pub const NHIP_VERSION: u8 = 0x01;

/// The static part of an NHIP packet. Behind it stand the two addresses, each a network part
/// and a NodeID, and the payload.
#[derive(Debug, Clone, Copy, PartialEq, Eq, Structural)]
pub struct NhipHeader {
    /// The version in the high four bits, the flags in the low four.
    pub version_flags: u8,
    pub pointer: u8,
    pub ttl: u8,
    pub next_header: u8,
    pub payload_length: u16,
    pub link_label: u64,
    pub dst_addr_len: u16,
    pub src_addr_len: u16,
}

/// The byte that holds the low four bits of `version` above the low four bits of `flags`.
pub open spec fn nibbles(version: u8, flags: u8) -> u8 {
    ((version % 16) * 16 + flags % 16) as u8
}

/// Whether the bit of `b` whose value is `mask` is set.
pub open spec fn has_flag(b: u8, mask: u8) -> bool {
    (b / mask) % 2 == 1
}

/// `b` with the bit whose value is `mask` set or cleared.
pub open spec fn with_flag(b: u8, mask: u8, on: bool) -> u8 {
    if on == has_flag(b, mask) {
        b
    } else if on {
        (b + mask) as u8
    } else {
        (b - mask) as u8
    }
}

/// The bytes of a header: the fields in order, each number in the order of the host.
pub open spec fn header_bytes(h: NhipHeader) -> Seq<u8> {
    seq![h.version_flags, h.pointer, h.ttl, h.next_header] + bytes::native_bytes(
        h.payload_length as nat,
        2,
    ) + bytes::native_bytes(h.link_label as nat, 8) + bytes::native_bytes(
        h.dst_addr_len as nat,
        2,
    ) + bytes::native_bytes(h.src_addr_len as nat, 2)
}

/// The header that the bytes `s` hold.
pub open spec fn header_of(s: Seq<u8>) -> NhipHeader {
    NhipHeader {
        version_flags: s[0],
        pointer: s[1],
        ttl: s[2],
        next_header: s[3],
        payload_length: bytes::native_value(s.subrange(4, 6)) as u16,
        link_label: bytes::native_value(s.subrange(6, 14)) as u64,
        dst_addr_len: bytes::native_value(s.subrange(14, 16)) as u16,
        src_addr_len: bytes::native_value(s.subrange(16, 18)) as u16,
    }
}

/// The length of a whole packet: header, addresses and payload.
pub open spec fn packet_len(h: NhipHeader) -> nat {
    (NHIP_HEADER_LEN + h.dst_addr_len + 4 + h.src_addr_len + 4 + h.payload_length) as nat
}

/// The header that [`NhipHeader::new`] makes.
pub open spec fn new_header() -> NhipHeader {
    NhipHeader {
        version_flags: NHIP_VERSION,
        pointer: 0,
        ttl: NHIP_DEFAULT_TTL,
        next_header: next_header::NHIPPING,
        payload_length: 15,
        link_label: 0,
        dst_addr_len: 0,
        src_addr_len: 0,
    }
}

impl Default for NhipHeader {
    fn default() -> (res: Self)
        ensures
            res == new_header(),
    {
        Self::new()
    }
}

impl NhipHeader {
    /// A header with the initial values.
    pub fn new() -> (res: Self)
        ensures
            res == new_header(),
    {
        NhipHeader {
            version_flags: NHIP_VERSION,
            pointer: 0,
            ttl: NHIP_DEFAULT_TTL,
            next_header: next_header::NHIPPING,
            payload_length: 15,
            link_label: 0,
            src_addr_len: 0,
            dst_addr_len: 0,
        }
    }

    /// The version: the high four bits.
    pub fn version(&self) -> (res: u8)
        ensures
            res == self.version_flags / 16,
    {
        let b: u8 = self.version_flags;
        assert(b >> 4 == b / 16) by (bit_vector);
        b >> 4
    }

    /// The flags: the low four bits.
    pub fn flags(&self) -> (res: u8)
        ensures
            res == self.version_flags % 16,
    {
        let b: u8 = self.version_flags;
        assert(b & 0x0F == b % 16) by (bit_vector);
        b & 0x0F
    }

    /// Sets version and flags to the low four bits of each argument.
    pub fn set_version_flags(&mut self, version: u8, flags: u8)
        ensures
            *final(self) == (NhipHeader { version_flags: nibbles(version, flags), ..*old(self) }),
    {
        assert(((version << 4) | (flags & 0x0F)) == ((version % 16) * 16 + flags % 16) as u8)
            by (bit_vector);
        self.version_flags = (version << 4) | (flags & 0x0F);
    }

    /// Whether the multicast flag is set.
    pub fn is_multicast(&self) -> (res: bool)
        ensures
            res == has_flag(self.version_flags, flags::MULTICAST),
    {
        let b: u8 = self.version_flags;
        assert(((b % 16) & 0b1000 != 0) == ((b / 8) % 2 == 1)) by (bit_vector);
        self.flags() & flags::MULTICAST != 0
    }

    /// Whether the broadcast flag is set.
    pub fn is_broadcast(&self) -> (res: bool)
        ensures
            res == has_flag(self.version_flags, flags::BROADCAST),
    {
        let b: u8 = self.version_flags;
        assert(((b % 16) & 0b0100 != 0) == ((b / 4) % 2 == 1)) by (bit_vector);
        self.flags() & flags::BROADCAST != 0
    }

    /// Sets or clears the multicast flag.
    pub fn set_multicast(&mut self, on: bool)
        ensures
            *final(self) == (NhipHeader {
                version_flags: with_flag(old(self).version_flags, flags::MULTICAST, on),
                ..*old(self)
            }),
    {
        let f: u8 = self.flags();
        let new_f: u8 = if on {
            f | flags::MULTICAST
        } else {
            f & !flags::MULTICAST
        };
        proof {
            let b: u8 = self.version_flags;
            assert((((b / 16) % 16) * 16 + ((b % 16) | 8) % 16) == (if (b / 8) % 2 == 1 {
                b as int
            } else {
                b + 8
            })) by (bit_vector);
            assert((((b / 16) % 16) * 16 + ((b % 16) & !8u8) % 16) == (if (b / 8) % 2 == 1 {
                b - 8
            } else {
                b as int
            })) by (bit_vector);
        }
        self.set_version_flags(self.version(), new_f);
    }

    /// Sets or clears the broadcast flag.
    pub fn set_broadcast(&mut self, on: bool)
        ensures
            *final(self) == (NhipHeader {
                version_flags: with_flag(old(self).version_flags, flags::BROADCAST, on),
                ..*old(self)
            }),
    {
        let f: u8 = self.flags();
        let new_f: u8 = if on {
            f | flags::BROADCAST
        } else {
            f & !flags::BROADCAST
        };
        proof {
            let b: u8 = self.version_flags;
            assert((((b / 16) % 16) * 16 + ((b % 16) | 4) % 16) == (if (b / 4) % 2 == 1 {
                b as int
            } else {
                b + 4
            })) by (bit_vector);
            assert((((b / 16) % 16) * 16 + ((b % 16) & !4u8) % 16) == (if (b / 4) % 2 == 1 {
                b - 4
            } else {
                b as int
            })) by (bit_vector);
        }
        self.set_version_flags(self.version(), new_f);
    }

    /// The length of the header with the two addresses.
    pub fn total_header_len(&self) -> (res: usize)
        ensures
            res == NHIP_HEADER_LEN + self.dst_addr_len + 4 + self.src_addr_len + 4,
    {
        NHIP_HEADER_LEN + self.dst_addr_len as usize + 4 + self.src_addr_len as usize + 4
    }

    /// The length of the whole packet: header, addresses and payload.
    pub fn total_packet_len(&self) -> (res: usize)
        ensures
            res == packet_len(*self),
    {
        self.total_header_len() + self.payload_length as usize
    }

    /// The bytes of the header.
    pub fn to_bytes(&self) -> (res: Vec<u8>)
        ensures
            res@ == header_bytes(*self),
    {
        let mut res: Vec<u8> = Vec::new();
        res.push(self.version_flags);
        res.push(self.pointer);
        res.push(self.ttl);
        res.push(self.next_header);
        assert(res@ =~= seq![self.version_flags, self.pointer, self.ttl, self.next_header]);
        bytes::append(&mut res, bytes::bytes_of_u16(&self.payload_length));
        bytes::append(&mut res, bytes::bytes_of_u64(&self.link_label));
        bytes::append(&mut res, bytes::bytes_of_u16(&self.dst_addr_len));
        bytes::append(&mut res, bytes::bytes_of_u16(&self.src_addr_len));
        res
    }

    /// The header that the first bytes of a packet hold.
    pub fn from_bytes(data: &[u8]) -> (res: Self)
        requires
            data@.len() == NHIP_HEADER_LEN,
        ensures
            res == header_of(data@),
    {
        NhipHeader {
            version_flags: data[0],
            pointer: data[1],
            ttl: data[2],
            next_header: data[3],
            payload_length: bytes::read_u16(vstd::slice::slice_subrange(data, 4, 6)),
            link_label: bytes::read_u64(vstd::slice::slice_subrange(data, 6, 14)),
            dst_addr_len: bytes::read_u16(vstd::slice::slice_subrange(data, 14, 16)),
            src_addr_len: bytes::read_u16(vstd::slice::slice_subrange(data, 16, 18)),
        }
    }
}

/// A header has [`NHIP_HEADER_LEN`] bytes, and reads back as itself.
pub proof fn law_header_round_trip(h: NhipHeader)
    ensures
        header_bytes(h).len() == NHIP_HEADER_LEN,
        header_of(header_bytes(h)) == h,
{
    bytes::lemma_machine_round_trip(h.payload_length, 0, h.link_label);
    bytes::lemma_machine_round_trip(h.dst_addr_len, 0, 0);
    bytes::lemma_machine_round_trip(h.src_addr_len, 0, 0);
    let s = header_bytes(h);
    assert(s.subrange(4, 6) =~= bytes::native_bytes(h.payload_length as nat, 2));
    assert(s.subrange(6, 14) =~= bytes::native_bytes(h.link_label as nat, 8));
    assert(s.subrange(14, 16) =~= bytes::native_bytes(h.dst_addr_len as nat, 2));
    assert(s.subrange(16, 18) =~= bytes::native_bytes(h.src_addr_len as nat, 2));
}

/// Bytes that were read as a header are written again as they were.
pub proof fn law_header_bytes_round_trip(s: Seq<u8>)
    requires
        s.len() == NHIP_HEADER_LEN,
    ensures
        header_bytes(header_of(s)) == s,
{
    bytes::lemma_bytes_of_value(s.subrange(4, 6));
    bytes::lemma_bytes_of_value(s.subrange(6, 14));
    bytes::lemma_bytes_of_value(s.subrange(14, 16));
    bytes::lemma_bytes_of_value(s.subrange(16, 18));
    bytes::lemma_machine_bounds(s.subrange(4, 6));
    bytes::lemma_machine_bounds(s.subrange(6, 14));
    bytes::lemma_machine_bounds(s.subrange(14, 16));
    bytes::lemma_machine_bounds(s.subrange(16, 18));
    assert(header_bytes(header_of(s)) =~= s);
}

/// The flags are independent of each other and of the version: setting one is seen by its own
/// getter and by no other.
#[verifier::rlimit(30)]
pub proof fn law_flags_independent(b: u8, on: bool)
    ensures
        has_flag(with_flag(b, flags::MULTICAST, on), flags::MULTICAST) == on,
        has_flag(with_flag(b, flags::BROADCAST, on), flags::BROADCAST) == on,
        has_flag(with_flag(b, flags::MULTICAST, on), flags::BROADCAST) == has_flag(
            b,
            flags::BROADCAST,
        ),
        has_flag(with_flag(b, flags::BROADCAST, on), flags::MULTICAST) == has_flag(
            b,
            flags::MULTICAST,
        ),
        with_flag(b, flags::MULTICAST, on) / 16 == b / 16,
        with_flag(b, flags::BROADCAST, on) / 16 == b / 16,
{
}

/// What [`NhipHeader::set_version_flags`] writes, `version` and `flags` read: the low four
/// bits of each argument.
pub proof fn law_version_flags(version: u8, flags: u8)
    ensures
        nibbles(version, flags) / 16 == version % 16,
        nibbles(version, flags) % 16 == flags % 16,
{
}

} // verus!
