//! Network-part validation, pointers and NodeID notation.
use crate::number;
use crate::text;
use vstd::arithmetic::power::*;
use vstd::prelude::*;
use vstd::string::*;
use vstd::utf8::*;

pub mod laws;

verus! {

/// The most blocks that a network part may have.
pub const MAX_ADDR_BLOCKS: u8 = 8;

/// The most bytes that a block may have.
pub const MAX_BLOCK_LEN: usize = 16;

/// The longest network part: eight blocks of sixteen bytes and seven periods.
pub const MAX_ADDR_LEN: usize = 135;

/// The longest NodeID in text form.
pub const MAX_NODE_ID_LEN: usize = 16;

/// The period between the blocks of a network part.
pub const BLOCK_SEPARATOR: u8 = 0x2e;

/// The colon between a network part and a NodeID.
pub const ADDR_PARTS_SEPARATOR: u8 = 0x3a;

/// The NodeID that means every node of a network.
pub const BROADCAST_NODE_ID: u32 = 1_000_000_000;

/// The largest NodeID. Only a notation with letters is held to it.
pub const MAX_NODE_ID: u32 = 1_073_741_823;

/// Why an address was refused.
#[derive(Debug, Clone, Copy, PartialEq, Eq, Structural)]
pub enum AddrErr {
    Empty,
    TooLong,
    TooManyBlocks,
    BlockTooLong,
    NodeIdTooLong,
    InvalidChar,
    NoNodeId,
    EmptyBlock,
    NodeIdOutOfRange,
}

/// Whether `b` may stand in a block: an ASCII letter or digit, a hyphen or an underscore.
pub open spec fn is_block_byte(b: u8) -> bool {
    0x61 <= b <= 0x7a || 0x41 <= b <= 0x5a || 0x30 <= b <= 0x39 || b == 0x2d || b == 0x5f
}

/// How many bytes stand behind the last separator of `s`.
pub open spec fn run(s: Seq<u8>) -> nat
    decreases s.len(),
{
    if s.len() == 0 || s.last() == BLOCK_SEPARATOR {
        0
    } else {
        1 + run(s.drop_last())
    }
}

/// How many bytes of `s` are block separators.
pub open spec fn separators(s: Seq<u8>) -> nat
    decreases s.len(),
{
    if s.len() == 0 {
        0
    } else {
        separators(s.drop_last()) + if s.last() == BLOCK_SEPARATOR {
            1nat
        } else {
            0nat
        }
    }
}

/// What is wrong with the byte of `s` at `i`, given the bytes in front of it.
pub open spec fn addr_fault(s: Seq<u8>, i: int) -> Option<AddrErr> {
    if is_block_byte(s[i]) {
        if run(s.take(i + 1)) > MAX_BLOCK_LEN {
            Some(AddrErr::BlockTooLong)
        } else {
            None
        }
    } else if s[i] == BLOCK_SEPARATOR {
        if run(s.take(i)) == 0 {
            Some(AddrErr::EmptyBlock)
        } else if separators(s.take(i + 1)) + 1 > MAX_ADDR_BLOCKS {
            Some(AddrErr::TooManyBlocks)
        } else {
            None
        }
    } else {
        Some(AddrErr::InvalidChar)
    }
}

/// The first fault in `s` at `from` or behind it.
pub open spec fn first_addr_fault(s: Seq<u8>, from: int) -> Option<AddrErr>
    decreases s.len() - from,
{
    if from < 0 || from >= s.len() {
        None
    } else {
        match addr_fault(s, from) {
            Some(e) => Some(e),
            None => first_addr_fault(s, from + 1),
        }
    }
}

/// The verdict on a network part: the first fault decides, and where there is none the last
/// block must not be empty.
pub open spec fn addr_check(s: Seq<u8>) -> Result<(), AddrErr> {
    if s.len() == 0 {
        Err(AddrErr::Empty)
    } else if s.len() > MAX_ADDR_LEN {
        Err(AddrErr::TooLong)
    } else {
        match first_addr_fault(s, 0) {
            Some(e) => Err(e),
            None => if s.last() == BLOCK_SEPARATOR {
                Err(AddrErr::EmptyBlock)
            } else {
                Ok(())
            },
        }
    }
}

/// Validates a network part.
pub fn validate_addr(addr: &[u8]) -> (res: Result<(), AddrErr>)
    ensures
        res == addr_check(addr@),
{
    if addr.is_empty() {
        return Err(AddrErr::Empty);
    }
    if addr.len() > MAX_ADDR_LEN {
        return Err(AddrErr::TooLong);
    }
    let mut block_count: u8 = 1;
    let mut block_len: usize = 0;
    for i in 0..addr.len()
        invariant
            0 < addr@.len() <= MAX_ADDR_LEN,
            block_len == run(addr@.take(i as int)) <= MAX_BLOCK_LEN,
            block_count == 1 + separators(addr@.take(i as int)) <= MAX_ADDR_BLOCKS,
            first_addr_fault(addr@, 0) == first_addr_fault(addr@, i as int),
    {
        let byte: u8 = addr[i];
        assert(addr@.take(i + 1).drop_last() =~= addr@.take(i as int));
        if 0x61 <= byte && byte <= 0x7a || 0x41 <= byte && byte <= 0x5a || 0x30 <= byte && byte
            <= 0x39 || byte == 0x2d || byte == 0x5f {
            block_len += 1;
            if block_len > MAX_BLOCK_LEN {
                return Err(AddrErr::BlockTooLong);
            }
        } else if byte == BLOCK_SEPARATOR {
            if block_len == 0 {
                return Err(AddrErr::EmptyBlock);
            }
            block_count += 1;
            if block_count > MAX_ADDR_BLOCKS {
                return Err(AddrErr::TooManyBlocks);
            }
            block_len = 0;
        } else {
            return Err(AddrErr::InvalidChar);
        }
    }
    assert(addr@.take(addr@.len() as int) =~= addr@);
    if block_len == 0 {
        return Err(AddrErr::EmptyBlock);
    }
    Ok(())
}

/// The blocks of `s`: its pieces between separators, one more than there are separators.
pub open spec fn blocks_of(s: Seq<u8>) -> Seq<Seq<u8>>
    decreases s.len(),
{
    if s.len() == 0 {
        seq![Seq::empty()]
    } else {
        let before = blocks_of(s.drop_last());
        if s.last() == BLOCK_SEPARATOR {
            before.push(Seq::empty())
        } else {
            before.update(before.len() - 1, before.last().push(s.last()))
        }
    }
}

/// Whether `b` is a block: one to [`MAX_BLOCK_LEN`] block characters.
pub open spec fn is_block(b: Seq<u8>) -> bool {
    &&& 0 < b.len() <= MAX_BLOCK_LEN
    &&& forall|i: int| 0 <= i < b.len() ==> is_block_byte(#[trigger] b[i])
}

/// A network part is accepted exactly if it has between one and [`MAX_ADDR_LEN`] bytes and is
/// made of at most [`MAX_ADDR_BLOCKS`] blocks, each of them one to [`MAX_BLOCK_LEN`] block
/// characters.
pub proof fn law_accepted_addr(s: Seq<u8>)
    ensures
        addr_check(s) is Ok <==> {
            &&& 0 < s.len() <= MAX_ADDR_LEN
            &&& blocks_of(s).len() <= MAX_ADDR_BLOCKS
            &&& forall|i: int| 0 <= i < blocks_of(s).len() ==> is_block(#[trigger] blocks_of(s)[i])
        },
{
    if 0 < s.len() <= MAX_ADDR_LEN {
        lemma_no_fault(s, s.len() as int);
        assert(s.take(s.len() as int) =~= s);
        lemma_first_fault(s, 0);
        lemma_blocks(s);
        let all = blocks_of(s);
        let last = all.len() - 1;
        if addr_check(s) is Ok {
            assert(sound(s));
            assert(all[last].len() == run(s));
        }
        if forall|i: int| 0 <= i < all.len() ==> is_block(#[trigger] all[i]) {
            assert(is_block(all[last]));
            assert forall|i: int| 0 <= i < last implies is_block(#[trigger] all[i]) by {}
        }
    }
}

/// There is no first fault exactly if there is none.
pub proof fn lemma_first_fault(s: Seq<u8>, from: int)
    requires
        0 <= from <= s.len(),
    ensures
        first_addr_fault(s, from) is None <==> forall|i: int|
            from <= i < s.len() ==> #[trigger] addr_fault(s, i) is None,
    decreases s.len() - from,
{
    if from < s.len() {
        lemma_first_fault(s, from + 1);
    }
}

/// Whether `s` can be the start of an accepted network part.
spec fn sound(s: Seq<u8>) -> bool {
    let all = blocks_of(s);
    &&& all.len() <= MAX_ADDR_BLOCKS
    &&& forall|i: int| 0 <= i < all.len() - 1 ==> is_block(#[trigger] all[i])
    &&& all.last().len() <= MAX_BLOCK_LEN
    &&& forall|i: int| 0 <= i < all.last().len() ==> is_block_byte(#[trigger] all.last()[i])
}

proof fn lemma_blocks(s: Seq<u8>)
    ensures
        blocks_of(s).len() == separators(s) + 1,
        blocks_of(s).last().len() == run(s),
    decreases s.len(),
{
    if s.len() > 0 {
        lemma_blocks(s.drop_last());
    }
}

proof fn lemma_no_fault(s: Seq<u8>, n: int)
    requires
        0 <= n <= s.len(),
    ensures
        (forall|i: int| 0 <= i < n ==> #[trigger] addr_fault(s, i) is None) <==> sound(s.take(n)),
    decreases n,
{
    let t = s.take(n);
    if n == 0 {
        assert(t =~= Seq::<u8>::empty());
        assert(blocks_of(t) =~= seq![Seq::<u8>::empty()]);
    } else {
        let u = s.take(n - 1);
        assert(t.drop_last() =~= u);
        assert(t.last() == s[n - 1]);
        lemma_no_fault(s, n - 1);
        lemma_blocks(t);
        lemma_blocks(u);
        let before = blocks_of(u);
        let after = blocks_of(t);
        let last = before.len() - 1;
        assert(before[last] == before.last());
        if forall|i: int| 0 <= i < n ==> #[trigger] addr_fault(s, i) is None {
            assert(addr_fault(s, n - 1) is None);
            assert(sound(u));
            assert forall|i: int| 0 <= i < after.len() - 1 implies is_block(#[trigger] after[i]) by {
                assert(after[i] == before[i]);
            }
        }
        if sound(t) {
            if s[n - 1] == BLOCK_SEPARATOR {
                assert(after[last] == before[last]);
                assert(is_block(after[last]));
                assert forall|i: int| 0 <= i < last implies is_block(#[trigger] before[i]) by {
                    assert(after[i] == before[i]);
                }
            } else {
                let grown = before.last().push(s[n - 1]);
                assert(after.last() == grown);
                assert(grown[grown.len() - 1] == s[n - 1]);
                assert(is_block_byte(after.last()[after.last().len() - 1]));
                assert forall|i: int| 0 <= i < before.last().len() implies is_block_byte(
                    #[trigger] before.last()[i],
                ) by {
                    assert(grown[i] == before.last()[i]);
                    assert(is_block_byte(after.last()[i]));
                }
                assert forall|i: int| 0 <= i < last implies is_block(#[trigger] before[i]) by {
                    assert(after[i] == before[i]);
                }
            }
            assert(sound(u));
            assert(addr_fault(s, n - 1) is None);
        }
    }
}

/// Whether `pointer` may stand in a header beside the network part `s`.
pub open spec fn pointer_ok(s: Seq<u8>, pointer: u8) -> bool {
    pointer == 0 || pointer == 0xFF || (pointer <= s.len() && s[pointer - 1] == BLOCK_SEPARATOR)
}

/// Validates a pointer: 0 is the start of the network part, 0xFF the start of the NodeID,
/// and any other pointer stands directly behind a separator.
pub fn validate_pointer(addr: &[u8], pointer: u8) -> (res: bool)
    ensures
        res == pointer_ok(addr@, pointer),
{
    if pointer == 0 || pointer == 0xFF {
        return true;
    }
    let idx: usize = pointer as usize;
    if idx > addr.len() {
        return false;
    }
    addr[idx - 1] == BLOCK_SEPARATOR
}

/// The place of the first separator in `s`, or the length of `s` if there is none.
pub open spec fn first_separator(s: Seq<u8>) -> int
    decreases s.len(),
{
    if s.len() == 0 || s[0] == BLOCK_SEPARATOR {
        0
    } else {
        1 + first_separator(s.drop_first())
    }
}

/// The pointer to the block behind the first one of `s`: 0xFF if the first block is the last, and
/// nothing if that block is further on than a pointer can say.
pub open spec fn pointer_behind(s: Seq<u8>) -> Option<u8> {
    let p = first_separator(s) + 1;
    if p >= s.len() {
        Some(0xFF)
    } else if p < 0xFF {
        Some(p as u8)
    } else {
        None
    }
}

/// Calculates the pointer to the next block: 0xFF if there is none, which is the start of the
/// NodeID.
pub fn next_pointer(addr: &[u8]) -> (res: Option<u8>)
    ensures
        res == pointer_behind(addr@),
        (forall|i: int| 0 <= i < addr@.len() ==> addr@[i] != BLOCK_SEPARATOR) ==> res == Some(
            0xFFu8,
        ),
{
    let len: usize = addr.len();
    let mut p: usize = 0;
    assert(addr@.skip(0) =~= addr@);
    while p < len && addr[p] != BLOCK_SEPARATOR
        invariant
            p <= len == addr@.len(),
            first_separator(addr@) == p + first_separator(addr@.skip(p as int)),
        decreases len - p,
    {
        assert(addr@.skip(p as int).drop_first() =~= addr@.skip(p + 1));
        p += 1;
    }
    assert(first_separator(addr@) == p);
    if p == len || p + 1 == len {
        Some(0xFF)
    } else if p + 1 < 0xFF {
        Some((p + 1) as u8)
    } else {
        None
    }
}

/// The next pointer is one that may stand in a header beside the network part.
pub proof fn law_next_pointer_is_valid(s: Seq<u8>)
    ensures
        pointer_behind(s) matches Some(p) ==> pointer_ok(s, p),
{
    lemma_first_separator(s);
}

proof fn lemma_first_separator(s: Seq<u8>)
    ensures
        0 <= first_separator(s) <= s.len(),
        first_separator(s) < s.len() ==> s[first_separator(s)] == BLOCK_SEPARATOR,
    decreases s.len(),
{
    if s.len() > 0 && s[0] != BLOCK_SEPARATOR {
        lemma_first_separator(s.drop_first());
    }
}

/// Whether `b` is an ASCII digit.
pub open spec fn is_digit_byte(b: u8) -> bool {
    0x30 <= b <= 0x39
}

/// Whether `b` is one of the multiplier letters g, m and k, in either case.
pub open spec fn is_letter_byte(b: u8) -> bool {
    letter_weight(b) != 0
}

/// What the multiplier letter `b` stands for: billions, millions or thousands; 0 for any
/// other byte.
pub open spec fn letter_weight(b: u8) -> nat {
    if b == 0x67 || b == 0x47 {
        1_000_000_000
    } else if b == 0x6d || b == 0x4d {
        1_000_000
    } else if b == 0x6b || b == 0x4b {
        1_000
    } else {
        0
    }
}

/// How many digits `s` starts with.
pub open spec fn digit_run(s: Seq<u8>) -> nat
    decreases s.len(),
{
    if s.len() == 0 || !is_digit_byte(s[0]) {
        0
    } else {
        1 + digit_run(s.drop_first())
    }
}

/// The decimal number that the digits `s` write.
pub open spec fn decimal(s: Seq<u8>) -> nat
    decreases s.len(),
{
    if s.len() == 0 {
        0
    } else {
        decimal(s.drop_last()) * 10 + (s.last() - 0x30) as nat
    }
}

/// The weight of the group behind a dot that directly follows the letter `s[0]`: the place
/// next below the letter's. 0 if no dot follows.
pub open spec fn weight_below(s: Seq<u8>) -> nat {
    if s.len() > 1 && s[1] == BLOCK_SEPARATOR {
        letter_weight(s[0]) / 1000
    } else {
        0
    }
}

/// Whether every group has one to three digits.
pub open spec fn are_short(groups: Seq<Seq<u8>>) -> bool {
    forall|i: int| 0 <= i < groups.len() ==> 1 <= (#[trigger] groups[i]).len() <= 3
}

/// The number that groups of digits write, three places apart.
pub open spec fn by_thousands(groups: Seq<Seq<u8>>) -> nat
    decreases groups.len(),
{
    if groups.len() == 0 {
        0
    } else {
        by_thousands(groups.drop_last()) * 1000 + decimal(groups.last())
    }
}

/// The sum of the numbers that groups of digits write.
pub open spec fn group_sum(groups: Seq<Seq<u8>>) -> nat
    decreases groups.len(),
{
    if groups.len() == 0 {
        0
    } else {
        group_sum(groups.drop_last()) + decimal(groups.last())
    }
}

/// `s` without its dots.
pub open spec fn without_dots(s: Seq<u8>) -> Seq<u8>
    decreases s.len(),
{
    if s.len() == 0 {
        Seq::empty()
    } else if s.last() == BLOCK_SEPARATOR {
        without_dots(s.drop_last())
    } else {
        without_dots(s.drop_last()).push(s.last())
    }
}

/// The number that a NodeID without letters writes. Groups of one to three digits are three
/// places apart, counted from the right; in any other notation the dots have no meaning.
pub open spec fn plain_value(s: Seq<u8>) -> nat {
    if are_short(blocks_of(s)) {
        by_thousands(blocks_of(s))
    } else {
        decimal(without_dots(s))
    }
}

/// The number that the digits and dots behind the last letter write. Groups of one to three
/// digits are three places apart, counted from the right; in any other notation each group
/// counts by itself.
pub open spec fn dotted_value(s: Seq<u8>) -> nat {
    if are_short(blocks_of(s)) {
        by_thousands(blocks_of(s))
    } else {
        group_sum(blocks_of(s))
    }
}

/// The number that the digits and dots `s` behind the last letter add, where `weight`, unless it
/// is 0, is the place that a dot directly behind that letter gives to the first group.
pub open spec fn tail_value(s: Seq<u8>, weight: nat) -> nat
    decreases s.len(),
{
    if weight == 0 {
        dotted_value(s)
    } else if s.len() == 0 {
        0
    } else if is_digit_byte(s[0]) {
        let k = digit_run(s) as int;
        decimal(s.take(k)) * weight + dotted_value(
            if k < s.len() {
                s.skip(k + 1)
            } else {
                Seq::empty()
            },
        )
    } else {
        tail_value(s.skip(1), weight)
    }
}

/// Whether `s` holds a multiplier letter.
pub open spec fn has_letter(s: Seq<u8>) -> bool {
    exists|i: int| 0 <= i < s.len() && is_letter_byte(#[trigger] s[i])
}

/// The number that the rest `s` of a NodeID with letters adds, where `weight`, unless it is 0, is
/// the place that a dot directly behind a letter gives to the next group.
///
/// A letter multiplies the group directly in front of it. A dot directly behind a letter puts
/// the next group into the place below that letter, unless that group has a letter of its own.
/// Any other group in front of a letter counts by itself.
pub open spec fn letter_sum(s: Seq<u8>, weight: nat) -> nat
    decreases s.len(),
{
    if !has_letter(s) {
        tail_value(s, weight)
    } else if is_digit_byte(s[0]) {
        let k = digit_run(s) as int;
        let group = decimal(s.take(k));
        if k <= 0 || k >= s.len() {
            0
        } else if is_letter_byte(s[k]) {
            group * letter_weight(s[k]) + letter_sum(s.skip(k + 1), weight_below(s.skip(k)))
        } else {
            group * (if weight == 0 {
                1
            } else {
                weight
            }) + letter_sum(s.skip(k), 0)
        }
    } else if is_letter_byte(s[0]) {
        letter_sum(s.skip(1), weight_below(s))
    } else {
        letter_sum(s.skip(1), weight)
    }
}

/// The number that a NodeID writes.
pub open spec fn node_value(raw: Seq<u8>) -> nat {
    if has_letter(raw) {
        letter_sum(raw, 0)
    } else {
        plain_value(raw)
    }
}

/// Whether `b` may stand in a NodeID: a digit, a dot or a multiplier letter.
pub open spec fn is_node_id_byte(b: u8) -> bool {
    is_digit_byte(b) || b == BLOCK_SEPARATOR || is_letter_byte(b)
}

/// The largest number that the notation `raw` may write.
pub open spec fn node_id_limit(raw: Seq<u8>) -> nat {
    if has_letter(raw) {
        MAX_NODE_ID as nat
    } else {
        u32::MAX as nat
    }
}

/// The verdict on a NodeID in text form, or the number that it writes.
pub open spec fn node_id_check(raw: Seq<u8>) -> Result<u32, AddrErr> {
    if raw.len() == 0 {
        Err(AddrErr::NoNodeId)
    } else if raw.len() > MAX_NODE_ID_LEN {
        Err(AddrErr::NodeIdTooLong)
    } else if exists|i: int| 0 <= i < raw.len() && !is_node_id_byte(#[trigger] raw[i]) {
        Err(AddrErr::InvalidChar)
    } else if node_value(raw) > node_id_limit(raw) {
        Err(AddrErr::NodeIdOutOfRange)
    } else {
        Ok(node_value(raw) as u32)
    }
}

/// Whether `b` is a multiplier letter.
pub fn is_letter(b: u8) -> (res: bool)
    ensures
        res == is_letter_byte(b),
{
    b == 0x67 || b == 0x47 || b == 0x6d || b == 0x4d || b == 0x6b || b == 0x4b
}

/// What the multiplier letter `b` stands for.
pub fn letter_multiplier(b: u8) -> (res: Option<u32>)
    ensures
        match res {
            Some(w) => is_letter_byte(b) && w == letter_weight(b),
            None => !is_letter_byte(b),
        },
{
    if b == 0x67 || b == 0x47 {
        Some(1_000_000_000)
    } else if b == 0x6d || b == 0x4d {
        Some(1_000_000)
    } else if b == 0x6b || b == 0x4b {
        Some(1_000)
    } else {
        None
    }
}

proof fn lemma_digit_run(s: Seq<u8>, k: int)
    requires
        0 <= k <= s.len(),
        forall|i: int| 0 <= i < k ==> is_digit_byte(#[trigger] s[i]),
        k < s.len() ==> !is_digit_byte(s[k]),
    ensures
        digit_run(s) == k,
    decreases s.len(),
{
    if k > 0 {
        let rest = s.drop_first();
        assert forall|i: int| 0 <= i < k - 1 implies is_digit_byte(#[trigger] rest[i]) by {
            assert(rest[i] == s[i + 1]);
        }
        lemma_digit_run(rest, k - 1);
    }
}

/// The least number that is beyond every NodeID.
const BEYOND: u64 = 0x1_0000_0000;

/// `v`, or [`BEYOND`] where it is larger.
spec fn capped(v: nat) -> nat {
    if v > BEYOND {
        BEYOND as nat
    } else {
        v
    }
}

proof fn lemma_capped(a: nat, w: nat, b: nat)
    requires
        w >= 1,
    ensures
        capped(capped(a) * w + capped(b)) == capped(a * w + b),
{
    let m = BEYOND as nat;
    if a > m {
        assert(a * w >= m * w && m * w >= m) by (nonlinear_arith)
            requires
                a > m,
                w >= 1,
                m >= 0,
        ;
    } else if b > m {
        assert(a * w >= 0) by (nonlinear_arith)
            requires
                a >= 0,
                w >= 1,
        ;
    }
}

fn cap(v: u64) -> (res: u64)
    ensures
        res == capped(v as nat),
{
    if v > BEYOND {
        BEYOND
    } else {
        v
    }
}

/// Reads the digits of `raw` from `start` on: where they end, and the number that they write.
fn read_group(raw: &[u8], start: usize) -> (res: (usize, u64))
    requires
        start < raw@.len(),
        is_digit_byte(raw@[start as int]),
    ensures
        start < res.0 <= raw@.len(),
        res.0 - start == digit_run(raw@.skip(start as int)),
        res.0 < raw@.len() ==> !is_digit_byte(raw@[res.0 as int]),
        forall|j: int| start <= j < res.0 ==> is_digit_byte(#[trigger] raw@[j]),
        res.1 == capped(decimal(raw@.subrange(start as int, res.0 as int))),
{
    let len: usize = raw.len();
    let mut i: usize = start;
    let mut value: u64 = 0;
    let ghost rest = raw@.skip(start as int);
    assert(rest.take(0) =~= Seq::<u8>::empty());
    while i < len && 0x30 <= raw[i] && raw[i] <= 0x39
        invariant
            start <= i <= len,
            len == raw@.len(),
            rest == raw@.skip(start as int),
            forall|j: int| 0 <= j < i - start ==> is_digit_byte(#[trigger] rest[j]),
            value == capped(decimal(rest.take(i - start))),
        decreases len - i,
    {
        assert(rest[i - start] == raw@[i as int]);
        assert(rest.take(i - start + 1).drop_last() =~= rest.take(i - start));
        let digit: u64 = (raw[i] - 0x30) as u64;
        proof {
            lemma_capped(decimal(rest.take(i - start)), 10, digit as nat);
        }
        value = cap(value * 10 + digit);
        i += 1;
    }
    proof {
        if i < len {
            assert(rest[i - start] == raw@[i as int]);
        }
        assert(rest[0] == raw@[start as int]);
        lemma_digit_run(rest, i - start);
        assert(rest.take(i - start) =~= raw@.subrange(start as int, i as int));
        assert forall|j: int| start <= j < i implies is_digit_byte(#[trigger] raw@[j]) by {
            assert(rest[j - start] == raw@[j]);
        }
    }
    (i, value)
}

/// What digits and dots write.
struct Dotted {
    /// Whether every group has one to three digits.
    short: bool,
    /// The groups three places apart.
    thousands: u64,
    /// The sum of the groups.
    sum: u64,
    /// The digits without the dots.
    digits: u64,
}

/// Reads the digits and dots of `raw` from `start` on.
fn read_dotted(raw: &[u8], start: usize) -> (res: Dotted)
    requires
        start <= raw@.len(),
        forall|j: int|
            start <= j < raw@.len() ==> is_digit_byte(#[trigger] raw@[j]) || raw@[j]
                == BLOCK_SEPARATOR,
    ensures
        ({
            let s = raw@.skip(start as int);
            &&& res.short == are_short(blocks_of(s))
            &&& res.thousands == capped(by_thousands(blocks_of(s)))
            &&& res.sum == capped(group_sum(blocks_of(s)))
            &&& res.digits == capped(decimal(without_dots(s)))
        }),
{
    let len: usize = raw.len();
    let ghost s = raw@.skip(start as int);
    let mut short: bool = true;
    let mut group_len: usize = 0;
    let mut group: u64 = 0;
    let mut thousands: u64 = 0;
    let mut sum: u64 = 0;
    let mut digits: u64 = 0;
    assert(blocks_of(s.take(0)) =~= seq![Seq::<u8>::empty()]);
    assert(blocks_of(s.take(0)).drop_last() =~= Seq::<Seq<u8>>::empty());
    for i in start..len
        invariant
            start <= len,
            len == raw@.len(),
            s == raw@.skip(start as int),
            forall|j: int|
                start <= j < raw@.len() ==> is_digit_byte(#[trigger] raw@[j]) || raw@[j]
                    == BLOCK_SEPARATOR,
            blocks_of(s.take(i - start)).len() > 0,
            group_len == blocks_of(s.take(i - start)).last().len() <= i - start,
            group == capped(decimal(blocks_of(s.take(i - start)).last())),
            short == are_short(blocks_of(s.take(i - start)).drop_last()),
            thousands == capped(by_thousands(blocks_of(s.take(i - start)).drop_last())),
            sum == capped(group_sum(blocks_of(s.take(i - start)).drop_last())),
            digits == capped(decimal(without_dots(s.take(i - start)))),
    {
        let ghost t = s.take(i - start);
        let ghost u = s.take(i - start + 1);
        let ghost before = blocks_of(t);
        let ghost after = blocks_of(u);
        let b: u8 = raw[i];
        assert(u.drop_last() =~= t);
        assert(u.last() == b);
        if b == BLOCK_SEPARATOR {
            proof {
                lemma_capped(by_thousands(before.drop_last()), 1000, decimal(before.last()));
                lemma_capped(group_sum(before.drop_last()), 1, decimal(before.last()));
                assert(after.drop_last() =~= before);
                assert(before =~= before.drop_last().push(before.last()));
                lemma_are_short(before);
            }
            short = short && 1 <= group_len && group_len <= 3;
            thousands = cap(thousands * 1000 + group);
            sum = cap(sum + group);
            group = 0;
            group_len = 0;
        } else {
            let digit: u64 = (b - 0x30) as u64;
            proof {
                let last = before.last();
                lemma_capped(decimal(last), 10, digit as nat);
                lemma_capped(decimal(without_dots(t)), 10, digit as nat);
                assert(after.drop_last() =~= before.drop_last());
                assert(after.last() == last.push(b));
                assert(last.push(b).drop_last() =~= last);
                assert(without_dots(u).drop_last() =~= without_dots(t));
            }
            group = cap(group * 10 + digit);
            digits = cap(digits * 10 + digit);
            group_len += 1;
        }
    }
    assert(s.take(len - start) =~= s);
    proof {
        let all = blocks_of(s);
        lemma_capped(by_thousands(all.drop_last()), 1000, decimal(all.last()));
        lemma_capped(group_sum(all.drop_last()), 1, decimal(all.last()));
        lemma_are_short(all);
    }
    Dotted {
        short: short && 1 <= group_len && group_len <= 3,
        thousands: cap(thousands * 1000 + group),
        sum: cap(sum + group),
        digits,
    }
}

proof fn lemma_are_short(groups: Seq<Seq<u8>>)
    requires
        groups.len() > 0,
    ensures
        are_short(groups) <==> are_short(groups.drop_last()) && 1 <= groups.last().len() <= 3,
{
    let init = groups.drop_last();
    if are_short(groups) {
        assert forall|i: int| 0 <= i < init.len() implies 1 <= (#[trigger] init[i]).len() <= 3 by {
            assert(init[i] == groups[i]);
        }
        assert(1 <= groups[groups.len() - 1].len() <= 3);
    }
    if are_short(init) && 1 <= groups.last().len() <= 3 {
        assert forall|i: int| 0 <= i < groups.len() implies 1 <= (#[trigger] groups[i]).len()
            <= 3 by {
            if i < init.len() {
                assert(init[i] == groups[i]);
            }
        }
    }
}

/// Reads what stands behind the last letter of `raw`, from `start` on, where `weight`, unless it
/// is 0, is the place of the first group.
fn read_tail(raw: &[u8], start: usize, weight: u64) -> (res: u64)
    requires
        start <= raw@.len(),
        weight <= 1_000_000,
        forall|j: int|
            start <= j < raw@.len() ==> is_digit_byte(#[trigger] raw@[j]) || raw@[j]
                == BLOCK_SEPARATOR,
    ensures
        res == capped(tail_value(raw@.skip(start as int), weight as nat)),
{
    let len: usize = raw.len();
    let ghost s = raw@.skip(start as int);
    if weight == 0 {
        let d = read_dotted(raw, start);
        return if d.short {
            d.thousands
        } else {
            d.sum
        };
    }
    let mut i: usize = start;
    while i < len && raw[i] == BLOCK_SEPARATOR
        invariant
            start <= i <= len,
            len == raw@.len(),
            weight != 0,
            tail_value(s, weight as nat) == tail_value(raw@.skip(i as int), weight as nat),
        decreases len - i,
    {
        assert(raw@.skip(i as int)[0] == raw@[i as int]);
        assert(raw@.skip(i as int).skip(1) =~= raw@.skip(i + 1));
        i += 1;
    }
    if i == len {
        return 0;
    }
    let ghost rest = raw@.skip(i as int);
    assert(rest[0] == raw@[i as int]);
    let (end, group) = read_group(raw, i);
    let ghost k = end - i;
    assert(rest.take(k) =~= raw@.subrange(i as int, end as int));
    let behind: usize = if end < len {
        end + 1
    } else {
        len
    };
    assert(raw@.skip(behind as int) =~= if k < rest.len() {
        rest.skip(k + 1)
    } else {
        Seq::empty()
    });
    let d = read_dotted(raw, behind);
    let more: u64 = if d.short {
        d.thousands
    } else {
        d.sum
    };
    proof {
        lemma_capped(
            decimal(rest.take(k)),
            weight as nat,
            dotted_value(raw@.skip(behind as int)),
        );
        assert(group * weight <= 0x1_0000_0000 * 1_000_000) by (nonlinear_arith)
            requires
                0 <= group <= 0x1_0000_0000,
                0 <= weight <= 1_000_000,
        ;
    }
    cap(group * weight + more)
}

/// Reads a NodeID.
///
/// The letters g, m and k, of either case, multiply the group of digits directly in front of
/// them by a billion, a million and a thousand. Dots part a number into groups of three digits,
/// counted from the right, where leading zeros may be left out: `32.7.1` is 32,007,001. A
/// dot directly behind a letter puts the next group into the place below the letter:
/// `1g.73` is 1,073,000,000 and `1g73` is 1,000,000,073.
///
/// Where a group is empty or longer than three digits the dots have no meaning: without letters
/// `12.3456` is 123,456, and behind a letter each group counts by itself. So does a group in
/// front of a dot and a later letter: `1.2k` is 2,001.
pub fn parse_node_id(raw: &[u8]) -> (res: Result<u32, AddrErr>)
    ensures
        res == node_id_check(raw@),
{
    if raw.is_empty() {
        return Err(AddrErr::NoNodeId);
    }
    if raw.len() > MAX_NODE_ID_LEN {
        return Err(AddrErr::NodeIdTooLong);
    }
    let len: usize = raw.len();
    // Just behind the last letter, or 0 where there is none.
    let mut end: usize = 0;
    for i in 0..len
        invariant
            0 < len <= MAX_NODE_ID_LEN,
            len == raw@.len(),
            end <= i,
            end > 0 ==> is_letter_byte(raw@[end - 1]),
            forall|j: int| end <= j < i ==> !is_letter_byte(#[trigger] raw@[j]),
            forall|j: int| 0 <= j < i ==> is_node_id_byte(#[trigger] raw@[j]),
    {
        let b: u8 = raw[i];
        if is_letter(b) {
            end = i + 1;
        } else if b != BLOCK_SEPARATOR && (b < 0x30 || b > 0x39) {
            assert(!is_node_id_byte(raw@[i as int]));
            return Err(AddrErr::InvalidChar);
        }
    }
    let ghost total = node_value(raw@);
    assert(forall|j: int|
        end <= j < raw@.len() ==> is_digit_byte(#[trigger] raw@[j]) || raw@[j] == BLOCK_SEPARATOR)
        by {
        assert forall|j: int| end <= j < raw@.len() implies is_digit_byte(#[trigger] raw@[j])
            || raw@[j] == BLOCK_SEPARATOR by {
            assert(is_node_id_byte(raw@[j]));
        }
    }
    assert(raw@.skip(0) =~= raw@);
    if end == 0 {
        assert(!has_letter(raw@));
        let d = read_dotted(raw, 0);
        let value: u64 = if d.short {
            d.thousands
        } else {
            d.digits
        };
        if value > u32::MAX as u64 {
            return Err(AddrErr::NodeIdOutOfRange);
        }
        return Ok(value as u32);
    }
    assert(is_letter_byte(raw@[end - 1]));
    assert(has_letter(raw@));
    let ghost mut done: nat = 0;
    let mut result: u64 = 0;
    let mut weight: u64 = 0;
    let mut i: usize = 0;
    while i < end
        invariant
            i <= end <= len,
            len == raw@.len() <= MAX_NODE_ID_LEN,
            end > 0,
            is_letter_byte(raw@[end - 1]),
            forall|j: int| 0 <= j < raw@.len() ==> is_node_id_byte(#[trigger] raw@[j]),
            weight <= 1_000_000,
            result == capped(done),
            total == done + letter_sum(raw@.skip(i as int), weight as nat),
        decreases end - i,
    {
        let ghost rest = raw@.skip(i as int);
        let b: u8 = raw[i];
        proof {
            assert(rest[0] == b);
            assert(rest[end - 1 - i] == raw@[end - 1]);
            assert(has_letter(rest));
            assert(is_node_id_byte(raw@[i as int]));
        }
        if 0x30 <= b && b <= 0x39 {
            let (stop, group) = read_group(raw, i);
            let ghost k = stop - i;
            proof {
                if stop >= end {
                    assert(is_digit_byte(raw@[end - 1]));
                }
                assert(rest.take(k) =~= raw@.subrange(i as int, stop as int));
                assert(rest.skip(k) =~= raw@.skip(stop as int));
                assert(rest[k] == raw@[stop as int]);
                assert(rest.skip(k + 1) =~= raw@.skip(stop + 1));
                assert(rest.skip(k)[0] == raw@[stop as int]);
                if stop + 1 < len {
                    assert(rest.skip(k)[1] == raw@[stop + 1]);
                }
            }
            let ghost number = decimal(rest.take(k));
            match letter_multiplier(raw[stop]) {
                Some(mult) => {
                    proof {
                        lemma_capped(number, mult as nat, done);
                        assert(group * mult <= 0x1_0000_0000 * 1_000_000_000) by (nonlinear_arith)
                            requires
                                0 <= group <= 0x1_0000_0000,
                                0 <= mult <= 1_000_000_000,
                        ;
                        done = number * mult as nat + done;
                    }
                    result = cap(group * mult as u64 + result);
                    weight = if stop + 1 < len && raw[stop + 1] == BLOCK_SEPARATOR {
                        mult as u64 / 1000
                    } else {
                        0
                    };
                    i = stop + 1;
                },
                None => {
                    let place: u64 = if weight == 0 {
                        1
                    } else {
                        weight
                    };
                    proof {
                        lemma_capped(number, place as nat, done);
                        assert(group * place <= 0x1_0000_0000 * 1_000_000) by (nonlinear_arith)
                            requires
                                0 <= group <= 0x1_0000_0000,
                                0 <= place <= 1_000_000,
                        ;
                        done = number * place as nat + done;
                    }
                    result = cap(group * place + result);
                    weight = 0;
                    i = stop;
                },
            }
        } else if is_letter(b) {
            proof {
                assert(rest.skip(1) =~= raw@.skip(i + 1));
                if i + 1 < len {
                    assert(rest[1] == raw@[i + 1]);
                }
            }
            weight = match letter_multiplier(b) {
                Some(mult) => if i + 1 < len && raw[i + 1] == BLOCK_SEPARATOR {
                    mult as u64 / 1000
                } else {
                    0
                },
                None => 0,
            };
            i += 1;
        } else {
            assert(rest.skip(1) =~= raw@.skip(i + 1));
            i += 1;
        }
    }
    proof {
        let rest = raw@.skip(end as int);
        assert forall|j: int| 0 <= j < rest.len() implies !is_letter_byte(#[trigger] rest[j]) by {
            assert(rest[j] == raw@[end + j]);
        }
        assert(!has_letter(rest));
        lemma_capped(done, 1, tail_value(rest, weight as nat));
    }
    let value: u64 = cap(result + read_tail(raw, end, weight));
    if value > MAX_NODE_ID as u64 {
        return Err(AddrErr::NodeIdOutOfRange);
    }
    Ok(value as u32)
}

/// The verdict on the NodeID of an address: the text behind its last colon.
pub open spec fn addr_node_id(addr: Seq<char>) -> Result<u32, AddrErr> {
    if text::last_pos(addr, ':') < 0 {
        Err(AddrErr::NoNodeId)
    } else {
        node_id_check(encode_utf8(text::after_last(addr, ':')))
    }
}

/// Reads the NodeID of an address of the form `network-part:NodeID`.
pub fn get_node_id_from_addr_str(addr: &str) -> (res: Result<u32, AddrErr>)
    ensures
        res == addr_node_id(addr@),
{
    let chars = text::to_chars(addr);
    match text::find_last(&chars, ':') {
        Some(_) => {
            let raw = text::tail(addr, ':');
            parse_node_id(raw.as_str().as_bytes())
        },
        None => Err(AddrErr::NoNodeId),
    }
}

proof fn lemma_digits_alone(s: Seq<u8>)
    requires
        forall|i: int| 0 <= i < s.len() ==> is_digit_byte(#[trigger] s[i]),
    ensures
        blocks_of(s) == seq![s],
        without_dots(s) == s,
        plain_value(s) == decimal(s),
    decreases s.len(),
{
    if s.len() > 0 {
        let init = s.drop_last();
        assert forall|i: int| 0 <= i < init.len() implies is_digit_byte(#[trigger] init[i]) by {
            assert(init[i] == s[i]);
        }
        lemma_digits_alone(init);
        assert(is_digit_byte(s[s.len() - 1]));
        assert(init.push(s.last()) =~= s);
        assert(blocks_of(s) =~= seq![s]);
    } else {
        assert(s =~= Seq::<u8>::empty());
        assert(blocks_of(s) =~= seq![s]);
    }
    assert(seq![s].drop_last() =~= Seq::<Seq<u8>>::empty());
    assert(by_thousands(Seq::<Seq<u8>>::empty()) == 0);
    assert(by_thousands(seq![s]) == decimal(s));
}

proof fn lemma_dec_text_bytes(n: nat)
    ensures
        is_ascii_chars(number::dec_text(n)),
        encode_utf8(number::dec_text(n)).len() == number::dec_text(n).len() > 0,
        forall|i: int|
            0 <= i < number::dec_text(n).len() ==> is_digit_byte(#[trigger] encode_utf8(number::dec_text(n))[i]),
        decimal(encode_utf8(number::dec_text(n))) == n,
        n < 10 ==> number::dec_text(n).len() == 1,
        n >= 10 ==> number::dec_text(n).len() == 1 + number::dec_text(n / 10).len(),
    decreases n,
{
    let t = number::dec_text(n);
    number::law_decimal_round_trip(n);
    assert forall|i: int| 0 <= i < t.len() implies '\0' <= #[trigger] t[i] <= '\u{7f}' by {
        assert(number::digit_value(t[i], 10) is Some);
    }
    is_ascii_chars_encode_utf8(t);
    let b = encode_utf8(t);
    assert forall|i: int| 0 <= i < t.len() implies is_digit_byte(#[trigger] b[i]) by {
        assert(number::digit_value(t[i], 10) is Some);
        assert(t[i] as u8 == b[i]);
    }
    if n < 10 {
        assert(t[0] == number::dec_digit(n));
        assert(b.drop_last() =~= Seq::<u8>::empty());
        assert(b.last() == t[0] as u8);
        assert(decimal(b.drop_last()) == 0);
    } else {
        lemma_dec_text_bytes(n / 10);
        let u = number::dec_text(n / 10);
        is_ascii_chars_encode_utf8(u);
        assert forall|i: int| 0 <= i < u.len() implies b.drop_last()[i] == encode_utf8(u)[i] by {
            assert(t[i] == u[i]);
            assert(t[i] as u8 == b[i]);
            assert(u[i] as u8 == encode_utf8(u)[i]);
        }
        assert(b.drop_last() =~= encode_utf8(u));
        assert(t.last() == number::dec_digit(n % 10));
        assert(b.last() == t.last() as u8);
    }
}

/// A NodeID written in plain decimal reads back as itself, whatever the number.
pub proof fn law_decimal_node_id(n: u32)
    ensures
        node_id_check(encode_utf8(number::dec_text(n as nat))) == Ok::<u32, AddrErr>(n),
{
    let raw = encode_utf8(number::dec_text(n as nat));
    lemma_dec_text_bytes(n as nat);
    lemma_digits_alone(raw);
    assert(pow(10, 10) == 10_000_000_000) by {
        reveal_with_fuel(pow, 11);
    }
    lemma_dec_len(n as nat, 9);
    assert forall|i: int| 0 <= i < raw.len() implies is_node_id_byte(raw[i]) && !is_letter_byte(
        raw[i],
    ) by {
        assert(is_digit_byte(raw[i]));
    }
    assert(forall|i: int| 0 <= i < raw.len() ==> is_node_id_byte(#[trigger] raw[i]));
    assert(node_id_limit(raw) == u32::MAX);
}

proof fn lemma_dec_len(n: nat, k: nat)
    requires
        n < pow(10, k + 1),
    ensures
        number::dec_text(n).len() <= k + 1,
    decreases k,
{
    lemma_dec_text_bytes(n);
    reveal(pow);
    if n >= 10 {
        if k == 0 {
            assert(pow(10, 1) == 10 * pow(10, 0));
        } else {
            lemma_dec_len(n / 10, (k - 1) as nat);
        }
    }
}

} // verus!
