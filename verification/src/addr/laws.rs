//! What the rules for network parts, pointers and NodeIDs promise of every input.
use crate::addr::{AddrErr, BLOCK_SEPARATOR};
use crate::addr;
use crate::text;
use vstd::prelude::*;
use vstd::utf8::*;

verus! {

/// Whether `b` is an ASCII letter, an ASCII digit, a hyphen or an underscore.
pub open spec fn is_word_byte(b: u8) -> bool {
    'a' as u8 <= b <= 'z' as u8 || 'A' as u8 <= b <= 'Z' as u8 || '0' as u8 <= b <= '9' as u8 || b
        == '-' as u8 || b == '_' as u8
}

/// Whether `s` holds no period.
pub open spec fn is_undotted(s: Seq<u8>) -> bool {
    forall|i: int| 0 <= i < s.len() ==> s[i] != BLOCK_SEPARATOR
}

/// A period parts the blocks of a network part and the groups of a NodeID: what stands behind the
/// last one is the last of them.
pub proof fn law_blocks(s: Seq<u8>, b: Seq<u8>)
    requires
        is_undotted(b),
    ensures
        BLOCK_SEPARATOR == '.' as u8,
        addr::blocks_of(b) == seq![b],
        addr::blocks_of(s.push(BLOCK_SEPARATOR) + b) == addr::blocks_of(s).push(b),
    decreases b.len(),
{
    let all = s.push(BLOCK_SEPARATOR) + b;
    addr::lemma_blocks(s);
    if b.len() == 0 {
        assert(all =~= s.push(BLOCK_SEPARATOR));
        assert(all.drop_last() =~= s);
        assert(b =~= Seq::<u8>::empty());
        assert(addr::blocks_of(all) =~= addr::blocks_of(s).push(b));
    } else {
        let init = b.drop_last();
        assert forall|i: int| 0 <= i < init.len() implies init[i] != BLOCK_SEPARATOR by {
            assert(init[i] == b[i]);
        }
        law_blocks(s, init);
        assert(all.drop_last() =~= s.push(BLOCK_SEPARATOR) + init);
        assert(all.last() == b.last());
        assert(b[b.len() - 1] != BLOCK_SEPARATOR);
        assert(init.push(b.last()) =~= b);
        assert(addr::blocks_of(all) =~= addr::blocks_of(s).push(b));
        assert(addr::blocks_of(b) =~= seq![b]);
    }
}

/// A network part is accepted exactly if it has one to eight blocks of one to sixteen letters,
/// digits, hyphens and underscores, with a period between any two of them.
pub proof fn law_accepted(s: Seq<u8>)
    ensures
        addr::addr_check(s) is Ok <==> {
            &&& 1 <= s.len() <= 135
            &&& addr::blocks_of(s).len() <= 8
            &&& forall|i: int, j: int|
                0 <= i < addr::blocks_of(s).len() && 0 <= j < addr::blocks_of(s)[i].len()
                    ==> is_word_byte(#[trigger] addr::blocks_of(s)[i][j])
            &&& forall|i: int|
                0 <= i < addr::blocks_of(s).len() ==> 1 <= (#[trigger] addr::blocks_of(
                    s,
                )[i]).len() <= 16
        },
{
    addr::law_accepted_addr(s);
    let all = addr::blocks_of(s);
    if addr::addr_check(s) is Ok {
        assert forall|i: int, j: int| 0 <= i < all.len() && 0 <= j < all[i].len() implies is_word_byte(
            #[trigger] all[i][j],
        ) by {
            assert(addr::is_block(all[i]));
        }
        assert forall|i: int| 0 <= i < all.len() implies 1 <= (#[trigger] all[i]).len() <= 16 by {
            assert(addr::is_block(all[i]));
        }
    }
    if forall|i: int, j: int|
        0 <= i < all.len() && 0 <= j < all[i].len() ==> is_word_byte(#[trigger] all[i][j]) {
        assert forall|i: int|
            0 <= i < all.len() && 1 <= (#[trigger] all[i]).len() <= 16 implies addr::is_block(
            all[i],
        ) by {
            assert forall|j: int| 0 <= j < all[i].len() implies addr::is_block_byte(
                #[trigger] all[i][j],
            ) by {
                assert(is_word_byte(all[i][j]));
            }
        }
    }
}

proof fn lemma_sound(p: Seq<u8>)
    requires
        addr::addr_check(p) is Ok,
    ensures
        addr::sound(p),
        addr::run(p) > 0,
{
    addr::lemma_no_fault(p, p.len() as int);
    assert(p.take(p.len() as int) =~= p);
    addr::lemma_first_fault(p, 0);
}

proof fn lemma_sound_dot(p: Seq<u8>)
    requires
        p.len() > 0,
        p.last() == BLOCK_SEPARATOR,
        addr::addr_check(p.drop_last()) is Ok,
        addr::blocks_of(p).len() <= 8,
    ensures
        addr::sound(p),
{
    let q = p.drop_last();
    lemma_sound(q);
    addr::lemma_blocks(q);
    addr::law_accepted_addr(q);
    let before = addr::blocks_of(q);
    let after = addr::blocks_of(p);
    assert(after == before.push(Seq::empty()));
    assert forall|i: int| 0 <= i < after.len() - 1 implies addr::is_block(#[trigger] after[i]) by {
        assert(after[i] == before[i]);
    }
}

proof fn lemma_first_fault_behind(s: Seq<u8>, from: int, n: int)
    requires
        0 <= from <= n < s.len(),
        forall|i: int| 0 <= i < n ==> #[trigger] addr::addr_fault(s, i) is None,
        addr::addr_fault(s, n) is Some,
    ensures
        addr::first_addr_fault(s, from) == addr::addr_fault(s, n),
    decreases n - from,
{
    if from < n {
        assert(addr::addr_fault(s, from) is None);
        lemma_first_fault_behind(s, from + 1, n);
    }
}

proof fn lemma_fault_at(p: Seq<u8>, b: u8, rest: Seq<u8>)
    requires
        addr::sound(p),
    ensures
        ({
            let s = p.push(b) + rest;
            let n = p.len() as int;
            &&& addr::addr_fault(s, n) is Some ==> addr::first_addr_fault(s, 0) == addr::addr_fault(
                s,
                n,
            )
            &&& s[n] == b
            &&& s.take(n) == p
            &&& s.take(n + 1) == p.push(b)
        }),
{
    let s = p.push(b) + rest;
    let n = p.len() as int;
    assert(s.take(n) =~= p);
    assert(s.take(n + 1) =~= p.push(b));
    addr::lemma_no_fault(s, n);
    if addr::addr_fault(s, n) is Some {
        lemma_first_fault_behind(s, 0, n);
    }
}

/// The first byte that cannot stand where it stands decides why a network part is refused. Behind
/// an accepted network part `p` this is a byte that no block may have, the seventeenth byte of a
/// block, or the eighth period.
pub proof fn law_refused_behind_block(p: Seq<u8>, b: u8, rest: Seq<u8>)
    requires
        addr::addr_check(p) is Ok,
        p.len() + 1 + rest.len() <= 135,
    ensures
        ({
            let res = addr::addr_check(p.push(b) + rest);
            &&& !is_word_byte(b) && b != '.' as u8 ==> res == Err::<(), AddrErr>(
                AddrErr::InvalidChar,
            )
            &&& is_word_byte(b) && addr::blocks_of(p).last().len() == 16 ==> res == Err::<
                (),
                AddrErr,
            >(AddrErr::BlockTooLong)
            &&& b == '.' as u8 && addr::blocks_of(p).len() == 8 ==> res == Err::<(), AddrErr>(
                AddrErr::TooManyBlocks,
            )
            &&& b == '.' as u8 && addr::blocks_of(p).len() < 8 && rest.len() == 0 ==> res == Err::<
                (),
                AddrErr,
            >(AddrErr::EmptyBlock)
        }),
{
    let s = p.push(b) + rest;
    lemma_sound(p);
    lemma_fault_at(p, b, rest);
    addr::lemma_blocks(p);
    assert(p.push(b).drop_last() =~= p);
    if b == '.' as u8 && addr::blocks_of(p).len() < 8 && rest.len() == 0 {
        assert(s =~= p.push(b));
        lemma_sound_dot(s);
        addr::lemma_no_fault(s, s.len() as int);
        assert(s.take(s.len() as int) =~= s);
        addr::lemma_first_fault(s, 0);
        assert(s.drop_last() =~= p);
        addr::lemma_blocks(s);
    }
}

/// At the start of a block, which is the start of the network part or the place behind a period,
/// a period and a byte that no block may have are refused.
pub proof fn law_refused_at_block_start(p: Seq<u8>, b: u8, rest: Seq<u8>)
    requires
        p.len() == 0 || (p.last() == '.' as u8 && addr::addr_check(p.drop_last()) is Ok
            && addr::blocks_of(p).len() <= 8),
        p.len() + 1 + rest.len() <= 135,
    ensures
        ({
            let res = addr::addr_check(p.push(b) + rest);
            &&& b == '.' as u8 ==> res == Err::<(), AddrErr>(AddrErr::EmptyBlock)
            &&& !is_word_byte(b) && b != '.' as u8 ==> res == Err::<(), AddrErr>(
                AddrErr::InvalidChar,
            )
        }),
{
    if p.len() == 0 {
        assert(p =~= Seq::<u8>::empty());
        assert(addr::blocks_of(p) =~= seq![Seq::<u8>::empty()]);
    } else {
        lemma_sound_dot(p);
    }
    lemma_fault_at(p, b, rest);
}

/// The length of a network part is looked at before anything else.
pub proof fn law_refused_by_length(s: Seq<u8>)
    ensures
        addr::addr_check(s) == Err::<(), AddrErr>(AddrErr::Empty) <==> s.len() == 0,
        addr::addr_check(s) == Err::<(), AddrErr>(AddrErr::TooLong) <==> s.len() > 135,
{
    if 0 < s.len() <= 135 {
        lemma_fault_kind(s, 0);
    }
}

proof fn lemma_fault_kind(s: Seq<u8>, from: int)
    ensures
        addr::first_addr_fault(s, from) != Some(AddrErr::Empty),
        addr::first_addr_fault(s, from) != Some(AddrErr::TooLong),
    decreases s.len() - from,
{
    if 0 <= from < s.len() {
        lemma_fault_kind(s, from + 1);
    }
}

/// A pointer may be 0, 0xFF, or stand directly behind a period; no other pointer may.
pub proof fn law_pointer(s: Seq<u8>, pointer: u8)
    ensures
        addr::pointer_ok(s, 0),
        addr::pointer_ok(s, 0xFF),
        0 < pointer < 0xFF ==> (addr::pointer_ok(s, pointer) <==> exists|a: Seq<u8>, b: Seq<u8>|
            a.len() + 1 == pointer && s == #[trigger] (a.push('.' as u8) + b)),
{
    if 0 < pointer < 0xFF {
        if addr::pointer_ok(s, pointer) {
            let a = s.take(pointer - 1);
            let b = s.skip(pointer as int);
            assert(s =~= a.push('.' as u8) + b);
        }
    }
}

/// The next pointer stands behind the period that ends the first block. Where no block follows, it
/// is 0xFF; a block that starts too far on has none.
pub proof fn law_next_pointer(a: Seq<u8>, b: Seq<u8>)
    requires
        is_undotted(a),
    ensures
        addr::pointer_behind(a) == Some(0xFFu8),
        addr::pointer_behind(a.push('.' as u8)) == Some(0xFFu8),
        b.len() > 0 && a.len() < 0xFE ==> addr::pointer_behind(a.push('.' as u8) + b) == Some(
            (a.len() + 1) as u8,
        ),
        b.len() > 0 && a.len() >= 0xFE ==> addr::pointer_behind(a.push('.' as u8) + b) is None,
{
    lemma_first_separator_at(a, Seq::empty());
    assert(a + Seq::<u8>::empty() =~= a);
    lemma_first_separator_at(a, seq!['.' as u8]);
    assert(a + seq!['.' as u8] =~= a.push('.' as u8));
    lemma_first_separator_at(a, seq!['.' as u8] + b);
    assert(a + (seq!['.' as u8] + b) =~= a.push('.' as u8) + b);
}

proof fn lemma_first_separator_at(a: Seq<u8>, b: Seq<u8>)
    requires
        is_undotted(a),
        b.len() > 0 ==> b[0] == '.' as u8,
    ensures
        addr::first_separator(a + b) == a.len(),
    decreases a.len(),
{
    if a.len() > 0 {
        let rest = a.drop_first();
        assert forall|i: int| 0 <= i < rest.len() implies rest[i] != BLOCK_SEPARATOR by {
            assert(rest[i] == a[i + 1]);
        }
        lemma_first_separator_at(rest, b);
        assert((a + b).drop_first() =~= rest + b);
        assert((a + b)[0] == a[0]);
    } else {
        assert(a + b =~= b);
    }
}

/// Whether every byte of `s` is a digit.
pub open spec fn is_number(s: Seq<u8>) -> bool {
    forall|i: int| 0 <= i < s.len() ==> '0' as u8 <= #[trigger] s[i] <= '9' as u8
}

/// Whether every byte of `s` is a digit or a period.
pub open spec fn is_dotted_number(s: Seq<u8>) -> bool {
    forall|i: int|
        0 <= i < s.len() ==> '0' as u8 <= #[trigger] s[i] <= '9' as u8 || s[i] == '.' as u8
}

/// Whether the letter `l`, in either case, stands for `w`: `g` for billions, `m` for millions and
/// `k` for thousands.
pub open spec fn stands_for(l: u8, w: nat) -> bool {
    ||| (l == 'g' as u8 || l == 'G' as u8) && w == 1_000_000_000
    ||| (l == 'm' as u8 || l == 'M' as u8) && w == 1_000_000
    ||| (l == 'k' as u8 || l == 'K' as u8) && w == 1_000
}

/// Whether one of the letters g, m and k, in either case, occurs in `s`.
pub open spec fn is_lettered(s: Seq<u8>) -> bool {
    exists|i: int, w: nat| 0 <= i < s.len() && #[trigger] stands_for(s[i], w)
}

/// Whether the groups of `s` between periods have one to three bytes each.
pub open spec fn is_in_threes(s: Seq<u8>) -> bool {
    forall|i: int|
        0 <= i < addr::blocks_of(s).len() ==> 1 <= (#[trigger] addr::blocks_of(s)[i]).len() <= 3
}

/// The sum of the numbers that the groups `v` write.
pub open spec fn sum_of(v: Seq<Seq<u8>>) -> nat
    decreases v.len(),
{
    if v.len() == 0 {
        0
    } else {
        addr::decimal(v[0]) + sum_of(v.drop_first())
    }
}

/// A digit behind a number makes it ten times as large and adds itself.
pub proof fn law_decimal(s: Seq<u8>, d: nat)
    requires
        d < 10,
    ensures
        addr::decimal(Seq::empty()) == 0,
        addr::decimal(s.push(('0' as u8 + d) as u8)) == addr::decimal(s) * 10 + d,
{
    let b = ('0' as u8 + d) as u8;
    assert(s.push(b).drop_last() =~= s);
}

proof fn lemma_letters(s: Seq<u8>)
    ensures
        is_lettered(s) <==> addr::has_letter(s),
{
    if addr::has_letter(s) {
        let i = choose|i: int| 0 <= i < s.len() && addr::is_letter_byte(#[trigger] s[i]);
        assert(stands_for(s[i], addr::letter_weight(s[i])));
    }
    if is_lettered(s) {
        let (i, w) = choose|i: int, w: nat| 0 <= i < s.len() && #[trigger] stands_for(s[i], w);
        assert(addr::is_letter_byte(s[i]));
    }
}

proof fn lemma_no_letters(s: Seq<u8>)
    requires
        is_dotted_number(s),
    ensures
        !addr::has_letter(s),
{
    if addr::has_letter(s) {
        let i = choose|i: int| 0 <= i < s.len() && addr::is_letter_byte(#[trigger] s[i]);
        assert('0' as u8 <= s[i] <= '9' as u8 || s[i] == '.' as u8);
    }
}

proof fn lemma_digits_first(p: Seq<u8>, rest: Seq<u8>)
    requires
        is_number(p),
        rest.len() > 0 ==> !addr::is_digit_byte(rest[0]),
    ensures
        addr::digit_run(p + rest) == p.len(),
        (p + rest).take(p.len() as int) == p,
        (p + rest).skip(p.len() as int) == rest,
        p.len() > 0 ==> addr::is_digit_byte((p + rest)[0]),
{
    let s = p + rest;
    let k = p.len() as int;
    assert forall|i: int| 0 <= i < k implies addr::is_digit_byte(#[trigger] s[i]) by {
        assert(s[i] == p[i]);
    }
    if rest.len() > 0 {
        assert(s[k] == rest[0]);
    }
    addr::lemma_digit_run(s, k);
    assert(s.take(k) =~= p);
    assert(s.skip(k) =~= rest);
}

/// What the place directly behind the letter that stands for `w` makes of the next group.
spec fn place_behind(w: nat, rest: Seq<u8>) -> nat {
    if rest.len() > 0 && rest[0] == '.' as u8 {
        w / 1000
    } else {
        0
    }
}

proof fn lemma_letter_step(p: Seq<u8>, l: u8, w: nat, rest: Seq<u8>, place: nat)
    requires
        is_number(p),
        stands_for(l, w),
    ensures
        addr::has_letter(p.push(l) + rest),
        addr::letter_sum(p.push(l) + rest, place) == addr::decimal(p) * w + addr::letter_sum(
            rest,
            place_behind(w, rest),
        ),
{
    let s = p.push(l) + rest;
    let k = p.len() as int;
    assert(addr::letter_weight(l) == w);
    assert(s[k] == l);
    assert(addr::is_letter_byte(s[k]));
    assert(s =~= p + (seq![l] + rest));
    lemma_digits_first(p, seq![l] + rest);
    assert(s.skip(k + 1) =~= rest);
    let t = s.skip(k);
    assert(t[0] == l);
    if rest.len() > 0 {
        assert(t[1] == rest[0]);
    }
    assert(addr::weight_below(t) == place_behind(w, rest));
    if k == 0 {
        assert(p =~= Seq::<u8>::empty());
        assert(addr::decimal(p) == 0);
        assert(s.skip(1) =~= rest);
        assert(t =~= s);
        assert(0 * w == 0);
    }
}

proof fn lemma_dot_step(x: Seq<u8>, place: nat)
    requires
        place != 0 || addr::has_letter(x),
    ensures
        addr::letter_sum(seq!['.' as u8] + x, place) == addr::letter_sum(x, place),
        addr::has_letter(x) ==> addr::has_letter(seq!['.' as u8] + x),
{
    let s = seq!['.' as u8] + x;
    assert(s[0] == '.' as u8);
    assert(s.skip(1) =~= x);
    if addr::has_letter(x) {
        let i = choose|i: int| 0 <= i < x.len() && addr::is_letter_byte(#[trigger] x[i]);
        assert(addr::is_letter_byte(s[i + 1]));
    } else if addr::has_letter(s) {
        let i = choose|i: int| 0 <= i < s.len() && addr::is_letter_byte(#[trigger] s[i]);
        assert(addr::is_letter_byte(x[i - 1]));
    }
}

proof fn lemma_group_step(q: Seq<u8>, rest: Seq<u8>, place: nat)
    requires
        is_number(q),
        q.len() > 0,
        addr::has_letter(rest),
    ensures
        addr::letter_sum(q.push('.' as u8) + rest, place) == addr::decimal(q) * (if place == 0 {
            1
        } else {
            place
        }) + addr::letter_sum(rest, 0),
        addr::has_letter(q.push('.' as u8) + rest),
{
    let s = q.push('.' as u8) + rest;
    let behind = seq!['.' as u8] + rest;
    let k = q.len() as int;
    assert(s =~= q + behind);
    lemma_digits_first(q, behind);
    lemma_dot_step(rest, 0);
    let i = choose|i: int| 0 <= i < rest.len() && addr::is_letter_byte(#[trigger] rest[i]);
    assert(s[k + 1 + i] == rest[i]);
    assert(addr::has_letter(s));
    assert(s[k] == '.' as u8);
}

proof fn lemma_tail_step(q: Seq<u8>, rest: Seq<u8>, place: nat)
    requires
        is_number(q),
        q.len() > 0,
        is_dotted_number(rest),
        place != 0,
    ensures
        addr::letter_sum(q, place) == addr::decimal(q) * place,
        addr::letter_sum(q.push('.' as u8) + rest, place) == addr::decimal(q) * place
            + addr::dotted_value(rest),
{
    lemma_digits_first(q, Seq::empty());
    assert(q + Seq::<u8>::empty() =~= q);
    lemma_no_letters(q);
    assert(q.take(q.len() as int) =~= q);
    let none = Seq::<u8>::empty();
    assert(addr::blocks_of(none) =~= seq![none]);
    assert(!addr::are_short(addr::blocks_of(none))) by {
        assert(addr::blocks_of(none)[0].len() == 0);
    }
    assert(addr::group_sum(seq![none].drop_last()) == 0) by {
        assert(seq![none].drop_last() =~= Seq::<Seq<u8>>::empty());
    }
    assert(addr::decimal(none) == 0);
    assert(addr::dotted_value(none) == 0);
    let s = q.push('.' as u8) + rest;
    let behind = seq!['.' as u8] + rest;
    assert(s =~= q + behind);
    lemma_digits_first(q, behind);
    let k = q.len() as int;
    assert(s.skip(k + 1) =~= rest);
    assert(is_dotted_number(s)) by {
        assert forall|i: int| 0 <= i < s.len() implies '0' as u8 <= #[trigger] s[i] <= '9' as u8
            || s[i] == '.' as u8 by {
            if i < k {
                assert(s[i] == q[i]);
            } else if i > k {
                assert(s[i] == rest[i - k - 1]);
            }
        }
    }
    lemma_no_letters(s);
}

proof fn lemma_sum_of(v: Seq<Seq<u8>>)
    ensures
        sum_of(v) == addr::group_sum(v),
    decreases v.len(),
{
    if v.len() > 1 {
        let init = v.drop_last();
        let rest = v.drop_first();
        lemma_sum_of(init);
        lemma_sum_of(rest);
        assert(init.drop_first() =~= rest.drop_last());
        lemma_sum_of(rest.drop_last());
        assert(rest.last() == v.last());
        assert(init[0] == v[0]);
    } else if v.len() == 1 {
        assert(v.drop_last() =~= Seq::<Seq<u8>>::empty());
        assert(v.drop_first() =~= Seq::<Seq<u8>>::empty());
        assert(addr::group_sum(v.drop_last()) == 0);
        assert(sum_of(v.drop_first()) == 0);
        assert(v.last() == v[0]);
    }
}

/// What the digits and periods behind the last letter write: groups of one to three digits are one
/// number, as they are without letters, and any other groups are added.
pub open spec fn behind_letters(t: Seq<u8>) -> nat {
    if is_in_threes(t) {
        addr::node_value(t)
    } else {
        sum_of(addr::blocks_of(t))
    }
}

proof fn lemma_behind_letters(t: Seq<u8>)
    requires
        is_dotted_number(t),
    ensures
        addr::dotted_value(t) == behind_letters(t),
{
    lemma_no_letters(t);
    lemma_sum_of(addr::blocks_of(t));
    assert(is_in_threes(t) == addr::are_short(addr::blocks_of(t)));
}

/// A letter multiplies the digits directly in front of it, and what follows is added: `pLrest`
/// writes what `pL` and `rest` write together, where `rest` holds letters itself and does not start
/// with a period. A letter without digits adds nothing.
pub proof fn law_letter_adds(p: Seq<u8>, l: u8, w: nat, rest: Seq<u8>)
    requires
        is_number(p),
        stands_for(l, w),
        is_lettered(rest),
        rest[0] != '.' as u8,
    ensures
        addr::node_value(p.push(l) + rest) == addr::decimal(p) * w + addr::node_value(rest),
{
    lemma_letters(rest);
    lemma_letter_step(p, l, w, rest, 0);
}

/// The digits behind the last letter are added as the number that they write, however many they
/// are: `pLq` writes `p` times the letter plus `q`.
pub proof fn law_digits_behind_letter(p: Seq<u8>, l: u8, w: nat, q: Seq<u8>)
    requires
        is_number(p),
        stands_for(l, w),
        is_number(q),
    ensures
        addr::node_value(p.push(l) + q) == addr::decimal(p) * w + addr::decimal(q),
        p.len() + 1 + q.len() <= 16 && addr::decimal(p) * w + addr::decimal(q) <= 1_073_741_823
            ==> addr::node_id_check(p.push(l) + q) == Ok::<u32, AddrErr>(
            (addr::decimal(p) * w + addr::decimal(q)) as u32,
        ),
        p.len() + 1 + q.len() <= 16 && addr::decimal(p) * w + addr::decimal(q) > 1_073_741_823
            ==> addr::node_id_check(p.push(l) + q) == Err::<u32, AddrErr>(
            AddrErr::NodeIdOutOfRange,
        ),
{
    let s = p.push(l) + q;
    lemma_letter_step(p, l, w, q, 0);
    lemma_no_letters(q);
    assert forall|i: int| 0 <= i < q.len() implies addr::is_digit_byte(#[trigger] q[i]) by {}
    addr::lemma_digits_alone(q);
    if q.len() > 0 {
        assert(q[0] != '.' as u8);
    }
    assert(addr::group_sum(seq![q]) == addr::decimal(q)) by {
        assert(seq![q].drop_last() =~= Seq::<Seq<u8>>::empty());
        assert(addr::group_sum(Seq::<Seq<u8>>::empty()) == 0);
    }
    assert(addr::by_thousands(seq![q]) == addr::decimal(q)) by {
        assert(seq![q].drop_last() =~= Seq::<Seq<u8>>::empty());
        assert(addr::by_thousands(Seq::<Seq<u8>>::empty()) == 0);
    }
    assert forall|i: int| 0 <= i < s.len() implies addr::is_node_id_byte(#[trigger] s[i]) by {
        if i < p.len() {
            assert(s[i] == p[i]);
        } else if i > p.len() {
            assert(s[i] == q[i - p.len() - 1]);
        } else {
            assert(s[i] == l);
        }
    }
}

/// What stands behind the last letter: periods part it into groups. Groups of one to three digits
/// are read as without letters, and any others are added.
pub proof fn law_tail_behind_letter(p: Seq<u8>, l: u8, w: nat, t: Seq<u8>)
    requires
        is_number(p),
        stands_for(l, w),
        is_dotted_number(t),
        t.len() > 0 ==> t[0] != '.' as u8,
    ensures
        addr::node_value(p.push(l) + t) == addr::decimal(p) * w + behind_letters(t),
{
    lemma_letter_step(p, l, w, t, 0);
    lemma_no_letters(t);
    lemma_behind_letters(t);
}

/// A period directly behind a letter puts the next group into the place below the letter: a
/// thousandth of what the letter stands for. More periods there change nothing, and what stands
/// behind the group is read as it is behind a letter.
pub proof fn law_place_below_letter(p: Seq<u8>, l: u8, w: nat, q: Seq<u8>, t: Seq<u8>)
    requires
        is_number(p),
        stands_for(l, w),
        is_number(q),
        q.len() > 0,
        is_dotted_number(t),
    ensures
        addr::node_value(p.push(l).push('.' as u8) + q) == addr::decimal(p) * w + addr::decimal(q)
            * (w / 1000),
        addr::node_value(p.push(l).push('.' as u8) + (q.push('.' as u8) + t)) == addr::decimal(p)
            * w + addr::decimal(q) * (w / 1000) + behind_letters(t),
{
    let dot = seq!['.' as u8];
    let more = q.push('.' as u8) + t;
    lemma_letter_step(p, l, w, dot + q, 0);
    assert(p.push(l).push('.' as u8) + q =~= p.push(l) + (dot + q));
    lemma_dot_step(q, w / 1000);
    lemma_tail_step(q, t, w / 1000);
    lemma_letter_step(p, l, w, dot + more, 0);
    assert(p.push(l).push('.' as u8) + more =~= p.push(l) + (dot + more));
    lemma_dot_step(more, w / 1000);
    lemma_behind_letters(t);
}

/// The same where letters follow: the group in the place below the letter counts there, and the
/// rest is added.
pub proof fn law_place_below_letter_adds(p: Seq<u8>, l: u8, w: nat, q: Seq<u8>, rest: Seq<u8>)
    requires
        is_number(p),
        stands_for(l, w),
        is_number(q),
        q.len() > 0,
        is_lettered(rest),
    ensures
        addr::node_value(p.push(l).push('.' as u8) + (q.push('.' as u8) + rest)) == addr::decimal(
            p,
        ) * w + addr::decimal(q) * (w / 1000) + addr::node_value(rest),
{
    let dot = seq!['.' as u8];
    let more = q.push('.' as u8) + rest;
    lemma_letters(rest);
    lemma_group_step(q, rest, w / 1000);
    lemma_letter_step(p, l, w, dot + more, 0);
    assert(p.push(l).push('.' as u8) + more =~= p.push(l) + (dot + more));
    lemma_dot_step(more, w / 1000);
}

/// Periods between a letter and what follows: one more than the first has no meaning, and in front
/// of a group with a letter of its own none has.
pub proof fn law_needless_periods(p: Seq<u8>, l: u8, w: nat, x: Seq<u8>, q: Seq<u8>, m: u8, v: nat)
    requires
        is_number(p),
        stands_for(l, w),
        is_number(q),
        stands_for(m, v),
    ensures
        addr::node_value(p.push(l).push('.' as u8).push('.' as u8) + x) == addr::node_value(
            p.push(l).push('.' as u8) + x,
        ),
        addr::node_value(p.push(l).push('.' as u8) + (q.push(m) + x)) == addr::node_value(
            p.push(l) + (q.push(m) + x),
        ),
{
    let dot = seq!['.' as u8];
    lemma_letter_step(p, l, w, dot + x, 0);
    lemma_letter_step(p, l, w, dot + (dot + x), 0);
    lemma_dot_step(dot + x, w / 1000);
    assert(p.push(l).push('.' as u8) + x =~= p.push(l) + (dot + x));
    assert(p.push(l).push('.' as u8).push('.' as u8) + x =~= p.push(l) + (dot + (dot + x)));
    let y = q.push(m) + x;
    lemma_letter_step(p, l, w, dot + y, 0);
    lemma_letter_step(p, l, w, y, 0);
    assert(p.push(l).push('.' as u8) + y =~= p.push(l) + (dot + y));
    lemma_letter_step(q, m, v, x, 0);
    lemma_letter_step(q, m, v, x, w / 1000);
    lemma_dot_step(y, w / 1000);
    if q.len() > 0 {
        assert(y[0] == q[0]);
    }
}

/// In front of a later letter, a group that a period ends counts by itself, and a period in front
/// of everything has no meaning.
pub proof fn law_group_by_itself(q: Seq<u8>, rest: Seq<u8>)
    requires
        is_number(q),
        q.len() > 0,
        is_lettered(rest),
    ensures
        addr::node_value(q.push('.' as u8) + rest) == addr::decimal(q) + addr::node_value(rest),
        addr::node_value(seq!['.' as u8] + rest) == addr::node_value(rest),
{
    lemma_letters(rest);
    lemma_group_step(q, rest, 0);
    lemma_dot_step(rest, 0);
}

/// Without letters, digits alone are the number that they write, and a group of one to three digits
/// behind groups of that kind makes the number a thousand times as large and adds itself.
pub proof fn law_thousands(s: Seq<u8>, g: Seq<u8>)
    requires
        is_dotted_number(s),
        is_number(g),
    ensures
        addr::node_value(g) == addr::decimal(g),
        is_in_threes(s) && 1 <= g.len() <= 3 ==> addr::node_value(s.push('.' as u8) + g)
            == addr::node_value(s) * 1000 + addr::decimal(g),
{
    assert forall|i: int| 0 <= i < g.len() implies addr::is_digit_byte(#[trigger] g[i]) by {}
    addr::lemma_digits_alone(g);
    assert(is_dotted_number(g));
    lemma_no_letters(g);
    lemma_no_letters(s);
    let t = s.push('.' as u8) + g;
    assert(is_dotted_number(t)) by {
        assert forall|i: int| 0 <= i < t.len() implies '0' as u8 <= #[trigger] t[i] <= '9' as u8
            || t[i] == '.' as u8 by {
            if i < s.len() {
                assert(t[i] == s[i]);
            } else if i > s.len() {
                assert(t[i] == g[i - s.len() - 1]);
            }
        }
    }
    lemma_no_letters(t);
    law_blocks(s, g);
    if is_in_threes(s) && 1 <= g.len() <= 3 {
        let before = addr::blocks_of(s);
        let after = addr::blocks_of(t);
        assert(after == before.push(g));
        assert(after.drop_last() =~= before);
        assert forall|i: int| 0 <= i < after.len() implies 1 <= (#[trigger] after[i]).len() <= 3 by {
            if i < before.len() {
                assert(after[i] == before[i]);
            }
        }
    }
}

/// Without letters, periods that leave a group empty or longer than three digits have no meaning.
pub proof fn law_meaningless_periods(s: Seq<u8>)
    requires
        is_dotted_number(s),
        !is_in_threes(s),
    ensures
        addr::node_value(s) == addr::decimal(s.filter(|b: u8| b != '.' as u8)),
{
    lemma_no_letters(s);
    lemma_without_dots(s);
}

proof fn lemma_without_dots(s: Seq<u8>)
    ensures
        addr::without_dots(s) == s.filter(|b: u8| b != '.' as u8),
    decreases s.len(),
{
    reveal(Seq::filter);
    if s.len() > 0 {
        lemma_without_dots(s.drop_last());
    }
}

/// A NodeID is refused exactly if it is empty, has more than sixteen bytes, holds a byte that is no
/// digit, period or letter g, m or k, or writes a number that is too large: more than 1,073,741,823
/// with letters, and more than four bytes hold without. Otherwise it is the number that it writes.
pub proof fn law_node_id(raw: Seq<u8>)
    ensures
        ({
            let res = addr::node_id_check(raw);
            let stray = exists|i: int|
                0 <= i < raw.len() && !is_dotted_number(seq![#[trigger] raw[i]]) && !is_lettered(
                    seq![raw[i]],
                );
            let max: nat = if is_lettered(raw) {
                1_073_741_823
            } else {
                0xFFFF_FFFF
            };
            if raw.len() == 0 {
                res == Err::<u32, AddrErr>(AddrErr::NoNodeId)
            } else if raw.len() > 16 {
                res == Err::<u32, AddrErr>(AddrErr::NodeIdTooLong)
            } else if stray {
                res == Err::<u32, AddrErr>(AddrErr::InvalidChar)
            } else if addr::node_value(raw) > max {
                res == Err::<u32, AddrErr>(AddrErr::NodeIdOutOfRange)
            } else {
                res is Ok && res.unwrap() == addr::node_value(raw)
            }
        }),
{
    lemma_letters(raw);
    assert forall|i: int| 0 <= i < raw.len() implies (#[trigger] addr::is_node_id_byte(raw[i])
        <==> is_dotted_number(seq![raw[i]]) || is_lettered(seq![raw[i]])) by {
        let one = seq![raw[i]];
        lemma_letters(one);
        assert(one[0] == raw[i]);
        if addr::has_letter(one) {
            let j = choose|j: int| 0 <= j < one.len() && addr::is_letter_byte(#[trigger] one[j]);
            assert(j == 0);
        } else {
            assert(!addr::is_letter_byte(one[0]));
        }
    }
    let stray = exists|i: int|
        0 <= i < raw.len() && !is_dotted_number(seq![#[trigger] raw[i]]) && !is_lettered(
            seq![raw[i]],
        );
    if stray {
        let i = choose|i: int|
            0 <= i < raw.len() && !is_dotted_number(seq![#[trigger] raw[i]]) && !is_lettered(
                seq![raw[i]],
            );
        assert(!addr::is_node_id_byte(raw[i]));
    } else {
        assert forall|i: int| 0 <= i < raw.len() implies addr::is_node_id_byte(#[trigger] raw[i]) by {
            assert(is_dotted_number(seq![raw[i]]) || is_lettered(seq![raw[i]]));
        }
    }
}

/// The NodeID of an address stands behind its last colon. An address without a colon has none.
pub proof fn law_addr_node_id(net: Seq<char>, id: Seq<char>)
    requires
        text::laws::is_free(id, ':'),
    ensures
        addr::addr_node_id(net.push(':') + id) == addr::node_id_check(encode_utf8(id)),
        addr::addr_node_id(id) == Err::<u32, AddrErr>(AddrErr::NoNodeId),
{
    text::laws::law_around(net, ':', id);
    text::laws::law_around(id, ':', id);
}

/// A letter g, m or k, in either case, has the weight that it stands for, and no other byte has one.
pub proof fn law_letters(l: u8, w: nat)
    ensures
        stands_for(l, w) ==> addr::is_letter_byte(l) && addr::letter_weight(l) == w,
        addr::is_letter_byte(l) ==> stands_for(l, addr::letter_weight(l)),
{
}

/// Periods behind the last letter with no group behind them add nothing.
pub proof fn law_periods_at_end(p: Seq<u8>, l: u8, w: nat)
    requires
        is_number(p),
        stands_for(l, w),
    ensures
        addr::node_value(p.push(l).push('.' as u8)) == addr::decimal(p) * w,
{
    let dot = seq!['.' as u8];
    let none = Seq::<u8>::empty();
    lemma_letter_step(p, l, w, dot, 0);
    assert(p.push(l) + dot =~= p.push(l).push('.' as u8));
    assert(dot + none =~= dot);
    lemma_dot_step(none, w / 1000);
    lemma_no_letters(none);
}

} // verus!
