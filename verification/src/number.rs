//! Numbers as text: unsigned numbers in a radix, decimal digits and hexadecimal bytes.
use crate::text;
use vstd::prelude::*;

pub mod laws;

verus! {

/// The value of `c` as a digit in `radix`, letters of either case counting from ten.
pub open spec fn digit_value(c: char, radix: nat) -> Option<nat> {
    let v: int = if '0' <= c && c <= '9' {
        c as int - '0' as int
    } else if 'a' <= c && c <= 'z' {
        c as int - 'a' as int + 10
    } else if 'A' <= c && c <= 'Z' {
        c as int - 'A' as int + 10
    } else {
        36
    };
    if v < radix && v < 36 {
        Some(v as nat)
    } else {
        None
    }
}

/// Whether every character of `s` is a digit in `radix`.
pub open spec fn all_digits(s: Seq<char>, radix: nat) -> bool {
    forall|i: int| 0 <= i < s.len() ==> digit_value(#[trigger] s[i], radix) is Some
}

/// The number that the digits `s` write in `radix`, most significant first.
pub open spec fn digits_value(s: Seq<char>, radix: nat) -> nat
    decreases s.len(),
{
    if s.len() == 0 {
        0
    } else {
        digits_value(s.drop_last(), radix) * radix + digit_value(s.last(), radix).unwrap_or(0)
    }
}

/// The number that `s` writes in `radix`: an optional `+`, then one digit or more.
pub open spec fn unsigned_value(s: Seq<char>, radix: nat) -> Option<nat> {
    let body = if s.len() > 0 && s[0] == '+' {
        s.skip(1)
    } else {
        s
    };
    if body.len() > 0 && all_digits(body, radix) {
        Some(digits_value(body, radix))
    } else {
        None
    }
}

/// What `s` writes in `radix`, if it is a number of at most `max`.
pub open spec fn bounded_value(s: Seq<char>, radix: nat, max: nat) -> Option<nat> {
    match unsigned_value(s, radix) {
        Some(v) => if v <= max {
            Some(v)
        } else {
            None
        },
        None => None,
    }
}

/// The value of `c` as a digit in `radix`.
pub fn to_digit(c: char, radix: u32) -> (res: Option<u32>)
    ensures
        match res {
            Some(v) => digit_value(c, radix as nat) == Some(v as nat) && v < radix,
            None => digit_value(c, radix as nat) is None,
        },
{
    let v: u32 = if '0' <= c && c <= '9' {
        c as u32 - '0' as u32
    } else if 'a' <= c && c <= 'z' {
        c as u32 - 'a' as u32 + 10
    } else if 'A' <= c && c <= 'Z' {
        c as u32 - 'A' as u32 + 10
    } else {
        36
    };
    if v < radix && v < 36 {
        Some(v)
    } else {
        None
    }
}

proof fn lemma_digits_value_monotone(s: Seq<char>, n: int, radix: nat)
    requires
        0 <= n <= s.len(),
        radix >= 1,
    ensures
        digits_value(s.take(n), radix) <= digits_value(s, radix),
    decreases s.len(),
{
    if n < s.len() {
        lemma_digits_value_monotone(s.drop_last(), n, radix);
        assert(s.drop_last().take(n) =~= s.take(n));
        let low = digits_value(s.drop_last(), radix);
        assert(low <= low * radix) by (nonlinear_arith)
            requires
                radix >= 1,
        ;
    } else {
        assert(s.take(n) =~= s);
    }
}

/// The number that `s` writes in `radix`, if it is one of at most `max`.
pub fn parse_unsigned(s: &str, radix: u32, max: u32) -> (res: Option<u32>)
    requires
        2 <= radix <= 36,
    ensures
        match res {
            Some(v) => bounded_value(s@, radix as nat, max as nat) == Some(v as nat),
            None => bounded_value(s@, radix as nat, max as nat) is None,
        },
{
    let chars = text::to_chars(s);
    let len: usize = chars.len();
    let start: usize = if len > 0 && chars[0] == '+' {
        1
    } else {
        0
    };
    let ghost body = s@.skip(start as int);
    assert(start == 0 ==> body =~= s@);
    if start == len {
        return None;
    }
    let mut value: u64 = 0;
    for i in start..len
        invariant
            2 <= radix <= 36,
            start <= len,
            len == s@.len(),
            chars@ == s@,
            body == s@.skip(start as int),
            unsigned_value(s@, radix as nat) == (if body.len() > 0 && all_digits(
                body,
                radix as nat,
            ) {
                Some(digits_value(body, radix as nat))
            } else {
                None::<nat>
            }),
            value <= max,
            forall|j: int|
                0 <= j < i - start ==> digit_value(#[trigger] body[j], radix as nat) is Some,
            value == digits_value(body.take(i - start), radix as nat),
    {
        let ghost n = i - start;
        match to_digit(chars[i], radix) {
            Some(d) => {
                proof {
                    assert(body[n] == s@[i as int]);
                    assert(body.take(n + 1).drop_last() =~= body.take(n));
                    assert(value * radix <= 0xffff_ffff * 36) by (nonlinear_arith)
                        requires
                            0 <= value <= 0xffff_ffff,
                            0 <= radix <= 36,
                    ;
                    lemma_digits_value_monotone(body, n + 1, radix as nat);
                }
                value = value * radix as u64 + d as u64;
                if value > max as u64 {
                    return None;
                }
            },
            None => {
                assert(body[n] == s@[i as int]);
                return None;
            },
        }
    }
    assert(body.take(body.len() as int) =~= body);
    Some(value as u32)
}

/// The decimal number that `s` writes, if it fits.
pub fn parse_u32(s: &str) -> (res: Option<u32>)
    ensures
        match res {
            Some(v) => bounded_value(s@, 10, u32::MAX as nat) == Some(v as nat),
            None => bounded_value(s@, 10, u32::MAX as nat) is None,
        },
{
    parse_unsigned(s, 10, u32::MAX)
}

/// The hexadecimal number that `s` writes, if it fits.
pub fn parse_hex_u8(s: &str) -> (res: Option<u8>)
    ensures
        match res {
            Some(v) => bounded_value(s@, 16, 255) == Some(v as nat),
            None => bounded_value(s@, 16, 255) is None,
        },
{
    match parse_unsigned(s, 16, 255) {
        Some(v) => Some(v as u8),
        None => None,
    }
}

/// The decimal digit for `v`.
pub open spec fn dec_digit(v: nat) -> char {
    (('0' as u8) + v) as char
}

/// `n` in decimal, without leading zeros.
pub open spec fn dec_text(n: nat) -> Seq<char>
    decreases n,
{
    if n < 10 {
        seq![dec_digit(n)]
    } else {
        dec_text(n / 10).push(dec_digit(n % 10))
    }
}

/// Appends `n` in decimal.
pub fn push_u32(out: &mut String, n: u32)
    ensures
        final(out)@ == old(out)@ + dec_text(n as nat),
    decreases n,
{
    if n >= 10 {
        push_u32(out, n / 10);
    }
    let d: u8 = (n % 10) as u8;
    out.push(('0' as u8 + d) as char);
    assert(out@ =~= old(out)@ + dec_text(n as nat));
}

/// The hexadecimal digit for `v`, in lower case.
pub open spec fn hex_digit(v: nat) -> char {
    if v < 10 {
        (('0' as u8) + v) as char
    } else {
        (('a' as u8) + v - 10) as char
    }
}

/// `data` in hexadecimal, two lower-case digits for each byte.
pub open spec fn hex_text(data: Seq<u8>) -> Seq<char> {
    Seq::new(
        2 * data.len(),
        |i: int|
            if i % 2 == 0 {
                hex_digit(data[i / 2] as nat / 16)
            } else {
                hex_digit(data[i / 2] as nat % 16)
            },
    )
}

/// The bytes that `s` writes in hexadecimal: an even number of digits, of either case.
pub open spec fn unhex(s: Seq<char>) -> Option<Seq<u8>> {
    if s.len() % 2 == 0 && all_digits(s, 16) {
        Some(
            Seq::new(
                s.len() / 2,
                |i: int|
                    (16 * digit_value(s[2 * i], 16).unwrap() + digit_value(
                        s[2 * i + 1],
                        16,
                    ).unwrap()) as u8,
            ),
        )
    } else {
        None
    }
}

/// Appends `b` as two hexadecimal digits.
pub fn push_hex_u8(out: &mut String, b: u8)
    ensures
        final(out)@ == old(out)@ + hex_text(seq![b]),
{
    let hi: u8 = b / 16;
    let lo: u8 = b % 16;
    out.push(
        if hi < 10 {
            ('0' as u8 + hi) as char
        } else {
            ('a' as u8 + (hi - 10)) as char
        },
    );
    out.push(
        if lo < 10 {
            ('0' as u8 + lo) as char
        } else {
            ('a' as u8 + (lo - 10)) as char
        },
    );
    assert(out@ =~= old(out)@ + hex_text(seq![b]));
}

/// `hex::encode`: two lower-case hexadecimal digits for each byte, in order.
#[verifier::external_body]
pub(crate) fn hex_encode(data: &[u8]) -> (res: String)
    ensures
        res@ == hex_text(data@),
{
    hex::encode(data)
}

/// `hex::decode`: the bytes that an even number of hexadecimal digits write, upper and
/// lower case alike; nothing for any other text.
#[verifier::external_body]
pub(crate) fn hex_decode(s: &str) -> (res: Option<Vec<u8>>)
    ensures
        match res {
            Some(v) => unhex(s@) == Some(v@),
            None => unhex(s@) is None,
        },
{
    hex::decode(s).ok()
}

/// A decimal number reads back as itself, and is made of digits alone.
pub proof fn law_decimal_round_trip(n: nat)
    ensures
        all_digits(dec_text(n), 10),
        dec_text(n).len() > 0,
        digits_value(dec_text(n), 10) == n,
        unsigned_value(dec_text(n), 10) == Some(n),
    decreases n,
{
    let s = dec_text(n);
    if n < 10 {
        assert(s.drop_last() =~= Seq::<char>::empty());
        assert(digits_value(s.drop_last(), 10) == 0);
        assert(s.last() == dec_digit(n));
    } else {
        law_decimal_round_trip(n / 10);
        assert(s.drop_last() =~= dec_text(n / 10));
        assert(s.last() == dec_digit(n % 10));
        assert forall|i: int| 0 <= i < s.len() implies digit_value(#[trigger] s[i], 10) is Some by {
            if i < s.len() - 1 {
                assert(s[i] == dec_text(n / 10)[i]);
            }
        }
    }
    assert(digits_value(s, 10) == n);
    assert(digit_value(s[0], 10) is Some);
}

/// Hexadecimal text decodes to the bytes that it was made from.
pub proof fn law_hex_round_trip(data: Seq<u8>)
    ensures
        unhex(hex_text(data)) == Some(data),
{
    let s = hex_text(data);
    assert forall|i: int| 0 <= i < s.len() implies digit_value(#[trigger] s[i], 16) is Some by {}
    assert(unhex(s).unwrap() =~= data);
}

/// Numbers in decimal and bytes in hexadecimal hold no white space.
pub proof fn lemma_digits_no_white(n: nat, data: Seq<u8>)
    ensures
        text::no_white(dec_text(n)),
        text::no_white(hex_text(data)),
{
    law_decimal_round_trip(n);
    let s = dec_text(n);
    assert forall|i: int| 0 <= i < s.len() implies !text::is_white(#[trigger] s[i]) by {
        assert(digit_value(s[i], 10) is Some);
    }
}

} // verus!
