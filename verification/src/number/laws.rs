//! What the notation of numbers promises of every number.
use crate::number;
use vstd::prelude::*;

verus! {

/// The ten decimal digits count from 0, and the letters of either case behind them from ten. A
/// digit is smaller than the radix.
pub proof fn law_digits(v: nat, radix: nat, c: char)
    requires
        radix <= 36,
    ensures
        v < 10 && v < radix ==> number::digit_value(('0' as u8 + v) as char, radix) == Some(v),
        10 <= v < radix ==> number::digit_value(('a' as u8 + v - 10) as char, radix) == Some(v),
        10 <= v < radix ==> number::digit_value(('A' as u8 + v - 10) as char, radix) == Some(v),
        number::digit_value(c, radix) matches Some(d) ==> d < radix,
        !('0' <= c && c <= '9' || 'a' <= c && c <= 'z' || 'A' <= c && c <= 'Z')
            ==> number::digit_value(c, radix) is None,
{
}

/// A digit behind a number makes it as many times as large as the radix says, and adds itself.
pub proof fn law_one_more_digit(s: Seq<char>, c: char, radix: nat)
    requires
        number::digit_value(c, radix) is Some,
    ensures
        number::digits_value(s.push(c), radix) == number::digits_value(s, radix) * radix
            + number::digit_value(c, radix).unwrap(),
        number::digits_value(Seq::empty(), radix) == 0,
{
    assert(s.push(c).drop_last() =~= s);
}

/// A number may have a plus sign. Anything that is no digit makes a text no number, and so does
/// the lack of digits.
pub proof fn law_numbers(s: Seq<char>, radix: nat, i: int)
    requires
        radix <= 36,
    ensures
        s.len() > 0 && number::all_digits(s, radix) ==> number::unsigned_value(s, radix) == Some(
            number::digits_value(s, radix),
        ),
        s.len() > 0 && number::all_digits(s, radix) ==> number::unsigned_value(
            seq!['+'] + s,
            radix,
        ) == Some(number::digits_value(s, radix)),
        1 <= i < s.len() && number::digit_value(s[i], radix) is None ==> number::unsigned_value(
            s,
            radix,
        ) is None,
        s.len() > 0 && s[0] != '+' && number::digit_value(s[0], radix) is None
            ==> number::unsigned_value(s, radix) is None,
        number::unsigned_value(Seq::empty(), radix) is None,
        number::unsigned_value(seq!['+'], radix) is None,
{
    let t = seq!['+'] + s;
    assert(t[0] == '+');
    assert(t.skip(1) =~= s);
    assert(number::digit_value('+', radix) is None);
    if s.len() > 0 && number::all_digits(s, radix) {
        assert(number::digit_value(s[0], radix) is Some);
    }
    if 1 <= i < s.len() && s[0] == '+' {
        assert(s.skip(1)[i - 1] == s[i]);
    }
    assert(seq!['+'].skip(1) =~= Seq::<char>::empty());
}

/// A number that is written reads back as itself if it is not larger than allowed, also with zeros
/// in front of it, and is refused if it is larger.
pub proof fn law_bounded(n: nat, max: nat)
    ensures
        number::bounded_value(number::dec_text(n), 10, max) == (if n <= max {
            Some(n)
        } else {
            None
        }),
        number::bounded_value(seq!['0'] + number::dec_text(n), 10, max) == (if n <= max {
            Some(n)
        } else {
            None
        }),
        n >= 10 ==> number::dec_text(n)[0] != '0',
{
    let s = number::dec_text(n);
    let t = seq!['0'] + s;
    number::law_decimal_round_trip(n);
    lemma_zero_in_front(s);
    assert forall|i: int| 0 <= i < t.len() implies number::digit_value(#[trigger] t[i], 10) is Some by {
        if i > 0 {
            assert(t[i] == s[i - 1]);
        }
    }
    assert(t[0] == '0');
    lemma_first_digit(n);
}

proof fn lemma_zero_in_front(s: Seq<char>)
    ensures
        number::digits_value(seq!['0'] + s, 10) == number::digits_value(s, 10),
    decreases s.len(),
{
    let t = seq!['0'] + s;
    if s.len() > 0 {
        lemma_zero_in_front(s.drop_last());
        assert(t.drop_last() =~= seq!['0'] + s.drop_last());
    } else {
        assert(t.drop_last() =~= Seq::<char>::empty());
        assert(number::digits_value(t.drop_last(), 10) == 0);
    }
}

proof fn lemma_first_digit(n: nat)
    ensures
        number::dec_text(n).len() > 0,
        n > 0 ==> number::dec_text(n)[0] != '0',
    decreases n,
{
    if n >= 10 {
        lemma_first_digit(n / 10);
    }
}

/// Each byte is two hexadecimal digits in lower case, the upper half of the byte first, and the
/// bytes stand in order.
pub proof fn law_hex(b: u8, rest: Seq<u8>, i: int)
    ensures
        number::hex_text(Seq::empty()) == Seq::<char>::empty(),
        number::hex_text(seq![b] + rest) == number::hex_text(seq![b]) + number::hex_text(rest),
        number::hex_text(seq![b]).len() == 2,
        number::digit_value(number::hex_text(seq![b])[0], 16) == Some((b / 16) as nat),
        number::digit_value(number::hex_text(seq![b])[1], 16) == Some((b % 16) as nat),
        0 <= i < number::hex_text(rest).len() ==> {
            let c = number::hex_text(rest)[i];
            '0' <= c && c <= '9' || 'a' <= c && c <= 'f'
        },
{
    assert(number::hex_text(Seq::empty()) =~= Seq::<char>::empty());
    let all = seq![b] + rest;
    assert forall|j: int| 2 <= j < number::hex_text(all).len() implies number::hex_text(all)[j]
        == number::hex_text(rest)[j - 2] by {
        assert(all[j / 2] == rest[(j - 2) / 2]);
    }
    assert(number::hex_text(all) =~= number::hex_text(seq![b]) + number::hex_text(rest));
}

/// Two hexadecimal digits, of either case, are one byte, and the bytes stand in order. Any other
/// character, and a digit left over, make a text no bytes.
pub proof fn law_unhex(a: char, b: char, rest: Seq<char>)
    ensures
        number::unhex(Seq::empty()) == Some(Seq::<u8>::empty()),
        number::unhex(seq![a]) is None,
        ({
            let x = number::digit_value(a, 16);
            let y = number::digit_value(b, 16);
            let res = number::unhex(seq![a, b] + rest);
            if x is Some && y is Some && number::unhex(rest) is Some {
                res == Some(
                    seq![(16 * x.unwrap() + y.unwrap()) as u8] + number::unhex(rest).unwrap(),
                )
            } else {
                res is None
            }
        }),
{
    assert(number::unhex(Seq::empty()).unwrap() =~= Seq::<u8>::empty());
    let s = seq![a, b] + rest;
    assert(s[0] == a && s[1] == b);
    assert forall|i: int| 0 <= i < rest.len() implies s[i + 2] == #[trigger] rest[i] by {}
    if number::all_digits(s, 16) {
        assert(number::digit_value(s[0], 16) is Some);
        assert(number::digit_value(s[1], 16) is Some);
        assert forall|i: int| 0 <= i < rest.len() implies number::digit_value(
            #[trigger] rest[i],
            16,
        ) is Some by {
            assert(number::digit_value(s[i + 2], 16) is Some);
        }
    }
    if number::unhex(rest) is Some && number::digit_value(a, 16) is Some && number::digit_value(
        b,
        16,
    ) is Some {
        assert forall|i: int| 0 <= i < s.len() implies number::digit_value(
            #[trigger] s[i],
            16,
        ) is Some by {
            if i >= 2 {
                assert(s[i] == rest[i - 2]);
            }
        }
        let x = number::digit_value(a, 16).unwrap();
        let y = number::digit_value(b, 16).unwrap();
        let u = number::unhex(rest).unwrap();
        let v = number::unhex(s).unwrap();
        assert forall|i: int| 0 <= i < u.len() implies v[i + 1] == u[i] by {
            assert(s[2 * (i + 1)] == rest[2 * i]);
            assert(s[2 * (i + 1) + 1] == rest[2 * i + 1]);
        }
        assert(v =~= seq![(16 * x + y) as u8] + u);
    }
}

} // verus!
