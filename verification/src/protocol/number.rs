//! Sequence numbers on the wire: decimal digits.

use vstd::prelude::*;
use crate::protocol::bytes::{is_ascii_bytes, lemma_ascii_is_utf8, LF, SP};
use crate::protocol::part::Part;

verus! {

/// A sequence number: each endpoint counts its own actions upwards.
pub type SeqNum = u64;

/// Whether `b` is one of the bytes `0` to `9`.
pub open spec fn is_digit(b: u8) -> bool {
    0x30 <= b <= 0x39
}

/// Whether `s` consists of decimal digits only.
pub open spec fn all_digits(s: Seq<u8>) -> bool {
    forall|i: int| 0 <= i < s.len() ==> is_digit(#[trigger] s[i])
}

/// What the digit `b` counts; zero for any other byte.
pub open spec fn digit_value(b: u8) -> nat {
    if is_digit(b) {
        (b - 0x30) as nat
    } else {
        0
    }
}

/// The number that the decimal digits `s` denote.
pub open spec fn decimal_value(s: Seq<u8>) -> nat
    decreases s.len(),
{
    if s.len() == 0 {
        0
    } else {
        decimal_value(s.drop_last()) * 10 + digit_value(s.last())
    }
}

/// The decimal digits of `n`, without leading zeros.
pub open spec fn decimal_digits(n: nat) -> Seq<u8>
    decreases n,
{
    if n < 10 {
        seq![(0x30 + n) as u8]
    } else {
        decimal_digits(n / 10).push((0x30 + n % 10) as u8)
    }
}

/// The number that a payload denotes: a non-empty string of digits whose
/// value a `u64` can hold.
pub open spec fn parse_number(s: Seq<u8>) -> Option<u64> {
    if s.len() > 0 && all_digits(s) && decimal_value(s) <= u64::MAX {
        Some(decimal_value(s) as u64)
    } else {
        None
    }
}

/// The digits of a number are digits, at least one and at most twenty, and
/// denote that number.
pub proof fn lemma_decimal_digits(n: nat)
    ensures
        decimal_digits(n).len() >= 1,
        all_digits(decimal_digits(n)),
        decimal_value(decimal_digits(n)) == n,
    decreases n,
{
    if n < 10 {
        let s = decimal_digits(n);
        assert(s.drop_last() =~= Seq::<u8>::empty());
        assert(decimal_value(s.drop_last()) == 0);
    } else {
        lemma_decimal_digits(n / 10);
        let s = decimal_digits(n);
        assert(s.drop_last() =~= decimal_digits(n / 10));
    }
}

/// How many digits a number below a power of ten has at most.
pub proof fn lemma_decimal_digits_len(n: nat)
    requires
        n <= u64::MAX,
    ensures
        decimal_digits(n).len() <= 20,
{
    reveal_with_fuel(decimal_digits, 21);
}

/// A longer prefix of a digit string denotes no smaller a number.
pub proof fn lemma_decimal_value_prefix(s: Seq<u8>, k: int)
    requires
        0 <= k <= s.len(),
    ensures
        decimal_value(s.take(k)) <= decimal_value(s),
    decreases s.len() - k,
{
    if k < s.len() {
        lemma_decimal_value_prefix(s, k + 1);
        assert(s.take(k + 1).drop_last() =~= s.take(k));
    } else {
        assert(s.take(k) =~= s);
    }
}

/// Digits are ASCII and neither a space nor a line feed.
pub proof fn lemma_digits_are_plain(s: Seq<u8>)
    requires
        all_digits(s),
    ensures
        is_ascii_bytes(s),
        !s.contains(LF),
        !s.contains(SP),
{
    assert forall|i: int| 0 <= i < s.len() implies #[trigger] s[i] < 0x80 by {
        assert(is_digit(s[i]));
    }
    if s.contains(LF) {
        let i = choose|i: int| 0 <= i < s.len() && s[i] == LF;
        assert(is_digit(s[i]));
    }
    if s.contains(SP) {
        let i = choose|i: int| 0 <= i < s.len() && s[i] == SP;
        assert(is_digit(s[i]));
    }
}

/// Appends the decimal digits of `n` to `out`.
pub fn write_number(n: u64, out: &mut Vec<u8>)
    ensures
        final(out)@ == old(out)@ + decimal_digits(n as nat),
    decreases n,
{
    if n >= 10 {
        write_number(n / 10, out);
    }
    let digit: u8 = (n % 10) as u8;
    out.push(0x30 + digit);
    proof {
        if n >= 10 {
            assert(final(out)@ =~= old(out)@ + decimal_digits(n as nat));
        } else {
            assert(final(out)@ =~= old(out)@ + decimal_digits(n as nat));
        }
    }
}

/// Reads a decimal number: `None` unless `payload` is a non-empty string of
/// digits whose value fits.
pub fn read_number(payload: &[u8]) -> (value: Option<u64>)
    ensures
        value == parse_number(payload@),
{
    if payload.len() == 0 {
        return None;
    }
    let mut value: u64 = 0;
    let mut i: usize = 0;
    while i < payload.len()
        invariant
            0 <= i <= payload.len(),
            all_digits(payload@.take(i as int)),
            value == decimal_value(payload@.take(i as int)),
        decreases payload.len() - i,
    {
        let b: u8 = payload[i];
        if b < 0x30 || b > 0x39 {
            proof {
                assert(!is_digit(payload@[i as int]));
            }
            return None;
        }
        let digit: u64 = (b - 0x30) as u64;
        proof {
            assert(payload@.take(i + 1).drop_last() =~= payload@.take(i as int));
            assert(payload@.take(i + 1).last() == b);
            assert forall|j: int| 0 <= j < i + 1 implies is_digit(
                #[trigger] payload@.take(i + 1)[j],
            ) by {
                if j < i {
                    assert(payload@.take(i as int)[j] == payload@[j]);
                }
            }
        }
        if value > (u64::MAX - digit) / 10 {
            proof {
                lemma_decimal_value_prefix(payload@, i + 1);
                assert(decimal_value(payload@.take(i + 1)) == value * 10 + digit);
            }
            return None;
        }
        value = value * 10 + digit;
        i = i + 1;
    }
    proof {
        assert(payload@.take(i as int) =~= payload@);
    }
    Some(value)
}

impl Part for u64 {
    open spec fn wire(v: u64) -> Seq<u8> {
        decimal_digits(v as nat)
    }

    open spec fn parse(payload: Seq<u8>) -> Option<u64> {
        parse_number(payload)
    }

    proof fn lemma_wire_is_text(v: u64) {
        lemma_decimal_digits(v as nat);
        lemma_digits_are_plain(decimal_digits(v as nat));
        lemma_ascii_is_utf8(decimal_digits(v as nat));
    }

    proof fn lemma_parse_wire(v: u64) {
        lemma_decimal_digits(v as nat);
    }

    fn write(&self, out: &mut Vec<u8>) {
        write_number(*self, out);
    }

    fn read(payload: &[u8]) -> (value: Option<u64>) {
        read_number(payload)
    }
}

} // verus!
