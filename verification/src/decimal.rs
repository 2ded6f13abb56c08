//! Decimal text of port numbers: the digits that `u16::to_string` writes and
//! the text that `str::parse::<u16>` accepts, over bytes.
use vstd::prelude::*;

verus! {

/// The byte of the ASCII digit zero.
pub const DIGIT_ZERO: u8 = 48u8;

/// The byte of the ASCII plus sign.
pub const PLUS_SIGN: u8 = 43u8;

pub open spec fn is_digit(b: u8) -> bool {
    DIGIT_ZERO <= b && b <= DIGIT_ZERO + 9
}

pub open spec fn all_digits(s: Seq<u8>) -> bool {
    forall|i: int| 0 <= i < s.len() ==> is_digit(#[trigger] s[i])
}

/// The number that a run of ASCII digits spells, most significant first.
pub open spec fn digits_value(s: Seq<u8>) -> nat
    decreases s.len(),
{
    if s.len() == 0 {
        0
    } else {
        digits_value(s.drop_last()) * 10 + (s.last() - DIGIT_ZERO) as nat
    }
}

/// The decimal digits of `n`, with no leading zero (`0` is the single digit zero).
pub open spec fn decimal(n: nat) -> Seq<u8>
    decreases n,
{
    if n < 10 {
        seq![(DIGIT_ZERO + n) as u8]
    } else {
        decimal(n / 10).push((DIGIT_ZERO + n % 10) as u8)
    }
}

/// The digits after an optional leading `+`.
pub open spec fn unsigned_digits(s: Seq<u8>) -> Seq<u8> {
    if s.len() > 0 && s[0] == PLUS_SIGN {
        s.drop_first()
    } else {
        s
    }
}

/// The number that the text `s` names, where it is an optional `+`, then at
/// least one ASCII digit, spelling a number no larger than `max`.
pub open spec fn parse_bounded(s: Seq<u8>, max: nat) -> Option<nat> {
    let d = unsigned_digits(s);
    if d.len() > 0 && all_digits(d) && digits_value(d) <= max {
        Some(digits_value(d))
    } else {
        None
    }
}

/// The port that the text `s` names: an optional `+`, then at least one
/// ASCII digit, spelling a number that fits in 16 bits.
pub open spec fn parse_port(s: Seq<u8>) -> Option<u16> {
    match parse_bounded(s, u16::MAX as nat) {
        Some(v) => Some(v as u16),
        None => None,
    }
}

/// The port that the text `s` names, or 0 where it names none.
pub open spec fn port_or_zero(s: Seq<u8>) -> u16 {
    match parse_port(s) {
        Some(p) => p,
        None => 0,
    }
}

proof fn lemma_digits_value_grows(s: Seq<u8>, i: int)
    requires
        0 <= i <= s.len(),
        all_digits(s),
    ensures
        digits_value(s.take(i)) <= digits_value(s),
    decreases s.len() - i,
{
    if i < s.len() {
        lemma_digits_value_grows(s, i + 1);
        assert(s.take(i + 1).drop_last() =~= s.take(i));
    } else {
        assert(s.take(i) =~= s);
    }
}

proof fn lemma_decimal_digits(n: nat)
    ensures
        decimal(n).len() > 0,
        all_digits(decimal(n)),
        digits_value(decimal(n)) == n,
        decimal(n)[0] != PLUS_SIGN,
    decreases n,
{
    if n >= 10 {
        lemma_decimal_digits(n / 10);
        let d = decimal(n);
        assert(d.drop_last() =~= decimal(n / 10));
        assert(d[0] == decimal(n / 10)[0]);
        assert((n / 10) * 10 + n % 10 == n) by (nonlinear_arith);
        assert(d.last() == (DIGIT_ZERO + n % 10) as u8);
        assert(d.last() - DIGIT_ZERO == n % 10);
        assert(digits_value(d) == digits_value(decimal(n / 10)) * 10 + n % 10);
        assert(digits_value(d) == n);
        assert forall|i: int| 0 <= i < d.len() implies is_digit(#[trigger] d[i]) by {
            if i < d.len() - 1 {
                assert(d[i] == decimal(n / 10)[i]);
            }
        }
    } else {
        let d = decimal(n);
        assert(d.drop_last() =~= Seq::<u8>::empty());
        assert(d.last() - DIGIT_ZERO == n);
        assert(digits_value(d.drop_last()) == 0);
        assert(digits_value(d) == n);
    }
}

/// Reading back the decimal text of a port gives the port.
pub proof fn lemma_parse_decimal(n: u16)
    ensures
        parse_port(decimal(n as nat)) == Some(n),
{
    lemma_decimal_digits(n as nat);
    assert(unsigned_digits(decimal(n as nat)) == decimal(n as nat));
    assert(parse_bounded(decimal(n as nat), u16::MAX as nat) == Some(n as nat));
}

/// The decimal text of a number holds no `;`.
pub proof fn lemma_decimal_no_semicolon(n: nat)
    ensures
        crate::mcpe::semicolons(decimal(n)) == 0,
{
    lemma_no_semicolon_in_digits(decimal(n));
    lemma_decimal_digits(n);
}

proof fn lemma_no_semicolon_in_digits(s: Seq<u8>)
    ensures
        all_digits(s) ==> crate::mcpe::semicolons(s) == 0,
    decreases s.len(),
{
    if s.len() > 0 {
        lemma_no_semicolon_in_digits(s.drop_last());
        if all_digits(s) {
            assert(all_digits(s.drop_last())) by {
                assert forall|i: int| 0 <= i < s.len() - 1 implies is_digit(
                    #[trigger] s.drop_last()[i],
                ) by {
                    assert(s.drop_last()[i] == s[i]);
                }
            }
            assert(is_digit(s[s.len() - 1]));
        }
    }
}

/// Reads a number no larger than `max` from text, as `str::parse` does for
/// an unsigned type whose largest value is `max`.
pub fn parse_bounded_u32(s: &[u8], max: u32) -> (r: Option<u32>)
    ensures
        r matches Some(v) ==> parse_bounded(s@, max as nat) == Some(v as nat),
        r is None ==> parse_bounded(s@, max as nat) is None,
{
    let start: usize = if s.len() > 0 && s[0] == PLUS_SIGN {
        1
    } else {
        0
    };
    let ghost d = unsigned_digits(s@);
    assert(d =~= s@.skip(start as int));
    if start == s.len() {
        return None;
    }
    let mut value: u64 = 0;
    let mut i: usize = start;
    while i < s.len()
        invariant
            start <= i <= s@.len(),
            d == s@.skip(start as int),
            d == unsigned_digits(s@),
            all_digits(d.take(i - start)),
            value == digits_value(d.take(i - start)),
            value <= max,
        decreases s@.len() - i,
    {
        let b = s[i];
        let ghost k = i - start;
        if b < DIGIT_ZERO || b > DIGIT_ZERO + 9 {
            assert(d[k] == b);
            assert(!all_digits(d));
            return None;
        }
        assert(d.take(k + 1).drop_last() =~= d.take(k));
        assert(d.take(k + 1).last() == b);
        let next: u64 = value * 10 + (b - DIGIT_ZERO) as u64;
        assert(all_digits(d.take(k + 1))) by {
            assert forall|j: int| 0 <= j < k + 1 implies is_digit(#[trigger] d.take(k + 1)[j]) by {
                if j < k {
                    assert(d.take(k + 1)[j] == d.take(k)[j]);
                }
            }
        }
        assert(digits_value(d.take(k + 1)) == next);
        if next > max as u64 {
            proof {
                if all_digits(d) {
                    lemma_digits_value_grows(d, k + 1);
                }
            }
            return None;
        }
        value = next;
        i = i + 1;
    }
    assert(d.take(i - start) =~= d);
    Some(value as u32)
}

/// Reads a port number from text, as `str::parse::<u16>` does on it.
pub fn parse_u16(s: &[u8]) -> (r: Option<u16>)
    ensures
        r == parse_port(s@),
{
    match parse_bounded_u32(s, 65535) {
        Some(v) => Some(v as u16),
        None => None,
    }
}

/// Appends the decimal digits of `n` to `out`, as `n.to_string()` writes them.
pub fn push_decimal(out: &mut Vec<u8>, n: u16)
    ensures
        final(out)@ == old(out)@ + decimal(n as nat),
    decreases n,
{
    if n >= 10 {
        push_decimal(out, n / 10);
    }
    out.push(DIGIT_ZERO + (n % 10) as u8);
    proof {
        if n < 10 {
            assert(decimal(n as nat) =~= seq![(DIGIT_ZERO + n) as u8]);
        } else {
            assert(decimal(n as nat) =~= decimal((n / 10) as nat).push((DIGIT_ZERO + n % 10) as u8));
        }
    }
    assert(final(out)@ =~= old(out)@ + decimal(n as nat));
}

} // verus!
