//! Decimal numerals: formatting of unsigned integers and parsing as the
//! standard library's `from_str` does for unsigned types.

use vstd::prelude::*;

verus! {

pub const PLUS: u8 = 0x2b;

pub open spec fn is_digit(b: u8) -> bool {
    0x30 <= b <= 0x39
}

/// The value of a string of decimal digits.
pub open spec fn digits_value(d: Seq<u8>) -> nat
    decreases d.len(),
{
    if d.len() == 0 {
        0
    } else {
        digits_value(d.drop_last()) * 10 + (d.last() - 0x30) as nat
    }
}

pub open spec fn all_digits(d: Seq<u8>) -> bool {
    forall|i: int| 0 <= i < d.len() ==> is_digit(#[trigger] d[i])
}

/// The digits of a token once an optional leading `+` is dropped.
pub open spec fn unsigned_digits(t: Seq<u8>) -> Seq<u8> {
    if t.len() > 0 && t[0] == PLUS {
        t.drop_first()
    } else {
        t
    }
}

/// `from_str` of an unsigned integer type whose largest value is `max`:
/// an optional `+`, then one or more decimal digits, whose value is at most
/// `max`.
pub open spec fn unsigned_value(t: Seq<u8>, max: nat) -> Option<nat> {
    let d = unsigned_digits(t);
    if d.len() > 0 && all_digits(d) && digits_value(d) <= max {
        Some(digits_value(d))
    } else {
        None
    }
}

/// `usize`'s `from_str`.
pub open spec fn parse_usize(t: Seq<u8>) -> Option<nat> {
    unsigned_value(t, usize::MAX as nat)
}

/// The decimal digits of `n`, most significant first, without leading zeros.
pub open spec fn decimal(n: nat) -> Seq<u8>
    decreases n,
{
    if n < 10 {
        seq![(0x30 + n) as u8]
    } else {
        decimal(n / 10).push((0x30 + n % 10) as u8)
    }
}

/// The decimal form of `n` is a nonempty string of digits worth `n`.
pub proof fn lemma_decimal(n: nat)
    ensures
        decimal(n).len() > 0,
        all_digits(decimal(n)),
        digits_value(decimal(n)) == n,
    decreases n,
{
    if n >= 10 {
        lemma_decimal(n / 10);
        let d = decimal(n);
        assert(d.drop_last() =~= decimal(n / 10));
        assert forall|i: int| 0 <= i < d.len() implies is_digit(#[trigger] d[i]) by {
            if i < d.len() - 1 {
                assert(d[i] == decimal(n / 10)[i]);
            }
        }
        assert(d.last() == (0x30 + n % 10) as u8);
        assert((d.last() - 0x30) as nat == n % 10);
        assert(digits_value(d) == digits_value(decimal(n / 10)) * 10 + (d.last() - 0x30) as nat);
    } else {
        let d = decimal(n);
        assert(d.drop_last() =~= Seq::<u8>::empty());
        assert(d.last() == (0x30 + n) as u8);
        assert(digits_value(d) == digits_value(d.drop_last()) * 10 + (d.last() - 0x30) as nat);
    }
}

/// Formatting then parsing gives the number back: the decimal form of `n`
/// parses to `n` for any unsigned type that holds `n`.
pub proof fn lemma_parse_decimal(n: nat, max: nat)
    requires
        n <= max,
    ensures
        unsigned_value(decimal(n), max) == Some(n),
{
    lemma_decimal(n);
    assert(is_digit(decimal(n)[0]));
    assert(unsigned_digits(decimal(n)) == decimal(n));
}

/// Parses `t` as the `from_str` of an unsigned type whose largest value is
/// `max` would.
pub fn parse_unsigned(t: &[u8], max: usize) -> (r: Option<usize>)
    ensures
        r matches Some(v) ==> unsigned_value(t@, max as nat) == Some(v as nat),
        r is None ==> unsigned_value(t@, max as nat) is None,
{
    let mut i: usize = 0;
    if t.len() > 0 && t[0] == PLUS {
        i = 1;
    }
    let ghost d = unsigned_digits(t@);
    if i >= t.len() {
        return None;
    }
    let first = i;
    let mut v: usize = 0;
    assert(d =~= t@.subrange(first as int, t.len() as int));
    while i < t.len()
        invariant
            first <= i <= t.len(),
            d == unsigned_digits(t@),
            d == t@.subrange(first as int, t.len() as int),
            all_digits(t@.subrange(first as int, i as int)),
            v as nat == digits_value(t@.subrange(first as int, i as int)),
            v <= max,
        decreases t.len() - i,
    {
        let b = t[i];
        if b < 0x30 || b > 0x39 {
            proof {
                assert(d[i - first] == b);
                assert(!is_digit(d[i - first]));
            }
            return None;
        }
        let ghost pre = t@.subrange(first as int, i as int);
        let ghost next = t@.subrange(first as int, i + 1);
        proof {
            assert(next.drop_last() =~= pre);
            assert(next.last() == b);
            assert(all_digits(next));
        }
        let digit = (b - 0x30) as usize;
        if digit > max || v > (max - digit) / 10 {
            proof {
                assert(digits_value(next) > max) by (nonlinear_arith)
                    requires
                        digits_value(next) == v * 10 + digit,
                        digit > max || v > (max - digit) / 10,
                        digit <= 9,
                ;
                assert(d.subrange(0, (i + 1 - first) as int) =~= next);
                if all_digits(d) {
                    lemma_digits_value_prefix(d, (i + 1 - first) as nat);
                }
            }
            return None;
        }
        proof {
            assert(v * 10 + digit <= max) by (nonlinear_arith)
                requires
                    v <= (max - digit) / 10,
                    digit <= 9,
            ;
        }
        v = v * 10 + digit;
        i = i + 1;
    }
    proof {
        assert(t@.subrange(first as int, i as int) =~= d);
    }
    Some(v)
}

/// A prefix of a digit string has a value no larger than the whole.
proof fn lemma_digits_value_prefix(d: Seq<u8>, k: nat)
    requires
        k <= d.len(),
        all_digits(d),
    ensures
        digits_value(d.subrange(0, k as int)) <= digits_value(d),
    decreases d.len() - k,
{
    if k < d.len() {
        lemma_digits_value_prefix(d, k + 1);
        let p = d.subrange(0, (k + 1) as int);
        assert(p.drop_last() =~= d.subrange(0, k as int));
        assert(is_digit(d[k as int]));
        assert(digits_value(p) == digits_value(d.subrange(0, k as int)) * 10 + (p.last() - 0x30) as nat);
    } else {
        assert(d.subrange(0, k as int) =~= d);
    }
}

/// Appends the decimal digits of `n`.
pub(crate) fn push_decimal(out: &mut Vec<u8>, n: usize)
    ensures
        final(out)@ == old(out)@ + decimal(n as nat),
    decreases n,
{
    if n >= 10 {
        push_decimal(out, n / 10);
    }
    let d = (n % 10) as u8;
    out.push(0x30 + d);
    proof {
        if n >= 10 {
            assert(decimal(n as nat) == decimal((n / 10) as nat).push((0x30 + n % 10) as u8));
        }
    }
    assert(out@ =~= old(out)@ + decimal(n as nat));
}

} // verus!
