//! Numbers in decimal.
use vstd::prelude::*;

verus! {

/// The last `n` decimal digits of `x`, with leading zeros.
pub open spec fn digits(x: nat, n: nat) -> Seq<u8>
    decreases n,
{
    if n == 0 {
        Seq::empty()
    } else {
        digits(x / 10, (n - 1) as nat).push((48 + x % 10) as u8)
    }
}

/// The number that decimal digits stand for.
pub open spec fn decimal_value(b: Seq<u8>) -> nat
    decreases b.len(),
{
    if b.len() == 0 {
        0
    } else {
        10 * decimal_value(b.drop_last()) + (b.last() - 48) as nat
    }
}

/// All bytes are decimal digits.
pub open spec fn all_digits(b: Seq<u8>) -> bool {
    forall|i: int| 0 <= i < b.len() ==> 48 <= #[trigger] b[i] <= 57
}

/// The digits of a number without the plus sign that may stand before them.
pub open spec fn unsigned(b: Seq<u8>) -> Seq<u8> {
    if b.len() > 0 && b[0] == 43 {
        b.skip(1)
    } else {
        b
    }
}

/// The number that `b` spells out, if it spells one that fits 64 bits.
pub open spec fn parsed_index(b: Seq<u8>) -> Option<u64> {
    let d = unsigned(b);
    if d.len() > 0 && all_digits(d) && decimal_value(d) <= u64::MAX {
        Some(decimal_value(d) as u64)
    } else {
        None
    }
}

/// More digits stand for a number that is not smaller.
proof fn lemma_decimal_value_grows(b: Seq<u8>, n: int)
    requires
        0 <= n <= b.len(),
        all_digits(b),
    ensures
        decimal_value(b.take(n)) <= decimal_value(b),
    decreases b.len() - n,
{
    if n == b.len() {
        assert(b.take(n) =~= b);
    } else {
        lemma_decimal_value_grows(b, n + 1);
        assert(b.take(n + 1).drop_last() =~= b.take(n));
        assert(48 <= b[n] <= 57);
    }
}

/// The number that `b` spells out, if it spells one that fits 64 bits.
pub fn parse_index(b: &[u8]) -> (r: Option<u64>)
    ensures
        r == parsed_index(b@),
{
    let start: usize = if b.len() > 0 && b[0] == 43 {
        1
    } else {
        0
    };
    let d = vstd::slice::slice_subrange(b, start, b.len());
    assert(d@ =~= unsigned(b@));
    if d.len() == 0 {
        return None;
    }
    let mut value: u64 = 0;
    let mut i: usize = 0;
    while i < d.len()
        invariant
            i <= d@.len(),
            d@ == unsigned(b@),
            d@.len() > 0,
            value == decimal_value(d@.take(i as int)),
            forall|j: int| 0 <= j < i ==> 48 <= #[trigger] d@[j] <= 57,
        decreases d@.len() - i,
    {
        let c: u8 = d[i];
        if c < 48 || c > 57 {
            return None;
        }
        let digit: u64 = (c - 48) as u64;
        assert(d@.take(i + 1).drop_last() =~= d@.take(i as int));
        assert(decimal_value(d@.take(i + 1)) == 10 * value + digit);
        if value > (u64::MAX - digit) / 10 {
            proof {
                if all_digits(d@) {
                    lemma_decimal_value_grows(d@, i + 1);
                }
            }
            return None;
        }
        value = 10 * value + digit;
        i = i + 1;
    }
    assert(d@.take(i as int) =~= d@);
    Some(value)
}

/// The digits of a number spell that number.
pub proof fn lemma_digits_value(x: nat, n: nat)
    ensures
        digits(x, n).len() == n,
        all_digits(digits(x, n)),
        x < pow10(n) ==> decimal_value(digits(x, n)) == x,
    decreases n,
{
    if n > 0 {
        lemma_digits_value(x / 10, (n - 1) as nat);
        let d = digits(x, n);
        assert(d.drop_last() =~= digits(x / 10, (n - 1) as nat));
        if x < pow10(n) {
            assert(x / 10 < pow10((n - 1) as nat));
        }
    }
}

/// Ten to the power of `n`.
pub open spec fn pow10(n: nat) -> nat
    decreases n,
{
    if n == 0 {
        1
    } else {
        10 * pow10((n - 1) as nat)
    }
}

/// The decimal digits of a number.
pub open spec fn decimal(x: nat) -> Seq<u8>
    decreases x,
{
    if x < 10 {
        seq![(48 + x) as u8]
    } else {
        decimal(x / 10).push((48 + x % 10) as u8)
    }
}

/// Appends the decimal digits of a number.
pub fn push_decimal(out: &mut Vec<u8>, x: u64)
    ensures
        final(out)@ == old(out)@ + decimal(x as nat),
    decreases x,
{
    if x < 10 {
        out.push(48 + x as u8);
        assert(out@ =~= old(out)@ + decimal(x as nat));
    } else {
        push_decimal(out, x / 10);
        out.push(48 + (x % 10) as u8);
        assert(out@ =~= old(out)@ + decimal(x as nat));
    }
}

/// The digits of a number spell it.
pub proof fn lemma_decimal(x: nat)
    ensures
        decimal(x).len() > 0,
        all_digits(decimal(x)),
        decimal_value(decimal(x)) == x,
    decreases x,
{
    let d = decimal(x);
    if x >= 10 {
        lemma_decimal(x / 10);
        assert(d.drop_last() =~= decimal(x / 10));
    } else {
        assert(d.drop_last() =~= Seq::empty());
        assert(decimal_value(d.drop_last()) == 0);
    }
}

} // verus!
