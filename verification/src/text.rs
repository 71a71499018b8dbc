//! Putting messages together.
use crate::decimal;
use vstd::prelude::*;
use vstd::string::StringExecFns;

verus! {

/// A decimal digit as a character.
pub open spec fn digit_char(d: u8) -> char {
    d as char
}

/// The decimal digits of a number.
pub open spec fn number(x: nat) -> Seq<char> {
    decimal::decimal(x).map_values(|d: u8| digit_char(d))
}

/// Numbers in brackets, with commas between them.
pub open spec fn items(b: Seq<u8>) -> Seq<char>
    decreases b.len(),
{
    if b.len() == 0 {
        Seq::empty()
    } else if b.len() == 1 {
        number(b[0] as nat)
    } else {
        items(b.drop_last()) + ", "@ + number(b.last() as nat)
    }
}

/// Bytes as a list of numbers.
pub open spec fn byte_list(b: Seq<u8>) -> Seq<char> {
    "["@ + items(b) + "]"@
}

/// Appends a text.
pub fn push_text(out: &mut String, s: &str)
    ensures
        final(out)@ == old(out)@ + s@,
{
    out.append(s);
}

fn push_digit(out: &mut String, d: u8)
    requires
        48 <= d <= 57,
    ensures
        final(out)@ == old(out)@.push(digit_char(d)),
{
    proof {
        reveal_strlit("0");
        reveal_strlit("1");
        reveal_strlit("2");
        reveal_strlit("3");
        reveal_strlit("4");
        reveal_strlit("5");
        reveal_strlit("6");
        reveal_strlit("7");
        reveal_strlit("8");
        reveal_strlit("9");
    }
    let s = if d == 48 {
        "0"
    } else if d == 49 {
        "1"
    } else if d == 50 {
        "2"
    } else if d == 51 {
        "3"
    } else if d == 52 {
        "4"
    } else if d == 53 {
        "5"
    } else if d == 54 {
        "6"
    } else if d == 55 {
        "7"
    } else if d == 56 {
        "8"
    } else {
        "9"
    };
    out.append(s);
    assert(out@ =~= old(out)@.push(digit_char(d)));
}

/// Appends a number.
pub fn push_number(out: &mut String, x: u64)
    ensures
        final(out)@ == old(out)@ + number(x as nat),
{
    let mut ds: Vec<u8> = Vec::new();
    decimal::push_decimal(&mut ds, x);
    let ghost all = decimal::decimal(x as nat);
    let ghost text = number(x as nat);
    proof {
        assert(ds@ =~= all);
        decimal::lemma_decimal(x as nat);
    }
    let ghost start = out@;
    let mut i: usize = 0;
    assert(start + text.take(0) =~= start);
    while i < ds.len()
        invariant
            i <= ds@.len(),
            ds@ == all,
            decimal::all_digits(all),
            text == all.map_values(|d: u8| digit_char(d)),
            out@ == start + text.take(i as int),
        decreases ds@.len() - i,
    {
        push_digit(out, ds[i]);
        assert(start + text.take(i + 1) =~= (start + text.take(i as int)).push(
            digit_char(all[i as int]),
        ));
        i = i + 1;
    }
    assert(text.take(i as int) =~= text);
}

/// Appends bytes as a list of numbers.
pub fn push_bytes(out: &mut String, b: &[u8])
    ensures
        final(out)@ == old(out)@ + byte_list(b@),
{
    let ghost start = out@;
    push_text(out, "[");
    let mut i: usize = 0;
    assert(b@.take(0) =~= Seq::empty());
    assert(start + "["@ + items(b@.take(0)) =~= start + "["@);
    while i < b.len()
        invariant
            i <= b@.len(),
            out@ == start + "["@ + items(b@.take(i as int)),
        decreases b@.len() - i,
    {
        let ghost before = out@;
        proof {
            assert(b@.take(i + 1).drop_last() =~= b@.take(i as int));
            assert(b@.take(i + 1).last() == b@[i as int]);
        }
        if i > 0 {
            push_text(out, ", ");
        }
        push_number(out, b[i] as u64);
        proof {
            if i == 0 {
                assert(items(b@.take(1)) == number(b@[0] as nat));
                assert(before =~= start + "["@);
            }
            assert(out@ =~= start + "["@ + items(b@.take(i + 1)));
        }
        i = i + 1;
    }
    assert(b@.take(i as int) =~= b@);
    push_text(out, "]");
    assert(out@ =~= start + byte_list(b@));
}

} // verus!
