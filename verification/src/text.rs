//! Decimal text of small numbers and of lists of them.

use vstd::prelude::*;

verus! {

/// The character of the decimal digit `d`.
pub open spec fn digit(d: int) -> char {
    if d == 0 {
        '0'
    } else if d == 1 {
        '1'
    } else if d == 2 {
        '2'
    } else if d == 3 {
        '3'
    } else if d == 4 {
        '4'
    } else if d == 5 {
        '5'
    } else if d == 6 {
        '6'
    } else if d == 7 {
        '7'
    } else if d == 8 {
        '8'
    } else {
        '9'
    }
}

/// `n` in decimal, without leading zeros.
pub open spec fn decimal(n: u8) -> Seq<char> {
    if n < 10 {
        seq![digit(n as int)]
    } else if n < 100 {
        seq![digit(n as int / 10), digit(n as int % 10)]
    } else {
        seq![digit(n as int / 100), digit(n as int / 10 % 10), digit(n as int % 10)]
    }
}

/// The first `n` items in decimal, separated by a comma and a blank.
pub open spec fn joined(items: Seq<u8>, n: nat) -> Seq<char>
    decreases n,
{
    if n == 0 {
        Seq::empty()
    } else if n == 1 {
        decimal(items[0])
    } else {
        joined(items, (n - 1) as nat) + seq![',', ' '] + decimal(items[n - 1])
    }
}

/// The items in decimal, separated by a comma and a blank, in square brackets.
pub open spec fn list_text(items: Seq<u8>) -> Seq<char> {
    seq!['['] + joined(items, items.len()) + seq![']']
}

/// The one-character string of the decimal digit `d`.
pub fn digit_str(d: u8) -> (r: &'static str)
    requires
        d < 10,
    ensures
        r@ == seq![digit(d as int)],
{
    proof {
        reveal_strlit("0");
        reveal_strlit("1");
        reveal_strlit("2");
        reveal_strlit("3");
        reveal_strlit("4");
        reveal_strlit("5");
        reveal_strlit("6");
        reveal_strlit("7");
        reveal_strlit("8");
        reveal_strlit("9");
    }
    let r = match d {
        0 => "0",
        1 => "1",
        2 => "2",
        3 => "3",
        4 => "4",
        5 => "5",
        6 => "6",
        7 => "7",
        8 => "8",
        _ => "9",
    };
    assert(r@ =~= seq![digit(d as int)]);
    r
}

/// Appends `n` in decimal to `out`.
pub fn push_decimal(out: &mut String, n: u8)
    ensures
        final(out)@ == old(out)@ + decimal(n),
{
    if n >= 100 {
        out.append(digit_str(n / 100));
    }
    if n >= 10 {
        out.append(digit_str(n / 10 % 10));
    }
    out.append(digit_str(n % 10));
    assert(out@ =~= old(out)@ + decimal(n));
}

/// The items in decimal, separated by a comma and a blank, in square brackets.
pub fn list_string(items: &Vec<u8>) -> (r: String)
    ensures
        r@ == list_text(items@),
{
    proof {
        reveal_strlit("[");
        reveal_strlit(", ");
        reveal_strlit("]");
    }
    let mut r = String::from_str("[");
    let mut i: usize = 0;
    while i < items.len()
        invariant
            i <= items.len(),
            r@ == seq!['['] + joined(items@, i as nat),
            ", "@ == seq![',', ' '],
        decreases items.len() - i,
    {
        let ghost before = r@;
        if i > 0 {
            r.append(", ");
        }
        push_decimal(&mut r, items[i]);
        i = i + 1;
        proof {
            if i == 1 {
                assert(r@ =~= seq!['['] + joined(items@, i as nat));
            } else {
                assert(r@ =~= before + seq![',', ' '] + decimal(items[i - 1]));
                assert(r@ =~= seq!['['] + joined(items@, i as nat));
            }
        }
    }
    r.append("]");
    assert(r@ =~= list_text(items@));
    r
}

} // verus!
