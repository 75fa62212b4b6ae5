//! Rendering numbers and member lists as text, for the human-readable
//! descriptions carried by error values.

use vstd::prelude::*;
use vstd::string::StringExecFns;

verus! {

/// The decimal digit character for `d < 10`.
pub open spec fn digit_char(d: nat) -> char {
    if d == 0 {
        '0'
    } else if d == 1 {
        '1'
    } else if d == 2 {
        '2'
    } else if d == 3 {
        '3'
    } else if d == 4 {
        '4'
    } else if d == 5 {
        '5'
    } else if d == 6 {
        '6'
    } else if d == 7 {
        '7'
    } else if d == 8 {
        '8'
    } else {
        '9'
    }
}

/// The decimal rendering of `n`, most significant digit first.
pub open spec fn decimal_digits(n: nat) -> Seq<char>
    decreases n,
{
    if n < 10 {
        seq![digit_char(n)]
    } else {
        decimal_digits(n / 10) + seq![digit_char(n % 10)]
    }
}

/// A member list rendered as text: the members in sequence order,
/// separated by a comma and a space.
pub open spec fn rendered_members(s: Seq<usize>) -> Seq<char>
    decreases s.len(),
{
    if s.len() == 0 {
        Seq::empty()
    } else if s.len() == 1 {
        decimal_digits(s[0] as nat)
    } else {
        rendered_members(s.drop_last()) + seq![',', ' '] + decimal_digits(s.last() as nat)
    }
}

/// The one-character string for a single decimal digit.
fn digit_str(d: u64) -> (r: &'static str)
    requires
        d < 10,
    ensures
        r@ == seq![digit_char(d as nat)],
{
    let r: &'static str = if d == 0 {
        "0"
    } else if d == 1 {
        "1"
    } else if d == 2 {
        "2"
    } else if d == 3 {
        "3"
    } else if d == 4 {
        "4"
    } else if d == 5 {
        "5"
    } else if d == 6 {
        "6"
    } else if d == 7 {
        "7"
    } else if d == 8 {
        "8"
    } else {
        "9"
    };
    proof {
        reveal_strlit("0");
        reveal_strlit("1");
        reveal_strlit("2");
        reveal_strlit("3");
        reveal_strlit("4");
        reveal_strlit("5");
        reveal_strlit("6");
        reveal_strlit("7");
        reveal_strlit("8");
        reveal_strlit("9");
        assert(r@ =~= seq![digit_char(d as nat)]);
    }
    r
}

/// Append the decimal rendering of `x` to `out`.
pub fn push_decimal(out: &mut String, x: u64)
    ensures
        final(out)@ == old(out)@ + decimal_digits(x as nat),
    decreases x,
{
    if x >= 10 {
        push_decimal(out, x / 10);
    }
    let ghost mid = out@;
    out.append(digit_str(x % 10));
    proof {
        if x >= 10 {
            assert((x / 10) as nat == (x as nat) / 10 && (x % 10) as nat == (x as nat) % 10);
            assert((old(out)@ + decimal_digits((x as nat) / 10)) + seq![
                digit_char((x as nat) % 10),
            ] =~= old(out)@ + (decimal_digits((x as nat) / 10) + seq![
                digit_char((x as nat) % 10),
            ]));
        }
    }
}

} // verus!
