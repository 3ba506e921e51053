//! Small string-building helpers shared by the naming, metadata and
//! configuration modules: appending a character to a `String` and rendering
//! an integer in decimal.

use vstd::prelude::*;

verus! {

/// Relies on String::push: appends the given character to the end of the
/// string.
#[verifier::external_body]
pub fn push_char(s: &mut String, c: char)
    ensures
        final(s)@ == old(s)@.push(c),
{
    s.push(c);
}

/// Copy a byte vector.
pub fn copy_bytes(v: &Vec<u8>) -> (r: Vec<u8>)
    ensures
        r@ == v@,
{
    let mut out: Vec<u8> = Vec::new();
    let mut i: usize = 0;
    while i < v.len()
        invariant
            0 <= i <= v@.len(),
            out@ == v@.subrange(0, i as int),
        decreases v@.len() - i,
    {
        out.push(v[i]);
        proof {
            assert(out@ =~= v@.subrange(0, i + 1 as int));
        }
        i = i + 1;
    }
    proof {
        assert(out@ =~= v@);
    }
    out
}

/// The character for one decimal digit.
pub open spec fn dec_digit(d: nat) -> char {
    if d == 0 {
        '0'
    } else if d == 1 {
        '1'
    } else if d == 2 {
        '2'
    } else if d == 3 {
        '3'
    } else if d == 4 {
        '4'
    } else if d == 5 {
        '5'
    } else if d == 6 {
        '6'
    } else if d == 7 {
        '7'
    } else if d == 8 {
        '8'
    } else {
        '9'
    }
}

/// The canonical decimal rendering of `n`: no sign, no leading zeros.
pub open spec fn dec_chars(n: nat) -> Seq<char>
    decreases n,
{
    if n < 10 {
        seq![dec_digit(n)]
    } else {
        dec_chars(n / 10).push(dec_digit(n % 10))
    }
}

/// The character for one decimal digit.
pub fn dec_digit_char(d: u64) -> (c: char)
    requires
        d < 10,
    ensures
        c == dec_digit(d as nat),
{
    if d == 0 {
        '0'
    } else if d == 1 {
        '1'
    } else if d == 2 {
        '2'
    } else if d == 3 {
        '3'
    } else if d == 4 {
        '4'
    } else if d == 5 {
        '5'
    } else if d == 6 {
        '6'
    } else if d == 7 {
        '7'
    } else if d == 8 {
        '8'
    } else {
        '9'
    }
}

/// Append the canonical decimal rendering of `n` to `s`.
pub fn push_u64_decimal(s: &mut String, n: u64)
    ensures
        final(s)@ == old(s)@ + dec_chars(n as nat),
{
    let mut digits: Vec<char> = Vec::new();
    let mut m: u64 = n;
    loop
        invariant_except_break
            digits@.len() > 0 ==> m != 0,
            dec_chars(n as nat) == dec_chars(m as nat) + digits@.reverse(),
        ensures
            dec_chars(n as nat) == digits@.reverse(),
        decreases m,
    {
        let d: u64 = m % 10;
        let c: char = dec_digit_char(d);
        let ghost prev = digits@;
        digits.push(c);
        proof {
            assert(digits@.reverse() =~= seq![c] + prev.reverse());
        }
        if m < 10 {
            proof {
                assert(dec_chars(m as nat) == seq![dec_digit((m % 10) as nat)]);
                assert(dec_chars(n as nat) =~= digits@.reverse());
            }
            break;
        }
        proof {
            assert(dec_chars(m as nat) == dec_chars((m / 10) as nat).push(
                dec_digit((m % 10) as nat),
            ));
            assert(dec_chars((m / 10) as nat) + digits@.reverse() =~= dec_chars(m as nat)
                + prev.reverse());
        }
        m = m / 10;
    }
    let ghost start = s@;
    while digits.len() > 0
        invariant
            s@ + digits@.reverse() == start + dec_chars(n as nat),
        decreases digits.len(),
    {
        let ghost prev = digits@;
        let c: char = digits.pop().unwrap();
        push_char(s, c);
        proof {
            assert(prev.reverse() =~= seq![c] + digits@.reverse());
            assert(s@ + digits@.reverse() =~= start + dec_chars(n as nat));
        }
    }
    proof {
        assert(s@ =~= start + dec_chars(n as nat));
    }
}

} // verus!
