//! Character-level helpers: reading a `str`, building a `String`, and
//! decimal/hexadecimal digits.

use vstd::prelude::*;

verus! {

broadcast use vstd::string::axiom_spec_iter;

/// The characters of `s`, in order.
pub fn chars_of(s: &str) -> (r: Vec<char>)
    ensures
        r@ == s@,
{
    let mut r: Vec<char> = Vec::new();
    for c in it: s.chars()
        invariant
            it.seq() == s@,
            r@ == it.seq().take(it.index()),
    {
        r.push(c);
    }
    r
}

} // verus!

verus! {

/// Appends a character with `String::push`, which its documentation says
/// adds the given `char` to the end of the `String`.
#[verifier::external_body]
fn push_char(s: &mut String, c: char)
    ensures
        final(s)@ == old(s)@.push(c),
{
    s.push(c);
}

/// A `String` holding exactly the given characters.
pub fn string_of(v: &Vec<char>) -> (r: String)
    ensures
        r@ == v@,
{
    let mut r = String::new();
    let mut i: usize = 0;
    while i < v.len()
        invariant
            i <= v@.len(),
            r@ == v@.take(i as int),
        decreases v@.len() - i,
    {
        push_char(&mut r, v[i]);
        proof {
            assert(v@.take(i as int + 1) =~= v@.take(i as int).push(v@[i as int]));
        }
        i = i + 1;
    }
    proof {
        assert(v@.take(v@.len() as int) =~= v@);
    }
    r
}

/// The character of a digit value below 16 (lowercase for ten and above).
pub open spec fn digit_char(d: nat) -> char {
    if d < 10 {
        (d + 48) as char
    } else {
        (d + 87) as char
    }
}

/// The digits of `n` in base `radix`, most significant first, without
/// leading zeros (zero itself is one digit).
pub open spec fn radix_digits(n: nat, radix: nat) -> Seq<char>
    decreases n,
{
    if radix < 2 || n < radix {
        seq![digit_char(n)]
    } else {
        proof {
            vstd::arithmetic::div_mod::lemma_div_decreases(n as int, radix as int);
        }
        radix_digits(n / radix, radix).push(digit_char(n % radix))
    }
}

/// The digit character of `d`.
pub fn digit(d: u8) -> (r: char)
    requires
        d < 16,
    ensures
        r == digit_char(d as nat),
{
    if d < 10 {
        (d + 48) as char
    } else {
        (d + 87) as char
    }
}

/// Appends the base-`radix` digits of `n` (radix 10 or 16).
pub fn push_digits(out: &mut Vec<char>, n: u128, radix: u128)
    requires
        radix == 10 || radix == 16,
    ensures
        final(out)@ == old(out)@ + radix_digits(n as nat, radix as nat),
    decreases n,
{
    if n < radix {
        out.push(digit(n as u8));
        proof {
            assert(old(out)@ + radix_digits(n as nat, radix as nat) =~= old(out)@.push(digit_char(n as nat)));
        }
    } else {
        proof {
            vstd::arithmetic::div_mod::lemma_div_decreases(n as int, radix as int);
        }
        push_digits(out, n / radix, radix);
        out.push(digit((n % radix) as u8));
        proof {
            assert(old(out)@ + radix_digits(n as nat, radix as nat) =~= (old(out)@ + radix_digits(
                (n / radix) as nat,
                radix as nat,
            )).push(digit_char((n % radix) as nat)));
        }
    }
}

/// The decimal digits of `n` as a `String`.
pub fn decimal_string(n: u128) -> (r: String)
    ensures
        r@ == radix_digits(n as nat, 10),
{
    let mut v: Vec<char> = Vec::new();
    push_digits(&mut v, n, 10);
    proof {
        assert(v@ =~= radix_digits(n as nat, 10));
    }
    string_of(&v)
}

} // verus!
