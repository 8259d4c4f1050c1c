//! Positional notation: the digits of a natural number in a base from 2 to
//! 16, padded with zeros to a minimum width.

use vstd::prelude::*;
use vstd::string::*;

verus! {

/// The character of a digit below 16: `0` to `9`, then `a` to `f`.
pub open spec fn digit_char(d: nat) -> char {
    if d < 10 {
        (0x30 + d) as char
    } else {
        (0x57 + d) as char
    }
}

/// The digits of `n` in `base`, most significant first, with zeros in front
/// until there are at least `min_width` of them, and at least one digit.
pub open spec fn radix_text(n: nat, base: nat, min_width: nat) -> Seq<char>
    recommends
        2 <= base <= 16,
    decreases n, min_width,
{
    if base < 2 {
        Seq::empty()
    } else if n < base && min_width <= 1 {
        seq![digit_char(n)]
    } else {
        proof {
            lemma_quotient_shrinks(n, base);
        }
        radix_text(n / base, base, width_left(min_width)).push(digit_char(n % base))
    }
}

/// Dividing by a base of at least two never grows a number, and shrinks
/// every number that is not zero.
pub proof fn lemma_quotient_shrinks(n: nat, base: nat)
    requires
        base >= 2,
    ensures
        n / base <= n,
        n > 0 ==> n / base < n,
{
    assert(n / base <= n && (n > 0 ==> n / base < n)) by (nonlinear_arith)
        requires
            base >= 2,
            n >= 0,
    ;
}

/// The width still owed once one digit has been written.
pub open spec fn width_left(min_width: nat) -> nat {
    if min_width == 0 {
        0
    } else {
        (min_width - 1) as nat
    }
}

/// The decimal digits of `n`.
pub open spec fn decimal_text(n: nat) -> Seq<char> {
    radix_text(n, 10, 1)
}

/// The character of the digit `d`.
fn digit(d: u8) -> (c: char)
    requires
        d < 16,
    ensures
        c == digit_char(d as nat),
{
    if d < 10 {
        (0x30u8 + d) as char
    } else {
        (0x57u8 + d) as char
    }
}

/// Appends the digits of `n` in `base` to `out`, padded with zeros to
/// `min_width` digits.
pub fn push_radix(out: &mut String, n: u128, base: u8, min_width: usize)
    requires
        2 <= base <= 16,
    ensures
        final(out)@ == old(out)@ + radix_text(n as nat, base as nat, min_width as nat),
{
    let wide: u128 = base as u128;
    let mut rest: u128 = n;
    let mut width: usize = min_width;
    let mut low_first: Vec<char> = Vec::new();
    while !(rest < wide && width <= 1)
        invariant
            2 <= base <= 16,
            wide == base,
            radix_text(n as nat, base as nat, min_width as nat) == radix_text(
                rest as nat,
                base as nat,
                width as nat,
            ) + low_first@.reverse(),
        decreases rest, width,
    {
        let ghost before = low_first@;
        low_first.push(digit((rest % wide) as u8));
        proof {
            let head = radix_text((rest / wide) as nat, base as nat, width_left(width as nat));
            let last = digit_char((rest % wide) as nat);
            assert(low_first@.reverse() =~= seq![last] + before.reverse());
            assert(head.push(last) + before.reverse() =~= head + low_first@.reverse());
        }
        rest = rest / wide;
        if width > 0 {
            width -= 1;
        }
    }
    out.push(digit(rest as u8));
    let mut i: usize = low_first.len();
    while i > 0
        invariant
            i <= low_first.len(),
            out@ == old(out)@ + seq![digit_char(rest as nat)] + low_first@.reverse().subrange(
                0,
                low_first.len() - i,
            ),
        decreases i,
    {
        i -= 1;
        out.push(low_first[i]);
        assert(out@ =~= old(out)@ + seq![digit_char(rest as nat)]
            + low_first@.reverse().subrange(0, low_first.len() - i));
    }
    assert(out@ =~= old(out)@ + radix_text(n as nat, base as nat, min_width as nat));
}

/// `base` to the power of `digits`: the least number that needs more than
/// `digits` digits.
pub open spec fn radix_limit(base: nat, digits: nat) -> nat
    decreases digits,
{
    if digits == 0 {
        1
    } else {
        base * radix_limit(base, (digits - 1) as nat)
    }
}

/// A numeral has at least one digit and at least the minimum width, and a
/// number below `base` to the power of `digits` takes no more than
/// `digits` digits, or the minimum width if that is more.
pub proof fn lemma_radix_text_len(n: nat, base: nat, min_width: nat, digits: nat)
    requires
        2 <= base <= 16,
        digits >= 1,
        n < radix_limit(base, digits),
    ensures
        radix_text(n, base, min_width).len() >= 1,
        radix_text(n, base, min_width).len() >= min_width,
        radix_text(n, base, min_width).len() <= digits || radix_text(n, base, min_width).len()
            <= min_width,
    decreases n, min_width,
{
    if n < base && min_width <= 1 {
    } else {
        lemma_quotient_shrinks(n, base);
        let fewer: nat = if digits >= 2 {
            (digits - 1) as nat
        } else {
            1
        };
        assert(n / base < radix_limit(base, fewer)) by {
            if digits >= 2 {
                let limit = radix_limit(base, fewer);
                assert(n / base < limit) by (nonlinear_arith)
                    requires
                        base >= 2,
                        n < base * limit,
                ;
            } else {
                assert(radix_limit(base, 0) == 1);
                assert(radix_limit(base, 1) == base * radix_limit(base, 0));
                assert(radix_limit(base, 1) == base) by (nonlinear_arith)
                    requires
                        radix_limit(base, 1) == base * 1,
                ;
                assert(n / base == 0) by (nonlinear_arith)
                    requires
                        base >= 2,
                        n < base,
                ;
            }
        }
        lemma_radix_text_len(n / base, base, width_left(min_width), fewer);
    }
}

} // verus!
