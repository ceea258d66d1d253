//! Digit formatting for unsigned numbers, used by the panic path where no
//! formatting machinery is available.

use vstd::prelude::*;

verus! {

/// Number radix of a formatted value.
#[derive(Copy, Clone, Eq, PartialEq, Structural, Debug)]
pub enum Radix {
    Binary,
    Octal,
    Decimal,
    Hex,
}

/// The ASCII digit for one digit value: `0` to `9`, then `A` to `F`.
pub open spec fn digit_ascii(d: int) -> u8 {
    if d < 10 {
        (48 + d) as u8
    } else {
        (55 + d) as u8
    }
}

/// The digits of `num` in the given radix, most significant first, with no
/// leading zeroes (a single zero digit for zero itself).
pub open spec fn digits_of(num: int, radix: int) -> Seq<u8>
    decreases num,
    when 2 <= radix && 0 <= num
    via digits_of_decreases
{
    if num < radix {
        seq![digit_ascii(num)]
    } else {
        digits_of(num / radix, radix).push(digit_ascii(num % radix))
    }
}

#[via_fn]
proof fn digits_of_decreases(num: int, radix: int) {
    if 2 <= radix && radix <= num {
        vstd::arithmetic::div_mod::lemma_fundamental_div_mod(num, radix);
        assert(0 <= num / radix < num) by (nonlinear_arith)
            requires
                2 <= radix <= num,
        ;
    }
}

/// The number a digit sequence denotes in the given radix.
pub open spec fn digits_value(digits: Seq<u8>, radix: int) -> int
    decreases digits.len(),
{
    if digits.len() == 0 {
        0
    } else {
        digits_value(digits.drop_last(), radix) * radix + (if digits.last() < 58 {
            digits.last() - 48
        } else {
            digits.last() - 55
        })
    }
}

/// Formatting round trip: the digit string of a number denotes the number.
pub proof fn lemma_digits_of_value(num: int, radix: int)
    requires
        2 <= radix <= 16,
        0 <= num,
    ensures
        digits_value(digits_of(num, radix), radix) == num,
    decreases num,
{
    if num < radix {
        assert(digits_of(num, radix) == seq![digit_ascii(num)]);
        assert(seq![digit_ascii(num)].drop_last() =~= Seq::<u8>::empty());
        assert(digits_value(Seq::<u8>::empty(), radix) == 0);
        assert(digits_value(seq![digit_ascii(num)], radix) == num);
    } else {
        let q = num / radix;
        let d = num % radix;
        vstd::arithmetic::div_mod::lemma_fundamental_div_mod(num, radix);
        assert(0 < q < num) by (nonlinear_arith)
            requires
                2 <= radix,
                num >= radix,
                q == num / radix,
        ;
        lemma_digits_of_value(q, radix);
        let whole = digits_of(num, radix);
        assert(whole.len() >= 1);
        assert(whole.drop_last() =~= digits_of(q, radix));
        assert(whole.last() == digit_ascii(d));
        assert(0 <= d < radix);
        assert(digits_value(whole, radix) == digits_value(whole.drop_last(), radix) * radix + d);
        assert(digits_value(whole.drop_last(), radix) == q);
        assert(q * radix + d == num) by (nonlinear_arith)
            requires
                num == radix * q + d,
        ;
    }
}

fn digit_ascii_exec(d: usize) -> (r: u8)
    requires
        d < 16,
    ensures
        r == digit_ascii(d as int),
{
    if d < 10 {
        48 + (d as u8)
    } else {
        55 + (d as u8)
    }
}

fn push_digits(num: usize, radix: usize, out: &mut Vec<u8>)
    requires
        2 <= radix <= 16,
    ensures
        final(out)@ == old(out)@ + digits_of(num as int, radix as int),
    decreases num,
{
    if num >= radix {
        proof {
            vstd::arithmetic::div_mod::lemma_fundamental_div_mod(num as int, radix as int);
            assert(num / radix < num) by (nonlinear_arith)
                requires
                    2 <= radix,
                    num >= radix,
            ;
        }
        push_digits(num / radix, radix, out);
    }
    out.push(digit_ascii_exec(num % radix));
    proof {
        if num < radix {
            vstd::arithmetic::div_mod::lemma_small_mod(num as nat, radix as nat);
            assert(out@ =~= old(out)@ + digits_of(num as int, radix as int));
        } else {
            assert(out@ =~= old(out)@ + digits_of(num as int, radix as int));
        }
    }
}

/// The digits of `num` in the given radix, most significant first: `0` to
/// `9`, then `A` to `F`.  Zero formats as a single zero digit.
pub fn format_unsigned(num: usize, radix: usize) -> (r: Vec<u8>)
    requires
        2 <= radix <= 16,
    ensures
        r@ == digits_of(num as int, radix as int),
        r@.len() >= 1,
{
    let mut out: Vec<u8> = Vec::new();
    push_digits(num, radix, &mut out);
    proof {
        assert(digits_of(num as int, radix as int).len() >= 1) by {
            lemma_digits_len(num as int, radix as int);
        }
    }
    out
}

proof fn lemma_digits_len(num: int, radix: int)
    requires
        2 <= radix,
        0 <= num,
    ensures
        digits_of(num, radix).len() >= 1,
    decreases num,
{
    if num >= radix {
    }
}

} // verus!
