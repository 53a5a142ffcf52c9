//! Proportions written as decimal fractions, such as `0.9`.

use vstd::prelude::*;
use vstd::string::is_ascii_spec_bytes;
use crate::stats::Proportion;

verus! {

/// One of the ten digits.
pub open spec fn is_digit(c: char) -> bool {
    '0' <= c && c <= '9'
}

/// The number that a digit stands for.
pub open spec fn digit_value(c: char) -> nat {
    (c as int - '0' as int) as nat
}

/// The number that a sequence of digits writes; 0 for none.
pub open spec fn written(digits: Seq<char>) -> nat
    decreases digits.len(),
{
    if digits.len() == 0 {
        0
    } else {
        10 * written(digits.drop_last()) + digit_value(digits.last())
    }
}

/// Ten to the power of `k`.
pub open spec fn pow10(k: nat) -> nat
    decreases k,
{
    if k == 0 {
        1
    } else {
        10 * pow10((k - 1) as nat)
    }
}

/// `text` is a decimal fraction with its point at `dot`: digits, a point and
/// digits, with a digit at least on either side; or digits alone, and `dot`
/// is the length of `text`.
pub open spec fn is_decimal(text: Seq<char>, dot: int) -> bool {
    &&& 0 < dot <= text.len()
    &&& dot != text.len() - 1
    &&& dot < text.len() ==> text[dot] == '.'
    &&& forall|i: int| 0 <= i < text.len() && i != dot ==> is_digit(#[trigger] text[i])
}

/// The digits behind the point.
pub open spec fn fraction_digits(text: Seq<char>, dot: int) -> Seq<char> {
    if dot < text.len() {
        text.skip(dot + 1)
    } else {
        Seq::empty()
    }
}

/// The numerator of a decimal fraction over `pow10` of the number of digits
/// behind the point.
pub open spec fn numerator(text: Seq<char>, dot: int) -> nat {
    written(text.take(dot)) * pow10(fraction_digits(text, dot).len()) + written(
        fraction_digits(text, dot),
    )
}

/// `text` writes a proportion that this library can hold: a decimal fraction
/// of 19 digits at most behind the point, and not over 1.
pub open spec fn writes_proportion(text: Seq<char>, dot: int) -> bool {
    &&& is_decimal(text, dot)
    &&& fraction_digits(text, dot).len() <= 19
    &&& numerator(text, dot) <= pow10(fraction_digits(text, dot).len())
}

/// A decimal fraction has its point in one place.
pub proof fn lemma_one_dot(text: Seq<char>, dot: int, other: int)
    requires
        is_decimal(text, dot),
        is_decimal(text, other),
    ensures
        dot == other,
{
}

/// One more digit: ten times the number, and the digit.
pub proof fn lemma_written_push(digits: Seq<char>, c: char)
    ensures
        written(digits.push(c)) == 10 * written(digits) + digit_value(c),
{
    assert(digits.push(c).drop_last() =~= digits);
}

/// `pow10(19)` fits in 64 bits, and the powers grow.
pub proof fn lemma_pow10(k: nat)
    ensures
        pow10(k) > 0,
        k <= 19 ==> pow10(k) <= 10_000_000_000_000_000_000,
        k < 19 ==> 10 * pow10(k) <= 10_000_000_000_000_000_000,
    decreases k,
{
    reveal_with_fuel(pow10, 20);
    if k > 19 {
        lemma_pow10((k - 1) as nat);
    }
}

impl Proportion {
    /// The proportion that `text` writes as a decimal fraction, such as `0.9`,
    /// `1` or `0.125`: its digits over a power of ten. `None` where `text` is
    /// no decimal fraction, has more than 19 digits behind the point, or
    /// writes a number over 1.
    pub fn from_decimal(text: &str) -> (r: Option<Proportion>)
        ensures
            r is Some <==> exists|dot: int| writes_proportion(text@, dot),
            r matches Some(p) ==> exists|dot: int|
                #![trigger is_decimal(text@, dot)]
                is_decimal(text@, dot) && p.wf() && p.num() == numerator(text@, dot) && p.den()
                    == pow10(fraction_digits(text@, dot).len()),
    {
        let ghost chars = text@;
        if !text.is_ascii() {
            return None;
        }
        let bytes = text.as_bytes();
        let n = bytes.len();
        proof {
            is_ascii_spec_bytes(text);
            assert forall|i: int| 0 <= i < n implies #[trigger] bytes@[i] == chars[i] as u8 by {}
        }
        // The place of the point, and digits everywhere else
        let mut dot: usize = n;
        let mut i: usize = 0;
        while i < n
            invariant
                i <= n,
                n == chars.len(),
                chars == text@,
                bytes@.len() == n,
                forall|j: int| 0 <= j < n ==> #[trigger] bytes@[j] == chars[j] as u8,
                forall|j: int| 0 <= j < n ==> '\0' <= #[trigger] chars[j] <= '\u{7f}',
                dot == n || (0 < dot < i && dot < n - 1 && chars[dot as int] == '.'),
                forall|j: int| 0 <= j < i && j != dot ==> is_digit(#[trigger] chars[j]),
            decreases n - i,
        {
            let b = bytes[i];
            if b == 46 {
                if dot != n || i == 0 || i == n - 1 {
                    return None;
                }
                dot = i;
            } else if b < 48 || b > 57 {
                return None;
            }
            i = i + 1;
        }
        if n == 0 {
            proof {
                assert forall|at: int| !is_decimal(chars, at) by {}
            }
            return None;
        }
        proof {
            assert forall|at: int| is_decimal(chars, at) implies at == dot by {
                lemma_one_dot(chars, dot as int, at);
            }
        }
        let ghost fraction = fraction_digits(chars, dot as int);
        if dot < n && n - dot - 1 > 19 {
            return None;
        }
        // The number before the point, which is 0 or 1
        let mut whole: u128 = 0;
        let mut i: usize = 0;
        while i < dot
            invariant
                i <= dot <= n,
                chars == text@,
                n == chars.len(),
                bytes@.len() == n,
                forall|j: int| 0 <= j < n ==> #[trigger] bytes@[j] == chars[j] as u8,
                forall|j: int| 0 <= j < n && j != dot ==> is_digit(#[trigger] chars[j]),
                whole == written(chars.take(i as int)),
                whole <= 1,
                fraction == fraction_digits(chars, dot as int),
                forall|at: int| is_decimal(chars, at) ==> at == dot,
            decreases dot - i,
        {
            let b = bytes[i];
            proof {
                assert(chars.take(i + 1) =~= chars.take(i as int).push(chars[i as int]));
                lemma_written_push(chars.take(i as int), chars[i as int]);
            }
            whole = whole * 10 + (b - 48) as u128;
            if whole > 1 {
                proof {
                    lemma_whole_grows(chars, i + 1, dot as int);
                    lemma_pow10(fraction.len());
                    let scale = pow10(fraction.len());
                    assert(written(chars.take(dot as int)) * scale >= 2 * scale) by (nonlinear_arith)
                        requires
                            written(chars.take(dot as int)) >= 2,
                            scale > 0,
                    ;
                }
                return None;
            }
            i = i + 1;
        }
        // The digits behind the point, over a power of ten
        let mut num: u128 = whole;
        let mut den: u128 = 1;
        let mut i: usize = if dot < n {
            dot + 1
        } else {
            n
        };
        let ghost first = i as int;
        while i < n
            invariant
                first <= i <= n,
                first == (if dot < n {
                    dot + 1
                } else {
                    n as int
                }),
                n - first <= 19,
                chars == text@,
                n == chars.len(),
                bytes@.len() == n,
                forall|j: int| 0 <= j < n ==> #[trigger] bytes@[j] == chars[j] as u8,
                forall|j: int| 0 <= j < n && j != dot ==> is_digit(#[trigger] chars[j]),
                whole == written(chars.take(dot as int)),
                whole <= 1,
                den == pow10((i - first) as nat),
                num == whole * den + written(chars.subrange(first, i as int)),
                written(chars.subrange(first, i as int)) < den,
            decreases n - i,
        {
            let b = bytes[i];
            proof {
                assert(chars.subrange(first, i + 1) =~= chars.subrange(first, i as int).push(
                    chars[i as int],
                ));
                lemma_written_push(chars.subrange(first, i as int), chars[i as int]);
                lemma_pow10((i - first) as nat);
                assert(whole * (10 * den) == 10 * (whole * den)) by (nonlinear_arith);
                assert(whole * den <= den) by (nonlinear_arith)
                    requires
                        whole <= 1,
                ;
            }
            num = num * 10 + (b - 48) as u128;
            den = den * 10;
            i = i + 1;
        }
        proof {
            lemma_pow10(fraction.len());
            assert forall|at: int| writes_proportion(chars, at) implies at == dot by {}
            if num <= den {
                assert(writes_proportion(chars, dot as int));
            }
        }
        if num > den {
            return None;
        }
        Proportion::new(num as u64, den as u64)
    }
}

/// The number written by a longer row of digits is no smaller.
pub proof fn lemma_whole_grows(chars: Seq<char>, shorter: int, longer: int)
    requires
        0 <= shorter <= longer <= chars.len(),
    ensures
        written(chars.take(shorter)) <= written(chars.take(longer)),
    decreases longer - shorter,
{
    if shorter < longer {
        lemma_whole_grows(chars, shorter, longer - 1);
        assert(chars.take(longer) =~= chars.take(longer - 1).push(chars[longer - 1]));
        lemma_written_push(chars.take(longer - 1), chars[longer - 1]);
    }
}

} // verus!
