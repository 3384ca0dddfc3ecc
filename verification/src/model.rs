//! The mathematical model: decimal expansions as sequences of integers.

use vstd::prelude::*;

verus! {

/// Whether `d` is a decimal digit.
pub open spec fn is_digit(d: int) -> bool {
    0 <= d <= 9
}

/// Whether every element of `s` is a decimal digit.
pub open spec fn all_digits(s: Seq<int>) -> bool {
    forall|i: int| 0 <= i < s.len() ==> is_digit(#[trigger] s[i])
}

/// The digits held in `s`, as mathematical integers.
pub open spec fn digit_values(s: Seq<i8>) -> Seq<int> {
    s.map_values(|d: i8| d as int)
}

/// The decimal expansion of `n`, most significant digit first.
///
/// The expansion of zero is the one-element sequence `[0]`.
pub open spec fn decimal_digits(n: nat) -> Seq<int>
    decreases n,
{
    if n < 10 {
        seq![n as int]
    } else {
        decimal_digits(n / 10).push((n % 10) as int)
    }
}

/// The number that a sequence of digits denotes: each digit weighted by
/// the power of ten of its position, most significant digit first.
pub open spec fn digits_value(s: Seq<int>) -> int
    decreases s.len(),
{
    if s.len() == 0 {
        0
    } else {
        10 * digits_value(s.drop_last()) + s.last()
    }
}

/// Whether `s` is written the way a number is: at least one digit, digits
/// only, and no leading zero except for zero itself.
pub open spec fn is_canonical(s: Seq<int>) -> bool {
    &&& s.len() >= 1
    &&& all_digits(s)
    &&& s.len() > 1 ==> s[0] != 0
}

/// How many times `d` occurs in `s`.
pub open spec fn occurrences(s: Seq<int>, d: int) -> nat {
    s.to_multiset().count(d)
}

/// The frequency table of `s`: ten counts, the one at index `d` being the
/// number of times the digit `d` occurs in `s`.
pub open spec fn frequency_of(s: Seq<int>) -> Seq<nat> {
    Seq::new(10, |d: int| occurrences(s, d))
}

/// The counts held in `table`, as natural numbers.
pub open spec fn count_values(table: Seq<usize>) -> Seq<nat> {
    table.map_values(|c: usize| c as nat)
}

/// The sum of the counts in `f`.
pub open spec fn total(f: Seq<nat>) -> nat
    decreases f.len(),
{
    if f.len() == 0 {
        0
    } else {
        total(f.drop_last()) + f.last()
    }
}

} // verus!
