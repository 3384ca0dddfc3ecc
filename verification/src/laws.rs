//! What holds of decimal expansions and of frequency tables.

use vstd::prelude::*;
use vstd::arithmetic::logarithm::{lemma_log0, lemma_log_s, log};
use vstd::arithmetic::power::{lemma_pow0, pow};
use vstd::multiset::{
    axiom_multiset_empty, lemma_insert_increases_count_by_1, lemma_insert_other_elements_unchanged,
    lemma_multiset_empty_len,
};
use vstd::seq_lib::to_multiset_build;
use crate::model::{
    all_digits, decimal_digits, digits_value, frequency_of, is_canonical, is_digit, occurrences,
    total,
};

verus! {

/// A number's decimal expansion is canonical: it has at least one digit,
/// holds digits only, and starts with zero only if the number is zero.
pub proof fn lemma_expansion_is_canonical(n: nat)
    ensures
        is_canonical(decimal_digits(n)),
        decimal_digits(n)[0] == 0 <==> n == 0,
    decreases n,
{
    if n >= 10 {
        lemma_expansion_is_canonical(n / 10);
    }
}

/// Reading the digits of `n` back, each weighted by the power of ten of its
/// position, gives `n`.
pub proof fn lemma_value_of_expansion(n: nat)
    ensures
        digits_value(decimal_digits(n)) == n,
    decreases n,
{
    let digits = decimal_digits(n);
    if n >= 10 {
        let high = decimal_digits(n / 10);
        lemma_value_of_expansion(n / 10);
        assert(digits.drop_last() =~= high);
        assert(digits.last() == n % 10);
    } else {
        assert(digits.drop_last().len() == 0);
        assert(digits_value(digits.drop_last()) == 0);
        assert(digits.last() == n);
    }
}

/// A sequence of digits denotes a number that is not negative.
pub proof fn lemma_value_is_natural(s: Seq<int>)
    requires
        all_digits(s),
    ensures
        digits_value(s) >= 0,
    decreases s.len(),
{
    if s.len() > 0 {
        lemma_value_is_natural(s.drop_last());
    }
}

/// A canonical sequence is the decimal expansion of the number it denotes:
/// no two canonical sequences denote the same number.
pub proof fn lemma_expansion_is_unique(s: Seq<int>)
    requires
        is_canonical(s),
    ensures
        digits_value(s) >= 0,
        decimal_digits(digits_value(s) as nat) == s,
    decreases s.len(),
{
    lemma_value_is_natural(s);
    let high = s.drop_last();
    if s.len() == 1 {
        assert(digits_value(high) == 0);
        assert(s =~= seq![s[0]]);
    } else {
        lemma_expansion_is_unique(high);
        lemma_expansion_is_canonical(digits_value(high) as nat);
        assert(high[0] == s[0]);
        assert(digits_value(high) > 0);
        assert(s =~= high.push(s.last()));
    }
}

/// The expansion of `n` has one digit more than the integer logarithm of
/// `n` to base ten: `n` lies between the powers of ten on either side of
/// its digit count. Zero has one digit.
pub proof fn lemma_expansion_length(n: nat)
    ensures
        decimal_digits(n).len() == log(10, n as int) + 1,
        n == 0 ==> decimal_digits(n).len() == 1,
        n > 0 ==> pow(10, (decimal_digits(n).len() - 1) as nat) <= n < pow(
            10,
            decimal_digits(n).len(),
        ),
    decreases n,
{
    let len = decimal_digits(n).len();
    if n >= 10 {
        lemma_expansion_length(n / 10);
        lemma_log_s(10, n as int);
        reveal(pow);
        assert(pow(10, len) == 10 * pow(10, (len - 1) as nat));
        assert(pow(10, (len - 1) as nat) == 10 * pow(10, (len - 2) as nat));
    } else {
        lemma_log0(10, n as int);
        lemma_pow0(10);
        reveal(pow);
        assert(pow(10, 1) == 10 * pow(10, 0));
    }
}

/// Nothing occurs in the empty sequence.
pub proof fn lemma_occurrences_empty(d: int)
    ensures
        occurrences(Seq::<int>::empty(), d) == 0,
{
    let none = Seq::<int>::empty();
    none.to_multiset_ensures();
    lemma_multiset_empty_len(none.to_multiset());
    axiom_multiset_empty(d);
}

/// Appending `x` adds one occurrence of `x` and none of anything else.
pub proof fn lemma_occurrences_push(s: Seq<int>, x: int, d: int)
    ensures
        occurrences(s.push(x), d) == occurrences(s, d) + if x == d {
            1nat
        } else {
            0nat
        },
{
    to_multiset_build(s, x);
    if x == d {
        lemma_insert_increases_count_by_1(s.to_multiset(), x);
    } else {
        lemma_insert_other_elements_unchanged(s.to_multiset(), x, d);
    }
}

/// Counts that are all zero add up to zero.
pub proof fn lemma_total_of_zeros(f: Seq<nat>)
    requires
        forall|i: int| 0 <= i < f.len() ==> f[i] == 0,
    ensures
        total(f) == 0,
    decreases f.len(),
{
    if f.len() > 0 {
        lemma_total_of_zeros(f.drop_last());
    }
}

/// Raising one count by one raises the sum of the counts by one.
pub proof fn lemma_total_after_increment(f: Seq<nat>, i: int)
    requires
        0 <= i < f.len(),
    ensures
        total(f.update(i, f[i] + 1)) == total(f) + 1,
    decreases f.len(),
{
    let g = f.update(i, f[i] + 1);
    if i == f.len() - 1 {
        assert(g.drop_last() =~= f.drop_last());
    } else {
        lemma_total_after_increment(f.drop_last(), i);
        assert(g.drop_last() =~= f.drop_last().update(i, f[i] + 1));
    }
}

/// A frequency table has ten entries, one for each digit from 0 to 9, and
/// the entry of a digit is the number of times the digit occurs.
pub proof fn lemma_frequency_keys(s: Seq<int>)
    ensures
        frequency_of(s).len() == 10,
        forall|d: int| is_digit(d) ==> #[trigger] frequency_of(s)[d] == occurrences(s, d),
        forall|d: int| is_digit(d) ==> #[trigger] frequency_of(s)[d] >= 0,
{
}

/// The counts in the frequency table of a sequence of digits add up to the
/// length of the sequence.
pub proof fn lemma_frequency_total(s: Seq<int>)
    requires
        all_digits(s),
    ensures
        total(frequency_of(s)) == s.len(),
    decreases s.len(),
{
    if s.len() == 0 {
        assert(s =~= Seq::<int>::empty());
        assert forall|d: int| 0 <= d < 10 implies #[trigger] frequency_of(s)[d] == 0 by {
            lemma_occurrences_empty(d);
        }
        lemma_total_of_zeros(frequency_of(s));
    } else {
        let front = s.drop_last();
        let x = s.last();
        lemma_frequency_total(front);
        assert(s =~= front.push(x));
        assert(is_digit(s[s.len() - 1]));
        assert forall|d: int| 0 <= d < 10 implies #[trigger] frequency_of(s)[d] == frequency_of(
            front,
        ).update(x, frequency_of(front)[x] + 1)[d] by {
            lemma_occurrences_push(front, x, d);
        }
        assert(frequency_of(s) =~= frequency_of(front).update(x, frequency_of(front)[x] + 1));
        lemma_total_after_increment(frequency_of(front), x);
    }
}

/// The counts in the frequency table of a number's digits add up to the
/// number of its digits.
pub proof fn lemma_frequency_total_of_expansion(n: nat)
    ensures
        total(frequency_of(decimal_digits(n))) == decimal_digits(n).len(),
{
    lemma_expansion_is_canonical(n);
    lemma_frequency_total(decimal_digits(n));
}

} // verus!
