//! Splitting a number into its decimal digits.

use vstd::prelude::*;
use crate::laws::{
    lemma_expansion_is_canonical, lemma_expansion_is_unique, lemma_frequency_total,
    lemma_occurrences_empty, lemma_occurrences_push, lemma_value_of_expansion,
};
use crate::model::{
    all_digits, count_values, decimal_digits, digit_values, digits_value, frequency_of,
    is_canonical, is_digit, occurrences, total,
};

verus! {

/// Why a number was not split into digits.
#[derive(Clone, Copy, Debug, PartialEq, Eq, Structural)]
pub enum DigitsError {
    /// The number is negative.
    InvalidArgument,
}

/// The decimal digits of a number, most significant first, together with
/// the number of times each of the ten digits occurs among them.
///
/// Both are computed when the value is made and never change afterwards.
pub struct Digits {
    digits: Vec<i8>,
    frequency: [usize; 10],
}

impl View for Digits {
    type V = Seq<int>;

    /// The digits, most significant first.
    closed spec fn view(&self) -> Seq<int> {
        digit_values(self.digits@)
    }
}

impl Digits {
    /// The digits are a number's decimal expansion, and the table counts them.
    #[verifier::type_invariant]
    spec fn well_formed(&self) -> bool {
        &&& is_canonical(digit_values(self.digits@))
        &&& count_values(self.frequency@) == frequency_of(digit_values(self.digits@))
    }

    /// The number that the digits denote.
    pub open spec fn number(&self) -> nat {
        digits_value(self@) as nat
    }

    /// Splits `number` into its decimal digits and counts them.
    ///
    /// A negative number is rejected.
    pub fn new(number: i64) -> (result: Result<Digits, DigitsError>)
        ensures
            match result {
                Ok(made) => {
                    &&& number >= 0
                    &&& made@ == decimal_digits(number as nat)
                    &&& made.number() == number
                },
                Err(e) => number < 0 && e == DigitsError::InvalidArgument,
            },
    {
        match to_digits(number) {
            Ok(digits) => {
                proof {
                    lemma_expansion_is_canonical(number as nat);
                }
                let frequency = tally(&digits);
                Ok(Digits { digits, frequency })
            },
            Err(e) => Err(e),
        }
    }

    /// Hands out the digits, most significant first.
    pub fn get(self) -> (digits: Vec<i8>)
        ensures
            digit_values(digits@) == self@,
            self@ == decimal_digits(self.number()),
    {
        proof {
            use_type_invariant(&self);
            lemma_expansion_is_unique(self@);
        }
        self.digits
    }

    /// The frequency table: ten counts, the one at index `d` being the number
    /// of times the digit `d` occurs among the digits.
    pub fn frequency(&self) -> (table: [usize; 10])
        ensures
            table@.len() == 10,
            forall|d: int| is_digit(d) ==> #[trigger] table@[d] == occurrences(self@, d),
            count_values(table@) == frequency_of(self@),
            total(count_values(table@)) == self@.len(),
            self@ == decimal_digits(self.number()),
    {
        proof {
            use_type_invariant(self);
            lemma_expansion_is_unique(self@);
            lemma_frequency_total(self@);
            assert forall|d: int| is_digit(d) implies self.frequency@[d] == occurrences(
                self@,
                d,
            ) by {
                assert(count_values(self.frequency@)[d] == frequency_of(self@)[d]);
            }
        }
        self.frequency
    }
}

/// Reverses `v` in place.
fn reverse(v: &mut Vec<i8>)
    ensures
        final(v)@ == old(v)@.reverse(),
{
    let len: usize = v.len();
    let mut lo: usize = 0;
    while lo < len / 2
        invariant
            len == v@.len(),
            len == old(v)@.len(),
            lo <= len / 2,
            forall|i: int| 0 <= i < lo ==> v@[i] == old(v)@[len - 1 - i],
            forall|i: int| len - lo <= i < len ==> v@[i] == old(v)@[len - 1 - i],
            forall|i: int| lo <= i < len - lo ==> v@[i] == old(v)@[i],
        decreases len / 2 - lo,
    {
        let hi: usize = len - 1 - lo;
        let front: i8 = v[lo];
        let back: i8 = v[hi];
        v[lo] = back;
        v[hi] = front;
        lo = lo + 1;
    }
    assert(v@ =~= old(v)@.reverse());
}

/// Splits `number` into its decimal digits, most significant first.
///
/// A negative number has no digits here: it is rejected.
pub fn to_digits(number: i64) -> (result: Result<Vec<i8>, DigitsError>)
    ensures
        match result {
            Ok(digits) => {
                &&& number >= 0
                &&& digit_values(digits@) == decimal_digits(number as nat)
                &&& digits_value(digit_values(digits@)) == number
            },
            Err(e) => number < 0 && e == DigitsError::InvalidArgument,
        },
{
    if number < 0 {
        return Err(DigitsError::InvalidArgument);
    }
    proof {
        lemma_value_of_expansion(number as nat);
    }
    let mut n: i64 = number;
    let mut digits: Vec<i8> = Vec::new();

    if n == 0 {
        digits.push(0);
    }
    assert(digit_values(digits@).reverse() =~= if n == 0 {
        seq![0int]
    } else {
        Seq::<int>::empty()
    });

    while n > 0
        invariant
            0 <= n <= number,
            n > 0 ==> decimal_digits(number as nat) == decimal_digits(n as nat) + digit_values(
                digits@,
            ).reverse(),
            n == 0 ==> decimal_digits(number as nat) == digit_values(digits@).reverse(),
        decreases n,
    {
        let ones_place: i8 = (n % 10) as i8;
        proof {
            let before = digit_values(digits@);
            let after = digit_values(digits@.push(ones_place));
            assert(after.reverse() =~= seq![ones_place as int] + before.reverse());
            if n >= 10 {
                assert(decimal_digits(n as nat) + before.reverse() =~= decimal_digits(
                    (n / 10) as nat,
                ) + after.reverse());
            } else {
                assert(decimal_digits(n as nat) + before.reverse() =~= after.reverse());
            }
        }
        digits.push(ones_place);
        n = n / 10;
    }

    proof {
        let least_first = digit_values(digits@);
        assert(digit_values(digits@.reverse()) =~= least_first.reverse());
    }
    reverse(&mut digits);
    Ok(digits)
}

/// Counts how often each of the ten digits occurs in `digits`.
fn tally(digits: &Vec<i8>) -> (table: [usize; 10])
    requires
        all_digits(digit_values(digits@)),
    ensures
        count_values(table@) == frequency_of(digit_values(digits@)),
{
    let mut table: [usize; 10] = [0; 10];
    let mut i: usize = 0;
    proof {
        assert(digit_values(digits@).take(0) =~= Seq::<int>::empty());
        assert forall|d: int| 0 <= d < 10 implies table@[d] == #[trigger] occurrences(
            digit_values(digits@).take(0),
            d,
        ) by {
            lemma_occurrences_empty(d);
        }
    }
    while i < digits.len()
        invariant
            i <= digits@.len(),
            all_digits(digit_values(digits@)),
            forall|d: int| 0 <= d < 10 ==> table@[d] <= i,
            forall|d: int|
                0 <= d < 10 ==> table@[d] == #[trigger] occurrences(
                    digit_values(digits@).take(i as int),
                    d,
                ),
        decreases digits@.len() - i,
    {
        let digit: i8 = digits[i];
        assert(is_digit(digit_values(digits@)[i as int]));
        let slot: usize = digit as usize;
        proof {
            let all = digit_values(digits@);
            assert(all.take(i + 1) =~= all.take(i as int).push(digit as int));
            assert forall|d: int| 0 <= d < 10 implies #[trigger] occurrences(all.take(i + 1), d)
                == table@[d] + if d == slot {
                1nat
            } else {
                0nat
            } by {
                lemma_occurrences_push(all.take(i as int), digit as int, d);
            }
        }
        table[slot] = table[slot] + 1;
        i = i + 1;
    }
    proof {
        let all = digit_values(digits@);
        assert(all.take(i as int) =~= all);
        assert(count_values(table@) =~= frequency_of(all));
    }
    table
}

} // verus!
