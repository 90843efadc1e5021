//! Numbers as the counters show them: digit by digit.

use vstd::prelude::*;

verus! {

/// The number that the decimal digits `digits` write, the first digit
/// counting most.
pub open spec fn value_of(digits: Seq<u8>) -> nat
    decreases digits.len(),
{
    if digits.len() == 0 {
        0
    } else {
        value_of(digits.drop_last()) * 10 + digits.last() as nat
    }
}

/// Whether `digits` writes `number` as the counters show it: in decimal
/// digits, without a zero in front unless it is the only digit.
pub open spec fn writes(digits: Seq<u8>, number: nat) -> bool {
    &&& digits.len() >= 1
    &&& forall|k: int| 0 <= k < digits.len() ==> #[trigger] digits[k] < 10
    &&& digits[0] != 0 || digits.len() == 1
    &&& value_of(digits) == number
}

/// The decimal digits of `number`, the first digit counting most.
pub fn number_to_digits(number: u32) -> (digits: Vec<u8>)
    ensures
        writes(digits@, number as nat),
    decreases number,
{
    if number < 10 {
        let mut digits: Vec<u8> = Vec::new();
        digits.push(number as u8);
        proof {
            assert(digits@.drop_last() =~= Seq::<u8>::empty());
            assert(value_of(digits@.drop_last()) == 0);
        }
        digits
    } else {
        let mut digits = number_to_digits(number / 10);
        let ghost front = digits@;
        digits.push((number % 10) as u8);
        proof {
            assert(digits@.drop_last() =~= front);
            assert(front[0] != 0) by {
                if front.len() == 1 {
                    assert(front.drop_last() =~= Seq::<u8>::empty());
                    assert(value_of(front.drop_last()) == 0);
                    assert(value_of(front) == front[0]);
                }
            }
            assert(digits@[0] == front[0]);
        }
        digits
    }
}

} // verus!
