//! The source of chance.

use vstd::prelude::*;

verus! {

/// A number drawn by `rand::random`, the thread-local generator of the
/// `rand` crate. Nothing is claimed of the number.
#[verifier::external_body]
pub(crate) fn draw() -> (number: u64) {
    rand::random()
}

/// `count` numbers drawn one after the other.
pub fn draws(count: usize) -> (numbers: Vec<u64>)
    ensures
        numbers@.len() == count,
{
    let mut numbers: Vec<u64> = Vec::new();
    while numbers.len() < count
        invariant
            numbers@.len() <= count,
        decreases count - numbers@.len(),
    {
        numbers.push(draw());
    }
    numbers
}

} // verus!
