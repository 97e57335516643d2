use vstd::prelude::*;

verus! {

/// `rand::random::<u64>`: a number from the thread's random generator.
/// Nothing is claimed of the number.
#[verifier::external_body]
pub(crate) fn random_number() -> u64 {
    rand::random::<u64>()
}

} // verus!
