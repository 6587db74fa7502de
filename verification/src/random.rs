//! The source of chance: where mines go and where a game starts.
use vstd::prelude::*;

verus! {

/// Calls `rand::random::<u32>()`, a value drawn from the thread-local
/// generator. Nothing is claimed of the value: every caller is verified for
/// all of them.
#[verifier::external_body]
pub(crate) fn random_u32() -> u32 {
    rand::random::<u32>()
}

/// `v` is a value that the source of chance gave: nothing else is known of
/// it, and no value chosen by the library can be shown to be one.
pub closed spec fn drawn(v: u32) -> bool {
    call_ensures(random_u32, (), v)
}

/// Draws a value from the source of chance.
pub fn draw() -> (r: u32)
    ensures
        drawn(r),
{
    let source = random_u32;
    source()
}

} // verus!
