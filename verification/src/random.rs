use vstd::prelude::*;
use rand::Rng;

verus! {

/// A number drawn at random from `0..n`, by `rand::Rng::gen_range(0, n)` on the
/// thread-local generator of the `rand` crate.
///
/// The claim trusted here is only the range stated by `gen_range`'s
/// documentation ("in the range [low, high)"); which number comes out is
/// left open, as it depends on the generator's state. `n > 0` keeps out the
/// input on which `gen_range` panics (`low >= high`).
#[verifier::external_body]
pub(crate) fn random_below(n: usize) -> (r: usize)
    requires
        n > 0,
    ensures
        r < n,
{
    rand::thread_rng().gen_range(0, n)
}

} // verus!
