//! Sequences of uniformly drawn integers, to feed the sorts.
use vstd::prelude::*;
use rand::Rng;

verus! {

/// rand's handle to the generator of the current thread; opaque here.
#[verifier::external_type_specification]
#[verifier::external_body]
pub struct ExThreadRng(rand::rngs::ThreadRng);

/// Relies on rand's `thread_rng`: it hands out the thread's generator, and
/// nothing is known of the state it is in.
pub assume_specification[ rand::thread_rng ]() -> rand::rngs::ThreadRng;

/// Relies on rand's `Rng::gen_range(low, high)`: a value drawn from
/// `[low, high)`; the call panics when `low >= high`.
#[verifier::external_body]
fn random_in_range(rng: &mut rand::rngs::ThreadRng, low: i32, high: i32) -> (r: i32)
    requires
        low < high,
    ensures
        low <= r < high,
{
    rng.gen_range(low, high)
}

/// Returns `len` integers, each drawn from `[min, max)`; none when `len`
/// is not positive.
pub fn generate_random_array(len: i32, min: i32, max: i32) -> (v: Vec<i32>)
    requires
        len <= 0 || min < max,
    ensures
        v@.len() == if len > 0 { len as int } else { 0 },
        forall|k: int| 0 <= k < v@.len() ==> min <= #[trigger] v@[k] < max,
{
    let mut rng = rand::thread_rng();
    let mut v: Vec<i32> = Vec::new();
    let mut i: i32 = 0;
    while i < len
        invariant
            len <= 0 || min < max,
            0 <= i,
            len > 0 ==> i <= len,
            len <= 0 ==> i == 0,
            v@.len() == i,
            forall|k: int| 0 <= k < v@.len() ==> min <= #[trigger] v@[k] < max,
        decreases len - i,
    {
        v.push(random_in_range(&mut rng, min, max));
        i = i + 1;
    }
    v
}

} // verus!
