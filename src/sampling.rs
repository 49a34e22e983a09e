//! Random sources of library values.
use vstd::prelude::*;
use rand::Rng;
use rand::rngs::ThreadRng;
use crate::binary::Binary;

verus! {

#[verifier::external_type_specification]
#[verifier::external_body]
pub struct ExThreadRng(rand::rngs::ThreadRng);

/// Relies on `rand::thread_rng`: a handle to the lazily seeded generator of the
/// current thread.
#[verifier::external_body]
fn thread_rng() -> ThreadRng {
    rand::thread_rng()
}

/// Relies on `rand::Rng::gen_range` over `low..high`: a value of that range,
/// drawn uniformly; it panics only on an empty range.
#[verifier::external_body]
fn draw_in_range(rng: &mut ThreadRng, low: i32, high: i32) -> (r: i32)
    requires
        low < high,
    ensures
        low <= r < high,
{
    rng.gen_range(low..high)
}

/// A lazy source of values of type T.
pub trait Random<T> {
    fn gen(&mut self) -> T;

    /// M values, drawn in order (for M = 0, one value is drawn and dropped).
    fn gen_n<const M: usize>(&mut self) -> [T; M]
        where
            T: Copy,
    {
        let first = self.gen();
        let mut out: [T; M] = [first; M];
        let mut i: usize = 1;
        while i < M
            decreases M - i,
        {
            out[i] = self.gen();
            i += 1;
        }
        out
    }
}

/// Binary digits drawn uniformly.
pub struct BinaryDistribution {
    rng: ThreadRng,
}

impl BinaryDistribution {
    pub fn uniform() -> BinaryDistribution {
        BinaryDistribution { rng: thread_rng() }
    }
}

/// The digit of a sample of {0, 1}.
pub fn binary_of_sample(x: i32) -> (r: Binary)
    requires
        0 <= x < 2,
    ensures
        r == (if x == 0 { Binary::Zero } else { Binary::One }),
{
    Binary::from_i32(x)
}

impl Random<Binary> for BinaryDistribution {
    fn gen(&mut self) -> Binary {
        let x = draw_in_range(&mut self.rng, 0, 2);
        binary_of_sample(x)
    }
}

} // verus!
