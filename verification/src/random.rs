//! Reproducible random numbers.
//!
//! Every number the simulation draws is the first output of an ISAAC
//! generator that was seeded with the world seed and with the place of the
//! draw: which stream it belongs to, two coordinates, and a counter. The
//! same seed and the same place give the same number in every run, and a
//! draw never depends on which other draws were made before it.

use rand::{IsaacRng, Rng, SeedableRng};
use vstd::prelude::*;

verus! {

/// The stream that decides the tile kinds of a chunk.
pub const STREAM_TILES: u32 = 0;

/// The stream that decides the monsters of a chunk.
pub const STREAM_MONSTERS: u32 = 1;

/// The stream that decides the items of a chunk.
pub const STREAM_ITEMS: u32 = 2;

/// The stream that decides where the first dose lies.
pub const STREAM_FIRST_DOSE: u32 = 3;

/// The stream of everything that is decided while the game runs.
pub const STREAM_GAME: u32 = 4;

/// The number that an ISAAC generator seeded with `seed`, `stream`, `a`, `b`
/// and `index` hands out first when asked for a number from `low` up to, but
/// not including, `high`.
pub uninterp spec fn isaac_range(
    seed: u32,
    stream: u32,
    a: i32,
    b: i32,
    index: u32,
    low: i32,
    high: i32,
) -> i32;

/// Calls `rand::IsaacRng::from_seed` on the five words `seed`, `stream`, `a`,
/// `b`, `index` and `rand::Rng::gen_range` on the generator it gives.
///
/// The contract claims what the crate documents: a generator built from a
/// given seed hands out the same numbers as every other built from that
/// seed, so the result is a function of the arguments; and `gen_range` hands
/// out a number from `low` up to, but not including, `high`. It fails for an
/// empty range, which the precondition leaves out.
#[verifier::external_body]
fn seeded_range(seed: u32, stream: u32, a: i32, b: i32, index: u32, low: i32, high: i32) -> (r: i32)
    requires
        low < high,
    ensures
        r == isaac_range(seed, stream, a, b, index, low, high),
        low <= r < high,
{
    let words: [u32; 5] = [seed, stream, a as u32, b as u32, index];
    let mut generator: IsaacRng = SeedableRng::from_seed(&words[..]);
    generator.gen_range(low, high)
}

/// The number drawn at the given place, from `low` up to, but not
/// including, `high`.
pub fn draw(seed: u32, stream: u32, a: i32, b: i32, index: u32, low: i32, high: i32) -> (r: i32)
    requires
        low < high,
    ensures
        r == isaac_range(seed, stream, a, b, index, low, high),
        low <= r < high,
{
    seeded_range(seed, stream, a, b, index, low, high)
}

/// The counter after one more draw. It starts over after the last value.
pub open spec fn next_index(index: u32) -> u32 {
    if index == u32::MAX {
        0
    } else {
        (index + 1) as u32
    }
}

/// The stream of numbers that are drawn while the game runs: the world seed
/// and the count of the numbers drawn so far.
#[derive(Clone, Copy, Debug, PartialEq, Eq, Structural)]
pub struct Random {
    pub seed: u32,
    pub drawn: u32,
}

impl Random {
    /// A stream that has handed out nothing yet.
    pub fn from_seed(seed: u32) -> (rng: Random)
        ensures
            rng == (Random { seed, drawn: 0 }),
    {
        Random { seed, drawn: 0 }
    }

    /// The stream after one more number was drawn.
    pub open spec fn advanced(self) -> Random {
        Random { seed: self.seed, drawn: next_index(self.drawn) }
    }

    /// The number that the next call of [`Random::range`] hands out.
    pub open spec fn peek_range(self, low: i32, high: i32) -> i32 {
        isaac_range(self.seed, STREAM_GAME, 0, 0, self.drawn, low, high)
    }

    /// The next number of the stream, from `low` up to, but not including,
    /// `high`.
    pub fn range(&mut self, low: i32, high: i32) -> (r: i32)
        requires
            low < high,
        ensures
            r == old(self).peek_range(low, high),
            low <= r < high,
            *final(self) == old(self).advanced(),
    {
        let r = draw(self.seed, STREAM_GAME, 0, 0, self.drawn, low, high);
        self.drawn = if self.drawn == u32::MAX {
            0
        } else {
            self.drawn + 1
        };
        r
    }

    /// The next number of the stream, from `low` up to, but not including,
    /// `high`, or `None`, with nothing drawn, where no such number exists.
    pub fn range_checked(&mut self, low: i32, high: i32) -> (r: Option<i32>)
        ensures
            low < high ==> r == Some(old(self).peek_range(low, high)) && *final(self) == old(
                self,
            ).advanced(),
            low >= high ==> r is None && *final(self) == *old(self),
    {
        if low < high {
            Some(self.range(low, high))
        } else {
            None
        }
    }
}

} // verus!
