//! Dice and the calls a player can make.
use crate::random::random_in;
use rand_chacha::ChaCha12Rng;
use vstd::prelude::*;

verus! {

/// One six-sided die; a valid die shows a face from 1 to 6.
#[derive(Clone, Copy, PartialEq, Eq, Structural, Hash, Debug, Ord, PartialOrd)]
pub struct Dice(pub u8);

impl Dice {
    pub open spec fn valid(self) -> bool {
        1 <= self.0 <= 6
    }

    /// Rolls a fresh die from the game's random source.
    pub fn roll(rng: &mut ChaCha12Rng) -> (r: Dice)
        ensures
            r.valid(),
    {
        Dice(random_in(rng, 1, 6))
    }
}

/// A call made during a round.
#[derive(Clone, Copy, PartialEq, Eq, Structural, Debug)]
pub enum DiceCall {
    /// Challenge: the open claim is false.
    Bullshit,
    /// Challenge: the open claim is exact.
    SpotOn,
    /// Claim that at least `count` dice show `value`.
    Increase { count: usize, value: Dice },
}

impl DiceCall {
    pub open spec fn valid(self) -> bool {
        match self {
            DiceCall::Increase { value, .. } => value.valid(),
            _ => true,
        }
    }
}

} // verus!
