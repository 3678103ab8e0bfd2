use crate::game::Move;
use crate::player::GamePlay;
use crate::strategy::Strategy;
use vstd::prelude::*;

verus! {

/// Relies on rand::random: a value drawn from the thread-local generator.
/// Nothing is known of the value drawn.
pub assume_specification<T>[ rand::random::<T> ]() -> (r: T)
    where
        rand::distributions::Standard: rand::distributions::Distribution<T>,
;

/// Collaborates or defects by a fair coin toss, whatever the history.
pub struct Random {}

impl Strategy for Random {
    open spec fn is_deterministic(&self) -> bool {
        false
    }

    open spec fn decide(&self, past_games: Seq<GamePlay>) -> Move {
        Move::Collaborate
    }

    open spec fn has_spec_name(&self) -> bool {
        true
    }

    open spec fn spec_name(&self) -> Seq<char> {
        "Random"@
    }

    fn play(&self, _past_games: &[GamePlay]) -> (m: Move) {
        if rand::random::<bool>() {
            Move::Collaborate
        } else {
            Move::Defect
        }
    }

    fn name(&self) -> (r: String) {
        "Random".to_owned()
    }
}

} // verus!
