use crate::game::Move;
use crate::player::GamePlay;
use crate::strategy::Strategy;
use vstd::prelude::*;

verus! {

/// Always collaborates.
pub struct Naive {}

impl Strategy for Naive {
    open spec fn is_deterministic(&self) -> bool {
        true
    }

    open spec fn decide(&self, past_games: Seq<GamePlay>) -> Move {
        Move::Collaborate
    }

    open spec fn has_spec_name(&self) -> bool {
        true
    }

    open spec fn spec_name(&self) -> Seq<char> {
        "Naive"@
    }

    fn play(&self, _past_games: &[GamePlay]) -> (m: Move) {
        Move::Collaborate
    }

    fn name(&self) -> (r: String) {
        "Naive".to_owned()
    }
}

} // verus!
