use crate::game::Move;
use crate::player::GamePlay;
use crate::strategy::Strategy;
use vstd::prelude::*;

verus! {

/// Always defects.
pub struct Nasty {}

impl Strategy for Nasty {
    open spec fn is_deterministic(&self) -> bool {
        true
    }

    open spec fn decide(&self, past_games: Seq<GamePlay>) -> Move {
        Move::Defect
    }

    open spec fn has_spec_name(&self) -> bool {
        true
    }

    open spec fn spec_name(&self) -> Seq<char> {
        "Nasty"@
    }

    fn play(&self, _past_games: &[GamePlay]) -> (m: Move) {
        Move::Defect
    }

    fn name(&self) -> (r: String) {
        "Nasty".to_owned()
    }
}

} // verus!
