use crate::game::Move;
use crate::player::GamePlay;
use crate::strategy::Strategy;
use vstd::prelude::*;

verus! {

/// Collaborates until the opponent defects once, then defects for good.
pub struct GrimTrigger {}

impl Strategy for GrimTrigger {
    open spec fn is_deterministic(&self) -> bool {
        true
    }

    open spec fn decide(&self, past_games: Seq<GamePlay>) -> Move {
        if exists|k: int| 0 <= k < past_games.len() && past_games[k].their_move == Move::Defect {
            Move::Defect
        } else {
            Move::Collaborate
        }
    }

    open spec fn has_spec_name(&self) -> bool {
        true
    }

    open spec fn spec_name(&self) -> Seq<char> {
        "GrimTrigger"@
    }

    fn play(&self, past_games: &[GamePlay]) -> (m: Move) {
        let mut i: usize = 0;
        while i < past_games.len()
            invariant
                i <= past_games@.len(),
                forall|k: int| 0 <= k < i ==> past_games@[k].their_move != Move::Defect,
            decreases past_games@.len() - i,
        {
            if past_games[i].their_move == Move::Defect {
                return Move::Defect;
            }
            i = i + 1;
        }
        Move::Collaborate
    }

    fn name(&self) -> (r: String) {
        "GrimTrigger".to_owned()
    }
}

} // verus!
