use crate::game::Move;
use crate::player::GamePlay;
use crate::strategy::Strategy;
use vstd::prelude::*;

verus! {

/// Collaborates first, then always plays the opposite of its own previous move.
pub struct Drunk {}

impl Strategy for Drunk {
    open spec fn is_deterministic(&self) -> bool {
        true
    }

    open spec fn decide(&self, past_games: Seq<GamePlay>) -> Move {
        if past_games.len() == 0 {
            Move::Collaborate
        } else {
            past_games.last().my_move.spec_opposite()
        }
    }

    open spec fn has_spec_name(&self) -> bool {
        true
    }

    open spec fn spec_name(&self) -> Seq<char> {
        "Drunk"@
    }

    fn play(&self, past_games: &[GamePlay]) -> (m: Move) {
        match past_games.last() {
            None => Move::Collaborate,
            Some(last_game) => last_game.my_move.oposite_move(),
        }
    }

    fn name(&self) -> (r: String) {
        "Drunk".to_owned()
    }
}

} // verus!
