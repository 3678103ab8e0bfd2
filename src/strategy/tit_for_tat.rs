use crate::game::Move;
use crate::player::GamePlay;
use crate::strategy::Strategy;
use vstd::prelude::*;

verus! {

/// Collaborates first, then repeats the opponent's previous move.
pub struct TitForTat {}

impl Strategy for TitForTat {
    open spec fn is_deterministic(&self) -> bool {
        true
    }

    open spec fn decide(&self, past_games: Seq<GamePlay>) -> Move {
        if past_games.len() == 0 {
            Move::Collaborate
        } else {
            past_games.last().their_move
        }
    }

    open spec fn has_spec_name(&self) -> bool {
        true
    }

    open spec fn spec_name(&self) -> Seq<char> {
        "TitForTat"@
    }

    fn play(&self, past_games: &[GamePlay]) -> (m: Move) {
        match past_games.last() {
            None => Move::Collaborate,
            Some(last_game) => last_game.their_move,
        }
    }

    fn name(&self) -> (r: String) {
        "TitForTat".to_owned()
    }
}

} // verus!
