use crate::game::Move;
use crate::player::GamePlay;
use vstd::prelude::*;

pub mod drunk;
pub mod grim_trigger;
pub mod naive;
pub mod nasty;
pub mod random;
pub mod tit_for_tat;

verus! {

/// A decision policy: the next move against one opponent, chosen from the
/// history of the games played against that opponent alone.
pub trait Strategy {
    /// Whether the move is a function of the history alone; an implementation
    /// that does not say so is taken to be random.
    open spec fn is_deterministic(&self) -> bool {
        false
    }

    /// The move made after `past_games`, where the strategy is deterministic;
    /// an implementation that is deterministic says which move.
    open spec fn decide(&self, past_games: Seq<GamePlay>) -> Move {
        Move::Collaborate
    }

    /// Whether `name` is known to return `spec_name`; an implementation that
    /// does not say so may name itself freely.
    open spec fn has_spec_name(&self) -> bool {
        false
    }

    /// The display name, where `has_spec_name` holds.
    open spec fn spec_name(&self) -> Seq<char> {
        Seq::empty()
    }

    fn play(&self, past_games: &[GamePlay]) -> (m: Move)
        ensures
            self.is_deterministic() ==> m == self.decide(past_games@),
    ;

    fn name(&self) -> (r: String)
        ensures
            self.has_spec_name() ==> r@ == self.spec_name(),
    ;
}

/// The strategies that ship with the library, as one type so that a roster
/// can mix them.
#[derive(PartialEq, Eq, Structural, Debug, Clone, Copy)]
pub enum BuiltinStrategy {
    TitForTat,
    Naive,
    Nasty,
    GrimTrigger,
    Drunk,
    Random,
}

impl Strategy for BuiltinStrategy {
    open spec fn is_deterministic(&self) -> bool {
        match self {
            BuiltinStrategy::TitForTat => tit_for_tat::TitForTat {}.is_deterministic(),
            BuiltinStrategy::Naive => naive::Naive {}.is_deterministic(),
            BuiltinStrategy::Nasty => nasty::Nasty {}.is_deterministic(),
            BuiltinStrategy::GrimTrigger => grim_trigger::GrimTrigger {}.is_deterministic(),
            BuiltinStrategy::Drunk => drunk::Drunk {}.is_deterministic(),
            BuiltinStrategy::Random => random::Random {}.is_deterministic(),
        }
    }

    open spec fn decide(&self, past_games: Seq<GamePlay>) -> Move {
        match self {
            BuiltinStrategy::TitForTat => tit_for_tat::TitForTat {}.decide(past_games),
            BuiltinStrategy::Naive => naive::Naive {}.decide(past_games),
            BuiltinStrategy::Nasty => nasty::Nasty {}.decide(past_games),
            BuiltinStrategy::GrimTrigger => grim_trigger::GrimTrigger {}.decide(past_games),
            BuiltinStrategy::Drunk => drunk::Drunk {}.decide(past_games),
            BuiltinStrategy::Random => random::Random {}.decide(past_games),
        }
    }

    open spec fn has_spec_name(&self) -> bool {
        true
    }

    open spec fn spec_name(&self) -> Seq<char> {
        match self {
            BuiltinStrategy::TitForTat => tit_for_tat::TitForTat {}.spec_name(),
            BuiltinStrategy::Naive => naive::Naive {}.spec_name(),
            BuiltinStrategy::Nasty => nasty::Nasty {}.spec_name(),
            BuiltinStrategy::GrimTrigger => grim_trigger::GrimTrigger {}.spec_name(),
            BuiltinStrategy::Drunk => drunk::Drunk {}.spec_name(),
            BuiltinStrategy::Random => random::Random {}.spec_name(),
        }
    }

    fn play(&self, past_games: &[GamePlay]) -> (m: Move) {
        match self {
            BuiltinStrategy::TitForTat => tit_for_tat::TitForTat {}.play(past_games),
            BuiltinStrategy::Naive => naive::Naive {}.play(past_games),
            BuiltinStrategy::Nasty => nasty::Nasty {}.play(past_games),
            BuiltinStrategy::GrimTrigger => grim_trigger::GrimTrigger {}.play(past_games),
            BuiltinStrategy::Drunk => drunk::Drunk {}.play(past_games),
            BuiltinStrategy::Random => random::Random {}.play(past_games),
        }
    }

    fn name(&self) -> (r: String) {
        match self {
            BuiltinStrategy::TitForTat => tit_for_tat::TitForTat {}.name(),
            BuiltinStrategy::Naive => naive::Naive {}.name(),
            BuiltinStrategy::Nasty => nasty::Nasty {}.name(),
            BuiltinStrategy::GrimTrigger => grim_trigger::GrimTrigger {}.name(),
            BuiltinStrategy::Drunk => drunk::Drunk {}.name(),
            BuiltinStrategy::Random => random::Random {}.name(),
        }
    }
}

/// Every built-in strategy, each once.
pub fn all_strategies() -> (r: Vec<BuiltinStrategy>)
    ensures
        r@ == seq![
            BuiltinStrategy::TitForTat,
            BuiltinStrategy::Naive,
            BuiltinStrategy::Nasty,
            BuiltinStrategy::GrimTrigger,
            BuiltinStrategy::Drunk,
            BuiltinStrategy::Random,
        ],
{
    let r = vec![
        BuiltinStrategy::TitForTat,
        BuiltinStrategy::Naive,
        BuiltinStrategy::Nasty,
        BuiltinStrategy::GrimTrigger,
        BuiltinStrategy::Drunk,
        BuiltinStrategy::Random,
    ];
    proof {
        assert(r@ =~= seq![
            BuiltinStrategy::TitForTat,
            BuiltinStrategy::Naive,
            BuiltinStrategy::Nasty,
            BuiltinStrategy::GrimTrigger,
            BuiltinStrategy::Drunk,
            BuiltinStrategy::Random,
        ]);
    }
    r
}

} // verus!
