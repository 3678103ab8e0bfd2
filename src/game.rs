use vstd::prelude::*;

verus! {

/// One player's choice in a single round of the stage game.
#[derive(PartialEq, Eq, Structural, Debug, Clone, Copy)]
pub enum Move {
    Collaborate,
    Defect,
}

impl Move {
    pub open spec fn spec_opposite(self) -> Move {
        match self {
            Move::Collaborate => Move::Defect,
            Move::Defect => Move::Collaborate,
        }
    }

    /// The other move: collaborating becomes defecting and vice versa.
    pub fn oposite_move(&self) -> (r: Self)
        ensures
            r == self.spec_opposite(),
    {
        match *self {
            Move::Collaborate => Move::Defect,
            Move::Defect => Move::Collaborate,
        }
    }
}

/// The four constants of the generalised prisoner's dilemma matrix.
pub struct Payoff {
    pub(crate) temptation_reward: u32,
    pub(crate) reward: u32,
    pub(crate) punishment: u32,
    pub(crate) suckers_punishment: u32,
}

impl Payoff {
    pub open(crate) spec fn temptation(&self) -> u32 {
        self.temptation_reward
    }

    pub open(crate) spec fn spec_reward(&self) -> u32 {
        self.reward
    }

    pub open(crate) spec fn spec_punishment(&self) -> u32 {
        self.punishment
    }

    pub open(crate) spec fn sucker(&self) -> u32 {
        self.suckers_punishment
    }

    /// The constants are strictly ordered: temptation > reward > punishment > sucker.
    pub open spec fn wf(&self) -> bool {
        self.temptation() > self.spec_reward() > self.spec_punishment() > self.sucker()
    }

    /// The points of the first and of the second player when they play `a` and `b`.
    pub open spec fn outcome(&self, a: Move, b: Move) -> (u32, u32) {
        match (a, b) {
            (Move::Collaborate, Move::Collaborate) => (self.spec_reward(), self.spec_reward()),
            (Move::Defect, Move::Collaborate) => (self.temptation(), self.sucker()),
            (Move::Collaborate, Move::Defect) => (self.sucker(), self.temptation()),
            (Move::Defect, Move::Defect) => (self.spec_punishment(), self.spec_punishment()),
        }
    }

    /// The standard constants: temptation 5, reward 3, punishment 1, sucker 0.
    pub fn default() -> (r: Self)
        ensures
            r.wf(),
            r.temptation() == 5,
            r.spec_reward() == 3,
            r.spec_punishment() == 1,
            r.sucker() == 0,
    {
        Self::new(5, 3, 1, 0)
    }

    pub fn new(temptation_reward: u32, reward: u32, punishment: u32, suckers_punishment: u32) -> (r: Self)
        requires
            temptation_reward > reward,
            reward > punishment,
            punishment > suckers_punishment,
        ensures
            r.wf(),
            r.temptation() == temptation_reward,
            r.spec_reward() == reward,
            r.spec_punishment() == punishment,
            r.sucker() == suckers_punishment,
    {
        Self { temptation_reward, reward, punishment, suckers_punishment }
    }

    pub fn compute_payoff(&self, p1_move: Move, p2_move: Move) -> (r: (u32, u32))
        ensures
            r == self.outcome(p1_move, p2_move),
    {
        match (p1_move, p2_move) {
            (Move::Collaborate, Move::Collaborate) => (self.reward, self.reward),
            (Move::Defect, Move::Collaborate) => (self.temptation_reward, self.suckers_punishment),
            (Move::Collaborate, Move::Defect) => (self.suckers_punishment, self.temptation_reward),
            (Move::Defect, Move::Defect) => (self.punishment, self.punishment),
        }
    }
}

/// Mutual collaboration pays the reward to both, mutual defection the
/// punishment to both, and swapping the two moves swaps the two payoffs.
pub proof fn payoff_matrix_laws(payoff: Payoff, a: Move, b: Move)
    ensures
        payoff.outcome(Move::Collaborate, Move::Collaborate) == (
        payoff.spec_reward(),
        payoff.spec_reward(),
        ),
        payoff.outcome(Move::Defect, Move::Defect) == (
        payoff.spec_punishment(),
        payoff.spec_punishment(),
        ),
        payoff.outcome(Move::Defect, Move::Collaborate) == (payoff.temptation(), payoff.sucker()),
        payoff.outcome(a, b) == (payoff.outcome(b, a).1, payoff.outcome(b, a).0),
{
}

/// No single round pays more than the temptation.
pub proof fn outcome_at_most_temptation(payoff: Payoff, a: Move, b: Move)
    requires
        payoff.wf(),
    ensures
        payoff.outcome(a, b).0 <= payoff.temptation(),
        payoff.outcome(a, b).1 <= payoff.temptation(),
{
}

} // verus!
