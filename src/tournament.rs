use crate::game::{Move, Payoff};
use crate::player::{
    self,
    all_wf,
    moves_allowed,
    rounds_follow_history,
    rounds_result,
    rounds_with,
    same_player_score_within,
    views,
    Player,
    PlayerView,
};
use crate::strategy::Strategy;
use vstd::prelude::*;

verus! {

/// The views of a roster of players, in roster order.
pub type Roster<S> = Seq<PlayerView<S>>;

/// Rounds played per pairing unless configured otherwise.
pub const DEFAULT_ITERATIONS: u32 = 10;

/// A fresh copy of `p`: same strategy, score 0, no history, name suffixed
/// with `_twin`.
pub open spec fn twin_view<S>(p: PlayerView<S>) -> PlayerView<S> {
    PlayerView { name: p.name + "_twin"@, score: 0, games: Map::empty(), strategy: p.strategy }
}

/// The roster after player `i` has played `n` rounds against each of the
/// players at `i + 1 .. j`, in that order.
pub open spec fn pair_up<S: Strategy>(
    roster: Roster<S>,
    i: int,
    j: int,
    payoff: Payoff,
    n: nat,
) -> Roster<S>
    decreases j - i,
{
    if j <= i + 1 {
        roster
    } else {
        let before = pair_up(roster, i, j - 1, payoff, n);
        let res = rounds_result(before[i], before[j - 1], payoff, n);
        before.update(i, res.0).update(j - 1, res.1)
    }
}

/// The roster after the turn of player `i`: its pairings with every later
/// player, then, with `twin`, `n` rounds against its own twin, of which only
/// the player itself is kept.
pub open spec fn after_turn<S: Strategy>(
    roster: Roster<S>,
    i: int,
    payoff: Payoff,
    n: nat,
    twin: bool,
) -> Roster<S> {
    let paired = pair_up(roster, i, roster.len() as int, payoff, n);
    if twin {
        paired.update(i, rounds_result(paired[i], twin_view(paired[i]), payoff, n).0)
    } else {
        paired
    }
}

/// The roster after the turns of players `0 .. k`.
pub open spec fn turns_result<S: Strategy>(
    roster: Roster<S>,
    k: nat,
    payoff: Payoff,
    n: nat,
    twin: bool,
) -> Roster<S>
    decreases k,
{
    if k == 0 {
        roster
    } else {
        after_turn(turns_result(roster, (k - 1) as nat, payoff, n, twin), k - 1, payoff, n, twin)
    }
}

/// The rounds of one player's turn: for each later player in order, the
/// moves against it; then the moves against its twin. Each move entry holds
/// the player's move and its opponent's.
pub type Turn = (Seq<Seq<(Move, Move)>>, Seq<(Move, Move)>);

/// The roster after player `i` has played `lists[k]` against player
/// `i + 1 + k`, for each `k` in order.
pub open spec fn pair_up_with<S: Strategy>(
    roster: Roster<S>,
    i: int,
    payoff: Payoff,
    lists: Seq<Seq<(Move, Move)>>,
) -> Roster<S>
    decreases lists.len(),
{
    if lists.len() == 0 {
        roster
    } else {
        let before = pair_up_with(roster, i, payoff, lists.drop_last());
        let j = i + lists.len();
        let res = rounds_with(before[i], before[j], payoff, lists.last());
        before.update(i, res.0).update(j, res.1)
    }
}

/// Each pairing of `lists` holds `n` rounds that its two players may play.
pub open spec fn pair_up_allowed<S: Strategy>(
    roster: Roster<S>,
    i: int,
    payoff: Payoff,
    n: nat,
    lists: Seq<Seq<(Move, Move)>>,
) -> bool
    decreases lists.len(),
{
    if lists.len() == 0 {
        true
    } else {
        let before = pair_up_with(roster, i, payoff, lists.drop_last());
        let j = i + lists.len();
        pair_up_allowed(roster, i, payoff, n, lists.drop_last()) && moves_allowed(
            before[i],
            before[j],
            payoff,
            lists.last(),
            n,
        )
    }
}

/// The roster after the turn of player `i` played with the moves of `turn`;
/// of the rounds against the twin only the player itself is kept.
pub open spec fn turn_with<S: Strategy>(
    roster: Roster<S>,
    i: int,
    payoff: Payoff,
    twin: bool,
    turn: Turn,
) -> Roster<S> {
    let paired = pair_up_with(roster, i, payoff, turn.0);
    if twin {
        paired.update(i, rounds_with(paired[i], twin_view(paired[i]), payoff, turn.1).0)
    } else {
        paired
    }
}

/// `turn` pairs player `i` with every later player, and with its twin when
/// `twin` holds, each time for `n` rounds that the players may play.
pub open spec fn turn_allowed<S: Strategy>(
    roster: Roster<S>,
    i: int,
    payoff: Payoff,
    n: nat,
    twin: bool,
    turn: Turn,
) -> bool {
    let paired = pair_up_with(roster, i, payoff, turn.0);
    &&& turn.0.len() == roster.len() - i - 1
    &&& pair_up_allowed(roster, i, payoff, n, turn.0)
    &&& twin ==> moves_allowed(paired[i], twin_view(paired[i]), payoff, turn.1, n)
}

/// The roster after the turns of `script`, the turn of player `k` being
/// `script[k]`.
pub open spec fn turns_with<S: Strategy>(
    roster: Roster<S>,
    payoff: Payoff,
    twin: bool,
    script: Seq<Turn>,
) -> Roster<S>
    decreases script.len(),
{
    if script.len() == 0 {
        roster
    } else {
        let k = script.len() - 1;
        turn_with(turns_with(roster, payoff, twin, script.drop_last()), k, payoff, twin, script.last())
    }
}

/// Every turn of `script` is one that its player may play.
pub open spec fn turns_allowed<S: Strategy>(
    roster: Roster<S>,
    payoff: Payoff,
    n: nat,
    twin: bool,
    script: Seq<Turn>,
) -> bool
    decreases script.len(),
{
    if script.len() == 0 {
        true
    } else {
        let k = script.len() - 1;
        &&& turns_allowed(roster, payoff, n, twin, script.drop_last())
        &&& turn_allowed(turns_with(roster, payoff, twin, script.drop_last()), k, payoff, n, twin, script.last())
    }
}

/// Every player of the roster has a deterministic strategy.
pub open spec fn all_deterministic<S: Strategy>(r: Roster<S>) -> bool {
    forall|k: int| 0 <= k < r.len() ==> (#[trigger] r[k]).strategy.is_deterministic()
}

/// How every pairing of a roster is played: the payoff matrix, the rounds per
/// pairing and whether each player also meets its own twin.
pub struct Tournament {
    pub(crate) payoff: Payoff,
    pub(crate) iterations: u32,
    pub(crate) play_twin: bool,
}

impl Tournament {
    pub open(crate) spec fn spec_payoff(&self) -> Payoff {
        self.payoff
    }

    pub open(crate) spec fn spec_iterations(&self) -> nat {
        self.iterations as nat
    }

    pub open(crate) spec fn plays_twin(&self) -> bool {
        self.play_twin
    }

    /// The roster after the whole tournament.
    pub open spec fn outcome<S: Strategy>(&self, r: Seq<PlayerView<S>>) -> Roster<S> {
        turns_result(r, r.len(), self.spec_payoff(), self.spec_iterations(), self.plays_twin())
    }

    /// The roster after the whole tournament played with the moves of
    /// `script`.
    pub open spec fn played_with<S: Strategy>(&self, r: Roster<S>, script: Seq<Turn>) -> Roster<S> {
        turns_with(r, self.spec_payoff(), self.plays_twin(), script)
    }

    /// `script` has one turn per player, each of rounds its players may play.
    pub open spec fn script_allowed<S: Strategy>(&self, r: Roster<S>, script: Seq<Turn>) -> bool {
        &&& script.len() == r.len()
        &&& turns_allowed(r, self.spec_payoff(), self.spec_iterations(), self.plays_twin(), script)
    }

    /// The most points one player can collect from one pairing.
    pub open spec fn pairing_bound(&self) -> int {
        self.spec_iterations() * self.spec_payoff().temptation()
    }

    /// Every distinct pair plays, with the default payoff and round count.
    pub fn all_pairs() -> (r: Self)
        ensures
            r.spec_payoff().wf(),
            r.spec_payoff().temptation() == 5,
            r.spec_payoff().spec_reward() == 3,
            r.spec_payoff().spec_punishment() == 1,
            r.spec_payoff().sucker() == 0,
            r.spec_iterations() == DEFAULT_ITERATIONS,
            !r.plays_twin(),
    {
        Self { payoff: Payoff::default(), iterations: DEFAULT_ITERATIONS, play_twin: false }
    }

    /// As `all_pairs`, and each player also meets its own twin.
    pub fn axelrod_tournament() -> (r: Self)
        ensures
            r.spec_payoff().wf(),
            r.spec_payoff().temptation() == 5,
            r.spec_payoff().spec_reward() == 3,
            r.spec_payoff().spec_punishment() == 1,
            r.spec_payoff().sucker() == 0,
            r.spec_iterations() == DEFAULT_ITERATIONS,
            r.plays_twin(),
    {
        Self { payoff: Payoff::default(), iterations: DEFAULT_ITERATIONS, play_twin: true }
    }
}

/// Plays `n` rounds between the players at `i` and `j` of the roster.
fn play_pair<'a, S: Strategy>(players: &mut [Player<'a, S>], i: usize, j: usize, payoff: &Payoff, n: u32)
    requires
        i < j < old(players)@.len(),
        all_wf(old(players)@),
        payoff.wf(),
        old(players)@[i as int]@.score + n * payoff.temptation() <= u32::MAX,
        old(players)@[j as int]@.score + n * payoff.temptation() <= u32::MAX,
    ensures
        final(players)@.len() == old(players)@.len(),
        all_wf(final(players)@),
        forall|k: int|
            0 <= k < old(players)@.len() && k != i && k != j ==> final(players)@[k] == old(players)@[k],
        same_player_score_within(
            old(players)@[i as int]@,
            final(players)@[i as int]@,
            n * payoff.temptation(),
        ),
        same_player_score_within(
            old(players)@[j as int]@,
            final(players)@[j as int]@,
            n * payoff.temptation(),
        ),
        player::both_deterministic(old(players)@[i as int]@, old(players)@[j as int]@) ==> (
        final(players)@[i as int]@,
        final(players)@[j as int]@,
        ) == rounds_result(old(players)@[i as int]@, old(players)@[j as int]@, *payoff, n as nat),
        exists|moves: Seq<(Move, Move)>|
            moves_allowed(old(players)@[i as int]@, old(players)@[j as int]@, *payoff, moves, n as nat)
                && #[trigger] rounds_with(old(players)@[i as int]@, old(players)@[j as int]@, *payoff, moves)
                == (final(players)@[i as int]@, final(players)@[j as int]@),
{
    let (left, right) = players.split_at_mut(j);
    let (_, mid) = left.split_at_mut(i);
    match mid.first_mut() {
        Some(pi) => match right.first_mut() {
            Some(pj) => {
                player::play_games(pi, pj, payoff, n);
            },
            None => {},
        },
        None => {},
    }
}

/// Plays `n` rounds between the player at `i` and a fresh twin of it; only
/// the player is kept.
fn play_against_twin<'a, S: Strategy>(players: &mut [Player<'a, S>], i: usize, payoff: &Payoff, n: u32)
    requires
        i < old(players)@.len(),
        all_wf(old(players)@),
        payoff.wf(),
        old(players)@[i as int]@.score + n * payoff.temptation() <= u32::MAX,
    ensures
        final(players)@.len() == old(players)@.len(),
        all_wf(final(players)@),
        forall|k: int| 0 <= k < old(players)@.len() && k != i ==> final(players)@[k] == old(players)@[k],
        same_player_score_within(
            old(players)@[i as int]@,
            final(players)@[i as int]@,
            n * payoff.temptation(),
        ),
        old(players)@[i as int]@.strategy.is_deterministic() ==> final(players)@[i as int]@
            == rounds_result(
            old(players)@[i as int]@,
            twin_view(old(players)@[i as int]@),
            *payoff,
            n as nat,
        ).0,
        exists|moves: Seq<(Move, Move)>|
            moves_allowed(
                old(players)@[i as int]@,
                twin_view(old(players)@[i as int]@),
                *payoff,
                moves,
                n as nat,
            ) && (#[trigger] rounds_with(
                old(players)@[i as int]@,
                twin_view(old(players)@[i as int]@),
                *payoff,
                moves,
            )).0 == final(players)@[i as int]@,
{
    let (_, rest) = players.split_at_mut(i);
    match rest.first_mut() {
        Some(p) => {
            let mut twin = p.twin();
            proof {
                assert(0 * payoff.temptation() == 0);
                assert(n * payoff.temptation() >= 0) by (nonlinear_arith)
                    requires
                        n >= 0,
                        payoff.temptation() >= 0,
                ;
            }
            let ghost p_start = p@;
            let ghost twin_start = twin@;
            player::play_games(p, &mut twin, payoff, n);
            proof {
                assert(twin_start == twin_view(p_start));
                let moves = choose|moves: Seq<(Move, Move)>|
                    moves_allowed(p_start, twin_start, *payoff, moves, n as nat) && #[trigger] rounds_with(
                        p_start,
                        twin_start,
                        *payoff,
                        moves,
                    ) == (p@, twin@);
                assert(rounds_with(p_start, twin_view(p_start), *payoff, moves).0 == p@);
            }
        },
        None => {},
    }
}

proof fn lemma_mul_le(a: int, b: int, p: int)
    requires
        0 <= a <= b,
        0 <= p,
    ensures
        0 <= a * p <= b * p,
        a * p + p == (a + 1) * p,
{
    assert(0 <= a * p <= b * p) by (nonlinear_arith)
        requires
            0 <= a <= b,
            0 <= p,
    ;
    assert(a * p + p == (a + 1) * p) by (nonlinear_arith);
}

/// How many pairings player `k` has played before the turn of player `i`
/// reaches its pairing with player `j`, counted high.
pub open spec fn pairings_so_far(k: int, i: int, j: int, n: int) -> int {
    if k < i {
        n
    } else if k == i {
        j - 1
    } else if k < j {
        i + 1
    } else {
        i
    }
}

impl Tournament {
    /// The payoff matrix is well formed.
    pub open spec fn wf(&self) -> bool {
        self.spec_payoff().wf()
    }

    /// Plays every distinct pair of the roster once, player `i` against each
    /// later player in order, and with twin play each player against its own
    /// twin after its pairings.
    pub fn play_games<'a, S: Strategy>(&self, players: &mut [Player<'a, S>])
        requires
            self.wf(),
            all_wf(old(players)@),
            forall|k: int|
                0 <= k < old(players)@.len() ==> #[trigger] old(players)@[k]@.score + old(players)@.len()
                    * self.pairing_bound() <= u32::MAX,
        ensures
            final(players)@.len() == old(players)@.len(),
            all_wf(final(players)@),
            forall|k: int|
                0 <= k < old(players)@.len() ==> same_player_score_within(
                    #[trigger] old(players)@[k]@,
                    final(players)@[k]@,
                    old(players)@.len() * self.pairing_bound(),
                ),
            exists|script: Seq<Turn>|
                self.script_allowed(views(old(players)@), script) && #[trigger] self.played_with(
                    views(old(players)@),
                    script,
                ) == views(final(players)@),
            all_deterministic(views(old(players)@)) ==> views(final(players)@) == self.outcome(
                views(old(players)@),
            ),
    {
        let ghost start = players@;
        let ghost mut script: Seq<Turn> = Seq::empty();
        let ghost payoff = self.spec_payoff();
        let ghost iters = self.spec_iterations();
        let ghost bound = self.pairing_bound();
        let n = players.len();
        let mut i: usize = 0;
        proof {
            assert(views(players@) =~= turns_result(views(start), 0, payoff, iters, self.plays_twin()));
        }
        while i < n
            invariant
                self.wf(),
                payoff == self.spec_payoff(),
                iters == self.spec_iterations(),
                bound == self.pairing_bound(),
                bound >= 0,
                n == start.len(),
                i <= n,
                players@.len() == n,
                all_wf(players@),
                forall|k: int| 0 <= k < n ==> #[trigger] start[k]@.score + n * bound <= u32::MAX,
                forall|k: int|
                    0 <= k < n ==> same_player_score_within(
                        #[trigger] start[k]@,
                        players@[k]@,
                        pairings_so_far(k, i as int, i as int + 1, n as int) * bound,
                    ),
                all_deterministic(views(start)) ==> views(players@) == turns_result(
                    views(start),
                    i as nat,
                    payoff,
                    iters,
                    self.plays_twin(),
                ),
                script.len() == i,
                turns_allowed(views(start), payoff, iters, self.plays_twin(), script),
                views(players@) == turns_with(views(start), payoff, self.plays_twin(), script),
            decreases n - i,
        {
            let ghost turn_start = views(players@);
            let ghost mut lists: Seq<Seq<(Move, Move)>> = Seq::empty();
            let mut j: usize = i + 1;
            while j < n
                invariant
                    self.wf(),
                    payoff == self.spec_payoff(),
                    iters == self.spec_iterations(),
                    bound == self.pairing_bound(),
                    bound >= 0,
                    n == start.len(),
                    i < n,
                    i + 1 <= j <= n,
                    players@.len() == n,
                    all_wf(players@),
                    forall|k: int| 0 <= k < n ==> #[trigger] start[k]@.score + n * bound <= u32::MAX,
                    forall|k: int|
                        0 <= k < n ==> same_player_score_within(
                            #[trigger] start[k]@,
                            players@[k]@,
                            pairings_so_far(k, i as int, j as int, n as int) * bound,
                        ),
                    all_deterministic(views(start)) ==> turn_start == turns_result(
                        views(start),
                        i as nat,
                        payoff,
                        iters,
                        self.plays_twin(),
                    ),
                    all_deterministic(views(start)) ==> views(players@) == pair_up(
                        turn_start,
                        i as int,
                        j as int,
                        payoff,
                        iters,
                    ),
                    turn_start.len() == n,
                    lists.len() == j - i - 1,
                    pair_up_allowed(turn_start, i as int, payoff, iters, lists),
                    views(players@) == pair_up_with(turn_start, i as int, payoff, lists),
                decreases n - j,
            {
                let ghost before = players@;
                proof {
                    lemma_mul_le((j - 1) as int, (n - 1) as int, bound);
                    lemma_mul_le(i as int, (n - 1) as int, bound);
                    lemma_mul_le(n as int - 1, n as int, bound);
                    assert(start[i as int]@.score + n * bound <= u32::MAX);
                    assert(start[j as int]@.score + n * bound <= u32::MAX);
                    assert(same_player_score_within(start[i as int]@, players@[i as int]@, pairings_so_far(i as int, i as int, j as int, n as int) * bound));
                    assert(same_player_score_within(start[j as int]@, players@[j as int]@, pairings_so_far(j as int, i as int, j as int, n as int) * bound));
                }
                play_pair(players, i, j, &self.payoff, self.iterations);
                proof {
                    assert forall|k: int| 0 <= k < n implies same_player_score_within(
                        #[trigger] start[k]@,
                        players@[k]@,
                        pairings_so_far(k, i as int, j + 1, n as int) * bound,
                    ) by {
                        assert(same_player_score_within(start[k]@, before[k]@, pairings_so_far(k, i as int, j as int, n as int) * bound));
                        lemma_mul_le(pairings_so_far(k, i as int, j as int, n as int), pairings_so_far(k, i as int, j + 1, n as int), bound);
                    }
                    if all_deterministic(views(start)) {
                        let vs = views(start);
                        assert(vs[i as int].strategy == start[i as int]@.strategy);
                        assert(vs[j as int].strategy == start[j as int]@.strategy);
                        assert(start[i as int]@.strategy == before[i as int]@.strategy);
                        assert(start[j as int]@.strategy == before[j as int]@.strategy);
                        let res = rounds_result(before[i as int]@, before[j as int]@, payoff, iters);
                        assert(views(players@) =~= views(before).update(i as int, res.0).update(j as int, res.1));
                    }
                    let moves = choose|moves: Seq<(Move, Move)>|
                        moves_allowed(before[i as int]@, before[j as int]@, payoff, moves, iters)
                            && #[trigger] rounds_with(before[i as int]@, before[j as int]@, payoff, moves)
                            == (players@[i as int]@, players@[j as int]@);
                    let longer = lists.push(moves);
                    assert(longer.drop_last() =~= lists);
                    assert(views(before)[i as int] == before[i as int]@);
                    assert(views(before)[j as int] == before[j as int]@);
                    assert(views(players@) =~= views(before).update(i as int, players@[i as int]@).update(
                        j as int,
                        players@[j as int]@,
                    ));
                    lists = longer;
                }
                j = j + 1;
            }
            if self.play_twin {
                let ghost before = players@;
                proof {
                    lemma_mul_le((n - 1) as int, n as int, bound);
                    assert(start[i as int]@.score + n * bound <= u32::MAX);
                    assert(same_player_score_within(start[i as int]@, players@[i as int]@, pairings_so_far(i as int, i as int, n as int, n as int) * bound));
                }
                play_against_twin(players, i, &self.payoff, self.iterations);
                proof {
                    assert forall|k: int| 0 <= k < n implies same_player_score_within(
                        #[trigger] start[k]@,
                        players@[k]@,
                        pairings_so_far(k, i + 1, i + 2, n as int) * bound,
                    ) by {
                        assert(same_player_score_within(start[k]@, before[k]@, pairings_so_far(k, i as int, n as int, n as int) * bound));
                        if k == i {
                            lemma_mul_le(n as int - 1, n as int, bound);
                        } else {
                            lemma_mul_le(pairings_so_far(k, i as int, n as int, n as int), pairings_so_far(k, i + 1, i + 2, n as int), bound);
                        }
                    }
                    if all_deterministic(views(start)) {
                        let vs = views(start);
                        assert(vs[i as int].strategy == start[i as int]@.strategy);
                        assert(start[i as int]@.strategy == before[i as int]@.strategy);
                        assert(views(players@) =~= views(before).update(
                            i as int,
                            rounds_result(before[i as int]@, twin_view(before[i as int]@), payoff, iters).0,
                        ));
                    }
                    let moves = choose|moves: Seq<(Move, Move)>|
                        moves_allowed(before[i as int]@, twin_view(before[i as int]@), payoff, moves, iters)
                            && (#[trigger] rounds_with(before[i as int]@, twin_view(before[i as int]@), payoff, moves)).0
                            == players@[i as int]@;
                    let turn: Turn = (lists, moves);
                    assert(views(before)[i as int] == before[i as int]@);
                    assert(views(players@) =~= views(before).update(i as int, players@[i as int]@));
                    assert(turn_with(turn_start, i as int, payoff, self.plays_twin(), turn) == views(players@));
                    assert(turn_allowed(turn_start, i as int, payoff, iters, self.plays_twin(), turn));
                    let longer = script.push(turn);
                    assert(longer.drop_last() =~= script);
                    script = longer;
                }
            } else {
                proof {
                    assert forall|k: int| 0 <= k < n implies same_player_score_within(
                        #[trigger] start[k]@,
                        players@[k]@,
                        pairings_so_far(k, i + 1, i + 2, n as int) * bound,
                    ) by {
                        assert(same_player_score_within(start[k]@, players@[k]@, pairings_so_far(k, i as int, n as int, n as int) * bound));
                        lemma_mul_le(pairings_so_far(k, i as int, n as int, n as int), pairings_so_far(k, i + 1, i + 2, n as int), bound);
                    }
                    let turn: Turn = (lists, Seq::empty());
                    assert(turn_with(turn_start, i as int, payoff, self.plays_twin(), turn) == views(players@));
                    assert(turn_allowed(turn_start, i as int, payoff, iters, self.plays_twin(), turn));
                    let longer = script.push(turn);
                    assert(longer.drop_last() =~= script);
                    script = longer;
                }
            }
            i = i + 1;
        }
        proof {
            assert forall|k: int| 0 <= k < n implies same_player_score_within(
                #[trigger] start[k]@,
                players@[k]@,
                n * bound,
            ) by {
                assert(same_player_score_within(start[k]@, players@[k]@, pairings_so_far(k, n as int, n as int + 1, n as int) * bound));
            }
            assert(views(start).len() == n);
            assert(self.script_allowed(views(start), script));
            assert(self.played_with(views(start), script) == views(players@));
        }
    }
}

/// Chooses the tournament from the command-line arguments: twin play when the
/// first argument after the program name is `axelrod`, all pairs otherwise.
pub fn create_tournament(args: &[String]) -> (r: Tournament)
    ensures
        r.wf(),
        r.spec_payoff().temptation() == 5,
        r.spec_payoff().spec_reward() == 3,
        r.spec_payoff().spec_punishment() == 1,
        r.spec_payoff().sucker() == 0,
        r.spec_iterations() == DEFAULT_ITERATIONS,
        r.plays_twin() == (args@.len() > 1 && args@[1]@ == "axelrod"@),
{
    let axelrod = "axelrod".to_owned();
    if args.len() > 1 && args[1] == axelrod {
        Tournament::axelrod_tournament()
    } else {
        Tournament::all_pairs()
    }
}

impl Tournament {
    /// The most points one player can collect from one pairing.
    pub fn pairing_points_bound(&self) -> (r: u64)
        ensures
            r == self.pairing_bound(),
    {
        proof {
            assert(self.iterations * self.payoff.temptation_reward <= u32::MAX * u32::MAX) by (nonlinear_arith)
                requires
                    self.iterations <= u32::MAX,
                    self.payoff.temptation_reward <= u32::MAX,
            ;
        }
        (self.iterations as u64) * (self.payoff.temptation_reward as u64)
    }
}

/// Every player of `after` is the player at its index in `before`, with the
/// same name and strategy, and each of its histories extends the old one.
pub open spec fn extends<S: Strategy>(before: Roster<S>, after: Roster<S>) -> bool {
    &&& after.len() == before.len()
    &&& forall|k: int|
        0 <= k < before.len() ==> (#[trigger] after[k]).name == before[k].name && after[k].strategy
            == before[k].strategy
    &&& forall|k: int, o: Seq<char>|
        0 <= k < before.len() ==> #[trigger] before[k].history_with(o).is_prefix_of(after[k].history_with(o))
}

proof fn lemma_extends_trans<S: Strategy>(a: Roster<S>, b: Roster<S>, c: Roster<S>)
    requires
        extends(a, b),
        extends(b, c),
    ensures
        extends(a, c),
{
    assert forall|k: int, o: Seq<char>| 0 <= k < a.len() implies #[trigger] a[k].history_with(o).is_prefix_of(
        c[k].history_with(o),
    ) by {
        let x = a[k].history_with(o);
        let y = b[k].history_with(o);
        let z = c[k].history_with(o);
        assert(x.is_prefix_of(y));
        assert(y.is_prefix_of(z));
        assert(x =~= z.subrange(0, x.len() as int)) by {
            assert forall|q: int| 0 <= q < x.len() implies x[q] == z[q] by {
                assert(x[q] == y.subrange(0, x.len() as int)[q]);
                assert(y[q] == z.subrange(0, y.len() as int)[q]);
            }
        }
    }
}

proof fn lemma_update_pair_extends<S: Strategy>(
    before: Roster<S>,
    i: int,
    j: int,
    payoff: Payoff,
    moves: Seq<(Move, Move)>,
)
    requires
        0 <= i < j < before.len(),
    ensures
        ({
            let res = rounds_with(before[i], before[j], payoff, moves);
            extends(before, before.update(i, res.0).update(j, res.1))
        }),
{
    let res = rounds_with(before[i], before[j], payoff, moves);
    let after = before.update(i, res.0).update(j, res.1);
    rounds_follow_history(before[i], before[j], payoff, moves);
    assert forall|k: int, o: Seq<char>| 0 <= k < before.len() implies #[trigger] before[k].history_with(
        o,
    ).is_prefix_of(after[k].history_with(o)) by {
        let x = before[k].history_with(o);
        if k == i && o == before[j].name {
            assert(after[k].history_with(o) == x + crate::player::as_plays(moves));
            assert(x =~= (x + crate::player::as_plays(moves)).subrange(0, x.len() as int));
        } else if k == j && o == before[i].name {
            assert(after[k].history_with(o) == x + crate::player::as_mirrored_plays(moves));
            assert(x =~= (x + crate::player::as_mirrored_plays(moves)).subrange(0, x.len() as int));
        } else {
            assert(after[k].history_with(o) == x);
            assert(x =~= x.subrange(0, x.len() as int));
        }
    }
}

proof fn lemma_pair_up_extends<S: Strategy>(
    roster: Roster<S>,
    i: int,
    payoff: Payoff,
    lists: Seq<Seq<(Move, Move)>>,
)
    requires
        0 <= i,
        lists.len() == 0 || i + lists.len() < roster.len(),
    ensures
        extends(roster, pair_up_with(roster, i, payoff, lists)),
    decreases lists.len(),
{
    if lists.len() == 0 {
        assert forall|k: int, o: Seq<char>| 0 <= k < roster.len() implies #[trigger] roster[k].history_with(
            o,
        ).is_prefix_of(roster[k].history_with(o)) by {
            assert(roster[k].history_with(o) =~= roster[k].history_with(o).subrange(
                0,
                roster[k].history_with(o).len() as int,
            ));
        }
    } else {
        let before = pair_up_with(roster, i, payoff, lists.drop_last());
        lemma_pair_up_extends(roster, i, payoff, lists.drop_last());
        lemma_update_pair_extends(before, i, i + lists.len(), payoff, lists.last());
        lemma_extends_trans(roster, before, pair_up_with(roster, i, payoff, lists));
    }
}

proof fn lemma_turns_extend<S: Strategy>(roster: Roster<S>, payoff: Payoff, n: nat, twin: bool, script: Seq<Turn>)
    requires
        script.len() <= roster.len(),
        turns_allowed(roster, payoff, n, twin, script),
    ensures
        extends(roster, turns_with(roster, payoff, twin, script)),
    decreases script.len(),
{
    if script.len() == 0 {
        lemma_pair_up_extends(roster, 0, payoff, Seq::empty());
    } else {
        let k = script.len() - 1;
        let mid = turns_with(roster, payoff, twin, script.drop_last());
        lemma_turns_extend(roster, payoff, n, twin, script.drop_last());
        let turn = script.last();
        assert(mid.len() == roster.len());
        assert(turn_allowed(mid, k, payoff, n, twin, turn));
        lemma_pair_up_extends(mid, k, payoff, turn.0);
        let paired = pair_up_with(mid, k, payoff, turn.0);
        if twin {
            let res = rounds_with(paired[k], twin_view(paired[k]), payoff, turn.1);
            let after = paired.update(k, res.0);
            rounds_follow_history(paired[k], twin_view(paired[k]), payoff, turn.1);
            assert forall|q: int, o: Seq<char>| 0 <= q < paired.len() implies #[trigger] paired[q].history_with(
                o,
            ).is_prefix_of(after[q].history_with(o)) by {
                let x = paired[q].history_with(o);
                if q == k && o == twin_view(paired[k]).name {
                    assert(after[q].history_with(o) == x + crate::player::as_plays(turn.1));
                    assert(x =~= (x + crate::player::as_plays(turn.1)).subrange(0, x.len() as int));
                } else {
                    assert(after[q].history_with(o) == x);
                    assert(x =~= x.subrange(0, x.len() as int));
                }
            }
            assert(extends(paired, after));
            lemma_extends_trans(mid, paired, after);
        }
        lemma_extends_trans(roster, mid, turns_with(roster, payoff, twin, script));
    }
}

impl Tournament {
    /// However the moves fall, the tournament keeps every player in its place
    /// with its name and strategy, and only ever adds rounds to the end of
    /// each of its histories.
    pub proof fn tournament_extends_histories<S: Strategy>(&self, r: Roster<S>, script: Seq<Turn>)
        requires
            self.script_allowed(r, script),
        ensures
            extends(r, self.played_with(r, script)),
    {
        lemma_turns_extend(r, self.spec_payoff(), self.spec_iterations(), self.plays_twin(), script);
    }
}

} // verus!
