use crate::game::{Move, Payoff};
use crate::strategy::Strategy;
use vstd::prelude::*;

verus! {

/// One round as seen by one player: its own move and its opponent's.
#[derive(PartialEq, Eq, Structural, Debug, Clone, Copy)]
pub struct GamePlay {
    pub my_move: Move,
    pub their_move: Move,
}

/// What a player is: its name, its cumulative score, the history of rounds
/// against each opponent (keyed by the opponent's name), and its strategy.
pub struct PlayerView<S> {
    pub name: Seq<char>,
    pub score: nat,
    pub games: Map<Seq<char>, Seq<GamePlay>>,
    pub strategy: S,
}

impl<S: Strategy> PlayerView<S> {
    /// The rounds played against `opponent` so far, oldest first.
    pub open spec fn history_with(self, opponent: Seq<char>) -> Seq<GamePlay> {
        if self.games.contains_key(opponent) {
            self.games[opponent]
        } else {
            Seq::empty()
        }
    }

    /// The move the strategy makes next against `opponent`.
    pub open spec fn next_move(self, opponent: Seq<char>) -> Move {
        self.strategy.decide(self.history_with(opponent))
    }

    /// This player after one more round against `opponent`, worth `points`.
    pub open spec fn recorded(self, opponent: Seq<char>, my_move: Move, their_move: Move, points: nat) -> Self {
        PlayerView {
            name: self.name,
            score: self.score + points,
            games: self.games.insert(
                opponent,
                self.history_with(opponent).push(GamePlay { my_move, their_move }),
            ),
            strategy: self.strategy,
        }
    }
}

/// Both players after a round in which `p1` plays `m1` and `p2` plays `m2`:
/// each records the round against the other and gains its payoff.
pub open spec fn game_with<S: Strategy>(
    p1: PlayerView<S>,
    p2: PlayerView<S>,
    payoff: Payoff,
    m1: Move,
    m2: Move,
) -> (PlayerView<S>, PlayerView<S>) {
    let points = payoff.outcome(m1, m2);
    (p1.recorded(p2.name, m1, m2, points.0 as nat), p2.recorded(p1.name, m2, m1, points.1 as nat))
}

/// Both players after one round between them, each making the move its
/// strategy decides.
pub open spec fn game_result<S: Strategy>(p1: PlayerView<S>, p2: PlayerView<S>, payoff: Payoff) -> (
    PlayerView<S>,
    PlayerView<S>,
) {
    game_with(p1, p2, payoff, p1.next_move(p2.name), p2.next_move(p1.name))
}

/// `m` is a move that `p` may make against `opponent`: any move for a
/// strategy that is not deterministic, else the one the strategy decides.
pub open spec fn may_play<S: Strategy>(p: PlayerView<S>, opponent: Seq<char>, m: Move) -> bool {
    p.strategy.is_deterministic() ==> m == p.next_move(opponent)
}

/// `(q1, q2)` is how `p1` and `p2` may stand after one round between them:
/// both recorded the same round, mirrored, and gained its payoff.
pub open spec fn game_possible<S: Strategy>(
    p1: PlayerView<S>,
    p2: PlayerView<S>,
    payoff: Payoff,
    q1: PlayerView<S>,
    q2: PlayerView<S>,
) -> bool {
    exists|m1: Move, m2: Move|
        may_play(p1, p2.name, m1) && may_play(p2, p1.name, m2) && #[trigger] game_with(
            p1,
            p2,
            payoff,
            m1,
            m2,
        ) == (q1, q2)
}

/// Both players after the rounds of `moves`, in order; each entry holds the
/// move of `p1` and the move of `p2`.
pub open spec fn rounds_with<S: Strategy>(
    p1: PlayerView<S>,
    p2: PlayerView<S>,
    payoff: Payoff,
    moves: Seq<(Move, Move)>,
) -> (PlayerView<S>, PlayerView<S>)
    decreases moves.len(),
{
    if moves.len() == 0 {
        (p1, p2)
    } else {
        let before = rounds_with(p1, p2, payoff, moves.drop_last());
        game_with(before.0, before.1, payoff, moves.last().0, moves.last().1)
    }
}

/// `moves` are `n` rounds that `p1` and `p2` may play: at each round, each
/// move is one its player may make given the rounds before it.
pub open spec fn moves_allowed<S: Strategy>(
    p1: PlayerView<S>,
    p2: PlayerView<S>,
    payoff: Payoff,
    moves: Seq<(Move, Move)>,
    n: nat,
) -> bool {
    &&& moves.len() == n
    &&& forall|k: int|
        0 <= k < moves.len() ==> {
            let at = #[trigger] rounds_with(p1, p2, payoff, moves.take(k));
            &&& may_play(at.0, at.1.name, moves[k].0)
            &&& may_play(at.1, at.0.name, moves[k].1)
        }
}

/// Both players after `n` rounds between them.
pub open spec fn rounds_result<S: Strategy>(
    p1: PlayerView<S>,
    p2: PlayerView<S>,
    payoff: Payoff,
    n: nat,
) -> (PlayerView<S>, PlayerView<S>)
    decreases n,
{
    if n == 0 {
        (p1, p2)
    } else {
        let before = rounds_result(p1, p2, payoff, (n - 1) as nat);
        game_result(before.0, before.1, payoff)
    }
}

/// A player: a name, a cumulative score, its history against each opponent
/// and a shared, read-only strategy.
pub struct Player<'a, S> {
    name: String,
    score: u32,
    past_games: Vec<(String, Vec<GamePlay>)>,
    strategy: &'a S,
}

/// The histories held in `entries`, by opponent name.
pub closed spec fn games_map(entries: Seq<(String, Vec<GamePlay>)>) -> Map<Seq<char>, Seq<GamePlay>> {
    Map::new(
        |k: Seq<char>| exists|i: int| 0 <= i < entries.len() && entries[i].0@ == k,
        |k: Seq<char>|
            entries[choose|i: int| 0 <= i < entries.len() && entries[i].0@ == k].1@,
    )
}

/// No opponent name occurs twice in `entries`.
pub closed spec fn keys_unique(entries: Seq<(String, Vec<GamePlay>)>) -> bool {
    forall|i: int, j: int|
        0 <= i < entries.len() && 0 <= j < entries.len() && i != j ==> entries[i].0@ != entries[j].0@
}

proof fn lemma_games_map_at(entries: Seq<(String, Vec<GamePlay>)>, i: int)
    requires
        keys_unique(entries),
        0 <= i < entries.len(),
    ensures
        games_map(entries).contains_key(entries[i].0@),
        games_map(entries)[entries[i].0@] == entries[i].1@,
{
    let k = entries[i].0@;
    assert(exists|j: int| 0 <= j < entries.len() && entries[j].0@ == k);
    let j = choose|j: int| 0 <= j < entries.len() && entries[j].0@ == k;
    assert(j == i);
}

proof fn lemma_games_map_update(entries: Seq<(String, Vec<GamePlay>)>, i: int, h: Vec<GamePlay>)
    requires
        keys_unique(entries),
        0 <= i < entries.len(),
    ensures
        keys_unique(entries.update(i, (entries[i].0, h))),
        games_map(entries.update(i, (entries[i].0, h))) =~= games_map(entries).insert(entries[i].0@, h@),
{
    let e2 = entries.update(i, (entries[i].0, h));
    let m1 = games_map(entries);
    let m2 = games_map(e2);
    assert(keys_unique(e2));
    lemma_games_map_at(e2, i);
    assert forall|k: Seq<char>| m2.contains_key(k) == m1.insert(entries[i].0@, h@).contains_key(k) by {
        if exists|j: int| 0 <= j < e2.len() && e2[j].0@ == k {
            let j = choose|j: int| 0 <= j < e2.len() && e2[j].0@ == k;
            assert(entries[j].0@ == k);
        }
        if exists|j: int| 0 <= j < entries.len() && entries[j].0@ == k {
            let j = choose|j: int| 0 <= j < entries.len() && entries[j].0@ == k;
            assert(e2[j].0@ == k);
        }
    }
    assert forall|k: Seq<char>| m2.contains_key(k) && k != entries[i].0@ implies m2[k] == m1[k] by {
        let j = choose|j: int| 0 <= j < e2.len() && e2[j].0@ == k;
        lemma_games_map_at(e2, j);
        lemma_games_map_at(entries, j);
    }
}

proof fn lemma_games_map_push(entries: Seq<(String, Vec<GamePlay>)>, e: (String, Vec<GamePlay>))
    requires
        keys_unique(entries),
        !games_map(entries).contains_key(e.0@),
    ensures
        keys_unique(entries.push(e)),
        games_map(entries.push(e)) =~= games_map(entries).insert(e.0@, e.1@),
{
    let e2 = entries.push(e);
    let m1 = games_map(entries);
    let m2 = games_map(e2);
    assert forall|i: int| 0 <= i < entries.len() implies entries[i].0@ != e.0@ by {
        if entries[i].0@ == e.0@ {
            assert(m1.contains_key(e.0@));
        }
    }
    assert(keys_unique(e2));
    lemma_games_map_at(e2, entries.len() as int);
    assert forall|k: Seq<char>| m2.contains_key(k) == m1.insert(e.0@, e.1@).contains_key(k) by {
        if exists|j: int| 0 <= j < e2.len() && e2[j].0@ == k {
            let j = choose|j: int| 0 <= j < e2.len() && e2[j].0@ == k;
            if j < entries.len() {
                assert(entries[j].0@ == k);
            }
        }
        if exists|j: int| 0 <= j < entries.len() && entries[j].0@ == k {
            let j = choose|j: int| 0 <= j < entries.len() && entries[j].0@ == k;
            assert(e2[j].0@ == k);
        }
    }
    assert forall|k: Seq<char>| m2.contains_key(k) && k != e.0@ implies m2[k] == m1[k] by {
        let j = choose|j: int| 0 <= j < e2.len() && e2[j].0@ == k;
        lemma_games_map_at(e2, j);
        lemma_games_map_at(entries, j);
    }
}

impl<'a, S: Strategy> View for Player<'a, S> {
    type V = PlayerView<S>;

    closed spec fn view(&self) -> PlayerView<S> {
        PlayerView {
            name: self.name@,
            score: self.score as nat,
            games: games_map(self.past_games@),
            strategy: *self.strategy,
        }
    }
}

impl<'a, S: Strategy> Player<'a, S> {
    /// The internal bookkeeping is consistent: each opponent has one history.
    pub closed spec fn wf(&self) -> bool {
        keys_unique(self.past_games@)
    }

    /// A player with score 0 and no history.
    pub fn new(name: &str, strategy: &'a S) -> (r: Self)
        ensures
            r.wf(),
            r@ == (PlayerView {
                name: name@,
                score: 0,
                games: Map::empty(),
                strategy: *strategy,
            }),
    {
        let r = Self { name: name.to_owned(), score: 0, past_games: Vec::new(), strategy };
        proof {
            assert(games_map(r.past_games@) =~= Map::empty());
        }
        r
    }

    /// A fresh player with the same strategy, no history, and the name
    /// suffixed with `_twin`.
    pub fn twin(&self) -> (r: Self)
        ensures
            r.wf(),
            r@ == (PlayerView {
                name: self@.name + "_twin"@,
                score: 0,
                games: Map::empty(),
                strategy: self@.strategy,
            }),
    {
        let mut name = self.name.clone();
        name.append("_twin");
        let r = Self { name, score: 0, past_games: Vec::new(), strategy: self.strategy };
        proof {
            assert(games_map(r.past_games@) =~= Map::empty());
        }
        r
    }

    /// Where the history against `opponent` is kept, if anywhere.
    fn find(&self, opponent: &String) -> (r: Option<usize>)
        requires
            self.wf(),
        ensures
            r is Some ==> r->0 < self.past_games@.len() && self.past_games@[r->0 as int].0@ == opponent@,
            r is None ==> !self@.games.contains_key(opponent@),
    {
        let mut i: usize = 0;
        while i < self.past_games.len()
            invariant
                i <= self.past_games@.len(),
                forall|k: int| 0 <= k < i ==> self.past_games@[k].0@ != opponent@,
            decreases self.past_games@.len() - i,
        {
            if self.past_games[i].0 == *opponent {
                return Some(i);
            }
            i = i + 1;
        }
        None
    }

    /// Where the history against `opponent` is kept, making an empty one if
    /// there is none yet.
    fn entry(&mut self, opponent: &String) -> (r: usize)
        requires
            old(self).wf(),
        ensures
            final(self).wf(),
            r < final(self).past_games@.len(),
            final(self).past_games@[r as int].0@ == opponent@,
            final(self)@ == (PlayerView {
                games: if old(self)@.games.contains_key(opponent@) {
                    old(self)@.games
                } else {
                    old(self)@.games.insert(opponent@, Seq::empty())
                },
                ..old(self)@
            }),
    {
        match self.find(opponent) {
            Some(i) => {
                proof {
                    lemma_games_map_at(self.past_games@, i as int);
                }
                i
            },
            None => {
                let e = (opponent.clone(), Vec::new());
                proof {
                    lemma_games_map_push(self.past_games@, e);
                }
                self.past_games.push(e);
                self.past_games.len() - 1
            },
        }
    }

    /// This player's move against `opponent`, from the history against that
    /// opponent alone; an empty history is made for a new opponent.
    pub fn play(&mut self, with_player: &String) -> (m: Move)
        requires
            old(self).wf(),
        ensures
            final(self).wf(),
            final(self)@ == (PlayerView {
                games: if old(self)@.games.contains_key(with_player@) {
                    old(self)@.games
                } else {
                    old(self)@.games.insert(with_player@, Seq::empty())
                },
                ..old(self)@
            }),
            old(self)@.strategy.is_deterministic() ==> m == old(self)@.next_move(with_player@),
    {
        let i = self.entry(with_player);
        proof {
            lemma_games_map_at(self.past_games@, i as int);
        }
        self.strategy.play(self.past_games[i].1.as_slice())
    }

    pub fn name(&self) -> (r: &String)
        ensures
            r@ == self@.name,
    {
        &self.name
    }

    pub fn score(&self) -> (r: u32)
        ensures
            r == self@.score,
    {
        self.score
    }

    pub fn strategy_name(&self) -> (r: String)
        ensures
            self@.strategy.has_spec_name() ==> r@ == self@.strategy.spec_name(),
    {
        self.strategy.name()
    }

    /// The rounds played against `opponent`, oldest first, if it was ever met.
    pub fn history_with(&self, opponent: &String) -> (r: Option<&Vec<GamePlay>>)
        requires
            self.wf(),
        ensures
            self@.games.contains_key(opponent@) <==> r is Some,
            r is Some ==> r->0@ == self@.games[opponent@],
    {
        match self.find(opponent) {
            Some(i) => {
                proof {
                    lemma_games_map_at(self.past_games@, i as int);
                }
                Some(&self.past_games[i].1)
            },
            None => None,
        }
    }

    /// Records one round against `opponent` and adds `points` to the score.
    pub fn game_played(&mut self, with_player: &String, my_move: Move, their_move: Move, points: u32)
        requires
            old(self).wf(),
            old(self)@.score + points <= u32::MAX,
        ensures
            final(self).wf(),
            final(self)@ == old(self)@.recorded(with_player@, my_move, their_move, points as nat),
    {
        let i = self.entry(with_player);
        proof {
            lemma_games_map_at(self.past_games@, i as int);
        }
        let ghost before = self.past_games@;
        self.past_games[i].1.push(GamePlay { my_move, their_move });
        proof {
            assert(self.past_games@ == before.update(i as int, (before[i as int].0, self.past_games@[i as int].1)));
            lemma_games_map_update(before, i as int, self.past_games@[i as int].1);
            assert(self.past_games@[i as int].1@ == before[i as int].1@.push(GamePlay { my_move, their_move }));
            assert(games_map(self.past_games@) =~= old(self)@.games.insert(
                with_player@,
                old(self)@.history_with(with_player@).push(GamePlay { my_move, their_move }),
            ));
        }
        self.score = self.score + points;
    }
}

/// Both players are deterministic, so the rounds between them can be foretold.
pub open spec fn both_deterministic<S: Strategy>(p1: PlayerView<S>, p2: PlayerView<S>) -> bool {
    p1.strategy.is_deterministic() && p2.strategy.is_deterministic()
}

/// `after` is `before` with the same name and strategy and a score raised by
/// at most `bound`.
pub open spec fn same_player_score_within<S>(before: PlayerView<S>, after: PlayerView<S>, bound: int) -> bool {
    &&& after.name == before.name
    &&& after.strategy == before.strategy
    &&& before.score <= after.score <= before.score + bound
}

/// Plays `games_num` rounds between `p1` and `p2`.
pub fn play_games<'a, S: Strategy>(
    p1: &mut Player<'a, S>,
    p2: &mut Player<'a, S>,
    payoff: &Payoff,
    games_num: u32,
)
    requires
        old(p1).wf(),
        old(p2).wf(),
        payoff.wf(),
        old(p1)@.score + games_num * payoff.temptation() <= u32::MAX,
        old(p2)@.score + games_num * payoff.temptation() <= u32::MAX,
    ensures
        final(p1).wf(),
        final(p2).wf(),
        same_player_score_within(old(p1)@, final(p1)@, games_num * payoff.temptation()),
        same_player_score_within(old(p2)@, final(p2)@, games_num * payoff.temptation()),
        exists|moves: Seq<(Move, Move)>|
            moves_allowed(old(p1)@, old(p2)@, *payoff, moves, games_num as nat) && #[trigger] rounds_with(
                old(p1)@,
                old(p2)@,
                *payoff,
                moves,
            ) == (final(p1)@, final(p2)@),
        both_deterministic(old(p1)@, old(p2)@) ==> (final(p1)@, final(p2)@) == rounds_result(
            old(p1)@,
            old(p2)@,
            *payoff,
            games_num as nat,
        ),
{
    let ghost p1_start = p1@;
    let ghost p2_start = p2@;
    let ghost t = payoff.temptation() as int;
    let ghost mut moves: Seq<(Move, Move)> = Seq::empty();
    let mut k: u32 = 0;
    while k < games_num
        invariant
            k <= games_num,
            p1.wf(),
            p2.wf(),
            payoff.wf(),
            t == payoff.temptation(),
            p1_start.score + games_num * t <= u32::MAX,
            p2_start.score + games_num * t <= u32::MAX,
            same_player_score_within(p1_start, p1@, k * t),
            same_player_score_within(p2_start, p2@, k * t),
            moves_allowed(p1_start, p2_start, *payoff, moves, k as nat),
            rounds_with(p1_start, p2_start, *payoff, moves) == (p1@, p2@),
            both_deterministic(p1_start, p2_start) ==> (p1@, p2@) == rounds_result(
                p1_start,
                p2_start,
                *payoff,
                k as nat,
            ),
        decreases games_num - k,
    {
        proof {
            assert(k * t + t == (k + 1) * t) by (nonlinear_arith);
            assert((k + 1) * t <= games_num * t) by (nonlinear_arith)
                requires
                    k + 1 <= games_num,
                    t >= 0,
            ;
        }
        let ghost b1 = p1@;
        let ghost b2 = p2@;
        play_game(p1, p2, payoff);
        proof {
            let (m1, m2) = choose|m1: Move, m2: Move|
                may_play(b1, b2.name, m1) && may_play(b2, b1.name, m2) && #[trigger] game_with(
                    b1,
                    b2,
                    *payoff,
                    m1,
                    m2,
                ) == (p1@, p2@);
            let longer = moves.push((m1, m2));
            assert(longer.drop_last() =~= moves);
            assert forall|q: int| 0 <= q < longer.len() implies {
                let at = #[trigger] rounds_with(p1_start, p2_start, *payoff, longer.take(q));
                &&& may_play(at.0, at.1.name, longer[q].0)
                &&& may_play(at.1, at.0.name, longer[q].1)
            } by {
                if q < moves.len() {
                    assert(longer.take(q) =~= moves.take(q));
                    assert(rounds_with(p1_start, p2_start, *payoff, moves.take(q)) == rounds_with(
                        p1_start,
                        p2_start,
                        *payoff,
                        longer.take(q),
                    ));
                } else {
                    assert(longer.take(q) =~= moves);
                }
            }
            moves = longer;
        }
        k = k + 1;
    }
}

/// Plays one round between `p1` and `p2`: each chooses from its history
/// against the other, then both record the round and their points.
pub fn play_game<'a, S: Strategy>(p1: &mut Player<'a, S>, p2: &mut Player<'a, S>, payoff: &Payoff)
    requires
        old(p1).wf(),
        old(p2).wf(),
        payoff.wf(),
        old(p1)@.score + payoff.temptation() <= u32::MAX,
        old(p2)@.score + payoff.temptation() <= u32::MAX,
    ensures
        final(p1).wf(),
        final(p2).wf(),
        same_player_score_within(old(p1)@, final(p1)@, payoff.temptation() as int),
        same_player_score_within(old(p2)@, final(p2)@, payoff.temptation() as int),
        game_possible(old(p1)@, old(p2)@, *payoff, final(p1)@, final(p2)@),
        both_deterministic(old(p1)@, old(p2)@) ==> (final(p1)@, final(p2)@) == game_result(
            old(p1)@,
            old(p2)@,
            *payoff,
        ),
{
    let p1_move = p1.play(&p2.name);
    let p2_move = p2.play(&p1.name);
    let score = payoff.compute_payoff(p1_move, p2_move);
    proof {
        crate::game::outcome_at_most_temptation(*payoff, p1_move, p2_move);
    }
    p1.game_played(&p2.name, p1_move, p2_move, score.0);
    p2.game_played(&p1.name, p2_move, p1_move, score.1);
    proof {
        let g = game_with(old(p1)@, old(p2)@, *payoff, p1_move, p2_move);
        assert(p1@.games =~= g.0.games);
        assert(p2@.games =~= g.1.games);
        assert(may_play(old(p1)@, old(p2)@.name, p1_move));
        assert(may_play(old(p2)@, old(p1)@.name, p2_move));
        assert(game_with(old(p1)@, old(p2)@, *payoff, p1_move, p2_move) == (p1@, p2@));
    }
}

/// The views of a roster of players.
pub open spec fn views<'a, S: Strategy>(players: Seq<Player<'a, S>>) -> Seq<PlayerView<S>> {
    players.map_values(|p: Player<'a, S>| p@)
}

/// Every player of the roster is well formed.
pub open spec fn all_wf<'a, S: Strategy>(players: Seq<Player<'a, S>>) -> bool {
    forall|k: int| 0 <= k < players.len() ==> (#[trigger] players[k]).wf()
}

/// The points earned from the rounds of `history`, each worth the payoff of
/// its own move against the opponent's.
pub open spec fn history_points(history: Seq<GamePlay>, payoff: Payoff) -> int
    decreases history.len(),
{
    if history.len() == 0 {
        0
    } else {
        history_points(history.drop_last(), payoff) + payoff.outcome(
            history.last().my_move,
            history.last().their_move,
        ).0
    }
}

/// The rounds of `moves` as the first player records them.
pub open spec fn as_plays(moves: Seq<(Move, Move)>) -> Seq<GamePlay> {
    moves.map_values(|m: (Move, Move)| GamePlay { my_move: m.0, their_move: m.1 })
}

/// The rounds of `moves` as the second player records them.
pub open spec fn as_mirrored_plays(moves: Seq<(Move, Move)>) -> Seq<GamePlay> {
    moves.map_values(|m: (Move, Move)| GamePlay { my_move: m.1, their_move: m.0 })
}

/// After the rounds of `moves`, each player's history against the other has
/// grown by those rounds, mirrored for the second player; its score has grown
/// by exactly the points of the rounds added; names, strategies and the
/// histories against everybody else are unchanged.
pub proof fn rounds_follow_history<S: Strategy>(
    p1: PlayerView<S>,
    p2: PlayerView<S>,
    payoff: Payoff,
    moves: Seq<(Move, Move)>,
)
    ensures
        ({
            let q = rounds_with(p1, p2, payoff, moves);
            &&& q.0.name == p1.name && q.1.name == p2.name
            &&& q.0.strategy == p1.strategy && q.1.strategy == p2.strategy
            &&& q.0.history_with(p2.name) == p1.history_with(p2.name) + as_plays(moves)
            &&& q.1.history_with(p1.name) == p2.history_with(p1.name) + as_mirrored_plays(moves)
            &&& q.0.score == p1.score + history_points(q.0.history_with(p2.name), payoff)
                - history_points(p1.history_with(p2.name), payoff)
            &&& q.1.score == p2.score + history_points(q.1.history_with(p1.name), payoff)
                - history_points(p2.history_with(p1.name), payoff)
            &&& forall|o: Seq<char>| o != p2.name ==> #[trigger] q.0.history_with(o) == p1.history_with(o)
            &&& forall|o: Seq<char>| o != p1.name ==> #[trigger] q.1.history_with(o) == p2.history_with(o)
        }),
    decreases moves.len(),
{
    if moves.len() > 0 {
        let front = moves.drop_last();
        rounds_follow_history(p1, p2, payoff, front);
        let prev = rounds_with(p1, p2, payoff, front);
        let m = moves.last();
        let q = rounds_with(p1, p2, payoff, moves);
        assert(q == game_with(prev.0, prev.1, payoff, m.0, m.1));
        let g1 = GamePlay { my_move: m.0, their_move: m.1 };
        let g2 = GamePlay { my_move: m.1, their_move: m.0 };
        assert(as_plays(moves) =~= as_plays(front).push(g1));
        assert(as_mirrored_plays(moves) =~= as_mirrored_plays(front).push(g2));
        assert(q.0.history_with(p2.name) == prev.0.history_with(p2.name).push(g1));
        assert(q.0.history_with(p2.name) =~= p1.history_with(p2.name) + as_plays(moves));
        assert(q.1.history_with(p1.name) =~= p2.history_with(p1.name) + as_mirrored_plays(moves));
        assert(q.0.history_with(p2.name).drop_last() == prev.0.history_with(p2.name));
        assert(q.1.history_with(p1.name).drop_last() == prev.1.history_with(p1.name));
        assert(payoff.outcome(m.1, m.0).0 == payoff.outcome(m.0, m.1).1);
        assert forall|o: Seq<char>| o != p2.name implies #[trigger] q.0.history_with(o) == p1.history_with(o) by {
            assert(q.0.history_with(o) == prev.0.history_with(o));
        }
        assert forall|o: Seq<char>| o != p1.name implies #[trigger] q.1.history_with(o) == p2.history_with(o) by {
            assert(q.1.history_with(o) == prev.1.history_with(o));
        }
    } else {
        assert(p1.history_with(p2.name) + as_plays(moves) =~= p1.history_with(p2.name));
        assert(p2.history_with(p1.name) + as_mirrored_plays(moves) =~= p2.history_with(p1.name));
    }
}

} // verus!
