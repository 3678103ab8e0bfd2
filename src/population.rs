use crate::combinatorics::{as_digits, decode, get_combinations};
use crate::player::{all_wf, same_player_score_within, views, Player, PlayerView};
use crate::strategy::Strategy;
use crate::tournament::{all_deterministic, Roster, Tournament, Turn};
use vstd::arithmetic::power::pow;
use vstd::hash_map::StringHashMap;
use vstd::prelude::*;

verus! {

/// The decimal digit `d` as a character.
pub open spec fn digit_char(d: nat) -> char {
    seq!['0', '1', '2', '3', '4', '5', '6', '7', '8', '9'][d as int]
}

/// `n` written in decimal, without sign or leading zeros.
pub open spec fn decimal(n: nat) -> Seq<char>
    decreases n,
{
    if n < 10 {
        seq![digit_char(n)]
    } else {
        decimal(n / 10).push(digit_char(n % 10))
    }
}

/// The decimal digit `d` as a one-character string.
fn digit_str(d: usize) -> (r: &'static str)
    requires
        d < 10,
    ensures
        r@ == seq![digit_char(d as nat)],
{
    match d {
        0 => {
            proof {
                reveal_strlit("0");
            }
            "0"
        },
        1 => {
            proof {
                reveal_strlit("1");
            }
            "1"
        },
        2 => {
            proof {
                reveal_strlit("2");
            }
            "2"
        },
        3 => {
            proof {
                reveal_strlit("3");
            }
            "3"
        },
        4 => {
            proof {
                reveal_strlit("4");
            }
            "4"
        },
        5 => {
            proof {
                reveal_strlit("5");
            }
            "5"
        },
        6 => {
            proof {
                reveal_strlit("6");
            }
            "6"
        },
        7 => {
            proof {
                reveal_strlit("7");
            }
            "7"
        },
        8 => {
            proof {
                reveal_strlit("8");
            }
            "8"
        },
        _ => {
            proof {
                reveal_strlit("9");
            }
            "9"
        },
    }
}

/// `n` written in decimal.
fn decimal_string(n: usize) -> (r: String)
    ensures
        r@ == decimal(n as nat),
    decreases n,
{
    if n < 10 {
        digit_str(n).to_owned()
    } else {
        let mut s = decimal_string(n / 10);
        s.append(digit_str(n % 10));
        s
    }
}

/// Instance `i` of strategy `s`: named after the strategy and the instance,
/// with score 0 and no history.
pub open spec fn instance<S: Strategy>(s: S, i: nat) -> PlayerView<S> {
    PlayerView {
        name: s.spec_name() + "_"@ + decimal(i),
        score: 0,
        games: Map::empty(),
        strategy: s,
    }
}

/// Instances `0 .. m` of strategy `s`.
pub open spec fn instances<S: Strategy>(s: S, m: nat) -> Roster<S> {
    Seq::new(m, |i: int| instance(s, i as nat))
}

/// The roster of a combination: strategy `k` contributes `counts[k] + 1`
/// players, strategies in order.
pub open spec fn roster_of<S: Strategy>(strategies: Seq<S>, counts: Seq<nat>) -> Roster<S>
    decreases strategies.len(),
{
    if strategies.len() == 0 {
        Seq::empty()
    } else {
        let k = strategies.len() - 1;
        roster_of(strategies.subrange(0, k), counts.subrange(0, k)) + instances(
            strategies[k],
            counts[k] + 1,
        )
    }
}

/// The index of the first player among `0 .. k` with the highest score.
pub open spec fn best_index<S>(roster: Roster<S>, k: int) -> int
    decreases k,
{
    if k <= 1 {
        0
    } else {
        let b = best_index(roster, k - 1);
        if roster[k - 1].score > roster[b].score {
            k - 1
        } else {
            b
        }
    }
}

/// The index of the winner: the first player with the highest score.
pub open spec fn winner_index<S>(roster: Roster<S>) -> int {
    best_index(roster, roster.len() as int)
}

/// `actual` is `model` but for the players' names.
pub open spec fn same_but_names<S>(actual: Roster<S>, model: Roster<S>) -> bool {
    &&& actual.len() == model.len()
    &&& forall|k: int|
        0 <= k < actual.len() ==> (#[trigger] actual[k]) == (PlayerView { name: actual[k].name, ..model[k] })
}

/// Every strategy's name is known.
pub open spec fn strategies_named<S: Strategy>(strategies: Seq<S>) -> bool {
    forall|i: int| 0 <= i < strategies.len() ==> (#[trigger] strategies[i]).has_spec_name()
}

/// Builds the roster for one combination of counts. Where a strategy's name
/// is not known, neither are its players' names.
pub fn create_players<'a, S: Strategy>(strategies: &'a [S], player_counts: &[u8]) -> (r: Vec<
    Player<'a, S>,
>)
    requires
        strategies@.len() == player_counts@.len(),
        forall|k: int| 0 <= k < player_counts@.len() ==> player_counts@[k] < u8::MAX,
    ensures
        all_wf(r@),
        same_but_names(views(r@), roster_of(strategies@, as_digits(player_counts@))),
        strategies_named(strategies@) ==> views(r@) == roster_of(strategies@, as_digits(player_counts@)),
{
    let ghost counts = as_digits(player_counts@);
    let mut out: Vec<Player<'a, S>> = Vec::new();
    let mut k: usize = 0;
    proof {
        assert(views(out@) =~= roster_of(strategies@.subrange(0, 0), counts.subrange(0, 0)));
    }
    while k < strategies.len()
        invariant
            k <= strategies@.len(),
            strategies@.len() == player_counts@.len(),
            counts == as_digits(player_counts@),
            forall|q: int| 0 <= q < player_counts@.len() ==> player_counts@[q] < u8::MAX,
            all_wf(out@),
            same_but_names(views(out@), roster_of(strategies@.subrange(0, k as int), counts.subrange(0, k as int))),
            strategies_named(strategies@) ==> views(out@) == roster_of(
                strategies@.subrange(0, k as int),
                counts.subrange(0, k as int),
            ),
        decreases strategies@.len() - k,
    {
        let ghost prefix = views(out@);
        let ghost model = roster_of(strategies@.subrange(0, k as int), counts.subrange(0, k as int));
        let strategy = &strategies[k];
        let m: u8 = player_counts[k] + 1;
        let mut i: u8 = 0;
        proof {
            assert(prefix + instances(*strategy, 0) =~= prefix);
            assert(model + instances(*strategy, 0) =~= model);
        }
        while i < m
            invariant
                i <= m,
                k < strategies@.len(),
                *strategy == strategies@[k as int],
                all_wf(out@),
                same_but_names(prefix, model),
                strategies_named(strategies@) ==> prefix == model,
                out@.len() == prefix.len() + i,
                forall|q: int| 0 <= q < prefix.len() ==> #[trigger] views(out@)[q] == prefix[q],
                same_but_names(views(out@), model + instances(*strategy, i as nat)),
                strategies_named(strategies@) ==> views(out@) == model + instances(*strategy, i as nat),
            decreases m - i,
        {
            let mut name = strategy.name();
            name.append("_");
            let digits = decimal_string(i as usize);
            name.append(digits.as_str());
            let p = Player::new(name.as_str(), strategy);
            let ghost before = out@;
            out.push(p);
            proof {
                assert(views(out@) =~= views(before).push(p@));
                assert(instances(*strategy, (i + 1) as nat) =~= instances(*strategy, i as nat).push(
                    instance(*strategy, i as nat),
                ));
                let grown = model + instances(*strategy, (i + 1) as nat);
                assert(grown =~= (model + instances(*strategy, i as nat)).push(instance(*strategy, i as nat)));
                assert(same_but_names(views(out@), grown));
                if strategies_named(strategies@) {
                    assert(strategy.has_spec_name());
                    assert(views(out@) =~= grown);
                }
            }
            i = i + 1;
        }
        proof {
            let s2 = strategies@.subrange(0, k + 1);
            let c2 = counts.subrange(0, k + 1);
            assert(s2.subrange(0, k as int) =~= strategies@.subrange(0, k as int));
            assert(c2.subrange(0, k as int) =~= counts.subrange(0, k as int));
            assert(c2[k as int] + 1 == m);
        }
        k = k + 1;
    }
    proof {
        assert(strategies@.subrange(0, strategies@.len() as int) =~= strategies@);
        assert(counts.subrange(0, strategies@.len() as int) =~= counts);
    }
    out
}

/// The winner is the first player with the highest score: nobody scores more,
/// and everybody before it scores less.
pub proof fn winner_is_first_maximum<S>(roster: Roster<S>)
    requires
        roster.len() >= 1,
    ensures
        0 <= winner_index(roster) < roster.len(),
        forall|k: int| 0 <= k < roster.len() ==> #[trigger] roster[k].score <= roster[winner_index(roster)].score,
        forall|k: int| 0 <= k < winner_index(roster) ==> #[trigger] roster[k].score < roster[winner_index(roster)].score,
{
    lemma_best_index(roster, roster.len() as int);
}

proof fn lemma_best_index<S>(roster: Roster<S>, n: int)
    requires
        1 <= n <= roster.len(),
    ensures
        0 <= best_index(roster, n) < n,
        forall|k: int| 0 <= k < n ==> #[trigger] roster[k].score <= roster[best_index(roster, n)].score,
        forall|k: int| 0 <= k < best_index(roster, n) ==> #[trigger] roster[k].score < roster[best_index(roster, n)].score,
    decreases n,
{
    if n > 1 {
        lemma_best_index(roster, n - 1);
    }
}

/// Plays the tournament on `players` and names the strategy of the winner,
/// the first player with the highest score.
pub fn get_winning_strategy<'a, S: Strategy>(players: &mut [Player<'a, S>], tournament: &Tournament) -> (r: String)
    requires
        old(players)@.len() >= 1,
        tournament.wf(),
        all_wf(old(players)@),
        forall|k: int|
            0 <= k < old(players)@.len() ==> #[trigger] old(players)@[k]@.score + old(players)@.len()
                * tournament.pairing_bound() <= u32::MAX,
    ensures
        final(players)@.len() == old(players)@.len(),
        all_wf(final(players)@),
        forall|k: int|
            0 <= k < old(players)@.len() ==> same_player_score_within(
                #[trigger] old(players)@[k]@,
                final(players)@[k]@,
                old(players)@.len() * tournament.pairing_bound(),
            ),
        views(final(players)@)[winner_index(views(final(players)@))].strategy.has_spec_name() ==> r@
            == views(final(players)@)[winner_index(views(final(players)@))].strategy.spec_name(),
        exists|script: Seq<Turn>|
            tournament.script_allowed(views(old(players)@), script) && #[trigger] tournament.played_with(
                views(old(players)@),
                script,
            ) == views(final(players)@),
        all_deterministic(views(old(players)@)) ==> views(final(players)@) == tournament.outcome(
            views(old(players)@),
        ),
{
    tournament.play_games(players);
    let ghost vs = views(players@);
    let mut best: usize = 0;
    let mut k: usize = 1;
    while k < players.len()
        invariant
            1 <= k <= players@.len(),
            vs == views(players@),
            best < k,
            best as int == best_index(vs, k as int),
        decreases players@.len() - k,
    {
        if players[k].score() > players[best].score() {
            best = k;
        }
        k = k + 1;
    }
    players[best].strategy_name()
}

/// `tally` with one more win for `name`.
pub open spec fn bump(tally: Map<Seq<char>, u32>, name: Seq<char>) -> Map<Seq<char>, u32> {
    tally.insert(name, if tally.contains_key(name) { (tally[name] + 1) as u32 } else { 1 })
}

/// The name of the strategy of the winner for combination `c`.
pub open spec fn winner_of<S: Strategy>(strategies: Seq<S>, radix: nat, tournament: Tournament, c: nat) -> Seq<char> {
    let roster = tournament.outcome(roster_of(strategies, decode(c, radix, strategies.len())));
    roster[winner_index(roster)].strategy.spec_name()
}

/// The wins of each strategy name over the combinations `0 .. k`.
pub open spec fn win_tally<S: Strategy>(strategies: Seq<S>, radix: nat, tournament: Tournament, k: nat) -> Map<
    Seq<char>,
    u32,
>
    decreases k,
{
    if k == 0 {
        Map::empty()
    } else {
        bump(
            win_tally(strategies, radix, tournament, (k - 1) as nat),
            winner_of(strategies, radix, tournament, (k - 1) as nat),
        )
    }
}

/// Every strategy is deterministic and its name is known.
pub open spec fn strategies_deterministic<S: Strategy>(strategies: Seq<S>) -> bool {
    forall|i: int|
        0 <= i < strategies.len() ==> (#[trigger] strategies[i]).is_deterministic()
            && strategies[i].has_spec_name()
}

proof fn lemma_roster_of<S: Strategy>(strategies: Seq<S>, counts: Seq<nat>, radix: nat)
    requires
        strategies.len() == counts.len(),
        forall|k: int| 0 <= k < counts.len() ==> #[trigger] counts[k] < radix,
    ensures
        roster_of(strategies, counts).len() <= strategies.len() * radix,
        forall|k: int|
            0 <= k < roster_of(strategies, counts).len() ==> exists|i: int|
                0 <= i < strategies.len() && (#[trigger] roster_of(strategies, counts)[k]).strategy
                    == strategies[i],
        forall|k: int|
            0 <= k < roster_of(strategies, counts).len() ==> (#[trigger] roster_of(strategies, counts)[k]).score
                == 0,
    decreases strategies.len(),
{
    if strategies.len() > 0 {
        let n = strategies.len() - 1;
        let s0 = strategies.subrange(0, n);
        let c0 = counts.subrange(0, n);
        lemma_roster_of(s0, c0, radix);
        let prefix = roster_of(s0, c0);
        let r = roster_of(strategies, counts);
        assert(r == prefix + instances(strategies[n], counts[n] + 1));
        assert(prefix.len() + counts[n] + 1 <= n * radix + radix);
        assert(n * radix + radix == strategies.len() * radix) by (nonlinear_arith)
            requires
                n + 1 == strategies.len(),
        ;
        assert forall|k: int| 0 <= k < r.len() implies exists|i: int|
            0 <= i < strategies.len() && (#[trigger] r[k]).strategy == strategies[i] by {
            if k < prefix.len() {
                assert(r[k] == prefix[k]);
                let i = choose|i: int| 0 <= i < s0.len() && prefix[k].strategy == s0[i];
                assert(strategies[i] == s0[i]);
            } else {
                assert(r[k].strategy == strategies[n]);
            }
        }
    }
}

/// The wins that `tally` records for the names of `names`, added up.
pub open spec fn wins_total(tally: Map<Seq<char>, u32>, names: Seq<Seq<char>>) -> int
    decreases names.len(),
{
    if names.len() == 0 {
        0
    } else {
        wins_total(tally, names.drop_last()) + tally[names.last()]
    }
}

proof fn lemma_wins_total_other(tally: Map<Seq<char>, u32>, names: Seq<Seq<char>>, name: Seq<char>, v: u32)
    requires
        !names.contains(name),
    ensures
        wins_total(tally.insert(name, v), names) == wins_total(tally, names),
    decreases names.len(),
{
    if names.len() > 0 {
        assert(names.drop_last().contains(name) ==> names.contains(name)) by {
            if names.drop_last().contains(name) {
                let k = choose|k: int| 0 <= k < names.drop_last().len() && names.drop_last()[k] == name;
                assert(names[k] == name);
            }
        }
        assert(names.last() != name) by {
            if names.last() == name {
                assert(names[names.len() - 1] == name);
            }
        }
        lemma_wins_total_other(tally, names.drop_last(), name, v);
    }
}

proof fn lemma_wins_total_same(tally: Map<Seq<char>, u32>, names: Seq<Seq<char>>, name: Seq<char>, v: u32)
    requires
        names.no_duplicates(),
        names.contains(name),
    ensures
        wins_total(tally.insert(name, v), names) == wins_total(tally, names) - tally[name] + v,
    decreases names.len(),
{
    let front = names.drop_last();
    assert(front.no_duplicates());
    if names.last() == name {
        assert(!front.contains(name)) by {
            if front.contains(name) {
                let k = choose|k: int| 0 <= k < front.len() && front[k] == name;
                assert(names[k] == names[names.len() - 1]);
            }
        }
        lemma_wins_total_other(tally, front, name, v);
    } else {
        let k = choose|k: int| 0 <= k < names.len() && names[k] == name;
        assert(k != names.len() - 1);
        assert(front[k] == name);
        lemma_wins_total_same(tally, front, name, v);
    }
}

/// Sweeps every combination of counts: for each, builds the roster (strategy
/// `k` contributes its count plus one players), plays the tournament, and
/// credits one win to the strategy of the first player with the highest score.
pub fn simulate_populations<S: Strategy>(
    strategies: &[S],
    max_player_instances: u8,
    tournament: &Tournament,
) -> (r: StringHashMap<u32>)
    requires
        1 <= strategies@.len() <= u8::MAX,
        tournament.wf(),
        pow(max_player_instances as int, strategies@.len()) <= u32::MAX,
        strategies@.len() * max_player_instances * tournament.pairing_bound() <= u32::MAX,
    ensures
        strategies_deterministic(strategies@) ==> r@ == win_tally(
            strategies@,
            max_player_instances as nat,
            *tournament,
            pow(max_player_instances as int, strategies@.len()) as nat,
        ),
        forall|name: Seq<char>|
            #[trigger] r@.contains_key(name) ==> exists|i: int|
                0 <= i < strategies@.len() && (strategies@[i].has_spec_name() ==> strategies@[i].spec_name() == name),
        forall|name: Seq<char>| #[trigger] r@.contains_key(name) ==> r@[name] >= 1,
        exists|names: Seq<Seq<char>>|
            names.no_duplicates() && names.to_set() == r@.dom() && #[trigger] wins_total(r@, names) == pow(
                max_player_instances as int,
                strategies@.len(),
            ),
        max_player_instances >= 1 ==> r@.len() >= 1,
{
    let ghost radix = max_player_instances as nat;
    let ghost bound = tournament.pairing_bound();
    let bins = strategies.len() as u8;
    let mut combinations = get_combinations(bins, max_player_instances);
    let mut strategy_wins: StringHashMap<u32> = StringHashMap::new();
    let ghost mut names: Seq<Seq<char>> = Seq::empty();
    proof {
        assert(names.to_set() =~= strategy_wins@.dom());
        assert(bins as nat == strategies@.len());
        vstd::arithmetic::power::lemma0_pow(bins as nat);
        if radix > 0 {
            vstd::arithmetic::power::lemma_pow_positive(radix as int, bins as nat);
        }
        assert(combinations@.total == pow(radix as int, bins as nat));
    }
    loop
        invariant
            tournament.wf(),
            bound == tournament.pairing_bound(),
            bins as nat == strategies@.len(),
            bins >= 1,
            combinations.wf(),
            combinations@.next <= combinations@.total,
            combinations@.bins == bins,
            combinations@.radix == radix,
            radix == max_player_instances,
            combinations@.total == pow(radix as int, bins as nat),
            combinations@.total <= u32::MAX,
            strategies@.len() * radix * bound <= u32::MAX,
            forall|name: Seq<char>|
                #[trigger] strategy_wins@.contains_key(name) ==> strategy_wins@[name] <= combinations@.next,
            forall|name: Seq<char>|
                #[trigger] strategy_wins@.contains_key(name) ==> exists|i: int|
                    0 <= i < strategies@.len() && (strategies@[i].has_spec_name() ==> strategies@[i].spec_name() == name),
            strategies_deterministic(strategies@) ==> strategy_wins@ == win_tally(
                strategies@,
                radix,
                *tournament,
                combinations@.next,
            ),
            forall|name: Seq<char>| #[trigger] strategy_wins@.contains_key(name) ==> strategy_wins@[name] >= 1,
            names.no_duplicates(),
            names.to_set() == strategy_wins@.dom(),
            wins_total(strategy_wins@, names) == combinations@.next,
        ensures
            forall|name: Seq<char>| #[trigger] strategy_wins@.contains_key(name) ==> strategy_wins@[name] >= 1,
            names.no_duplicates(),
            names.to_set() == strategy_wins@.dom(),
            wins_total(strategy_wins@, names) == combinations@.total,
            forall|name: Seq<char>|
                #[trigger] strategy_wins@.contains_key(name) ==> exists|i: int|
                    0 <= i < strategies@.len() && (strategies@[i].has_spec_name() ==> strategies@[i].spec_name() == name),
            strategies_deterministic(strategies@) ==> strategy_wins@ == win_tally(
                strategies@,
                radix,
                *tournament,
                combinations@.total,
            ),
        decreases combinations@.total - combinations@.next,
    {
        let ghost c = combinations@.next;
        match combinations.next() {
            Some(player_counts) => {
                let ghost counts = as_digits(player_counts@);
                proof {
                    if radix == 0 {
                        vstd::arithmetic::power::lemma0_pow(bins as nat);
                    }
                    assert forall|k: int| 0 <= k < counts.len() implies #[trigger] counts[k] < radix by {
                        assert(counts[k] == decode(c, radix, bins as nat)[k]);
                    }
                    assert forall|k: int| 0 <= k < player_counts@.len() implies player_counts@[k] < u8::MAX by {
                        assert(counts[k] == player_counts@[k] as nat);
                    }
                    assert(counts.len() == player_counts@.len());
                    assert(counts.len() == bins);
                    lemma_roster_of(strategies@, counts, radix);
                }
                let mut players = create_players(strategies, player_counts.as_slice());
                let ghost start = views(players@);
                proof {
                    assert(players@.len() * bound <= strategies@.len() * radix * bound) by (nonlinear_arith)
                        requires
                            players@.len() <= strategies@.len() * radix,
                            bound >= 0,
                    ;
                    assert forall|k: int| 0 <= k < players@.len() implies #[trigger] players@[k]@.score
                        + players@.len() * tournament.pairing_bound() <= u32::MAX by {
                        assert(players@[k]@ == start[k]);
                    }
                    if strategies_deterministic(strategies@) {
                        assert forall|k: int| 0 <= k < start.len() implies (
                        #[trigger] start[k]).strategy.is_deterministic() by {
                            let i = choose|i: int|
                                0 <= i < strategies@.len() && start[k].strategy == strategies@[i];
                        }
                    }
                }
                let winning_strategy = get_winning_strategy(players.as_mut_slice(), tournament);
                proof {
                    let fin = views(players@);
                    let w = winner_index(fin);
                    winner_is_first_maximum(fin);
                    assert(fin[w] == players@[w]@);
                    assert(same_player_score_within(start[w], players@[w]@, start.len() * bound));
                    let i = choose|i: int|
                        0 <= i < strategies@.len() && start[w].strategy == strategies@[i];
                    assert(strategies@[i].has_spec_name() ==> strategies@[i].spec_name() == winning_strategy@);
                }
                let ghost before = strategy_wins@;
                let ghost name = winning_strategy@;
                let current = strategy_wins.get(winning_strategy.as_str());
                let count: u32 = match current {
                    Some(v) => *v + 1,
                    None => 1,
                };
                strategy_wins.insert(winning_strategy, count);
                proof {
                    if before.contains_key(name) {
                        assert(names.to_set().contains(name));
                        lemma_wins_total_same(before, names, name, count);
                    } else {
                        assert(!names.contains(name)) by {
                            if names.contains(name) {
                                assert(names.to_set().contains(name));
                            }
                        }
                        lemma_wins_total_other(before, names, name, count);
                        let longer = names.push(name);
                        assert(longer.drop_last() =~= names);
                        names.lemma_push_to_set_commute(name);
                        assert(longer.to_set() =~= strategy_wins@.dom());
                        assert(longer.no_duplicates()) by {
                            assert forall|a: int, b: int|
                                0 <= a < longer.len() && 0 <= b < longer.len() && a != b implies longer[a]
                                    != longer[b] by {
                                if a < names.len() && b < names.len() {
                                    assert(longer[a] == names[a] && longer[b] == names[b]);
                                } else if a < names.len() {
                                    assert(longer[a] == names[a]);
                                } else if b < names.len() {
                                    assert(longer[b] == names[b]);
                                }
                            }
                        }
                        names = longer;
                    }
                    assert(strategy_wins@.dom() =~= names.to_set());
                }
            },
            None => {
                break;
            },
        }
    }
    proof {
        if max_player_instances >= 1 {
            vstd::arithmetic::power::lemma_pow_positive(radix as int, bins as nat);
            assert(names.len() > 0);
            assert(names.to_set().contains(names[0]));
            names.unique_seq_to_set();
        }
    }
    strategy_wins
}

} // verus!
