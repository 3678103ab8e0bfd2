use ipd_sim::player::Player;
use ipd_sim::population::{create_players, get_winning_strategy, simulate_populations};
use ipd_sim::strategy::BuiltinStrategy;
use ipd_sim::tournament::Tournament;

#[test]
fn naive_nasty() {
    let strategies = vec![BuiltinStrategy::Naive, BuiltinStrategy::Nasty];
    let tournament = Tournament::all_pairs();
    let strategy_wins = simulate_populations(&strategies, /* max_player_instances= */ 4, &tournament);
    assert_eq!(strategy_wins.len(), 1);
    assert_eq!(*strategy_wins.get("Nasty").unwrap(), 16);
}

// Ties go to the first player with the highest score, so the combinations in
// which a Nasty and a TitForTat player share the top score count for Nasty.
#[test]
fn naive_nasty_tit_for_tat() {
    let strategies =
        vec![BuiltinStrategy::Naive, BuiltinStrategy::Nasty, BuiltinStrategy::TitForTat];
    let tournament = Tournament::all_pairs();
    let strategy_wins = simulate_populations(&strategies, /* max_player_instances= */ 4, &tournament);
    assert_eq!(strategy_wins.len(), 2);
    assert_eq!(*strategy_wins.get("Nasty").unwrap(), 53);
    assert_eq!(*strategy_wins.get("TitForTat").unwrap(), 11);
}

#[test]
fn sweep_naive_nasty_counts_every_combination() {
    let strategies = vec![BuiltinStrategy::Naive, BuiltinStrategy::Nasty];
    let tournament = Tournament::axelrod_tournament();
    let strategy_wins = simulate_populations(&strategies, 5, &tournament);
    assert_eq!(strategy_wins.len(), 1);
    assert_eq!(*strategy_wins.get("Nasty").unwrap(), 25);
    assert!(strategy_wins.get("Naive").is_none());
}

#[test]
fn sweep_with_zero_radix_is_empty() {
    let strategies = vec![BuiltinStrategy::Naive, BuiltinStrategy::Nasty];
    let tournament = Tournament::all_pairs();
    let strategy_wins = simulate_populations(&strategies, 0, &tournament);
    assert_eq!(strategy_wins.len(), 0);
}

#[test]
fn sweep_of_one_strategy() {
    let strategies = vec![BuiltinStrategy::GrimTrigger];
    let tournament = Tournament::all_pairs();
    let strategy_wins = simulate_populations(&strategies, 3, &tournament);
    assert_eq!(strategy_wins.len(), 1);
    assert_eq!(*strategy_wins.get("GrimTrigger").unwrap(), 3);
}

#[test]
fn roster_gets_one_extra_player_per_strategy() {
    let strategies = vec![BuiltinStrategy::Naive, BuiltinStrategy::Nasty];
    let players = create_players(&strategies, &[0u8, 11u8]);
    assert_eq!(players.len(), 13);
    assert_eq!(players[0].name(), "Naive_0");
    assert_eq!(players[1].name(), "Nasty_0");
    assert_eq!(players[2].name(), "Nasty_1");
    assert_eq!(players[12].name(), "Nasty_11");
    assert_eq!(players[12].strategy_name(), "Nasty");
    assert!(players.iter().all(|p| p.score() == 0));
}

#[test]
fn winner_ties_go_to_the_first_player() {
    let strategies = vec![BuiltinStrategy::Naive, BuiltinStrategy::TitForTat];
    let mut players: Vec<Player<BuiltinStrategy>> = create_players(&strategies, &[0u8, 0u8]);
    let winner = get_winning_strategy(&mut players, &Tournament::all_pairs());
    assert_eq!(players[0].score(), 30);
    assert_eq!(players[1].score(), 30);
    assert_eq!(winner, "Naive");
}

#[test]
fn winner_is_the_highest_score() {
    let strategies = vec![BuiltinStrategy::Naive, BuiltinStrategy::Nasty];
    let mut players = create_players(&strategies, &[1u8, 0u8]);
    let winner = get_winning_strategy(&mut players, &Tournament::all_pairs());
    assert_eq!(players[2].score(), 100);
    assert_eq!(winner, "Nasty");
}

#[test]
fn sweep_with_random_credits_every_combination_once() {
    let strategies = ipd_sim::strategy::all_strategies();
    let tournament = Tournament::all_pairs();
    let strategy_wins = simulate_populations(&strategies, 2, &tournament);
    let names = ["TitForTat", "Naive", "Nasty", "GrimTrigger", "Drunk", "Random"];
    let mut total: u32 = 0;
    let mut keys = 0;
    for name in names {
        if let Some(wins) = strategy_wins.get(name) {
            assert!(*wins >= 1);
            total += *wins;
            keys += 1;
        }
    }
    assert_eq!(keys, strategy_wins.len());
    assert_eq!(total, 64);
}
