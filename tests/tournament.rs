use ipd_sim::game::Move;
use ipd_sim::player::{GamePlay, Player};
use ipd_sim::strategy::naive::Naive;
use ipd_sim::strategy::{BuiltinStrategy, Strategy};
use ipd_sim::tournament::Tournament;

struct MockStrategy {
    next_move: Move,
}

impl Strategy for MockStrategy {
    fn play(&self, _past_games: &[GamePlay]) -> Move {
        self.next_move
    }

    fn name(&self) -> String {
        "MockStrategy".to_string()
    }
}

#[test]
fn all_pairs_single_player() {
    let mock_strategy = MockStrategy { next_move: Move::Defect };
    let tournament = Tournament::all_pairs();
    let mut players = vec![Player::new("single_player", &mock_strategy)];
    tournament.play_games(&mut players);
    assert_eq!(players[0].score(), 0);
}

#[test]
fn all_pairs_two_players() {
    let collaborate_strategy = MockStrategy { next_move: Move::Collaborate };
    let defect_strategy = MockStrategy { next_move: Move::Defect };
    let tournament = Tournament::all_pairs();
    let mut players = vec![
        Player::new("collaborate_player", &collaborate_strategy),
        Player::new("defect_player", &defect_strategy),
    ];
    tournament.play_games(&mut players);
    assert_eq!(players[0].score(), 0);
    assert_eq!(players[1].score(), 50);
}

#[test]
fn all_pairs_three_players() {
    let collaborate_strategy = MockStrategy { next_move: Move::Collaborate };
    let defect_strategy = MockStrategy { next_move: Move::Defect };
    let tournament = Tournament::all_pairs();
    let mut players = vec![
        Player::new("collaborate_player", &collaborate_strategy),
        Player::new("defect_player", &defect_strategy),
        Player::new("defect_player_2", &defect_strategy),
    ];
    tournament.play_games(&mut players);
    assert_eq!(players[0].score(), 0);
    assert_eq!(players[1].score(), 60);
    assert_eq!(players[2].score(), 60);
}

#[test]
fn axelrod_single_player() {
    let mock_strategy = MockStrategy { next_move: Move::Defect };
    let tournament = Tournament::axelrod_tournament();
    let mut players = vec![Player::new("single_player", &mock_strategy)];
    tournament.play_games(&mut players);
    assert_eq!(players[0].score(), 10);
}

#[test]
fn axelrod_three_players() {
    let collaborate_strategy = MockStrategy { next_move: Move::Collaborate };
    let defect_strategy = MockStrategy { next_move: Move::Defect };
    let tournament = Tournament::axelrod_tournament();
    let mut players = vec![
        Player::new("collaborate_player", &collaborate_strategy),
        Player::new("defect_player", &defect_strategy),
        Player::new("defect_player_2", &defect_strategy),
    ];
    tournament.play_games(&mut players);
    assert_eq!(players[0].score(), 30);
    assert_eq!(players[1].score(), 70);
    assert_eq!(players[2].score(), 70);
}

#[test]
fn axelrod_single_naive_scores_thirty() {
    let naive = Naive {};
    let tournament = Tournament::axelrod_tournament();
    let mut players = vec![Player::new("naive", &naive)];
    tournament.play_games(&mut players);
    assert_eq!(players[0].score(), 30);
}

#[test]
fn all_pairs_empty_roster_is_a_no_op() {
    let tournament = Tournament::all_pairs();
    let mut players: Vec<Player<MockStrategy>> = Vec::new();
    tournament.play_games(&mut players);
    assert!(players.is_empty());
}

#[test]
fn command_line_selects_the_tournament() {
    let axelrod = vec!["prog".to_string(), "axelrod".to_string()];
    let other = vec!["prog".to_string(), "other".to_string()];
    let none = vec!["prog".to_string()];
    let naive = Naive {};
    for (args, expected) in [(axelrod, 30), (other, 0), (none, 0)] {
        let tournament = ipd_sim::tournament::create_tournament(&args);
        let mut players = vec![Player::new("solo", &naive)];
        tournament.play_games(&mut players);
        assert_eq!(players[0].score(), expected);
    }
    assert_eq!(Tournament::all_pairs().pairing_points_bound(), 50);
}

#[test]
fn nasty_against_naive_in_all_pairs() {
    let naive = BuiltinStrategy::Naive;
    let nasty = BuiltinStrategy::Nasty;
    let mut players = vec![Player::new("nasty", &nasty), Player::new("naive", &naive)];
    Tournament::all_pairs().play_games(&mut players);
    assert_eq!(players[0].score(), 50);
    assert_eq!(players[1].score(), 0);
}

#[test]
fn one_naive_two_nasty_in_all_pairs() {
    let naive = BuiltinStrategy::Naive;
    let nasty = BuiltinStrategy::Nasty;
    let mut players = vec![
        Player::new("naive", &naive),
        Player::new("nasty_0", &nasty),
        Player::new("nasty_1", &nasty),
    ];
    Tournament::all_pairs().play_games(&mut players);
    assert_eq!(players[0].score(), 0);
    assert_eq!(players[1].score(), 60);
    assert_eq!(players[2].score(), 60);
}

#[test]
fn tit_for_tat_reacts_to_each_opponent_alone() {
    let tft = BuiltinStrategy::TitForTat;
    let nasty = BuiltinStrategy::Nasty;
    let naive = BuiltinStrategy::Naive;
    let mut players = vec![
        Player::new("tft", &tft),
        Player::new("nasty", &nasty),
        Player::new("naive", &naive),
    ];
    Tournament::all_pairs().play_games(&mut players);
    // against Nasty: 0 then nine rounds of mutual defection; against Naive: ten rewards
    assert_eq!(players[0].score(), 9 + 30);
    assert_eq!(players[1].score(), 5 + 9 + 50);
    assert_eq!(players[2].score(), 30);
}

#[test]
fn random_player_still_plays_and_records_every_round() {
    let random = BuiltinStrategy::Random;
    let nasty = BuiltinStrategy::Nasty;
    let mut players = vec![Player::new("random", &random), Player::new("nasty", &nasty)];
    Tournament::axelrod_tournament().play_games(&mut players);
    let mine = players[0].history_with(&"nasty".to_string()).unwrap().clone();
    let theirs = players[1].history_with(&"random".to_string()).unwrap().clone();
    assert_eq!(mine.len(), 10);
    assert_eq!(theirs.len(), 10);
    assert_eq!(players[0].history_with(&"random_twin".to_string()).unwrap().len(), 10);
    assert_eq!(players[1].history_with(&"nasty_twin".to_string()).unwrap().len(), 10);
    let mut nasty_points = 10;
    for (a, b) in mine.iter().zip(theirs.iter()) {
        assert_eq!(a.my_move, b.their_move);
        assert_eq!(a.their_move, b.my_move);
        assert_eq!(b.my_move, Move::Defect);
        nasty_points += if a.my_move == Move::Collaborate { 5 } else { 1 };
    }
    assert_eq!(players[1].score(), nasty_points);
}
