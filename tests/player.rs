use ipd_sim::game::{Move, Payoff};
use ipd_sim::player::{play_game, play_games, GamePlay, Player};
use ipd_sim::strategy::Strategy;
use std::cell::Cell;

struct MockStrategy {
    next_move: Cell<Move>,
}

impl Strategy for MockStrategy {
    fn play(&self, _past_games: &[GamePlay]) -> Move {
        self.next_move.get()
    }

    fn name(&self) -> String {
        "MockStrategy".to_string()
    }
}

fn test_payoff() -> Payoff {
    Payoff::new(5, 3, 1, 0)
}

fn key(name: &str) -> String {
    name.to_string()
}

#[test]
fn player_and_stragety_name() {
    let mock_strategy = MockStrategy { next_move: Cell::new(Move::Defect) };
    let player = Player::new("test_player", &mock_strategy);
    assert_eq!(player.name(), "test_player");
    assert_eq!(player.strategy_name(), "MockStrategy");
}

#[test]
fn twin() {
    let mock_strategy = MockStrategy { next_move: Cell::new(Move::Defect) };
    let player = Player::new("test_player", &mock_strategy);
    let twin = player.twin();
    assert_eq!(twin.name(), "test_player_twin");
    assert_eq!(twin.strategy_name(), "MockStrategy");
    assert_eq!(player.strategy_name(), "MockStrategy");
}

#[test]
fn one_game_played() {
    let defect_strategy = MockStrategy { next_move: Cell::new(Move::Defect) };
    let mut defect_player = Player::new("defect_player", &defect_strategy);
    let collaborate_strategy = MockStrategy { next_move: Cell::new(Move::Collaborate) };
    let mut collaborate_player = Player::new("collaborate_player", &collaborate_strategy);
    assert_eq!(defect_player.score(), 0);
    assert_eq!(collaborate_player.score(), 0);
    play_game(&mut defect_player, &mut collaborate_player, &test_payoff());
    assert_eq!(defect_player.score(), 5);
    assert_eq!(
        *defect_player.history_with(&key("collaborate_player")).unwrap(),
        vec![GamePlay { my_move: Move::Defect, their_move: Move::Collaborate }]
    );
    assert_eq!(collaborate_player.score(), 0);
    assert_eq!(
        *collaborate_player.history_with(&key("defect_player")).unwrap(),
        vec![GamePlay { my_move: Move::Collaborate, their_move: Move::Defect }]
    );
}

#[test]
fn consecutive_games_played() {
    let defect_strategy = MockStrategy { next_move: Cell::new(Move::Defect) };
    let mut defect_player = Player::new("defect_player", &defect_strategy);
    let alternate_strategy = MockStrategy { next_move: Cell::new(Move::Collaborate) };
    let mut alternate_player = Player::new("alternate_player", &alternate_strategy);
    assert_eq!(defect_player.score(), 0);
    assert_eq!(alternate_player.score(), 0);
    play_game(&mut defect_player, &mut alternate_player, &test_payoff());
    assert_eq!(defect_player.score(), 5);
    assert_eq!(alternate_player.score(), 0);
    alternate_strategy.next_move.replace(Move::Defect);
    play_game(&mut defect_player, &mut alternate_player, &test_payoff());
    assert_eq!(defect_player.score(), 6);
    assert_eq!(
        *defect_player.history_with(&key("alternate_player")).unwrap(),
        vec![
            GamePlay { my_move: Move::Defect, their_move: Move::Collaborate },
            GamePlay { my_move: Move::Defect, their_move: Move::Defect }
        ]
    );
    assert_eq!(alternate_player.score(), 1);
    assert_eq!(
        *alternate_player.history_with(&key("defect_player")).unwrap(),
        vec![
            GamePlay { my_move: Move::Collaborate, their_move: Move::Defect },
            GamePlay { my_move: Move::Defect, their_move: Move::Defect }
        ]
    );
}

#[test]
fn games_played() {
    let defect_strategy = MockStrategy { next_move: Cell::new(Move::Defect) };
    let mut defect_player = Player::new("defect_player", &defect_strategy);
    let collaborate_strategy = MockStrategy { next_move: Cell::new(Move::Collaborate) };
    let mut collaborate_player = Player::new("collaborate_player", &collaborate_strategy);
    assert_eq!(defect_player.score(), 0);
    assert_eq!(collaborate_player.score(), 0);
    play_games(&mut defect_player, &mut collaborate_player, &test_payoff(), 9);
    assert_eq!(defect_player.score(), 45);
    assert_eq!(defect_player.history_with(&key("collaborate_player")).unwrap().len(), 9);
    assert_eq!(collaborate_player.score(), 0);
    assert_eq!(collaborate_player.history_with(&key("defect_player")).unwrap().len(), 9);
}

#[test]
fn history_is_kept_per_opponent() {
    let defect_strategy = MockStrategy { next_move: Cell::new(Move::Defect) };
    let collaborate_strategy = MockStrategy { next_move: Cell::new(Move::Collaborate) };
    let mut a = Player::new("a", &defect_strategy);
    let mut b = Player::new("b", &collaborate_strategy);
    let mut c = Player::new("c", &collaborate_strategy);
    play_games(&mut a, &mut b, &test_payoff(), 2);
    play_game(&mut a, &mut c, &test_payoff());
    assert_eq!(a.history_with(&key("b")).unwrap().len(), 2);
    assert_eq!(a.history_with(&key("c")).unwrap().len(), 1);
    assert!(a.history_with(&key("d")).is_none());
    assert_eq!(a.score(), 15);
}

#[test]
fn play_records_an_empty_history_for_a_new_opponent() {
    let strategy = MockStrategy { next_move: Cell::new(Move::Defect) };
    let mut p = Player::new("p", &strategy);
    assert!(p.history_with(&key("q")).is_none());
    assert_eq!(p.play(&key("q")), Move::Defect);
    assert_eq!(p.history_with(&key("q")).unwrap().len(), 0);
    p.game_played(&key("q"), Move::Defect, Move::Collaborate, 5);
    assert_eq!(p.score(), 5);
    assert_eq!(
        *p.history_with(&key("q")).unwrap(),
        vec![GamePlay { my_move: Move::Defect, their_move: Move::Collaborate }]
    );
}
