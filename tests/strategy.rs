use ipd_sim::game::Move;
use ipd_sim::player::GamePlay;
use ipd_sim::strategy::drunk::Drunk;
use ipd_sim::strategy::grim_trigger::GrimTrigger;
use ipd_sim::strategy::naive::Naive;
use ipd_sim::strategy::nasty::Nasty;
use ipd_sim::strategy::random::Random;
use ipd_sim::strategy::tit_for_tat::TitForTat;
use ipd_sim::strategy::{all_strategies, BuiltinStrategy, Strategy};

fn g(my_move: Move, their_move: Move) -> GamePlay {
    GamePlay { my_move, their_move }
}

#[test]
fn fixed_strategies() {
    let h = vec![g(Move::Defect, Move::Defect)];
    assert_eq!(Naive {}.play(&h), Move::Collaborate);
    assert_eq!(Nasty {}.play(&h), Move::Defect);
    assert_eq!(Naive {}.play(&[]), Move::Collaborate);
    assert_eq!(Nasty {}.play(&[]), Move::Defect);
}

#[test]
fn tit_for_tat_mirrors_last_move() {
    assert_eq!(TitForTat {}.play(&[]), Move::Collaborate);
    let h = vec![g(Move::Collaborate, Move::Collaborate), g(Move::Collaborate, Move::Defect)];
    assert_eq!(TitForTat {}.play(&h), Move::Defect);
    let h = vec![g(Move::Collaborate, Move::Defect), g(Move::Defect, Move::Collaborate)];
    assert_eq!(TitForTat {}.play(&h), Move::Collaborate);
}

#[test]
fn grim_trigger_never_forgives() {
    assert_eq!(GrimTrigger {}.play(&[]), Move::Collaborate);
    let h = vec![g(Move::Collaborate, Move::Collaborate)];
    assert_eq!(GrimTrigger {}.play(&h), Move::Collaborate);
    let h = vec![
        g(Move::Collaborate, Move::Defect),
        g(Move::Defect, Move::Collaborate),
        g(Move::Defect, Move::Collaborate),
    ];
    assert_eq!(GrimTrigger {}.play(&h), Move::Defect);
}

#[test]
fn drunk_alternates_its_own_move() {
    assert_eq!(Drunk {}.play(&[]), Move::Collaborate);
    let h = vec![g(Move::Collaborate, Move::Defect)];
    assert_eq!(Drunk {}.play(&h), Move::Defect);
    let h = vec![g(Move::Collaborate, Move::Defect), g(Move::Defect, Move::Defect)];
    assert_eq!(Drunk {}.play(&h), Move::Collaborate);
}

#[test]
fn random_plays_some_move() {
    let m = Random {}.play(&[]);
    assert!(m == Move::Collaborate || m == Move::Defect);
    assert_eq!(Random {}.name(), "Random");
}

#[test]
fn builtin_names_and_roster() {
    let names: Vec<String> = all_strategies().iter().map(|s| s.name()).collect();
    assert_eq!(names, vec!["TitForTat", "Naive", "Nasty", "GrimTrigger", "Drunk", "Random"]);
    assert_eq!(BuiltinStrategy::Drunk.play(&[g(Move::Collaborate, Move::Collaborate)]), Move::Defect);
}
