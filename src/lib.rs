pub mod combinatorics;
pub mod game;
pub mod player;
pub mod strategy;
pub mod tournament;
pub mod population;
