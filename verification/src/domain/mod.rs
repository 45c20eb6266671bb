pub mod export_model;
pub mod ids;
pub mod match_model;
pub mod participant;
pub mod roster;
pub mod round;
pub mod tournament;
pub mod repositories;
