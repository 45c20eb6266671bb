pub mod match_service;
pub mod bracket_layout;
pub mod bracket_plan;
pub mod round_robin;
pub mod bracket_generator;
pub mod standings;
pub mod tournament_service;
pub mod score_laws;
pub mod transfer_laws;
