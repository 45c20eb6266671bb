pub mod utils;
pub mod text;
pub mod domain;
pub mod sorting;
pub mod store;
pub mod table;
pub mod services;
pub mod presentation;
pub mod actions;
pub mod app_state;
pub mod scraper;
pub mod export_layout;
pub mod logo;
