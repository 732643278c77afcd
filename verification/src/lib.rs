pub mod application;
pub mod domain;
pub mod infra;
pub mod text;
pub mod ui;
