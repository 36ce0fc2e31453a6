pub mod game;
pub mod message;
pub mod outside;
pub mod player;
pub mod question;
pub mod round_data;
