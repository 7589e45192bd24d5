pub mod board;
pub mod bot;
pub mod game;
pub mod player;
pub mod square;
