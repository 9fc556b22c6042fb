pub mod text;
pub mod words;
pub mod board;
pub mod puzzle;
pub mod dictionary;
pub mod api;
pub mod wordlist;
pub mod frontend;
pub mod server;
pub mod solver;
