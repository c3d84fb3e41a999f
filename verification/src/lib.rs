pub mod author;
pub mod cli;
pub mod content;
pub mod domain;
pub mod error;
pub mod generator;
pub mod packs;
pub mod report;
pub mod solver;
pub mod storage;
pub mod text;
