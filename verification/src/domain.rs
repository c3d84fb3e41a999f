pub mod attempt;
pub mod messages;
pub mod paper;
pub mod puzzle;
pub mod replay;
pub mod score;
