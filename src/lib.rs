pub mod cli;
pub mod counter;
pub mod mode;
pub mod text;
