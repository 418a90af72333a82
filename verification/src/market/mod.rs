pub mod book;
pub mod flow;
pub mod gate;
