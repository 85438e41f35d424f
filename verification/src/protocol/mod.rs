pub mod command;
pub mod resp;
