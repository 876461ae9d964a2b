pub mod command;
pub mod failure;
pub mod rank;
pub mod session;
pub mod store;
pub mod table;
pub mod text;
