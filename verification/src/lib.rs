//! An embedded record store: named tables of typed rows, kept in memory and
//! laid out as one flat byte string for persistence.

pub mod database;
pub mod layout;
pub mod table;
pub mod text;
pub mod types;
pub mod utils;

pub use database::{Database, LoadError};
