//! Parsing of password queries and exhaustive search for the passwords that
//! match a pattern with wildcards.

pub mod alphabet;
pub mod generate;
pub mod password;
pub mod pattern;
pub mod query;
