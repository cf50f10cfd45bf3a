//! Dipper: expression parsing and command handling for a bot that watches
//! cryptocurrency markets.
pub mod command;
pub mod database;
pub mod expression;
pub mod float_literal;
pub mod grammar;
pub mod lexer;
pub mod market;
pub mod numbers;
pub mod parser;
pub mod postfix;
pub mod text;
pub mod token;
