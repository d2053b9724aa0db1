//! A Datalog front end for agent use: lexing and parsing, lowering to a
//! positional core IR, body scheduling, stratification, provenance proof
//! extraction, canonical printing, temporal values, and import dispatch.
pub mod text;
pub mod temporal;
pub mod ast;
pub mod ir;
pub mod schedule;
pub mod provenance;
pub mod stdlib;
pub mod error;
pub mod sources;
pub mod lexer;
pub mod parser;
pub mod resolve;
pub mod print;
pub mod lower;
pub mod readback;
pub mod query;
