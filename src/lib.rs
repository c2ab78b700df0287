//! An incremental parsing engine over token identities, built from composable
//! readers in the style of Brzozowski derivatives.
//!
//! A grammar is an arena of nodes (`grammar`) that refer to each other by
//! index, so that recursive grammars close their cycles through reference
//! cells. `Grammar::freeze` checks the arena and ranks its nodes so that the
//! empty-input computation terminates. Reading a token turns a state into the
//! next one (`reader`); the driver (`parser`) keeps the longest acceptance
//! and its trace, a compact log of the choices made, which `trees` replays
//! into a labelled tree. `lexer` runs the same driver over bytes to split
//! them into tokens, and `json` wires all of it into a JSON grammar.
pub mod list;
pub mod traces;
pub mod grammar;
pub mod reader;
pub mod parser;
pub mod trees;
pub mod symbols;
pub mod lexer;
pub mod json;
