//! Local code search core: argument parsing, tokenizing, chunking,
//! filtering and ranking inputs, index refresh planning and snapshot rules.

pub mod chunking;
pub mod engine;
pub mod index;
pub mod launch_args;
pub mod ranking;
pub mod refresh;
pub mod related;
pub mod search_input;
pub mod server;
pub mod store;
pub mod term_table;
pub mod text;
pub mod tokenize;
pub mod tool_routes;
