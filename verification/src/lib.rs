pub mod text;
pub mod highlight;
pub mod style;
pub mod parse;
pub mod input;
pub mod config;
pub mod hoogle;
pub mod pretty;
pub mod render;
pub mod dump;
pub mod debugger;
pub mod ghc;
pub mod session;
pub mod error;
pub mod dbg_input;
pub mod repl;
