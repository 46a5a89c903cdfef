//! Code tables for the Wubi input method.
//!
//! A Wubi code is one to four letters from `a` to `y`, stored as a base-26
//! number. Two tables hold the shortcut code of frequent characters and the full
//! code of every character and phrase; from them the forward and the reverse
//! lookup tables of an input-method engine are written out.

pub mod error;
pub mod code;
pub mod text;
pub mod phrase;
pub mod simplified;
pub mod full;
pub mod table;
pub mod merge;
pub mod reverse;
pub mod record;
pub mod loader;

pub use code::WubiCode;
pub use error::ParseError;
pub use full::{FullCodeTable, WubiEntry};
pub use loader::WubiTable;
pub use phrase::get_code_for_phrase;
pub use simplified::SimplifiedCodeTable;
pub use table::Table;
