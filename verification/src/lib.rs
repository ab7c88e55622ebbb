//! Control-flow summaries of compiled function bodies: block successor
//! tables, textual block dumps and the enumeration of condition chains
//! (every path of branch decisions from the entry block to an exit block).

pub mod analysis;
pub mod blocks;
pub mod chains;
pub mod text;
pub mod trans;
