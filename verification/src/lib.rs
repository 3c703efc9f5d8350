//! A cycle-counting simulator of a small RV32I core with split L1 caches
//! and memory-mapped ports, with its decoding, cache, memory and port logic
//! proved against a functional model.

pub mod decode;
pub mod op;
pub mod exec;
pub mod mem;
pub mod io;
pub mod semantics;
pub mod schematic;
pub mod laws;
