//! What workers send each other, and how it looks on the wire.

pub mod exchange;
pub mod frontier;
pub mod packed;
pub mod signal;
