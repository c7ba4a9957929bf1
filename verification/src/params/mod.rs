//! What a worker is given, and what it hands back.

pub mod single;
pub mod trials;
