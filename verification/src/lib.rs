//! Breadth-first search over large graphs, split over workers that advance in lockstep.

pub mod frontier;
pub mod graph;
pub mod groups;
pub mod lockstep;
pub mod message;
pub mod model;
pub mod moments;
pub mod numa;
pub mod parallel;
pub mod params;
pub mod partition;
pub mod raw_bytes;
pub mod sent_set;
pub mod sequential;
pub mod session;
pub mod sources;
pub mod strategies;
pub mod text;
pub mod timestamps;
pub mod validator;
pub mod words;
pub mod worker;
