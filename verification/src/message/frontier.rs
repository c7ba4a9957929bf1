//! Frontiers on their way to the root worker and back.

use bytes::Bytes;
use vstd::prelude::*;

use crate::raw_bytes::{as_slice, bytes_of, from_vec};
use crate::words::{
    bytes_to_words, push_words, read_words, words_round_trip, words_to_bytes, ByteOrder,
};

verus! {

/// A list of discovered nodes.
#[derive(Debug)]
pub struct BfsMessage(pub Vec<usize>);

impl Clone for BfsMessage {
    fn clone(&self) -> (copy: BfsMessage)
        ensures
            copy.0@ == self.0@,
    {
        BfsMessage(self.0.clone())
    }
}

impl BfsMessage {
    /// Reads a frontier off the wire.
    pub fn from_bytes(buffer: Bytes, order: ByteOrder) -> (message: BfsMessage)
        ensures
            message.0@ == bytes_to_words(order, bytes_of(buffer)),
    {
        BfsMessage(read_words(order, as_slice(&buffer)))
    }

    /// Puts a frontier on the wire.
    pub fn into_bytes(self, order: ByteOrder) -> (buffer: Bytes)
        ensures
            bytes_of(buffer) == words_to_bytes(order, self.0@),
    {
        let mut data: Vec<u8> = Vec::new();
        push_words(&mut data, order, self.0.as_slice());
        assert(data@ =~= words_to_bytes(order, self.0@));
        from_vec(data)
    }

    /// Joins the frontiers of two workers, one after the other.
    pub fn merge(self, other: BfsMessage) -> (joined: BfsMessage)
        ensures
            joined.0@ == self.0@ + other.0@,
    {
        let mut nodes = self.0;
        let mut more = other.0;
        nodes.append(&mut more);
        BfsMessage(nodes)
    }
}

/// A frontier survives the wire between machines of the same order: what was put on it is read
/// back.
pub proof fn frontier_round_trip(order: ByteOrder, nodes: Seq<usize>)
    ensures
        bytes_to_words(order, words_to_bytes(order, nodes)) == nodes,
{
    words_round_trip(order, nodes);
}

} // verus!
