//! Node lists that stay packed as bytes, with the work mark as a last word.

use bytes::Bytes;
use vstd::prelude::*;

use crate::raw_bytes::{as_slice, bytes_of, from_vec};
use crate::words::{
    bytes_to_words, native_order, push_words, read_words, words_round_trip, words_to_bytes,
    ByteOrder,
};

verus! {

/// A node list as words as they lie in memory, of which the last repeats the work mark, and the
/// order of their bytes.
#[derive(Debug)]
pub struct BfsMessage {
    pub has_work: u32,
    pub nodes: Bytes,
    pub order: ByteOrder,
}

/// All words but the last.
pub open spec fn payload_of(order: ByteOrder, data: Seq<u8>) -> Seq<usize> {
    let words = bytes_to_words(order, data);
    if words.len() > 0 {
        words.drop_last()
    } else {
        words
    }
}

/// The last word, as a work mark.
pub open spec fn mark_of(order: ByteOrder, data: Seq<u8>) -> u32 {
    let words = bytes_to_words(order, data);
    if words.len() > 0 {
        words.last() as u32
    } else {
        0
    }
}

impl Clone for BfsMessage {
    fn clone(&self) -> (copy: BfsMessage)
        ensures
            copy.has_work == self.has_work,
            bytes_of(copy.nodes) == bytes_of(self.nodes),
            copy.order == self.order,
    {
        BfsMessage { has_work: self.has_work, nodes: self.nodes.clone(), order: self.order }
    }
}

impl BfsMessage {
    /// The nodes of the message.
    pub open spec fn node_list(&self) -> Seq<usize> {
        payload_of(self.order, bytes_of(self.nodes))
    }

    /// The bytes are the packing of the nodes and the work mark, so that the mark travels with
    /// them.
    pub open spec fn sealed(&self) -> bool {
        bytes_of(self.nodes) == words_to_bytes(
            self.order,
            self.node_list().push(self.has_work as usize),
        )
    }

    /// Packs a node list, in the order of this machine.
    pub fn from_vec(nodes: Vec<usize>, has_work: u32) -> (message: BfsMessage)
        ensures
            message.has_work == has_work,
            bytes_of(message.nodes) == words_to_bytes(
                message.order,
                nodes@.push(has_work as usize),
            ),
            message.node_list() == nodes@,
            message.sealed(),
    {
        Self::from_vec_in(native_order(), nodes, has_work)
    }

    /// Packs a node list, in an order.
    pub fn from_vec_in(order: ByteOrder, nodes: Vec<usize>, has_work: u32) -> (message: BfsMessage)
        ensures
            message.order == order,
            message.has_work == has_work,
            bytes_of(message.nodes) == words_to_bytes(order, nodes@.push(has_work as usize)),
            message.node_list() == nodes@,
            message.sealed(),
    {
        let mut words = nodes;
        words.push(has_work as usize);
        let mut data: Vec<u8> = Vec::new();
        push_words(&mut data, order, words.as_slice());
        proof {
            assert(data@ =~= words_to_bytes(order, words@));
            words_round_trip(order, words@);
            assert(words@.drop_last() =~= nodes@);
        }
        BfsMessage { has_work, nodes: from_vec(data), order }
    }

    /// Reads a message off the wire: the work mark is the last word, and zero where there is
    /// none.
    pub fn from_bytes(buffer: Bytes, order: ByteOrder) -> (message: BfsMessage)
        ensures
            message.order == order,
            message.has_work == mark_of(order, bytes_of(buffer)),
            bytes_of(message.nodes) == bytes_of(buffer),
    {
        let words = read_words(order, as_slice(&buffer));
        let has_work: u32 = if words.len() > 0 {
            words[words.len() - 1] as u32
        } else {
            0
        };
        BfsMessage { has_work, nodes: buffer, order }
    }

    /// Puts a message on the wire, which it is packed for already.
    pub fn into_bytes(self) -> (buffer: Bytes)
        ensures
            bytes_of(buffer) == bytes_of(self.nodes),
    {
        self.nodes
    }

    /// Unpacks the node list.
    pub fn payload(&self) -> (nodes: Vec<usize>)
        ensures
            nodes@ == self.node_list(),
    {
        let mut words = read_words(self.order, as_slice(&self.nodes));
        if words.len() > 0 {
            words.pop();
        }
        assert(words@ =~= self.node_list());
        words
    }
}

/// A sealed message survives the wire between machines of the same order: what
/// [`BfsMessage::from_bytes`] reads off the bytes that [`BfsMessage::into_bytes`] puts on it has
/// the same work mark and the same nodes.
pub proof fn sealed_survives_wire(sent: BfsMessage, got: BfsMessage)
    requires
        sent.sealed(),
        got.order == sent.order,
        got.has_work == mark_of(got.order, bytes_of(sent.nodes)),
        bytes_of(got.nodes) == bytes_of(sent.nodes),
    ensures
        got.has_work == sent.has_work,
        got.node_list() == sent.node_list(),
        got.sealed(),
{
    packed_round_trip(sent.order, sent.has_work, sent.node_list());
}

/// Sends a message over the wire.
pub fn deliver(message: BfsMessage) -> (got: BfsMessage)
    requires
        message.sealed(),
    ensures
        got.order == message.order,
        got.has_work == message.has_work,
        got.node_list() == message.node_list(),
        got.sealed(),
{
    let ghost sent = message;
    let order = message.order;
    let got = BfsMessage::from_bytes(message.into_bytes(), order);
    proof {
        sealed_survives_wire(sent, got);
    }
    got
}

/// Packing can be undone: the bytes give back the nodes and the work mark.
pub proof fn packed_round_trip(order: ByteOrder, has_work: u32, nodes: Seq<usize>)
    ensures
        payload_of(order, words_to_bytes(order, nodes.push(has_work as usize))) == nodes,
        mark_of(order, words_to_bytes(order, nodes.push(has_work as usize))) == has_work,
{
    let words = nodes.push(has_work as usize);
    words_round_trip(order, words);
    assert(words.drop_last() =~= nodes);
}

/// Of the words of a message the last one is the work mark, and the others are the nodes.
pub proof fn packed_layout(order: ByteOrder, data: Seq<u8>)
    ensures
        bytes_to_words(order, data).len() == 0 ==> payload_of(order, data).len() == 0 && mark_of(
            order,
            data,
        ) == 0,
        bytes_to_words(order, data).len() > 0 ==> payload_of(order, data).push(
            bytes_to_words(order, data).last(),
        ) == bytes_to_words(order, data),
        bytes_to_words(order, data).len() > 0 && bytes_to_words(order, data).last() <= u32::MAX
            ==> mark_of(order, data) == bytes_to_words(order, data).last(),
{
    let words = bytes_to_words(order, data);
    if words.len() > 0 {
        assert(words.drop_last().push(words.last()) =~= words);
    }
}

} // verus!
