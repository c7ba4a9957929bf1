//! The messages of an all-to-all exchange.

use bytes::Bytes;
use vstd::prelude::*;

use crate::raw_bytes::{as_slice, bytes_of, from_vec, split_to};
use crate::words::{
    be_digits, be_round_trip, be_value, be_value_of_four, bytes_to_words, push_u32_be, push_words, read_words,
    u32_be_prefix, words_round_trip, words_to_bytes, ByteOrder,
};

verus! {

/// One worker's share of an all-to-all exchange: whether the sender had work, and the nodes
/// that it found for the receiver.
#[derive(Debug)]
pub struct BfsMessage {
    pub has_work: u32,
    pub nodes: Vec<usize>,
}

impl Clone for BfsMessage {
    fn clone(&self) -> (copy: BfsMessage)
        ensures
            copy.has_work == self.has_work,
            copy.nodes@ == self.nodes@,
    {
        BfsMessage { has_work: self.has_work, nodes: self.nodes.clone() }
    }
}

/// The bytes of an exchange message: the work mark, highest byte first, then the nodes as they
/// lie in memory.
pub open spec fn exchange_bytes(order: ByteOrder, has_work: u32, nodes: Seq<usize>) -> Seq<u8> {
    be_digits(has_work as nat, 4) + words_to_bytes(order, nodes)
}

/// The exchange message that bytes spell, if there are enough of them for the work mark.
pub open spec fn exchange_of(order: ByteOrder, data: Seq<u8>) -> Option<(nat, Seq<usize>)> {
    if data.len() < 4 {
        None
    } else {
        Some((be_value(data.take(4)), bytes_to_words(order, data.skip(4))))
    }
}

impl BfsMessage {
    /// Reads a message off the wire. A buffer too short for the work mark is no message.
    pub fn from_bytes(buffer: Bytes, order: ByteOrder) -> (message: Option<BfsMessage>)
        ensures
            message is Some <==> exchange_of(order, bytes_of(buffer)) is Some,
            message matches Some(m) ==> exchange_of(order, bytes_of(buffer)) == Some(
                (m.has_work as nat, m.nodes@),
            ),
    {
        let mut rest = buffer;
        if as_slice(&rest).len() < 4 {
            return None;
        }
        let head = split_to(&mut rest, 4);
        let has_work: u32 = u32_be_prefix(as_slice(&head));
        assert(bytes_of(head).take(4) =~= bytes_of(head));
        let nodes = read_words(order, as_slice(&rest));
        Some(BfsMessage { has_work, nodes })
    }

    /// Puts a message on the wire.
    pub fn into_bytes(self, order: ByteOrder) -> (buffer: Bytes)
        ensures
            bytes_of(buffer) == exchange_bytes(order, self.has_work, self.nodes@),
    {
        let mut data: Vec<u8> = Vec::new();
        push_u32_be(&mut data, self.has_work);
        push_words(&mut data, order, self.nodes.as_slice());
        assert(data@ =~= exchange_bytes(order, self.has_work, self.nodes@));
        from_vec(data)
    }
}

/// An exchange message survives the wire between machines of the same order: what was put on it
/// is read back.
pub proof fn exchange_round_trip(order: ByteOrder, has_work: u32, nodes: Seq<usize>)
    ensures
        exchange_of(order, exchange_bytes(order, has_work, nodes)) == Some((has_work as nat, nodes)),
{
    let data = exchange_bytes(order, has_work, nodes);
    be_round_trip(has_work as nat, 4);
    words_round_trip(order, nodes);
    assert(data.take(4) =~= be_digits(has_work as nat, 4));
    assert(data.skip(4) =~= words_to_bytes(order, nodes));
}

/// The first four bytes of a message are the work mark, highest first; the nodes follow, and a
/// message without four bytes is none.
pub proof fn exchange_layout(order: ByteOrder, data: Seq<u8>, has_work: u32, nodes: Seq<usize>)
    ensures
        data.len() < 4 ==> exchange_of(order, data) is None,
        data.len() >= 4 ==> (exchange_of(order, data) matches Some((mark, list)) && mark
            == 0x100_0000 * data[0] + 0x1_0000 * data[1] + 0x100 * data[2] + data[3] && list
            == bytes_to_words(order, data.skip(4))),
        exchange_bytes(order, has_work, nodes).len() == 4 + words_to_bytes(order, nodes).len(),
        exchange_bytes(order, has_work, nodes).skip(4) == words_to_bytes(order, nodes),
{
    if data.len() >= 4 {
        be_value_of_four(data.take(4));
    }
    be_round_trip(has_work as nat, 4);
    assert(exchange_bytes(order, has_work, nodes).skip(4) =~= words_to_bytes(order, nodes));
}

} // verus!
