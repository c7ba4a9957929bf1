//! Single nodes, and the signals that end a round of sending or of work.

use bytes::Bytes;
use vstd::prelude::*;

use crate::raw_bytes::{as_slice, bytes_of, copy_from_slice, from_static, from_vec};
use crate::words::{
    be_digits, be_round_trip, be_value, be_value_of_eight, be_value_of_four, push_u32_be,
    push_u64_be, u32_be_prefix, u64_be_prefix,
};

verus! {

/// A node for its owner, the end of a sender's nodes, or how many workers have work.
#[derive(Clone, Copy, Debug, PartialEq, Eq, Structural)]
pub enum BfsMessage {
    Node(usize),
    Flush,
    WorkStatus(u32),
}

/// The bytes of a message.
pub open spec fn signal_bytes(message: BfsMessage) -> Seq<u8> {
    match message {
        BfsMessage::Node(node) => be_digits(node as nat, 8),
        BfsMessage::Flush => seq![0xFFu8],
        BfsMessage::WorkStatus(work) => seq![0xFEu8] + be_digits(work as nat, 4),
    }
}

/// The message that bytes spell. What is neither of the two signals is a node in its first
/// eight bytes.
pub open spec fn signal_of(data: Seq<u8>) -> Option<BfsMessage> {
    if data.len() == 1 && data[0] == 0xFF {
        Some(BfsMessage::Flush)
    } else if data.len() == 5 && data[0] == 0xFE {
        Some(BfsMessage::WorkStatus(be_value(data.skip(1)) as u32))
    } else if data.len() >= 8 {
        Some(BfsMessage::Node(be_value(data.take(8)) as u64 as usize))
    } else {
        None
    }
}

/// The work of two workers together.
pub open spec fn sum_of(a: BfsMessage, b: BfsMessage) -> Option<BfsMessage> {
    match (a, b) {
        (BfsMessage::WorkStatus(x), BfsMessage::WorkStatus(y)) => Some(
            BfsMessage::WorkStatus((x + y) as u32),
        ),
        _ => None,
    }
}

impl BfsMessage {
    /// Reads a message off the wire. What is too short for a node and no signal is no message.
    pub fn from_bytes(buffer: Bytes) -> (message: Option<BfsMessage>)
        ensures
            message == signal_of(bytes_of(buffer)),
    {
        let data = as_slice(&buffer);
        if data.len() == 1 && data[0] == 0xFF {
            Some(BfsMessage::Flush)
        } else if data.len() == 5 && data[0] == 0xFE {
            let digits = vstd::slice::slice_subrange(data, 1, 5);
            assert(digits@ =~= data@.skip(1));
            assert(digits@.take(4) =~= digits@);
            Some(BfsMessage::WorkStatus(u32_be_prefix(digits)))
        } else if data.len() >= 8 {
            let node: u64 = u64_be_prefix(data);
            Some(BfsMessage::Node(node as usize))
        } else {
            None
        }
    }

    /// Puts a message on the wire.
    pub fn into_bytes(self) -> (buffer: Bytes)
        ensures
            bytes_of(buffer) == signal_bytes(self),
    {
        let mut data: Vec<u8> = Vec::new();
        match self {
            BfsMessage::Node(node) => {
                push_u64_be(&mut data, node as u64);
                assert(data@ =~= signal_bytes(self));
                copy_from_slice(data.as_slice())
            },
            BfsMessage::Flush => {
                let buffer = from_static(&[0xFFu8]);
                assert(bytes_of(buffer) =~= signal_bytes(self));
                buffer
            },
            BfsMessage::WorkStatus(work) => {
                data.push(0xFE);
                push_u32_be(&mut data, work);
                assert(data@ =~= signal_bytes(self));
                from_vec(data)
            },
        }
    }

    /// Adds the work of two workers up. Anything but two work counts has no sum.
    pub fn add_work(self, other: BfsMessage) -> (sum: Option<BfsMessage>)
        requires
            self is WorkStatus && other is WorkStatus ==> self->WorkStatus_0 + other->WorkStatus_0
                <= u32::MAX,
        ensures
            sum == sum_of(self, other),
            sum is Some <==> self is WorkStatus && other is WorkStatus,
            sum is Some ==> sum->0 is WorkStatus && sum->0->WorkStatus_0 == self->WorkStatus_0
                + other->WorkStatus_0,
    {
        match (self, other) {
            (BfsMessage::WorkStatus(a), BfsMessage::WorkStatus(b)) => Some(
                BfsMessage::WorkStatus(a + b),
            ),
            _ => None,
        }
    }
}

/// A message survives the wire: what was put on it is read back.
pub proof fn signal_round_trip(message: BfsMessage)
    ensures
        signal_of(signal_bytes(message)) == Some(message),
{
    let data = signal_bytes(message);
    match message {
        BfsMessage::Node(node) => {
            be_round_trip(node as nat, 8);
            assert(data.take(8) =~= data);
        },
        BfsMessage::Flush => {},
        BfsMessage::WorkStatus(work) => {
            be_round_trip(work as nat, 4);
            assert(data.skip(1) =~= be_digits(work as nat, 4));
        },
    }
}

/// What bytes mean: the one byte of a flush; the mark of a work count and the count in four
/// bytes, highest first; and otherwise a node in eight bytes, highest first.
pub proof fn signal_layout(data: Seq<u8>)
    ensures
        data == seq![0xFFu8] ==> signal_of(data) == Some(BfsMessage::Flush),
        data.len() == 5 && data[0] == 0xFE ==> (signal_of(data) matches Some(
            BfsMessage::WorkStatus(work),
        ) && work == 0x100_0000 * data[1] + 0x1_0000 * data[2] + 0x100 * data[3] + data[4]),
        data.len() >= 8 && usize::BITS == 64 ==> (signal_of(data) matches Some(
            BfsMessage::Node(node),
        ) && node == data[7] + 0x100 * data[6] + 0x1_0000 * data[5] + 0x100_0000 * data[4]
            + 0x1_0000_0000 * data[3] + 0x100_0000_0000 * data[2] + 0x1_0000_0000_0000 * data[1]
            + 0x100_0000_0000_0000 * data[0]),
        data.len() < 8 && data != seq![0xFFu8] && !(data.len() == 5 && data[0] == 0xFE)
            ==> signal_of(data) is None,
{
    if data.len() == 1 && data[0] == 0xFF {
        assert(data =~= seq![0xFFu8]);
    }
    if data.len() == 5 {
        be_value_of_four(data.skip(1));
    }
    if data.len() >= 8 {
        be_value_of_eight(data.take(8));
    }
}


/// Work counts add up to a work count, whichever comes first, and a count of none adds nothing.
/// No other message adds anything up.
pub proof fn work_counts_add_up(a: BfsMessage, b: BfsMessage)
    ensures
        sum_of(a, b) == sum_of(b, a),
        sum_of(a, b) is Some <==> a is WorkStatus && b is WorkStatus,
        a is WorkStatus ==> sum_of(a, BfsMessage::WorkStatus(0)) == Some(a),
        a is WorkStatus && b is WorkStatus && a->WorkStatus_0 + b->WorkStatus_0 <= u32::MAX ==> (
        sum_of(a, b) matches Some(BfsMessage::WorkStatus(total)) && total == a->WorkStatus_0
            + b->WorkStatus_0),
{
}

} // verus!
