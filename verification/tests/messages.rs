use burst_bfs::message::exchange::BfsMessage as ExchangeMessage;
use burst_bfs::message::frontier::BfsMessage as FrontierMessage;
use burst_bfs::message::packed::BfsMessage as PackedMessage;
use burst_bfs::message::signal::BfsMessage as SignalMessage;
use burst_bfs::words::{native_order, order_of, ByteOrder};
use bytes::Bytes;

const LOW: ByteOrder = ByteOrder::LowFirst;
const HIGH: ByteOrder = ByteOrder::HighFirst;

#[test]
fn exchange_messages_survive_the_wire() {
    let message = ExchangeMessage { has_work: 1, nodes: vec![0, 7, usize::MAX] };
    let buffer = message.clone().into_bytes(LOW);
    assert_eq!(buffer.len(), 4 + 3 * 8);
    assert_eq!(&buffer[..12], &[0, 0, 0, 1, 0, 0, 0, 0, 0, 0, 0, 0]);
    assert_eq!(&buffer[12..20], &[7, 0, 0, 0, 0, 0, 0, 0]);
    let back = ExchangeMessage::from_bytes(buffer, LOW).unwrap();
    assert_eq!(back.has_work, message.has_work);
    assert_eq!(back.nodes, message.nodes);
}

#[test]
fn exchange_messages_need_a_work_mark() {
    assert!(ExchangeMessage::from_bytes(Bytes::from_static(&[0, 0, 1]), LOW).is_none());
    let bare = ExchangeMessage::from_bytes(Bytes::from_static(&[0, 0, 1, 2]), LOW).unwrap();
    assert_eq!(bare.has_work, 258);
    assert!(bare.nodes.is_empty());
}

#[test]
fn bytes_past_the_last_whole_word_are_left_out() {
    let data = vec![0, 0, 0, 0, 5, 0, 0, 0, 0, 0, 0, 0, 9, 9];
    let message = ExchangeMessage::from_bytes(Bytes::from(data), LOW).unwrap();
    assert_eq!(message.nodes, vec![5]);
    let more = Bytes::from(vec![3, 1, 0, 0, 0, 0, 0, 0, 4]);
    let frontier = FrontierMessage::from_bytes(more, LOW);
    assert_eq!(frontier.0, vec![259]);
}

#[test]
fn frontiers_survive_the_wire_and_join_in_order() {
    let a = FrontierMessage(vec![4, 2]);
    let b = FrontierMessage(vec![2, 9]);
    let buffer = a.clone().into_bytes(LOW);
    assert_eq!(&buffer[..], &[4, 0, 0, 0, 0, 0, 0, 0, 2, 0, 0, 0, 0, 0, 0, 0]);
    assert_eq!(FrontierMessage::from_bytes(buffer, LOW).0, vec![4, 2]);
    assert_eq!(a.merge(b).0, vec![4, 2, 2, 9]);
}

#[test]
fn signals_survive_the_wire() {
    let cases = [
        (SignalMessage::Node(0x0102), vec![0, 0, 0, 0, 0, 0, 1, 2]),
        (SignalMessage::Flush, vec![0xFF]),
        (SignalMessage::WorkStatus(3), vec![0xFE, 0, 0, 0, 3]),
        (SignalMessage::Node(usize::MAX), vec![0xFF; 8]),
        (SignalMessage::WorkStatus(u32::MAX), vec![0xFE, 0xFF, 0xFF, 0xFF, 0xFF]),
    ];
    for (message, bytes) in cases {
        let buffer = message.into_bytes();
        assert_eq!(&buffer[..], &bytes[..]);
        assert_eq!(SignalMessage::from_bytes(buffer), Some(message));
    }
}

#[test]
fn signals_that_are_none_are_refused() {
    assert_eq!(SignalMessage::from_bytes(Bytes::from_static(&[])), None);
    assert_eq!(SignalMessage::from_bytes(Bytes::from_static(&[0xFE])), None);
    assert_eq!(SignalMessage::from_bytes(Bytes::from_static(&[1, 2, 3, 4, 5])), None);
    assert_eq!(SignalMessage::from_bytes(Bytes::from_static(&[0; 7])), None);
    let long = Bytes::from_static(&[0, 0, 0, 0, 0, 0, 0, 6, 7, 8]);
    assert_eq!(SignalMessage::from_bytes(long), Some(SignalMessage::Node(6)));
}

#[test]
fn only_work_counts_add_up() {
    let two = SignalMessage::WorkStatus(2);
    let three = SignalMessage::WorkStatus(3);
    assert_eq!(two.add_work(three), Some(SignalMessage::WorkStatus(5)));
    assert_eq!(two.add_work(SignalMessage::Flush), None);
    assert_eq!(SignalMessage::Node(1).add_work(three), None);
}

#[test]
fn packed_messages_end_with_the_work_mark() {
    let message = PackedMessage::from_vec_in(LOW, vec![8, 3], 1);
    assert_eq!(message.has_work, 1);
    assert_eq!(message.nodes.len(), 24);
    assert_eq!(&message.nodes[16..], &[1, 0, 0, 0, 0, 0, 0, 0]);
    assert_eq!(message.payload(), vec![8, 3]);
    let copy = message.clone();
    assert_eq!(copy.payload(), vec![8, 3]);
    let none = PackedMessage { has_work: 0, nodes: Bytes::new(), order: LOW };
    assert!(none.payload().is_empty());
}

#[test]
fn packed_messages_survive_the_wire() {
    for order in [LOW, HIGH] {
        let buffer = PackedMessage::from_vec_in(order, vec![6, 0], 3).into_bytes();
        let back = PackedMessage::from_bytes(buffer, order);
        assert_eq!(back.has_work, 3);
        assert_eq!(back.payload(), vec![6, 0]);
        assert_eq!(PackedMessage::from_bytes(Bytes::new(), order).has_work, 0);
    }
}

#[test]
fn nodes_travel_as_they_lie_in_memory() {
    let order = native_order();
    for node in [0usize, 1, 258, usize::MAX, usize::MAX / 3] {
        let buffer = FrontierMessage(vec![node]).into_bytes(order);
        assert_eq!(&buffer[..], &node.to_ne_bytes());
        assert_eq!(&FrontierMessage(vec![node]).into_bytes(LOW)[..], &node.to_le_bytes());
        assert_eq!(&FrontierMessage(vec![node]).into_bytes(HIGH)[..], &node.to_be_bytes());
    }
    let packed = PackedMessage::from_vec(vec![5], 2);
    assert_eq!(packed.order, order);
    assert_eq!(&packed.nodes[..std::mem::size_of::<usize>()], &5usize.to_ne_bytes());
    assert_eq!(order_of([1, 0]), LOW);
    assert_eq!(order_of([0, 1]), HIGH);
}

#[test]
fn messages_of_the_other_order_are_read_back() {
    let message = ExchangeMessage { has_work: 1, nodes: vec![0x0102, 9] };
    let buffer = message.clone().into_bytes(HIGH);
    assert_eq!(&buffer[..12], &[0, 0, 0, 1, 0, 0, 0, 0, 0, 0, 1, 2]);
    assert_eq!(ExchangeMessage::from_bytes(buffer, HIGH).unwrap().nodes, message.nodes);
    let frontier = FrontierMessage(vec![7, 300]);
    assert_eq!(FrontierMessage::from_bytes(frontier.into_bytes(HIGH), HIGH).0, vec![7, 300]);
}
