//! Nodes are sent one by one, a flush marks the end of a sender's nodes, and a
//! sum over all workers decides whether the search goes on.

use vstd::prelude::*;

use super::{outgoing, owned_by};
use crate::frontier::{
    candidates, first_seen, lemma_filter_contains, lemma_filter_push, lemma_first_seen,
    lemma_first_seen_more,
};
use crate::graph::NeighborLists;
use crate::lockstep::{
    dealt, exchange_completes_level, expanded_from, joint_table, lemma_discovered_entry, lemma_met,
    level_complete, met, met_elsewhere, quiet_level_is_result, synchronized,
};
use crate::message::signal::BfsMessage;
use crate::model::{shortest_distances, UNVISITED};
use crate::partition::Partition;
use crate::worker::{lemma_marked_more, Worker};

verus! {

/// Each node, addressed to its owner.
pub open spec fn node_mail<P: Partition>(partition: P, nodes: Seq<usize>) -> Seq<
    (u32, BfsMessage),
> {
    Seq::new(
        nodes.len(),
        |i: int| (partition.owner_of(nodes[i]), BfsMessage::Node(nodes[i])),
    )
}

/// A flush to each of the first `t` workers but `sender`, in order.
pub open spec fn flush_mail(sender: u32, t: nat) -> Seq<(u32, BfsMessage)>
    decreases t,
{
    if t == 0 {
        Seq::empty()
    } else if t - 1 == sender {
        flush_mail(sender, (t - 1) as nat)
    } else {
        flush_mail(sender, (t - 1) as nat).push(((t - 1) as u32, BfsMessage::Flush))
    }
}

/// What a worker sends at a level, in order.
pub open spec fn outbox<P: Partition>(adj: Seq<Seq<usize>>, worker: Worker<P>) -> Seq<
    (u32, BfsMessage),
> {
    node_mail(worker.partition, outgoing(adj, worker)) + flush_mail(
        worker.worker_id,
        worker.partition.worker_total(),
    )
}

/// The messages of `mail` that bear the number `k`, be it that of the addressee or that of
/// the sender, in order.
pub open spec fn letters(mail: Seq<(u32, BfsMessage)>, k: u32) -> Seq<BfsMessage>
    decreases mail.len(),
{
    if mail.len() == 0 {
        Seq::empty()
    } else {
        let earlier = letters(mail.drop_last(), k);
        if mail.last().0 == k {
            earlier.push(mail.last().1)
        } else {
            earlier
        }
    }
}

/// The messages without the numbers.
pub open spec fn opened(mail: Seq<(u32, BfsMessage)>) -> Seq<BfsMessage> {
    Seq::new(mail.len(), |i: int| mail[i].1)
}

/// The nodes that messages carry, in order.
pub open spec fn nodes_in(messages: Seq<BfsMessage>) -> Seq<usize>
    decreases messages.len(),
{
    if messages.len() == 0 {
        Seq::empty()
    } else {
        let earlier = nodes_in(messages.drop_last());
        match messages.last() {
            BfsMessage::Node(v) => earlier.push(v),
            _ => earlier,
        }
    }
}

/// How many of the messages are flushes.
pub open spec fn flush_count(messages: Seq<BfsMessage>) -> nat
    decreases messages.len(),
{
    if messages.len() == 0 {
        0
    } else if messages.last() is Flush {
        flush_count(messages.drop_last()) + 1
    } else {
        flush_count(messages.drop_last())
    }
}

/// What taking messages in makes of a worker.
pub open spec fn took<P: Partition>(
    before: Worker<P>,
    messages: Seq<BfsMessage>,
    after: Worker<P>,
) -> bool {
    &&& after.well_formed()
    &&& after.discovered(before, before.fresh(nodes_in(messages)))
    &&& after.current_frontier@ == before.current_frontier@
}

/// The worker has an entry for every node that the messages carry.
pub open spec fn takes_in<P: Partition>(worker: Worker<P>, messages: Seq<BfsMessage>) -> bool {
    forall|i: int|
        0 <= i < nodes_in(messages).len() ==> worker.partition.holds(
            worker.worker_id,
            #[trigger] nodes_in(messages)[i],
        )
}

/// Expands the frontier and makes up what is to be sent: each node that belongs to another
/// worker, and then a flush to every other worker.
pub fn prepare<P: Partition, G: NeighborLists>(
    worker: &mut Worker<P>,
    graph: &G,
    num_threads: u32,
) -> (mail: Vec<(u32, BfsMessage)>)
    requires
        old(worker).well_formed(),
        old(worker).partition.worker_total() == num_threads,
        old(worker).current_level + 1 < UNVISITED,
        forall|i: int|
            0 <= i < old(worker).current_frontier@.len() ==> graph.readable(
                #[trigger] old(worker).current_frontier@[i],
            ),
        forall|v: usize| #[trigger]
            candidates(graph.rows(), old(worker).current_frontier@).contains(v)
                ==> old(worker).partition.places(v),
    ensures
        expanded_from(graph.rows(), *old(worker), *final(worker)),
        mail@ == outbox(graph.rows(), *old(worker)),
{
    let ghost before = *worker;
    let ghost adj = graph.rows();
    let (external, _discoveries) = worker.expand(graph);
    let mut mail: Vec<(u32, BfsMessage)> = Vec::new();
    let mut j: usize = 0;
    while j < external.len()
        invariant
            worker.well_formed(),
            worker.partition == before.partition,
            j <= external.len(),
            external@ == outgoing(adj, before),
            forall|v: usize| #[trigger]
                candidates(adj, before.current_frontier@).contains(v)
                    ==> before.partition.places(v),
            mail@ =~= node_mail(before.partition, external@.take(j as int)),
        decreases external.len() - j,
    {
        let v: usize = external[j];
        proof {
            lemma_filter_contains(
                candidates(adj, before.current_frontier@),
                |v: usize| !before.mine(v),
                v,
            );
            assert(external@.contains(external@[j as int]));
        }
        mail.push((worker.partition.owner(v), BfsMessage::Node(v)));
        j = j + 1;
    }
    assert(external@.take(external@.len() as int) =~= external@);
    let worker_id: u32 = worker.worker_id;
    let ghost sent = mail@;
    let mut other: u32 = 0;
    assert(sent + flush_mail(worker_id, 0) =~= sent);
    while other < num_threads
        invariant
            other <= num_threads,
            mail@ == sent + flush_mail(worker_id, other as nat),
        decreases num_threads - other,
    {
        let ghost earlier = flush_mail(worker_id, other as nat);
        if other != worker_id {
            mail.push((other, BfsMessage::Flush));
            assert(mail@ =~= sent + earlier.push((other, BfsMessage::Flush)));
        }
        other = other + 1;
    }
    mail
}

/// How far a worker is with receiving at a level.
pub struct Receiving {
    pub flushes_received: u32,
}

/// The worker that is heard next by one that hears all others in order.
pub open spec fn heard_next(worker_id: u32, flushes: int) -> int {
    if flushes < worker_id {
        flushes
    } else {
        flushes + 1
    }
}

/// So many flushes are those of all other workers.
pub open spec fn all_heard(flushes: u32, num_threads: u32) -> bool {
    flushes >= num_threads - 1
}

impl Receiving {
    /// Nothing has been received.
    pub fn new() -> (state: Self)
        ensures
            state.flushes_received == 0,
    {
        Receiving { flushes_received: 0 }
    }

    /// Whether every other worker has flushed.
    pub fn is_done(&self, num_threads: u32) -> (done: bool)
        requires
            num_threads > 0,
        ensures
            done == all_heard(self.flushes_received, num_threads),
            done == (self.flushes_received >= num_threads - 1),
    {
        self.flushes_received >= num_threads - 1
    }

    /// The worker to receive from, where the others are heard one after the other, each until
    /// it flushes. There is none when every other worker has flushed.
    pub fn awaited(&self, worker_id: u32, num_threads: u32) -> (sender: Option<u32>)
        requires
            worker_id < num_threads,
        ensures
            sender is None <==> all_heard(self.flushes_received, num_threads),
            sender is None <==> self.flushes_received >= num_threads - 1,
            sender is Some ==> sender->0 == heard_next(worker_id, self.flushes_received as int)
                && sender->0 < num_threads && sender->0 != worker_id,
    {
        if self.flushes_received >= num_threads - 1 {
            None
        } else if self.flushes_received < worker_id {
            Some(self.flushes_received)
        } else {
            Some(self.flushes_received + 1)
        }
    }

    /// Takes one message in. A node without a distance is discovered, a flush is counted.
    /// A work status is not expected here: it is refused, and nothing changes.
    pub fn take<P: Partition>(&mut self, worker: &mut Worker<P>, message: BfsMessage) -> (expected:
        bool)
        requires
            old(worker).well_formed(),
            old(worker).current_level + 1 < UNVISITED,
            message is Node ==> old(worker).partition.holds(
                old(worker).worker_id,
                message->Node_0,
            ),
            old(self).flushes_received < u32::MAX,
        ensures
            expected == !(message is WorkStatus),
            took(*old(worker), seq![message], *final(worker)),
            final(self).flushes_received == old(self).flushes_received + flush_count(
                seq![message],
            ),
    {
        proof {
            lemma_one_message(message);
        }
        match message {
            BfsMessage::Flush => {
                self.flushes_received = self.flushes_received + 1;
            },
            _ => {},
        }
        accept(worker, message)
    }
}

/// What a message alone brings.
pub proof fn lemma_one_message(message: BfsMessage)
    ensures
        nodes_in(seq![message]) == (match message {
            BfsMessage::Node(v) => seq![v],
            _ => Seq::empty(),
        }),
        flush_count(seq![message]) == (if message is Flush {
            1nat
        } else {
            0nat
        }),
{
    let one = seq![message];
    assert(one.drop_last() =~= Seq::<BfsMessage>::empty());
    assert(nodes_in(one.drop_last()) =~= Seq::<usize>::empty());
    assert(flush_count(one.drop_last()) == 0);
    assert(one.last() == message);
    assert(nodes_in(one) =~= (match message {
        BfsMessage::Node(v) => seq![v],
        _ => Seq::empty(),
    }));
}

/// Discovers the node that a message carries, if it carries one. Tells whether the message is
/// one that is expected while nodes are sent.
pub fn accept<P: Partition>(worker: &mut Worker<P>, message: BfsMessage) -> (expected: bool)
    requires
        old(worker).well_formed(),
        old(worker).current_level + 1 < UNVISITED,
        message is Node ==> old(worker).partition.holds(old(worker).worker_id, message->Node_0),
    ensures
        expected == !(message is WorkStatus),
        took(*old(worker), seq![message], *final(worker)),
{
    proof {
        lemma_one_message(message);
    }
    match message {
        BfsMessage::Node(v) => {
            let nodes = [v];
            assert(nodes@ =~= seq![v]);
            worker.absorb(nodes.as_slice());
            true
        },
        BfsMessage::Flush => {
            proof {
                worker.lemma_discovered_none(worker.fresh(nodes_in(seq![message])));
            }
            true
        },
        BfsMessage::WorkStatus(_) => {
            proof {
                worker.lemma_discovered_none(worker.fresh(nodes_in(seq![message])));
            }
            false
        },
    }
}

/// Hearing the others in order hears each of them once.
pub proof fn each_other_is_heard(worker_id: u32, num_threads: u32, k: u32)
    requires
        worker_id < num_threads,
        k < num_threads,
        k != worker_id,
    ensures
        exists|f: int|
            0 <= f < num_threads - 1 && #[trigger] heard_next(worker_id, f) == k && forall|g: int|
                #[trigger] heard_next(worker_id, g) == k ==> g == f,
{
    let f = if k < worker_id {
        k as int
    } else {
        k - 1
    };
    assert(heard_next(worker_id, f) == k);
}

/// The nodes and the flushes of messages that come one after the other.
pub proof fn lemma_more_messages(first: Seq<BfsMessage>, second: Seq<BfsMessage>)
    ensures
        nodes_in(first + second) == nodes_in(first) + nodes_in(second),
        flush_count(first + second) == flush_count(first) + flush_count(second),
    decreases second.len(),
{
    if second.len() == 0 {
        assert(first + second =~= first);
        assert(nodes_in(first) + nodes_in(second) =~= nodes_in(first));
    } else {
        lemma_more_messages(first, second.drop_last());
        assert((first + second).drop_last() =~= first + second.drop_last());
        assert((first + second).last() == second.last());
        assert(nodes_in(first + second) =~= nodes_in(first) + nodes_in(second));
    }
}

/// Taking messages in one by one, or in any pieces, comes to the same as taking them in at
/// once.
pub proof fn taking_composes<P: Partition>(
    start: Worker<P>,
    first: Seq<BfsMessage>,
    between: Worker<P>,
    second: Seq<BfsMessage>,
    end: Worker<P>,
)
    requires
        start.well_formed(),
        start.current_level + 1 < UNVISITED,
        takes_in(start, first),
        takes_in(start, second),
        took(start, first, between),
        took(between, second, end),
    ensures
        took(start, first + second, end),
{
    lemma_more_messages(first, second);
    let a = nodes_in(first);
    let b = nodes_in(second);
    let keep = |v: usize| start.entry(v) == UNVISITED;
    let keep_later = |v: usize| between.entry(v) == UNVISITED;
    let found = first_seen(a, keep);
    let d = (start.current_level + 1) as usize;
    lemma_first_seen(a, keep);
    assert forall|i: int| 0 <= i < b.len() implies #[trigger] keep_later(b[i]) == (keep(b[i])
        && !found.contains(b[i])) by {
        assert(start.partition.holds(start.worker_id, b[i]));
        lemma_discovered_entry(start, between, found, b[i]);
    }
    lemma_first_seen_more(a, b, keep, keep_later);
    let later = first_seen(b, keep_later);
    lemma_marked_more(start.partition, start.worker_id, start.distances@, found, later, d);
    assert(end.next_frontier@ =~= start.next_frontier@ + (found + later));
}

/// Which messages come in under the number `k`, and how many flushes.
pub proof fn lemma_letters_push(mail: Seq<(u32, BfsMessage)>, letter: (u32, BfsMessage), k: u32)
    ensures
        letters(mail.push(letter), k) == (if letter.0 == k {
            letters(mail, k).push(letter.1)
        } else {
            letters(mail, k)
        }),
{
    assert(mail.push(letter).drop_last() =~= mail);
    assert(mail.push(letter).last() == letter);
}

/// The letters of two batches of mail.
proof fn lemma_letters_more(first: Seq<(u32, BfsMessage)>, second: Seq<(u32, BfsMessage)>, k: u32)
    ensures
        letters(first + second, k) == letters(first, k) + letters(second, k),
    decreases second.len(),
{
    if second.len() == 0 {
        assert(first + second =~= first);
        assert(letters(first, k) + letters(second, k) =~= letters(first, k));
    } else {
        lemma_letters_more(first, second.drop_last(), k);
        assert((first + second).drop_last() =~= first + second.drop_last());
        assert(letters(first + second, k) =~= letters(first, k) + letters(second, k));
    }
}

/// The letters of the nodes for worker `k`: its nodes in order, and no flush.
proof fn lemma_node_letters<P: Partition>(partition: P, nodes: Seq<usize>, k: u32)
    ensures
        nodes_in(letters(node_mail(partition, nodes), k)) == nodes.filter(
            owned_by(partition, k as int),
        ),
        flush_count(letters(node_mail(partition, nodes), k)) == 0,
    decreases nodes.len(),
{
    reveal(Seq::filter);
    let mail = node_mail(partition, nodes);
    if nodes.len() > 0 {
        let rest = nodes.drop_last();
        lemma_node_letters(partition, rest, k);
        assert(mail.drop_last() =~= node_mail(partition, rest));
        let earlier = letters(node_mail(partition, rest), k);
        let v = nodes.last();
        lemma_filter_push(rest, v, owned_by(partition, k as int));
        assert(rest.push(v) =~= nodes);
        if partition.owner_of(v) == k {
            let now = earlier.push(BfsMessage::Node(v));
            assert(letters(mail, k) == now);
            assert(now.drop_last() =~= earlier);
        }
    }
}

/// The flush for worker `k`.
proof fn lemma_flush_letters(sender: u32, t: nat, k: u32)
    requires
        t <= u32::MAX + 1,
    ensures
        letters(flush_mail(sender, t), k) == (if k < t && k != sender {
            seq![BfsMessage::Flush]
        } else {
            Seq::empty()
        }),
    decreases t,
{
    if t > 0 {
        lemma_flush_letters(sender, (t - 1) as nat, k);
        if t - 1 != sender {
            lemma_letters_push(
                flush_mail(sender, (t - 1) as nat),
                ((t - 1) as u32, BfsMessage::Flush),
                k,
            );
            assert(Seq::<BfsMessage>::empty().push(BfsMessage::Flush) =~= seq![BfsMessage::Flush]);
        }
    }
}

/// What a worker sends to another: the nodes of that other worker in order, and one flush at
/// the end.
pub proof fn mail_ends_with_flush<P: Partition>(adj: Seq<Seq<usize>>, worker: Worker<P>, k: u32)
    requires
        k != worker.worker_id,
        k < worker.partition.worker_total() <= u32::MAX,
    ensures
        nodes_in(letters(outbox(adj, worker), k)) == outgoing(adj, worker).filter(
            owned_by(worker.partition, k as int),
        ),
        flush_count(letters(outbox(adj, worker), k)) == 1,
        letters(outbox(adj, worker), k).last() is Flush,
        letters(outbox(adj, worker), k).len() > 0,
{
    let nodes = node_mail(worker.partition, outgoing(adj, worker));
    let ends = flush_mail(worker.worker_id, worker.partition.worker_total());
    lemma_letters_more(nodes, ends, k);
    lemma_node_letters(worker.partition, outgoing(adj, worker), k);
    lemma_flush_letters(worker.worker_id, worker.partition.worker_total(), k);
    let one = seq![BfsMessage::Flush];
    assert(one.drop_last() =~= Seq::<BfsMessage>::empty());
    assert(flush_count(one.drop_last()) == 0);
    assert(nodes_in(one.drop_last()) =~= Seq::<usize>::empty());
    assert(one.last() is Flush);
    lemma_more_messages(letters(nodes, k), one);
    assert(nodes_in(letters(nodes, k)) + nodes_in(one) =~= nodes_in(letters(nodes, k)));
}

/// How many flushes came from the first `t` workers.
pub open spec fn flushes_from(mail: Seq<(u32, BfsMessage)>, t: nat) -> nat
    decreases t,
{
    if t == 0 {
        0
    } else {
        flushes_from(mail, (t - 1) as nat) + flush_count(letters(mail, (t - 1) as u32))
    }
}

/// One letter more adds its flush, if it is one, to the count of the workers it may be from.
proof fn lemma_flushes_push(mail: Seq<(u32, BfsMessage)>, letter: (u32, BfsMessage), t: nat)
    requires
        t <= u32::MAX + 1,
    ensures
        flushes_from(mail.push(letter), t) == flushes_from(mail, t) + (if letter.0 < t
            && letter.1 is Flush {
            1nat
        } else {
            0nat
        }),
    decreases t,
{
    if t > 0 {
        lemma_flushes_push(mail, letter, (t - 1) as nat);
        let k = (t - 1) as u32;
        lemma_letters_push(mail, letter, k);
        assert(letters(mail, k).push(letter.1).drop_last() =~= letters(mail, k));
    }
}

/// Every flush came from some worker.
pub proof fn lemma_flushes_total(mail: Seq<(u32, BfsMessage)>, t: nat)
    requires
        t <= u32::MAX,
        forall|i: int| 0 <= i < mail.len() ==> (#[trigger] mail[i]).0 < t,
    ensures
        flushes_from(mail, t) == flush_count(opened(mail)),
    decreases mail.len(),
{
    if mail.len() == 0 {
        lemma_no_flushes(t);
        assert(mail =~= Seq::empty());
    } else {
        let rest = mail.drop_last();
        assert forall|i: int| 0 <= i < rest.len() implies (#[trigger] rest[i]).0 < t by {
            assert(mail[i].0 < t);
        }
        lemma_flushes_total(rest, t);
        assert(mail =~= rest.push(mail.last()));
        assert(mail[mail.len() - 1].0 < t);
        lemma_flushes_push(rest, mail.last(), t);
        assert(opened(mail).drop_last() =~= opened(rest));
    }
}

/// Without mail there are no flushes.
proof fn lemma_no_flushes(t: nat)
    ensures
        flushes_from(Seq::empty(), t) == 0,
    decreases t,
{
    if t > 0 {
        lemma_no_flushes((t - 1) as nat);
    }
}

/// Where no worker flushes more than once and `w` not at all, a full count means one flush
/// from every other worker.
proof fn lemma_full_count(mail: Seq<(u32, BfsMessage)>, w: u32, t: nat, k: u32)
    requires
        t <= u32::MAX,
        k < t,
        k != w,
        forall|j: u32| j < t ==> #[trigger] flush_count(letters(mail, j)) <= 1,
        w < t ==> flush_count(letters(mail, w)) == 0,
        flushes_from(mail, t) >= (if w < t {
            t - 1
        } else {
            t as int
        }),
    ensures
        flush_count(letters(mail, k)) == 1,
        flushes_from(mail, t) == (if w < t {
            t - 1
        } else {
            t as int
        }),
    decreases t,
{
    let last = (t - 1) as u32;
    assert(flush_count(letters(mail, last)) <= 1);
    if t == 1 {
        assert(flushes_from(mail, 0) == 0);
    } else if k != last {
        lemma_full_count(mail, w, (t - 1) as nat, k);
    } else {
        let other: u32 = if w == 0 {
            1
        } else {
            0
        };
        if other < t - 1 {
            lemma_full_count(mail, w, (t - 1) as nat, other);
        } else {
            assert(t == 2 && w == 0);
            assert(flushes_from(mail, 1) == flushes_from(mail, 0) + flush_count(
                letters(mail, 0),
            ));
        }
    }
}

/// One flush from every worker but `w` makes a full count.
pub proof fn lemma_all_flushed(mail: Seq<(u32, BfsMessage)>, w: u32, t: nat)
    requires
        t <= u32::MAX,
        forall|k: u32| k < t && k != w ==> #[trigger] flush_count(letters(mail, k)) == 1,
    ensures
        flushes_from(mail, t) >= (if w < t {
            t - 1
        } else {
            t as int
        }),
    decreases t,
{
    if t > 0 {
        lemma_all_flushed(mail, w, (t - 1) as nat);
        let last = (t - 1) as u32;
        if last != w {
            assert(flush_count(letters(mail, last)) == 1);
        }
    }
}

/// A beginning of messages has no more flushes than the whole, and none before the last
/// message where that is the only flush.
proof fn lemma_prefix_flushes(part: Seq<BfsMessage>, whole: Seq<BfsMessage>)
    requires
        part.is_prefix_of(whole),
    ensures
        flush_count(part) <= flush_count(whole),
        flush_count(whole) == 1 && whole.last() is Flush && flush_count(part) == 1 ==> part == whole,
    decreases whole.len(),
{
    if part.len() == whole.len() {
        assert(part =~= whole);
    } else {
        assert(part.is_prefix_of(whole.drop_last()));
        lemma_prefix_flushes(part, whole.drop_last());
    }
}

/// What a worker has received when every other worker has flushed: mail from the others, of
/// each the beginning of what it sent, and as many flushes as there are others.
pub open spec fn received<P: Partition>(
    adj: Seq<Seq<usize>>,
    before: Seq<Worker<P>>,
    w: u32,
    arrivals: Seq<(u32, BfsMessage)>,
) -> bool {
    &&& forall|i: int|
        0 <= i < arrivals.len() ==> (#[trigger] arrivals[i]).0 < before.len() && arrivals[i].0 != w
    &&& forall|k: u32|
        k < before.len() && k != w ==> (#[trigger] letters(arrivals, k)).is_prefix_of(
            letters(outbox(adj, before[k as int]), w),
        )
    &&& flush_count(opened(arrivals)) >= before.len() - 1
}

/// No letters under a number that no letter bears.
pub proof fn lemma_no_letters(mail: Seq<(u32, BfsMessage)>, k: u32)
    requires
        forall|i: int| 0 <= i < mail.len() ==> (#[trigger] mail[i]).0 != k,
    ensures
        letters(mail, k) == Seq::<BfsMessage>::empty(),
    decreases mail.len(),
{
    if mail.len() > 0 {
        let rest = mail.drop_last();
        assert forall|i: int| 0 <= i < rest.len() implies (#[trigger] rest[i]).0 != k by {
            assert(mail[i].0 != k);
        }
        lemma_no_letters(rest, k);
        assert(mail[mail.len() - 1].0 != k);
    }
}

/// When every other worker has flushed, all that they sent is there, in whatever order the
/// senders took turns.
pub proof fn flushed_is_complete<P: Partition>(
    adj: Seq<Seq<usize>>,
    partition: P,
    before: Seq<Worker<P>>,
    w: u32,
    arrivals: Seq<(u32, BfsMessage)>,
    k: u32,
)
    requires
        before.len() == partition.worker_total() <= u32::MAX,
        forall|j: int|
            0 <= j < before.len() ==> (#[trigger] before[j]).partition == partition
                && before[j].worker_id == j,
        w < before.len(),
        received(adj, before, w, arrivals),
        k < before.len(),
        k != w,
    ensures
        letters(arrivals, k) == letters(outbox(adj, before[k as int]), w),
{
    let t = before.len();
    lemma_flushes_total(arrivals, t);
    assert forall|j: u32| j < t implies #[trigger] flush_count(letters(arrivals, j)) <= 1 by {
        if j == w {
            lemma_no_letters(arrivals, w);
        } else {
            assert(before[j as int].worker_id == j);
            mail_ends_with_flush(adj, before[j as int], w);
            lemma_prefix_flushes(letters(arrivals, j), letters(outbox(adj, before[j as int]), w));
        }
    }
    lemma_no_letters(arrivals, w);
    lemma_full_count(arrivals, w, t, k);
    assert(before[k as int].worker_id == k);
    mail_ends_with_flush(adj, before[k as int], w);
    lemma_prefix_flushes(letters(arrivals, k), letters(outbox(adj, before[k as int]), w));
}

/// A node is in the mail where some worker's letters carry it.
proof fn lemma_nodes_by_sender(mail: Seq<(u32, BfsMessage)>, v: usize)
    ensures
        nodes_in(opened(mail)).contains(v) <==> exists|k: u32| #[trigger]
            nodes_in(letters(mail, k)).contains(v),
    decreases mail.len(),
{
    if mail.len() == 0 {
        assert forall|k: u32| !#[trigger] nodes_in(letters(mail, k)).contains(v) by {}
    } else {
        let rest = mail.drop_last();
        let letter = mail.last();
        lemma_nodes_by_sender(rest, v);
        assert(mail =~= rest.push(letter));
        assert(opened(mail).drop_last() =~= opened(rest));
        let earlier = nodes_in(opened(rest));
        if nodes_in(opened(rest)).contains(v) {
            let k = choose|k: u32| #[trigger] nodes_in(letters(rest, k)).contains(v);
            lemma_letters_push(rest, letter, k);
            lemma_nodes_push(letters(rest, k), letter.1, v);
            assert(nodes_in(letters(mail, k)).contains(v));
        }
        lemma_nodes_push(opened(rest), letter.1, v);
        assert(opened(mail) =~= opened(rest).push(letter.1));
        lemma_letters_push(rest, letter, letter.0);
        lemma_nodes_push(letters(rest, letter.0), letter.1, v);
        if letter.1 == BfsMessage::Node(v) {
            assert(nodes_in(letters(mail, letter.0)).contains(v));
        }
        if exists|k: u32| #[trigger] nodes_in(letters(mail, k)).contains(v) {
            let k = choose|k: u32| #[trigger] nodes_in(letters(mail, k)).contains(v);
            lemma_letters_push(rest, letter, k);
            lemma_nodes_push(letters(rest, k), letter.1, v);
        }
    }
}

/// One message more adds its node, if it carries one.
proof fn lemma_nodes_push(messages: Seq<BfsMessage>, message: BfsMessage, v: usize)
    ensures
        nodes_in(messages.push(message)).contains(v) <==> nodes_in(messages).contains(v) || message
            == BfsMessage::Node(v),
{
    assert(messages.push(message).drop_last() =~= messages);
    let earlier = nodes_in(messages);
    match message {
        BfsMessage::Node(u) => {
            if earlier.push(u).contains(v) {
                let i = choose|i: int| 0 <= i <= earlier.len() && earlier.push(u)[i] == v;
                if i < earlier.len() {
                    assert(earlier[i] == v);
                }
            }
            if earlier.contains(v) {
                let i = choose|i: int| 0 <= i < earlier.len() && earlier[i] == v;
                assert(earlier.push(u)[i] == v);
            }
            assert(earlier.push(u)[earlier.len() as int] == u);
        },
        _ => {},
    }
}

/// One level of all workers: each expanded its frontier and sent its mail, and took in what
/// the others sent until each of them had flushed.
pub open spec fn signalled_level<P: Partition>(
    adj: Seq<Seq<usize>>,
    before: Seq<Worker<P>>,
    expanded: Seq<Worker<P>>,
    arrivals: Seq<Seq<(u32, BfsMessage)>>,
    after: Seq<Worker<P>>,
) -> bool {
    &&& before.len() == expanded.len() == arrivals.len() == after.len()
    &&& forall|w: int|
        0 <= w < before.len() ==> {
            &&& expanded_from(adj, before[w], expanded[w])
            &&& received(adj, before, w as u32, arrivals[w])
            &&& took(expanded[w], opened(arrivals[w]), #[trigger] after[w])
        }
}

/// Sending nodes one by one until a flush finishes a level, in whatever order the messages of
/// different senders arrive.
pub proof fn signals_finish_level<P: Partition>(
    adj: Seq<Seq<usize>>,
    s: usize,
    partition: P,
    before: Seq<Worker<P>>,
    expanded: Seq<Worker<P>>,
    arrivals: Seq<Seq<(u32, BfsMessage)>>,
    after: Seq<Worker<P>>,
    level: nat,
)
    requires
        dealt(adj, s, partition),
        synchronized(adj, s, partition, before, level),
        partition.worker_total() <= u32::MAX,
        signalled_level(adj, before, expanded, arrivals, after),
        level + 1 < UNVISITED,
    ensures
        level_complete(adj, partition, before, after, level),
{
    let taken = Seq::new(
        before.len(),
        |w: int| expanded[w].fresh(nodes_in(opened(arrivals[w]))),
    );
    assert forall|w: int, v: usize| 0 <= w < after.len() implies (#[trigger] taken[w].contains(v)
        <==> partition.owner_of(v) == w && expanded[w].entry(v) == UNVISITED && met_elsewhere(
        adj,
        before,
        w,
        v,
    )) by {
        assert(took(expanded[w], opened(arrivals[w]), after[w]));
        assert(before[w].well_formed());
        let came = nodes_in(opened(arrivals[w]));
        lemma_first_seen(came, |v: usize| expanded[w].entry(v) == UNVISITED);
        lemma_nodes_by_sender(arrivals[w], v);
        if came.contains(v) {
            let k = choose|k: u32| #[trigger] nodes_in(letters(arrivals[w], k)).contains(v);
            if k >= before.len() || k == w {
                lemma_no_letters(arrivals[w], k);
            } else {
                lemma_from_one(adj, partition, before, w as u32, arrivals[w], k, v);
                assert(candidates(adj, before[k as int].current_frontier@).contains(v));
            }
        }
        if partition.owner_of(v) == w && met_elsewhere(adj, before, w, v) {
            let k = choose|k: int|
                0 <= k < before.len() && k != w && #[trigger] candidates(
                    adj,
                    before[k].current_frontier@,
                ).contains(v);
            lemma_from_one(adj, partition, before, w as u32, arrivals[w], k as u32, v);
            assert(nodes_in(letters(arrivals[w], k as u32)).contains(v));
        }
    }
    assert forall|w: int, v: usize| 0 <= w < after.len() && #[trigger] taken[w].contains(v) implies met(
        adj,
        before,
        v,
    ) by {
        let k = choose|k: int|
            0 <= k < before.len() && k != w && #[trigger] candidates(
                adj,
                before[k].current_frontier@,
            ).contains(v);
        assert(candidates(adj, before[k].current_frontier@).contains(v));
    }
    assert forall|w: int| 0 <= w < after.len() implies {
        &&& (#[trigger] after[w]).well_formed()
        &&& expanded_from(adj, before[w], expanded[w])
        &&& after[w].discovered(expanded[w], taken[w])
        &&& after[w].current_frontier@ == expanded[w].current_frontier@
    } by {
        assert(took(expanded[w], opened(arrivals[w]), after[w]));
    }
    exchange_completes_level(adj, s, partition, before, expanded, after, taken, level);
}

/// Worker `k` sends `w` the nodes of `w` that its frontier leads to.
proof fn lemma_from_one<P: Partition>(
    adj: Seq<Seq<usize>>,
    partition: P,
    before: Seq<Worker<P>>,
    w: u32,
    arrivals: Seq<(u32, BfsMessage)>,
    k: u32,
    v: usize,
)
    requires
        before.len() == partition.worker_total() <= u32::MAX,
        forall|j: int|
            0 <= j < before.len() ==> (#[trigger] before[j]).well_formed() && before[j].partition
                == partition && before[j].worker_id == j,
        w < before.len(),
        received(adj, before, w, arrivals),
        k < before.len(),
        k != w,
    ensures
        nodes_in(letters(arrivals, k)).contains(v) <==> partition.owner_of(v) == w && candidates(
            adj,
            before[k as int].current_frontier@,
        ).contains(v),
{
    flushed_is_complete(adj, partition, before, w, arrivals, k);
    let sender = before[k as int];
    assert(sender.well_formed());
    mail_ends_with_flush(adj, sender, w);
    lemma_filter_contains(outgoing(adj, sender), owned_by(partition, w as int), v);
    lemma_filter_contains(
        candidates(adj, sender.current_frontier@),
        |v: usize| !sender.mine(v),
        v,
    );
}

/// A worker's mark for the decision: one where it has a next frontier, and zero where not.
pub open spec fn work_mark<P: Partition>(worker: Worker<P>) -> nat {
    if worker.next_frontier@.len() == 0 {
        0
    } else {
        1
    }
}

/// The sum of marks.
pub open spec fn work_total(marks: Seq<nat>) -> nat
    decreases marks.len(),
{
    if marks.len() == 0 {
        0
    } else {
        work_total(marks.drop_last()) + marks.last()
    }
}

/// The marks of all workers.
pub open spec fn work_marks<P: Partition>(workers: Seq<Worker<P>>) -> Seq<nat> {
    Seq::new(workers.len(), |w: int| work_mark(workers[w]))
}

/// What a worker contributes to the decision whether the search goes on.
pub fn work_status<P: Partition>(worker: &Worker<P>) -> (status: BfsMessage)
    ensures
        status is WorkStatus,
        status->WorkStatus_0 == work_mark(*worker),
{
    let has_work: u32 = if worker.next_frontier.len() == 0 {
        0
    } else {
        1
    };
    BfsMessage::WorkStatus(has_work)
}

/// Whether a message ends the search, where it decides that.
pub open spec fn ending(status: BfsMessage) -> Option<bool> {
    match status {
        BfsMessage::WorkStatus(work) => Some(work == 0),
        _ => None,
    }
}

/// The message that tells a decision.
pub open spec fn decided(terminate: bool) -> BfsMessage {
    BfsMessage::WorkStatus(
        if terminate {
            0
        } else {
            1
        },
    )
}

/// Whether a work status ends the search: no worker has work. Another message decides nothing.
pub fn ends_search(status: BfsMessage) -> (ends: Option<bool>)
    ensures
        ends == ending(status),
        ends is Some <==> status is WorkStatus,
        ends is Some ==> ends->0 == (status->WorkStatus_0 == 0),
{
    match status {
        BfsMessage::WorkStatus(work) => Some(work == 0),
        _ => None,
    }
}

/// What the root worker tells the others of its decision.
pub fn decision(terminate: bool) -> (signal: BfsMessage)
    ensures
        signal == decided(terminate),
        signal == BfsMessage::WorkStatus(if terminate {
            0
        } else {
            1
        }),
{
    BfsMessage::WorkStatus(
        if terminate {
            0
        } else {
            1
        },
    )
}

/// The sum of the marks that workers have put down.
pub fn total_work(marks: &[usize]) -> (total: usize)
    requires
        forall|i: int| 0 <= i < marks@.len() ==> #[trigger] marks@[i] <= 1,
    ensures
        total == work_total(marks@.map_values(|m: usize| m as nat)),
{
    let ghost all = marks@.map_values(|m: usize| m as nat);
    let mut total: usize = 0;
    let mut i: usize = 0;
    assert(all.take(0) =~= Seq::<nat>::empty());
    while i < marks.len()
        invariant
            i <= marks.len(),
            forall|k: int| 0 <= k < marks@.len() ==> #[trigger] marks@[k] <= 1,
            all == marks@.map_values(|m: usize| m as nat),
            total == work_total(all.take(i as int)),
            total <= i,
        decreases marks.len() - i,
    {
        proof {
            assert(all.take(i + 1).drop_last() =~= all.take(i as int));
            assert(marks@[i as int] <= 1);
        }
        total = total + marks[i];
        i = i + 1;
    }
    assert(all.take(all.len() as int) =~= all);
    total
}

/// Marks may be summed in any grouping.
pub proof fn work_adds_up(first: Seq<nat>, second: Seq<nat>)
    ensures
        work_total(first + second) == work_total(first) + work_total(second),
    decreases second.len(),
{
    if second.len() == 0 {
        assert(first + second =~= first);
    } else {
        work_adds_up(first, second.drop_last());
        assert((first + second).drop_last() =~= first + second.drop_last());
    }
}

/// The sum is zero where all marks are, and no larger than the number of workers, so that it
/// fits a work status.
pub proof fn no_work_is_zero<P: Partition>(workers: Seq<Worker<P>>)
    ensures
        work_total(work_marks(workers)) == 0 <==> forall|w: int|
            0 <= w < workers.len() ==> (#[trigger] workers[w]).next_frontier@.len() == 0,
        work_total(work_marks(workers)) <= workers.len(),
    decreases workers.len(),
{
    if workers.len() > 0 {
        let rest = workers.drop_last();
        no_work_is_zero(rest);
        assert(work_marks(workers).drop_last() =~= work_marks(rest));
        if work_total(work_marks(workers)) == 0 {
            assert forall|w: int| 0 <= w < workers.len() implies (
            #[trigger] workers[w]).next_frontier@.len() == 0 by {
                if w < rest.len() {
                    assert(rest[w].next_frontier@.len() == 0);
                }
            }
        }
        if forall|w: int| 0 <= w < workers.len() ==> (#[trigger] workers[w]).next_frontier@.len() == 0 {
            assert forall|w: int| 0 <= w < rest.len() implies (
            #[trigger] rest[w]).next_frontier@.len() == 0 by {
                assert(workers[w].next_frontier@.len() == 0);
            }
            assert(workers[workers.len() - 1].next_frontier@.len() == 0);
        }
    }
}

/// When the sum of the marks is zero, the tables together are the breadth-first search
/// result.
pub proof fn signals_result<P: Partition>(
    adj: Seq<Seq<usize>>,
    s: usize,
    partition: P,
    before: Seq<Worker<P>>,
    expanded: Seq<Worker<P>>,
    arrivals: Seq<Seq<(u32, BfsMessage)>>,
    after: Seq<Worker<P>>,
    level: nat,
)
    requires
        adj.len() <= usize::MAX,
        dealt(adj, s, partition),
        synchronized(adj, s, partition, before, level),
        partition.worker_total() <= u32::MAX,
        signalled_level(adj, before, expanded, arrivals, after),
        work_total(work_marks(after)) == 0,
        level + 1 < UNVISITED,
    ensures
        shortest_distances(adj, s, joint_table(partition, after)),
{
    signals_finish_level(adj, s, partition, before, expanded, arrivals, after, level);
    no_work_is_zero(after);
    quiet_level_is_result(adj, s, partition, before, after, level);
}

/// What a worker takes in are nodes that it has entries for.
pub proof fn arrivals_are_held<P: Partition>(
    adj: Seq<Seq<usize>>,
    s: usize,
    partition: P,
    before: Seq<Worker<P>>,
    w: u32,
    arrivals: Seq<(u32, BfsMessage)>,
    level: nat,
)
    requires
        dealt(adj, s, partition),
        synchronized(adj, s, partition, before, level),
        level < UNVISITED,
        partition.worker_total() <= u32::MAX,
        w < before.len(),
        received(adj, before, w, arrivals),
    ensures
        takes_in(before[w as int], opened(arrivals)),
{
    let came = nodes_in(opened(arrivals));
    assert forall|i: int| 0 <= i < came.len() implies partition.holds(w, #[trigger] came[i]) by {
        let v = came[i];
        assert(came.contains(v));
        lemma_nodes_by_sender(arrivals, v);
        let k = choose|k: u32| #[trigger] nodes_in(letters(arrivals, k)).contains(v);
        if k >= before.len() || k == w {
            lemma_no_letters(arrivals, k);
        } else {
            lemma_from_one(adj, partition, before, w, arrivals, k, v);
            assert(candidates(adj, before[k as int].current_frontier@).contains(v));
            assert(met(adj, before, v));
            lemma_met(adj, s, partition, before, level, v);
            partition.owner_holds(v);
        }
    }
    assert(before[w as int].worker_id == w);
}


/// A worker's mail is a letter for each outgoing node, to its owner and in order, and then a
/// flush for each other worker, in the order of their numbers.
pub proof fn mail_is_nodes_and_flushes<P: Partition>(
    adj: Seq<Seq<usize>>,
    worker: Worker<P>,
    i: int,
)
    requires
        worker.worker_id < worker.partition.worker_total() <= u32::MAX,
        0 <= i,
    ensures
        outbox(adj, worker).len() == outgoing(adj, worker).len() + worker.partition.worker_total()
            - 1,
        i < outgoing(adj, worker).len() ==> outbox(adj, worker)[i] == (
            worker.partition.owner_of(outgoing(adj, worker)[i]),
            BfsMessage::Node(outgoing(adj, worker)[i]),
        ),
        i < worker.worker_id ==> outbox(adj, worker)[outgoing(adj, worker).len() + i] == (
            i as u32,
            BfsMessage::Flush,
        ),
        worker.worker_id < i < worker.partition.worker_total() ==> outbox(
            adj,
            worker,
        )[outgoing(adj, worker).len() + i - 1] == (i as u32, BfsMessage::Flush),
{
    lemma_flushes_stand(worker.worker_id, worker.partition.worker_total(), i);
}

/// Where the flush to a worker stands.
proof fn lemma_flushes_stand(sender: u32, t: nat, i: int)
    requires
        t <= u32::MAX,
        0 <= i,
    ensures
        flush_mail(sender, t).len() == (if sender < t {
            t - 1
        } else {
            t as int
        }),
        i < t && i < sender ==> flush_mail(sender, t)[i] == (i as u32, BfsMessage::Flush),
        sender < i < t ==> flush_mail(sender, t)[i - 1] == (i as u32, BfsMessage::Flush),
    decreases t,
{
    if t > 0 {
        lemma_flushes_stand(sender, (t - 1) as nat, i);
    }
}

/// Marks add up: the sum of no marks is zero, that of one is the mark, and that of more is the
/// sum of both parts. Of workers, as many add to it as have a next frontier.
pub proof fn marks_count_workers<P: Partition>(workers: Seq<Worker<P>>, more: Worker<P>)
    ensures
        work_total(work_marks(Seq::<Worker<P>>::empty())) == 0,
        work_total(work_marks(workers.push(more))) == work_total(work_marks(workers)) + (
        if more.next_frontier@.len() > 0 {
            1nat
        } else {
            0
        }),
{
    assert(work_marks(workers.push(more)).drop_last() =~= work_marks(workers));
}


/// What the root worker decides is what the others do: they end where it says so, and go on where
/// not. It ends the search on the sum of all marks exactly where no worker has a next frontier,
/// and on the mark of one worker where that one has none.
pub proof fn decision_is_followed<P: Partition>(
    terminate: bool,
    workers: Seq<Worker<P>>,
    total: u32,
    status: BfsMessage,
)
    requires
        total == work_total(work_marks(workers)),
    ensures
        ending(decided(terminate)) == Some(terminate),
        ending(BfsMessage::WorkStatus(total)) == Some(
            forall|w: int|
                0 <= w < workers.len() ==> (#[trigger] workers[w]).next_frontier@.len() == 0,
        ),
        ending(status) is None <==> status is Node || status is Flush,
{
    lemma_no_mark(workers);
}

/// No marks are put down exactly where no worker has a next frontier.
proof fn lemma_no_mark<P: Partition>(workers: Seq<Worker<P>>)
    ensures
        work_total(work_marks(workers)) == 0 <==> forall|w: int|
            0 <= w < workers.len() ==> (#[trigger] workers[w]).next_frontier@.len() == 0,
    decreases workers.len(),
{
    if workers.len() > 0 {
        let rest = workers.drop_last();
        let last = workers.last();
        lemma_no_mark(rest);
        marks_count_workers(rest, last);
        assert(rest.push(last) =~= workers);
        assert(workers[workers.len() - 1] == last);
        assert(forall|w: int| 0 <= w < rest.len() ==> #[trigger] rest[w] == workers[w]);
        if work_total(work_marks(workers)) == 0 {
            assert forall|w: int| 0 <= w < workers.len() implies (
            #[trigger] workers[w]).next_frontier@.len() == 0 by {
                if w < rest.len() {
                    assert(rest[w].next_frontier@.len() == 0);
                }
            }
        }
    }
}

/// Worker `k` is among those that were heard up to so many flushes.
pub open spec fn was_heard(worker_id: u32, flushes: u32, k: int) -> bool {
    exists|f: int| 0 <= f < flushes && #[trigger] heard_next(worker_id, f) == k
}

/// All have been heard exactly where each other worker has been heard once: none of them is
/// passed over.
pub proof fn all_are_heard(worker_id: u32, num_threads: u32, flushes: u32)
    requires
        worker_id < num_threads,
    ensures
        all_heard(flushes, num_threads) <==> forall|k: int|
            0 <= k < num_threads && k != worker_id ==> #[trigger] was_heard(worker_id, flushes, k),
        !was_heard(worker_id, flushes, worker_id as int),
{
    if all_heard(flushes, num_threads) {
        assert forall|k: int| 0 <= k < num_threads && k != worker_id implies #[trigger] was_heard(
            worker_id,
            flushes,
            k,
        ) by {
            let f = if k < worker_id {
                k
            } else {
                k - 1
            };
            assert(heard_next(worker_id, f) == k);
        }
    } else {
        let k = heard_next(worker_id, flushes as int);
        assert(0 <= k < num_threads && k != worker_id);
        assert(!was_heard(worker_id, flushes, k));
    }
}

} // verus!
