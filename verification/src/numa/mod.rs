//! Which memory and which threads go to which NUMA node. What is decided here is
//! carried out by system calls elsewhere.

pub mod cpulist;
pub mod divided;
pub mod monolithic;
pub mod pages;

use vstd::prelude::*;
use vstd::string::StringExecFns;

use crate::graph::csr::Graph;
use crate::text::{decimal_of, push_decimal};

verus! {

/// The size of a page of memory.
pub const PAGE: usize = 4096;

/// A request to move memory, from the start of a page on, to a node.
#[derive(Clone, Copy, Debug, PartialEq, Eq, Structural)]
pub struct Binding {
    pub start: usize,
    pub bytes: usize,
    pub node: u32,
}

/// Where the arrays of a search lie in memory. The table of distances may not be there yet.
#[derive(Clone, Copy, Debug, PartialEq, Eq, Structural)]
pub struct Addresses {
    pub offsets: usize,
    pub edges: usize,
    pub distances: Option<usize>,
}

/// The number of bytes of an array of words.
pub open spec fn word_bytes(count: int) -> int {
    count * (usize::BITS / 8)
}

/// The request for `bytes` bytes at `address`: it begins with the page of the first byte, and
/// ends where the bytes end.
pub open spec fn bound_to(address: int, bytes: int, node: u32) -> Binding {
    Binding {
        start: (address - address % PAGE as int) as usize,
        bytes: (bytes + address % PAGE as int) as usize,
        node,
    }
}

/// The arrays of a search fit into memory at their addresses.
pub open spec fn laid_out(graph: &Graph, at: Addresses, num_distances: nat) -> bool {
    &&& at.offsets + word_bytes(graph.offsets@.len() as int) <= usize::MAX
    &&& at.edges + word_bytes(graph.edges@.len() as int) <= usize::MAX
    &&& at.distances is Some ==> at.distances->0 + word_bytes(num_distances as int) <= usize::MAX
}

/// A way to place the arrays of a search and its threads.
pub trait NumaPolicy {
    /// The policy can place such a graph.
    spec fn places(&self, graph: &Graph) -> bool;

    /// The requests that place the memory.
    spec fn memory_plan(&self, graph: &Graph, at: Addresses, num_distances: nat) -> Seq<Binding>;

    /// The node of a worker's thread, for its memory and for its processors.
    spec fn thread_node(&self, worker_id: u32) -> u32;

    /// Whether the policy can place such a graph.
    fn can_place(&self, graph: &Graph) -> (ok: bool)
        ensures
            ok == self.places(graph),
    ;

    /// The requests that place the memory of a graph and of a table of distances.
    fn apply_memory_policy(&self, graph: &Graph, at: Addresses, num_distances: usize) -> (plan: Vec<
        Binding,
    >)
        requires
            laid_out(graph, at, num_distances as nat),
            self.places(graph),
        ensures
            plan@ == self.memory_plan(graph, at, num_distances as nat),
    ;

    /// The node to which the thread of a worker is bound.
    fn apply_thread_policy(&self, worker_id: u32) -> (node: u32)
        ensures
            node == self.thread_node(worker_id),
    ;
}

/// A request for `count` words at `address`.
pub fn bind_words(address: usize, count: usize, node: u32) -> (binding: Binding)
    requires
        address + word_bytes(count as int) <= usize::MAX,
    ensures
        binding == bound_to(address as int, word_bytes(count as int), node),
{
    let word: usize = (usize::BITS / 8) as usize;
    assert(count * word <= usize::MAX) by (nonlinear_arith)
        requires
            address + count * (usize::BITS / 8) <= usize::MAX,
            word == usize::BITS / 8,
            address >= 0,
    ;
    bind_bytes(address, count * word, node)
}

/// A request for `bytes` bytes at `address`.
pub fn bind_bytes(address: usize, bytes: usize, node: u32) -> (binding: Binding)
    requires
        address + bytes <= usize::MAX,
    ensures
        binding == bound_to(address as int, bytes as int, node),
{
    let offset: usize = address % PAGE;
    Binding { start: address - offset, bytes: bytes + offset, node }
}

/// A request covers the bytes it is made for, begins with a page, and ends with the bytes.
pub proof fn binding_covers(address: int, bytes: int, node: u32)
    requires
        0 <= address,
        0 <= bytes,
        address + bytes <= usize::MAX,
    ensures
        bound_to(address, bytes, node).start as int % PAGE as int == 0,
        bound_to(address, bytes, node).start <= address < bound_to(address, bytes, node).start
            + PAGE,
        bound_to(address, bytes, node).start + bound_to(address, bytes, node).bytes == address
            + bytes,
{
}

/// The set of nodes with one node in it, as one bit.
pub fn node_mask(node: u32) -> (mask: u64)
    requires
        node < 64,
    ensures
        mask == 1u64 << node,
        forall|other: u32| other < 64 ==> (#[trigger] (mask & (1u64 << other)) != 0 <==> other
            == node),
{
    let mask: u64 = 1u64 << node;
    assert forall|other: u32| other < 64 implies (#[trigger] (mask & (1u64 << other)) != 0
        <==> other == node) by {
        assert((1u64 << node) & (1u64 << other) != 0 <==> other == node) by (bit_vector)
            requires
                node < 64,
                other < 64,
        ;
    }
    mask
}

/// The file that lists the processors of a node.
pub fn cpulist_path(node: usize) -> (path: String)
    ensures
        path@ == "/sys/devices/system/node/node"@ + decimal_of(node as nat) + "/cpulist"@,
{
    let mut path = String::from_str("/sys/devices/system/node/node");
    push_decimal(&mut path, node as u128);
    path.append("/cpulist");
    path
}

} // verus!
