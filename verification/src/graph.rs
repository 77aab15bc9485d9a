use vstd::prelude::*;
use vstd::pervasive::unreached;

use crate::node::{DescriptorView, Node, NodeDescriptor};
use crate::sample::Sample;

verus! {

/// A stable, opaque handle to a node within one graph.
///
/// Handles are generational: a slot index paired with the generation the
/// slot had when the node was inserted. Removing a node retires its
/// generation, so the key of a removed node can never silently alias a node
/// inserted later into the same slot — a stale key is simply no longer live.
#[derive(Clone, Copy, PartialEq, Eq, Structural, Debug, Hash)]
pub struct NodeKey {
    pub idx: usize,
    pub gen: u64,
}

/// Which side of a node a socket sits on.
#[derive(Clone, Copy, PartialEq, Eq, Structural, Debug, Hash)]
pub enum SocketDirection {
    Input,
    Output,
}

/// A directed edge from a source node's output socket to a destination
/// node's input socket. Each endpoint is a `(node, socket index)` pair;
/// each destination socket has at most one incoming wire.
#[derive(Clone, Copy, PartialEq, Eq, Debug)]
pub struct Wire {
    pub dst: (NodeKey, usize),
    pub src: (NodeKey, usize),
}

/// A structural graph error, reported eagerly instead of corrupting the
/// graph invariants.
#[derive(Clone, Copy, PartialEq, Eq, Structural, Debug)]
pub enum GraphError {
    /// The key names no live node of this graph.
    InvalidKey,
    /// The socket index is out of range for the node's cached descriptor.
    InvalidSocket,
}

struct Entry<N> {
    node: N,
    descriptor: NodeDescriptor,
}

struct Slot<N> {
    gen: u64,
    entry: Option<Entry<N>>,
}

/// Authoritative storage of nodes, their cached descriptors and the wiring
/// between them. Every mutation keeps the graph invariants:
///
/// - a descriptor is cached for a node exactly as long as the node is live
///   (they are stored together);
/// - every wire's source and destination nodes are live;
/// - every wire's source index is a valid output-socket index of its source
///   node's descriptor, and its destination index a valid input-socket
///   index of its destination node's descriptor;
/// - each destination socket has at most one incoming wire;
/// - removing a node removes every wire touching it, atomically with the
///   removal.
pub struct NodeGraph<N> {
    slots: Vec<Slot<N>>,
    wires: Vec<Wire>,
}

/// What `src_for_dest` yields at destination `dst` after the node `removed`
/// and every wire touching it have been dropped from a graph whose prior
/// answer at `dst` was `prior`.
pub open spec fn src_after_removal(
    prior: Option<(NodeKey, usize)>,
    dst: (NodeKey, usize),
    removed: NodeKey,
) -> Option<(NodeKey, usize)> {
    match prior {
        Some(s) => if dst.0 == removed || s.0 == removed {
            None
        } else {
            Some(s)
        },
        None => None,
    }
}

impl<N> NodeGraph<N> {
    /// How many slots the underlying arena holds, live or free.
    pub closed spec fn slot_count(&self) -> int {
        self.slots@.len() as int
    }

    /// Whether slot `i` currently holds a node.
    pub closed spec fn live_at(&self, i: int) -> bool {
        0 <= i < self.slots@.len() && self.slots@[i].entry is Some
    }

    /// The key of the node in slot `i`.
    pub closed spec fn key_at(&self, i: int) -> NodeKey {
        NodeKey { idx: i as usize, gen: self.slots@[i].gen }
    }

    /// Whether `k` names a node currently in the graph.
    pub closed spec fn live(&self, k: NodeKey) -> bool {
        &&& (k.idx as int) < self.slots@.len()
        &&& self.slots@[k.idx as int].gen == k.gen
        &&& self.slots@[k.idx as int].entry is Some
    }

    /// Whether `k` is a stale key: its slot has moved past its generation,
    /// so no node this key could name can ever be live again.
    pub closed spec fn retired(&self, k: NodeKey) -> bool {
        (k.idx as int) < self.slots@.len() && self.slots@[k.idx as int].gen > k.gen
    }

    /// The node value behind a live key.
    pub closed spec fn node_of(&self, k: NodeKey) -> N {
        self.slots@[k.idx as int].entry->Some_0.node
    }

    /// The descriptor cached for a live key when its node was added.
    pub closed spec fn descriptor_of(&self, k: NodeKey) -> DescriptorView {
        self.slots@[k.idx as int].entry->Some_0.descriptor@
    }

    /// The stored wires, keyed by destination.
    pub closed spec fn wire_list(&self) -> Seq<Wire> {
        self.wires@
    }

    /// Whether a wire has live endpoints and in-range socket indices.
    pub open spec fn wire_ok(&self, w: Wire) -> bool {
        &&& self.live(w.dst.0)
        &&& self.live(w.src.0)
        &&& (w.dst.1 as int) < self.descriptor_of(w.dst.0).input_sockets.len()
        &&& (w.src.1 as int) < self.descriptor_of(w.src.0).output_sockets.len()
    }

    /// All stored wires have live endpoints and in-range socket indices.
    pub open spec fn all_wires_ok(&self) -> bool {
        forall|i: int| 0 <= i < self.wire_list().len() ==> self.wire_ok(#[trigger] self.wire_list()[i])
    }

    /// No two stored wires share a destination socket.
    pub open spec fn wires_unique(&self) -> bool {
        forall|i: int, j: int|
            0 <= i < j < self.wire_list().len() ==> (#[trigger] self.wire_list()[i]).dst != (
            #[trigger] self.wire_list()[j]).dst
    }

    /// The graph invariants: wires are valid and destination-unique, and
    /// every occupied slot has room to retire its generation on removal.
    pub closed spec fn wf(&self) -> bool {
        &&& self.all_wires_ok()
        &&& self.wires_unique()
        &&& forall|i: int|
            0 <= i < self.slots@.len() && (#[trigger] self.slots@[i]).entry is Some
                ==> self.slots@[i].gen < u64::MAX
    }

    /// Whether some wire ends at destination socket `dst`.
    pub closed spec fn has_wire(&self, dst: (NodeKey, usize)) -> bool {
        exists|i: int| 0 <= i < self.wires@.len() && (#[trigger] self.wires@[i]).dst == dst
    }

    /// The source endpoint wired into destination socket `dst`, if any.
    pub closed spec fn src_for(&self, dst: (NodeKey, usize)) -> Option<(NodeKey, usize)> {
        if self.has_wire(dst) {
            let i = choose|i: int|
                0 <= i < self.wires@.len() && (#[trigger] self.wires@[i]).dst == dst;
            Some(self.wires@[i].src)
        } else {
            None
        }
    }

    /// With destination-unique wires, the stored wire at position `i` is
    /// exactly what `src_for` answers for its destination.
    proof fn lemma_src_at(&self, i: int)
        requires
            self.wires_unique(),
            0 <= i < self.wire_list().len(),
        ensures
            self.src_for(self.wire_list()[i].dst) == Some(self.wire_list()[i].src),
    {
        let dst = self.wires@[i].dst;
        assert(self.has_wire(dst));
        let j = choose|j: int| 0 <= j < self.wires@.len() && (#[trigger] self.wires@[j]).dst == dst;
        if i < j {
            assert(self.wire_list()[i].dst != self.wire_list()[j].dst);
        } else if j < i {
            assert(self.wire_list()[j].dst != self.wire_list()[i].dst);
        }
    }

    /// A stale key is never live.
    pub proof fn lemma_retired_not_live(&self, k: NodeKey)
        ensures
            self.retired(k) ==> !self.live(k),
    {
    }

    /// Two live keys that share a slot are the same key.
    pub proof fn lemma_live_same_slot(&self, k1: NodeKey, k2: NodeKey)
        requires
            self.live(k1),
            self.live(k2),
            k1.idx == k2.idx,
        ensures
            k1 == k2,
    {
    }

    /// A live key names a slot of the arena, and is the key of that slot.
    pub proof fn lemma_live_at(&self, k: NodeKey)
        requires
            self.live(k),
        ensures
            0 <= (k.idx as int) < self.slot_count(),
            self.live_at(k.idx as int),
            self.key_at(k.idx as int) == k,
    {
    }

    /// In a well-formed graph, a wired destination pins down live endpoints
    /// with in-range sockets.
    pub proof fn lemma_wire_endpoints(&self, dst: (NodeKey, usize))
        requires
            self.wf(),
            self.src_for(dst) is Some,
        ensures
            self.live(dst.0),
            (dst.1 as int) < self.descriptor_of(dst.0).input_sockets.len(),
            self.live(self.src_for(dst)->Some_0.0),
            (self.src_for(dst)->Some_0.1 as int) < self.descriptor_of(
                self.src_for(dst)->Some_0.0,
            ).output_sockets.len(),
    {
        let i = choose|i: int| 0 <= i < self.wires@.len() && (#[trigger] self.wires@[i]).dst == dst;
        assert(self.wire_ok(self.wire_list()[i]));
        self.lemma_src_at(i);
    }

    /// In a well-formed graph no wire touches a node that is not live:
    /// a dead destination is unwired, and a dead node is nobody's source.
    pub proof fn lemma_dead_node_unwired(&self, k: NodeKey, dst: (NodeKey, usize))
        requires
            self.wf(),
            !self.live(k),
        ensures
            dst.0 == k ==> self.src_for(dst) is None,
            self.src_for(dst) matches Some(s) ==> s.0 != k,
    {
        if self.src_for(dst) is Some {
            self.lemma_wire_endpoints(dst);
        }
    }

    /// A lone zero-output node can have no wire at all: any wire's source
    /// would have to be the node itself, which has no output socket.
    pub proof fn lemma_lone_sink_unwired(&self, k: NodeKey, dst: (NodeKey, usize))
        requires
            self.wf(),
            self.live(k),
            self.descriptor_of(k).output_sockets.len() == 0,
            forall|k2: NodeKey| self.live(k2) ==> k2 == k,
        ensures
            self.src_for(dst) is None,
    {
        if self.src_for(dst) is Some {
            self.lemma_wire_endpoints(dst);
        }
    }

    /// A graph holding a single node, a sink, evaluates to silence: that
    /// node is the designated sink, and its input socket cannot be wired —
    /// so the evaluator's contract yields an all-zero block of any
    /// requested length for such a graph.
    pub proof fn lemma_lone_sink_silent(&self, k: NodeKey)
        requires
            self.wf(),
            self.live(k),
            self.descriptor_of(k).output_sockets.len() == 0,
            forall|k2: NodeKey| self.live(k2) ==> k2 == k,
        ensures
            self.sink_of() == Some(k),
            self.src_for((k, 0usize)) is None,
    {
        self.lemma_sink_of();
        match self.sink_of() {
            Some(s) => {
                self.lemma_lone_sink_unwired(k, (s, 0usize));
            },
            None => {
                assert(self.descriptor_of(k).output_sockets.len() > 0);
            },
        }
    }

    /// Two graphs that store the same wires, destination-unique, answer
    /// every `src_for` query alike.
    pub proof fn lemma_same_wires_same_src(g1: &Self, g2: &Self)
        requires
            g1.wires_unique(),
            g1.wire_list() == g2.wire_list(),
        ensures
            forall|d: (NodeKey, usize)| g1.src_for(d) == g2.src_for(d),
    {
        assert forall|d: (NodeKey, usize)| g1.src_for(d) == g2.src_for(d) by {
            if g1.has_wire(d) {
                let i = choose|i: int|
                    0 <= i < g1.wires@.len() && (#[trigger] g1.wires@[i]).dst == d;
                assert(g2.wires@[i].dst == d);
                assert(g2.has_wire(d));
                g1.lemma_src_at(i);
                g2.lemma_src_at(i);
            } else if g2.has_wire(d) {
                let i = choose|i: int|
                    0 <= i < g2.wires@.len() && (#[trigger] g2.wires@[i]).dst == d;
                assert(g1.wires@[i].dst == d);
                assert(g1.has_wire(d));
            }
        }
    }

    /// The first sink at or after slot `i`: the lowest-indexed live node
    /// from there on whose cached descriptor has no output socket.
    pub closed spec fn first_sink_from(&self, i: int) -> Option<NodeKey>
        decreases self.slot_count() - i,
    {
        if i < 0 || i >= self.slot_count() {
            None
        } else if self.live_at(i) && self.descriptor_of(self.key_at(i)).output_sockets.len()
            == 0 {
            Some(self.key_at(i))
        } else {
            self.first_sink_from(i + 1)
        }
    }

    /// The designated sink of the graph: among the live nodes whose
    /// descriptor declares no output socket, the one in the lowest slot.
    pub open spec fn sink_of(&self) -> Option<NodeKey> {
        self.first_sink_from(0)
    }

    proof fn lemma_first_sink_from(&self, i: int)
        requires
            0 <= i,
        ensures
            match self.first_sink_from(i) {
                Some(s) => self.live(s) && self.descriptor_of(s).output_sockets.len() == 0,
                None => forall|k: NodeKey|
                    self.live(k) && i <= k.idx ==> self.descriptor_of(
                        k,
                    ).output_sockets.len() > 0,
            },
        decreases self.slot_count() - i,
    {
        if i >= self.slot_count() {
            assert forall|k: NodeKey| self.live(k) && i <= k.idx implies self.descriptor_of(
                k,
            ).output_sockets.len() > 0 by {
                assert((k.idx as int) < self.slot_count());
            }
        } else if self.live_at(i) && self.descriptor_of(self.key_at(i)).output_sockets.len()
            == 0 {
            assert(self.slots.len() == self.slots@.len());
            assert(self.key_at(i).idx as int == i);
            assert(self.live(self.key_at(i)));
        } else {
            self.lemma_first_sink_from(i + 1);
            if self.first_sink_from(i + 1) is None {
                assert forall|k: NodeKey| self.live(k) && i <= k.idx implies self.descriptor_of(
                    k,
                ).output_sockets.len() > 0 by {
                    if k.idx == i {
                        assert(self.live_at(i));
                        assert(self.key_at(i) == k);
                    }
                }
            }
        }
    }

    /// What the designated sink, if any, is known to be: live and without
    /// output sockets; and when there is none, no live node lacks outputs.
    pub proof fn lemma_sink_of(&self)
        ensures
            match self.sink_of() {
                Some(s) => self.live(s) && self.descriptor_of(s).output_sockets.len() == 0,
                None => forall|k: NodeKey|
                    self.live(k) ==> self.descriptor_of(k).output_sockets.len() > 0,
            },
    {
        self.lemma_first_sink_from(0);
        if self.sink_of() is None {
            assert forall|k: NodeKey| self.live(k) implies self.descriptor_of(
                k,
            ).output_sockets.len() > 0 by {
                assert(0 <= k.idx);
            }
        }
    }

    /// Two graphs with the same slot structure — occupancy, keys and cached
    /// descriptors — designate the same sink.
    pub proof fn lemma_same_structure_same_sink(g1: &Self, g2: &Self)
        requires
            g1.slot_count() == g2.slot_count(),
            forall|i: int| g1.live_at(i) == g2.live_at(i),
            forall|i: int| 0 <= i < g1.slot_count() ==> g1.key_at(i) == g2.key_at(i),
            forall|i: int|
                #[trigger] g1.live_at(i) ==> g1.descriptor_of(g1.key_at(i)) == g2.descriptor_of(
                    g2.key_at(i),
                ),
        ensures
            g1.sink_of() == g2.sink_of(),
    {
        Self::lemma_same_structure_same_sink_from(g1, g2, 0);
    }

    proof fn lemma_same_structure_same_sink_from(g1: &Self, g2: &Self, i: int)
        requires
            g1.slot_count() == g2.slot_count(),
            forall|j: int| g1.live_at(j) == g2.live_at(j),
            forall|j: int| 0 <= j < g1.slot_count() ==> g1.key_at(j) == g2.key_at(j),
            forall|j: int|
                #[trigger] g1.live_at(j) ==> g1.descriptor_of(g1.key_at(j)) == g2.descriptor_of(
                    g2.key_at(j),
                ),
        ensures
            g1.first_sink_from(i) == g2.first_sink_from(i),
        decreases g1.slot_count() - i,
    {
        if 0 <= i < g1.slot_count() {
            Self::lemma_same_structure_same_sink_from(g1, g2, i + 1);
        }
    }

    /// Locates the designated sink: the live node in the lowest slot whose
    /// cached descriptor declares no output socket. None means the graph
    /// has no sink and a block evaluates to silence.
    pub fn find_sink(&self) -> (r: Option<NodeKey>)
        ensures
            r == self.sink_of(),
    {
        let n = self.slots.len();
        let mut i: usize = 0;
        while i < n
            invariant
                i <= n,
                n == self.slots@.len(),
                self.sink_of() == self.first_sink_from(i as int),
            decreases n - i,
        {
            let is_sink = match &self.slots[i].entry {
                Some(e) => e.descriptor.output_sockets.len() == 0,
                None => false,
            };
            if is_sink {
                let key = NodeKey { idx: i, gen: self.slots[i].gen };
                proof {
                    assert(self.live_at(i as int));
                    assert(self.key_at(i as int) == key);
                }
                return Some(key);
            }
            proof {
                assert(self.first_sink_from(i as int) == self.first_sink_from(i + 1));
            }
            i += 1;
        }
        None
    }

    /// An empty graph: no nodes, no wires.
    pub fn new() -> (g: NodeGraph<N>)
        ensures
            g.wf(),
            g.slot_count() == 0,
            forall|k: NodeKey| !g.live(k) && !g.retired(k),
            g.wire_list() == Seq::<Wire>::empty(),
            forall|d: (NodeKey, usize)| g.src_for(d) is None,
            g.sink_of() is None,
    {
        let g = NodeGraph { slots: Vec::new(), wires: Vec::new() };
        proof {
            assert(g.wire_list() =~= Seq::<Wire>::empty());
            assert forall|d: (NodeKey, usize)| g.src_for(d) is None by {
                assert(!g.has_wire(d));
            }
        }
        g
    }

    /// How many slots the arena holds, live or free.
    pub(crate) fn num_slots(&self) -> (n: usize)
        ensures
            n as int == self.slot_count(),
    {
        self.slots.len()
    }

    /// The output-socket count cached for the node in slot `i`, zero for a
    /// free slot.
    pub(crate) fn slot_output_count(&self, i: usize) -> (n: usize)
        requires
            (i as int) < self.slot_count(),
        ensures
            n as int == if self.live_at(i as int) {
                self.descriptor_of(self.key_at(i as int)).output_sockets.len()
            } else {
                0
            },
    {
        match &self.slots[i].entry {
            Some(e) => e.descriptor.output_sockets.len(),
            None => 0,
        }
    }

    /// A read-only borrow of the node behind a live key.
    pub fn get_node(&self, node: NodeKey) -> (r: Option<&N>)
        ensures
            match r {
                Some(n) => self.live(node) && *n == self.node_of(node),
                None => !self.live(node),
            },
    {
        if node.idx < self.slots.len() {
            let slot = &self.slots[node.idx];
            if slot.gen == node.gen {
                match &slot.entry {
                    Some(e) => Some(&e.node),
                    None => None,
                }
            } else {
                None
            }
        } else {
            None
        }
    }

    /// Read-only descriptor lookup; answers nothing for a stale or unknown
    /// key.
    pub fn node_descriptor(&self, node: NodeKey) -> (r: Option<&NodeDescriptor>)
        ensures
            match r {
                Some(d) => self.live(node) && d@ == self.descriptor_of(node),
                None => !self.live(node),
            },
    {
        if node.idx < self.slots.len() {
            let slot = &self.slots[node.idx];
            if slot.gen == node.gen {
                match &slot.entry {
                    Some(e) => Some(&e.descriptor),
                    None => None,
                }
            } else {
                None
            }
        } else {
            None
        }
    }

    /// The keys of all live nodes, in ascending slot order: one consistent,
    /// duplicate-free enumeration of the graph.
    pub fn nodes(&self) -> (r: Vec<NodeKey>)
        ensures
            forall|j: int| 0 <= j < r@.len() ==> self.live(#[trigger] r@[j]),
            forall|k: NodeKey| self.live(k) ==> r@.contains(k),
            forall|j1: int, j2: int| 0 <= j1 < j2 < r@.len() ==> r@[j1].idx < r@[j2].idx,
    {
        let mut r: Vec<NodeKey> = Vec::new();
        let n = self.slots.len();
        let mut i: usize = 0;
        while i < n
            invariant
                i <= n,
                n == self.slots@.len(),
                forall|j: int| 0 <= j < r@.len() ==> self.live(#[trigger] r@[j]),
                forall|j: int| 0 <= j < r@.len() ==> (#[trigger] r@[j]).idx < i,
                forall|k: NodeKey| self.live(k) && (k.idx as int) < i ==> r@.contains(k),
                forall|j1: int, j2: int| 0 <= j1 < j2 < r@.len() ==> r@[j1].idx < r@[j2].idx,
            decreases n - i,
        {
            let ghost prev = r@;
            match &self.slots[i].entry {
                Some(_) => {
                    r.push(NodeKey { idx: i, gen: self.slots[i].gen });
                }
                None => {},
            }
            proof {
                assert forall|k: NodeKey| self.live(k) && (k.idx as int) < i + 1 implies
                    r@.contains(k) by {
                    if (k.idx as int) < i {
                        assert(prev.contains(k));
                        let j = choose|j: int| 0 <= j < prev.len() && prev[j] == k;
                        assert(r@[j] == k);
                    } else {
                        assert(r@[r@.len() - 1] == k);
                    }
                }
            }
            i += 1;
        }
        r
    }

    /// Every stored wire, destination and source. Destinations are unique.
    pub fn wires(&self) -> (r: Vec<Wire>)
        ensures
            r@ == self.wire_list(),
    {
        let mut r: Vec<Wire> = Vec::new();
        let n = self.wires.len();
        let mut i: usize = 0;
        while i < n
            invariant
                i <= n,
                n == self.wires@.len(),
                r@ == self.wires@.subrange(0, i as int),
            decreases n - i,
        {
            r.push(self.wires[i]);
            proof {
                assert(r@ =~= self.wires@.subrange(0, i + 1));
            }
            i += 1;
        }
        proof {
            assert(r@ =~= self.wire_list());
        }
        r
    }

    /// The one place the evaluator resolves wires: the source endpoint
    /// feeding destination socket `idx` of `node`, if it is wired.
    pub fn src_for_dest(&self, node: NodeKey, idx: usize) -> (r: Option<(NodeKey, usize)>)
        requires
            self.wf(),
        ensures
            r == self.src_for((node, idx)),
    {
        let n = self.wires.len();
        let mut i: usize = 0;
        while i < n
            invariant
                i <= n,
                n == self.wires@.len(),
                self.wf(),
                forall|j: int| 0 <= j < i ==> (#[trigger] self.wires@[j]).dst != (node, idx),
            decreases n - i,
        {
            let w = self.wires[i];
            if w.dst.0 == node && w.dst.1 == idx {
                proof {
                    self.lemma_src_at(i as int);
                }
                return Some(w.src);
            }
            i += 1;
        }
        proof {
            assert(!self.has_wire((node, idx)));
        }
        None
    }

    /// A free slot whose generation can still be retired once more, if one
    /// exists. Finding none is always safe: the caller then grows the arena.
    fn find_free_slot(&self) -> (r: Option<usize>)
        ensures
            r matches Some(i) ==> (i as int) < self.slot_count() && self.slots@[
                i as int
            ].entry is None && self.slots@[i as int].gen < u64::MAX,
    {
        let n = self.slots.len();
        let mut i: usize = 0;
        while i < n
            invariant
                i <= n,
                n == self.slots@.len(),
            decreases n - i,
        {
            if self.slots[i].entry.is_none() && self.slots[i].gen < u64::MAX {
                return Some(i);
            }
            i += 1;
        }
        None
    }

    /// Well-formedness carries over to any graph of the same arena size
    /// that keeps liveness, descriptors and the wire storage — such as a
    /// graph whose node values alone were written through a borrow.
    pub proof fn lemma_wf_preserved(old_g: &Self, new_g: &Self)
        requires
            old_g.wf(),
            new_g.slot_count() == old_g.slot_count(),
            forall|k: NodeKey| new_g.live(k) == old_g.live(k),
            forall|k: NodeKey|
                old_g.live(k) ==> new_g.descriptor_of(k) == old_g.descriptor_of(k),
            new_g.wire_list() == old_g.wire_list(),
        ensures
            new_g.wf(),
    {
        Self::lemma_wires_still_ok(old_g, new_g);
        assert forall|i: int, j: int| 0 <= i < j < new_g.wire_list().len() implies (
        #[trigger] new_g.wire_list()[i]).dst != (#[trigger] new_g.wire_list()[j]).dst by {
            assert(old_g.wire_list()[i].dst != old_g.wire_list()[j].dst);
        }
        assert forall|i: int|
            0 <= i < new_g.slots@.len() && (#[trigger] new_g.slots@[i]).entry is Some implies
            new_g.slots@[i].gen < u64::MAX by {
            assert(new_g.slots.len() == new_g.slots@.len());
            let k = new_g.key_at(i);
            assert(new_g.live(k));
            assert(old_g.live(k));
        }
    }

    /// Wires valid against one graph stay valid against another that keeps
    /// every live node, with its descriptor, and the same wire storage.
    proof fn lemma_wires_still_ok(old_g: &Self, new_g: &Self)
        requires
            old_g.all_wires_ok(),
            new_g.wire_list() == old_g.wire_list(),
            forall|k: NodeKey| old_g.live(k) ==> new_g.live(k),
            forall|k: NodeKey|
                old_g.live(k) ==> new_g.descriptor_of(k) == old_g.descriptor_of(k),
        ensures
            new_g.all_wires_ok(),
    {
        assert forall|i: int| 0 <= i < new_g.wire_list().len() implies new_g.wire_ok(
            new_g.wire_list()[i],
        ) by {
            assert(old_g.wire_ok(old_g.wire_list()[i]));
        }
    }

    /// Checks every stored wire against the live nodes and their cached
    /// descriptors — true exactly when all endpoints are live and in range.
    /// On a graph built through this interface it always holds; the check
    /// is for callers that want the invariant re-established explicitly.
    pub fn validate_wires(&self) -> (ok: bool)
        ensures
            ok == self.all_wires_ok(),
    {
        let n = self.wires.len();
        let mut i: usize = 0;
        while i < n
            invariant
                i <= n,
                n == self.wires@.len(),
                forall|j: int| 0 <= j < i ==> self.wire_ok(#[trigger] self.wires@[j]),
            decreases n - i,
        {
            let w = self.wires[i];
            let src_ok = match self.node_descriptor(w.src.0) {
                Some(d) => w.src.1 < d.output_sockets.len(),
                None => false,
            };
            let dst_ok = match self.node_descriptor(w.dst.0) {
                Some(d) => w.dst.1 < d.input_sockets.len(),
                None => false,
            };
            if !(src_ok && dst_ok) {
                proof {
                    assert(!self.wire_ok(self.wire_list()[i as int]));
                }
                return false;
            }
            i += 1;
        }
        true
    }
}

/// Which wires a bulk disconnection drops from the store.
enum DropRule {
    /// Drop every wire that touches the node, as source or destination.
    TouchingNode(NodeKey),
    /// Drop every wire sourced at this exact output socket.
    FromSource((NodeKey, usize)),
    /// Drop the wire ending at this exact input socket, if any.
    AtDestination((NodeKey, usize)),
}

spec fn wire_kept(w: Wire, rule: DropRule) -> bool {
    match rule {
        DropRule::TouchingNode(k) => w.dst.0 != k && w.src.0 != k,
        DropRule::FromSource(s) => w.src != s,
        DropRule::AtDestination(d) => w.dst != d,
    }
}

fn wire_kept_exec(w: &Wire, rule: &DropRule) -> (r: bool)
    ensures
        r == wire_kept(*w, *rule),
{
    match rule {
        DropRule::TouchingNode(k) => !(w.dst.0 == *k || w.src.0 == *k),
        DropRule::FromSource(s) => !(w.src.0 == s.0 && w.src.1 == s.1),
        DropRule::AtDestination(d) => !(w.dst.0 == d.0 && w.dst.1 == d.1),
    }
}

impl<N> NodeGraph<N> {
    /// The stored wires with every wire that `rule` drops taken out; order
    /// and destination-uniqueness of the kept wires are preserved.
    fn filtered_wires(wires: &Vec<Wire>, rule: &DropRule) -> (kept: Vec<Wire>)
        requires
            forall|i: int, j: int|
                0 <= i < j < wires@.len() ==> (#[trigger] wires@[i]).dst != (
                #[trigger] wires@[j]).dst,
        ensures
            forall|j: int| 0 <= j < kept@.len() ==> wires@.contains(#[trigger] kept@[j]),
            forall|j: int| 0 <= j < kept@.len() ==> wire_kept(#[trigger] kept@[j], *rule),
            forall|jj: int|
                0 <= jj < wires@.len() && wire_kept(#[trigger] wires@[jj], *rule)
                    ==> kept@.contains(wires@[jj]),
            forall|i: int, j: int|
                0 <= i < j < kept@.len() ==> (#[trigger] kept@[i]).dst != (
                #[trigger] kept@[j]).dst,
    {
        let n = wires.len();
        let mut kept: Vec<Wire> = Vec::new();
        let mut i: usize = 0;
        while i < n
            invariant
                i <= n,
                n == wires@.len(),
                forall|i2: int, j2: int|
                    0 <= i2 < j2 < wires@.len() ==> (#[trigger] wires@[i2]).dst != (
                    #[trigger] wires@[j2]).dst,
                forall|j: int| 0 <= j < kept@.len() ==> wire_kept(#[trigger] kept@[j], *rule),
                forall|j: int|
                    0 <= j < kept@.len() ==> exists|jj: int|
                        0 <= jj < i && wires@[jj] == #[trigger] kept@[j],
                forall|jj: int|
                    0 <= jj < i && wire_kept(#[trigger] wires@[jj], *rule) ==> kept@.contains(
                        wires@[jj],
                    ),
                forall|p: int, q: int|
                    0 <= p < q < kept@.len() ==> (#[trigger] kept@[p]).dst != (
                    #[trigger] kept@[q]).dst,
            decreases n - i,
        {
            let ghost prev = kept@;
            let w = wires[i];
            if wire_kept_exec(&w, rule) {
                kept.push(w);
                proof {
                    assert forall|j: int| 0 <= j < kept@.len() implies exists|jj: int|
                        0 <= jj < i + 1 && wires@[jj] == #[trigger] kept@[j] by {
                        if j < prev.len() {
                            assert(kept@[j] == prev[j]);
                            let jj = choose|jj: int| 0 <= jj < i && wires@[jj] == prev[j];
                            assert(0 <= jj < i + 1 && wires@[jj] == kept@[j]);
                        } else {
                            assert(kept@[j] == w);
                            assert(wires@[i as int] == kept@[j]);
                        }
                    }
                    assert forall|jj: int|
                        0 <= jj < i + 1 && wire_kept(#[trigger] wires@[jj], *rule) implies kept@
                        .contains(wires@[jj]) by {
                        if jj < i {
                            assert(prev.contains(wires@[jj]));
                            let p = choose|p: int| 0 <= p < prev.len() && prev[p] == wires@[jj];
                            assert(kept@[p] == wires@[jj]);
                        } else {
                            assert(kept@[kept@.len() - 1] == wires@[jj]);
                        }
                    }
                    assert forall|p: int, q: int| 0 <= p < q < kept@.len() implies (
                    #[trigger] kept@[p]).dst != (#[trigger] kept@[q]).dst by {
                        if q == kept@.len() - 1 {
                            assert(kept@[p] == prev[p]);
                            let jj = choose|jj: int| 0 <= jj < i && wires@[jj] == prev[p];
                            assert(wires@[jj].dst != wires@[i as int].dst);
                            assert(kept@[q] == wires@[i as int]);
                        }
                    }
                }
            } else {
                proof {
                    assert forall|jj: int|
                        0 <= jj < i + 1 && wire_kept(#[trigger] wires@[jj], *rule) implies kept@
                        .contains(wires@[jj]) by {
                        if jj == i {
                            assert(!wire_kept(wires@[jj], *rule));
                        }
                    }
                }
            }
            i += 1;
        }
        proof {
            assert forall|j: int| 0 <= j < kept@.len() implies wires@.contains(
                #[trigger] kept@[j],
            ) by {
                let jj = choose|jj: int| 0 <= jj < i && wires@[jj] == kept@[j];
                assert(wires@[jj] == kept@[j]);
            }
        }
        kept
    }

    /// After a keep-only filter of the wire store, with the nodes
    /// untouched, `src_for` answers the old source exactly where the old
    /// wire was kept.
    proof fn lemma_filtered_src(old_g: &Self, new_g: &Self, keep: spec_fn(Wire) -> bool)
        requires
            old_g.wires_unique(),
            new_g.wires_unique(),
            forall|j: int|
                0 <= j < new_g.wire_list().len() ==> old_g.wire_list().contains(
                    #[trigger] new_g.wire_list()[j],
                ),
            forall|j: int|
                0 <= j < new_g.wire_list().len() ==> keep(#[trigger] new_g.wire_list()[j]),
            forall|jj: int|
                0 <= jj < old_g.wire_list().len() && keep(#[trigger] old_g.wire_list()[jj])
                    ==> new_g.wire_list().contains(old_g.wire_list()[jj]),
        ensures
            forall|d: (NodeKey, usize)|
                #[trigger] new_g.src_for(d) == match old_g.src_for(d) {
                    Some(s) => if keep(Wire { dst: d, src: s }) {
                        Some(s)
                    } else {
                        None::<(NodeKey, usize)>
                    },
                    None => None::<(NodeKey, usize)>,
                },
    {
        assert forall|d: (NodeKey, usize)|
            #[trigger] new_g.src_for(d) == match old_g.src_for(d) {
                Some(s) => if keep(Wire { dst: d, src: s }) {
                    Some(s)
                } else {
                    None::<(NodeKey, usize)>
                },
                None => None::<(NodeKey, usize)>,
            } by {
            if new_g.has_wire(d) {
                let j = choose|j: int|
                    0 <= j < new_g.wires@.len() && (#[trigger] new_g.wires@[j]).dst == d;
                new_g.lemma_src_at(j);
                let w = new_g.wires@[j];
                assert(old_g.wire_list().contains(w));
                let jj = choose|jj: int|
                    0 <= jj < old_g.wire_list().len() && old_g.wire_list()[jj] == w;
                old_g.lemma_src_at(jj);
                assert(keep(w));
                assert(w == Wire { dst: d, src: w.src });
            } else {
                if old_g.has_wire(d) {
                    let jj = choose|jj: int|
                        0 <= jj < old_g.wires@.len() && (#[trigger] old_g.wires@[jj]).dst == d;
                    old_g.lemma_src_at(jj);
                    let w = old_g.wires@[jj];
                    if keep(w) {
                        assert(new_g.wire_list().contains(w));
                        let j = choose|j: int|
                            0 <= j < new_g.wire_list().len() && new_g.wire_list()[j] == w;
                        assert(new_g.wires@[j].dst == d);
                        assert(new_g.has_wire(d));
                        assert(false);
                    }
                    assert(w == Wire { dst: d, src: w.src });
                }
            }
        }
    }
}

impl<N> Default for NodeGraph<N> {
    /// The empty graph.
    fn default() -> (g: Self)
        ensures
            g.wf(),
            g.slot_count() == 0,
            forall|k: NodeKey| !g.live(k) && !g.retired(k),
            forall|d: (NodeKey, usize)| g.src_for(d) is None,
            g.sink_of() is None,
    {
        NodeGraph::new()
    }
}

impl<N: Node> NodeGraph<N> {
    /// Adds a node: its descriptor is computed once, cached beside it, and
    /// the node is stored under a fresh key — one that no node of this
    /// graph, live or removed, ever had. Wires and other nodes are
    /// untouched. Never fails.
    pub fn add_node(&mut self, node: N) -> (key: NodeKey)
        requires
            old(self).wf(),
        ensures
            final(self).wf(),
            !old(self).live(key),
            !old(self).retired(key),
            final(self).live(key),
            final(self).node_of(key) == node,
            final(self).descriptor_of(key) == node.descriptor_view(),
            forall|k2: NodeKey| k2 != key ==> final(self).live(k2) == old(self).live(k2),
            forall|k2: NodeKey|
                k2 != key && old(self).live(k2) ==> final(self).node_of(k2) == old(
                    self,
                ).node_of(k2) && final(self).descriptor_of(k2) == old(self).descriptor_of(k2),
            forall|k2: NodeKey| old(self).retired(k2) ==> final(self).retired(k2),
            final(self).wire_list() == old(self).wire_list(),
            forall|d: (NodeKey, usize)| final(self).src_for(d) == old(self).src_for(d),
            old(self).slot_count() <= final(self).slot_count(),
    {
        let descriptor = node.get_descriptor();
        let key: NodeKey;
        match self.find_free_slot() {
            Some(i) => {
                let g = self.slots[i].gen;
                self.slots.set(i, Slot { gen: g, entry: Some(Entry { node, descriptor }) });
                key = NodeKey { idx: i, gen: g };
            },
            None => {
                let i = self.slots.len();
                self.slots.push(Slot { gen: 0, entry: Some(Entry { node, descriptor }) });
                key = NodeKey { idx: i, gen: 0 };
            },
        }
        proof {
            assert(self.slots.len() == self.slots@.len());
            assert(final(self).live(key));
            assert forall|k2: NodeKey| k2 != key implies final(self).live(k2) == old(
                self,
            ).live(k2) by {
                if k2.idx != key.idx {
                } else {
                    assert(!old(self).live(k2));
                    assert(!final(self).live(k2));
                }
            }
            Self::lemma_wires_still_ok(old(self), self);
            Self::lemma_same_wires_same_src(old(self), self);
        }
        key
    }
}

impl<N> NodeGraph<N> {
    /// Removes the node behind `node_key`, after first dropping every wire
    /// touching it as source or destination — no dangling wire survives the
    /// removal. Returns the removed node, or nothing for a stale or unknown
    /// key (a no-op, not an error). The key's slot retires its generation,
    /// so this key can never name a node again.
    pub fn remove_node(&mut self, node_key: NodeKey) -> (removed: Option<N>)
        requires
            old(self).wf(),
        ensures
            final(self).wf(),
            match removed {
                Some(n) => old(self).live(node_key) && n == old(self).node_of(node_key),
                None => !old(self).live(node_key),
            },
            !final(self).live(node_key),
            old(self).live(node_key) ==> final(self).retired(node_key),
            forall|k2: NodeKey|
                k2 != node_key ==> final(self).live(k2) == old(self).live(k2),
            forall|k2: NodeKey|
                k2 != node_key && old(self).live(k2) ==> final(self).node_of(k2) == old(
                    self,
                ).node_of(k2) && final(self).descriptor_of(k2) == old(self).descriptor_of(k2),
            forall|k2: NodeKey| old(self).retired(k2) ==> final(self).retired(k2),
            final(self).slot_count() == old(self).slot_count(),
            forall|d: (NodeKey, usize)|
                #[trigger] final(self).src_for(d) == src_after_removal(
                    old(self).src_for(d),
                    d,
                    node_key,
                ),
    {
        let rule = DropRule::TouchingNode(node_key);
        let kept = Self::filtered_wires(&self.wires, &rule);
        self.wires = kept;
        let ghost mid = *self;
        proof {
            Self::lemma_filtered_src(old(self), &mid, |w: Wire| wire_kept(w, rule));
        }
        let mut removed: Option<N> = None;
        if node_key.idx < self.slots.len() {
            let is_live = self.slots[node_key.idx].gen == node_key.gen
                && self.slots[node_key.idx].entry.is_some();
            if is_live {
                proof {
                    assert(old(self).wf());
                    assert(old(self).slots@[node_key.idx as int].gen < u64::MAX);
                }
                let slot = self.slots.remove(node_key.idx);
                let g = slot.gen;
                self.slots.insert(node_key.idx, Slot { gen: g + 1, entry: None });
                proof {
                    assert(self.slots@ =~= old(self).slots@.update(
                        node_key.idx as int,
                        Slot { gen: (g + 1) as u64, entry: None::<Entry<N>> },
                    ));
                }
                match slot.entry {
                    Some(e) => {
                        removed = Some(e.node);
                    },
                    None => {
                        proof {
                            assert(false);
                        }
                    },
                }
            }
        }
        proof {
            assert(self.slots.len() == self.slots@.len());
            assert forall|k2: NodeKey| k2 != node_key implies self.live(k2) == old(self).live(
                k2,
            ) by {
                if k2.idx == node_key.idx {
                    if old(self).live(k2) && old(self).live(node_key) {
                        old(self).lemma_live_same_slot(k2, node_key);
                    }
                }
            }
            // every kept wire is valid against the final graph
            assert forall|i: int| 0 <= i < self.wire_list().len() implies self.wire_ok(
                self.wire_list()[i],
            ) by {
                let w = self.wire_list()[i];
                assert(old(self).wire_list().contains(w));
                let jj = choose|jj: int|
                    0 <= jj < old(self).wire_list().len() && old(self).wire_list()[jj] == w;
                assert(old(self).wire_ok(w));
                assert(wire_kept(w, rule));
                if old(self).live(node_key) {
                    if w.dst.0.idx == node_key.idx {
                        old(self).lemma_live_same_slot(w.dst.0, node_key);
                    }
                    if w.src.0.idx == node_key.idx {
                        old(self).lemma_live_same_slot(w.src.0, node_key);
                    }
                }
            }
            Self::lemma_same_wires_same_src(&mid, self);
            assert forall|d: (NodeKey, usize)| #[trigger] final(self).src_for(d)
                == src_after_removal(old(self).src_for(d), d, node_key) by {
                assert(self.src_for(d) == mid.src_for(d));
                match old(self).src_for(d) {
                    Some(s) => {
                        assert(mid.src_for(d) == (if wire_kept(
                            Wire { dst: d, src: s },
                            rule,
                        ) {
                            Some(s)
                        } else {
                            None::<(NodeKey, usize)>
                        }));
                    },
                    None => {},
                }
            }
        }
        removed
    }

    /// Wires `src` into destination socket `dst`, replacing — and handing
    /// back — whatever source was previously connected there. Keys and
    /// socket indices are validated eagerly against the cached descriptors:
    /// a stale or unknown key, or an out-of-range index, is an error and
    /// leaves the graph untouched.
    pub fn connect(&mut self, src: (NodeKey, usize), dst: (NodeKey, usize)) -> (r: Result<
        Option<(NodeKey, usize)>,
        GraphError,
    >)
        requires
            old(self).wf(),
        ensures
            final(self).wf(),
            (r matches Err(e) && e == GraphError::InvalidKey) == (!old(self).live(src.0)
                || !old(self).live(dst.0)),
            (r matches Err(e) && e == GraphError::InvalidSocket) == (old(self).live(src.0)
                && old(self).live(dst.0) && ((src.1 as int) >= old(self).descriptor_of(
                src.0,
            ).output_sockets.len() || (dst.1 as int) >= old(self).descriptor_of(
                dst.0,
            ).input_sockets.len())),
            r is Err ==> *final(self) == *old(self),
            r matches Ok(prev) ==> prev == old(self).src_for(dst),
            r is Ok ==> final(self).src_for(dst) == Some(src),
            r is Ok ==> forall|d: (NodeKey, usize)|
                d != dst ==> #[trigger] final(self).src_for(d) == old(self).src_for(d),
            forall|k2: NodeKey| final(self).live(k2) == old(self).live(k2),
            forall|k2: NodeKey|
                old(self).live(k2) ==> final(self).node_of(k2) == old(self).node_of(k2)
                    && final(self).descriptor_of(k2) == old(self).descriptor_of(k2),
            forall|k2: NodeKey| final(self).retired(k2) == old(self).retired(k2),
            final(self).slot_count() == old(self).slot_count(),
    {
        let n_src_out: usize;
        match self.node_descriptor(src.0) {
            Some(d) => {
                proof {
                    assert(d@.output_sockets.len() == d.output_sockets@.len());
                }
                n_src_out = d.output_sockets.len();
            },
            None => {
                return Err(GraphError::InvalidKey);
            },
        }
        let n_dst_in: usize;
        match self.node_descriptor(dst.0) {
            Some(d) => {
                proof {
                    assert(d@.input_sockets.len() == d.input_sockets@.len());
                }
                n_dst_in = d.input_sockets.len();
            },
            None => {
                return Err(GraphError::InvalidKey);
            },
        }
        if src.1 >= n_src_out || dst.1 >= n_dst_in {
            return Err(GraphError::InvalidSocket);
        }
        let n = self.wires.len();
        let mut i: usize = 0;
        while i < n
            invariant
                i <= n,
                n == self.wires@.len(),
                *self == *old(self),
                old(self).wf(),
                old(self).live(src.0),
                old(self).live(dst.0),
                (src.1 as int) < old(self).descriptor_of(src.0).output_sockets.len(),
                (dst.1 as int) < old(self).descriptor_of(dst.0).input_sockets.len(),
                forall|j: int| 0 <= j < i ==> (#[trigger] self.wires@[j]).dst != dst,
            decreases n - i,
        {
            let w = self.wires[i];
            if w.dst.0 == dst.0 && w.dst.1 == dst.1 {
                let prev = w.src;
                proof {
                    self.lemma_src_at(i as int);
                }
                self.wires.set(i, Wire { dst, src });
                proof {
                    assert(self.slots@ == old(self).slots@);
                    assert(self.wires@ == old(self).wires@.update(i as int, Wire { dst, src }));
                    assert forall|j: int| 0 <= j < self.wires@.len() implies (
                    #[trigger] self.wires@[j]).dst == old(self).wires@[j].dst by {}
                    assert(self.wires_unique());
                    assert forall|j: int| 0 <= j < self.wire_list().len() implies self.wire_ok(
                        self.wire_list()[j],
                    ) by {
                        if j != i {
                            assert(old(self).wire_ok(old(self).wire_list()[j]));
                        } else {
                            assert(self.wire_list()[j] == Wire { dst, src });
                            assert(self.live(dst.0) == old(self).live(dst.0));
                            assert(self.live(src.0) == old(self).live(src.0));
                            assert(self.descriptor_of(dst.0) == old(self).descriptor_of(dst.0));
                            assert(self.descriptor_of(src.0) == old(self).descriptor_of(src.0));
                        }
                    }
                    self.lemma_src_at(i as int);
                    assert forall|d: (NodeKey, usize)| d != dst implies #[trigger] self.src_for(
                        d,
                    ) == old(self).src_for(d) by {
                        if self.has_wire(d) {
                            let j = choose|j: int|
                                0 <= j < self.wires@.len() && (#[trigger] self.wires@[j]).dst
                                    == d;
                            assert(j != i);
                            self.lemma_src_at(j);
                            old(self).lemma_src_at(j);
                        } else if old(self).has_wire(d) {
                            let j = choose|j: int|
                                0 <= j < old(self).wires@.len() && (
                                #[trigger] old(self).wires@[j]).dst == d;
                            assert(j != i);
                            assert(self.wires@[j].dst == d);
                            assert(self.has_wire(d));
                        }
                    }
                }
                return Ok(Some(prev));
            }
            i += 1;
        }
        proof {
            assert(!self.has_wire(dst));
        }
        let ghost before_push = self.wires@;
        self.wires.push(Wire { dst, src });
        proof {
            assert(self.slots@ == old(self).slots@);
            assert(self.wires@ == old(self).wires@.push(Wire { dst, src }));
            let last = self.wires@.len() - 1;
            assert forall|p: int, q: int| 0 <= p < q < self.wires@.len() implies (
            #[trigger] self.wires@[p]).dst != (#[trigger] self.wires@[q]).dst by {
                if q == last {
                    assert(self.wires@[p] == old(self).wires@[p]);
                } else {
                    assert(old(self).wire_list()[p].dst != old(self).wire_list()[q].dst);
                }
            }
            assert forall|j: int| 0 <= j < self.wire_list().len() implies self.wire_ok(
                self.wire_list()[j],
            ) by {
                if j != last {
                    assert(old(self).wire_ok(old(self).wire_list()[j]));
                } else {
                    assert(self.wire_list()[j] == Wire { dst, src });
                    assert(self.live(dst.0) == old(self).live(dst.0));
                    assert(self.live(src.0) == old(self).live(src.0));
                    assert(self.descriptor_of(dst.0) == old(self).descriptor_of(dst.0));
                    assert(self.descriptor_of(src.0) == old(self).descriptor_of(src.0));
                }
            }
            self.lemma_src_at(last);
            assert forall|d: (NodeKey, usize)| d != dst implies #[trigger] self.src_for(d)
                == old(self).src_for(d) by {
                if self.has_wire(d) {
                    let j = choose|j: int|
                        0 <= j < self.wires@.len() && (#[trigger] self.wires@[j]).dst == d;
                    assert(j != last);
                    self.lemma_src_at(j);
                    old(self).lemma_src_at(j);
                } else if old(self).has_wire(d) {
                    let j = choose|j: int|
                        0 <= j < old(self).wires@.len() && (#[trigger] old(self).wires@[j]).dst
                            == d;
                    assert(self.wires@[j].dst == d);
                    assert(self.has_wire(d));
                }
            }
        }
        Ok(None)
    }

    /// Disconnects at one socket of `node`. For an input socket the single
    /// wire ending there, if any, is removed; for an output socket every
    /// wire sourced from it is removed, since one output may fan out to
    /// many destinations. The key and index are validated eagerly; an
    /// error leaves the graph untouched.
    pub fn disconnect(&mut self, node: NodeKey, dir: SocketDirection, idx: usize) -> (r: Result<
        (),
        GraphError,
    >)
        requires
            old(self).wf(),
        ensures
            final(self).wf(),
            (r matches Err(e) && e == GraphError::InvalidKey) == !old(self).live(node),
            (r matches Err(e) && e == GraphError::InvalidSocket) == (old(self).live(node) && (
            idx as int) >= (match dir {
                SocketDirection::Input => old(self).descriptor_of(node).input_sockets.len(),
                SocketDirection::Output => old(self).descriptor_of(node).output_sockets.len(),
            })),
            r is Err ==> *final(self) == *old(self),
            r is Ok ==> forall|d: (NodeKey, usize)|
                #[trigger] final(self).src_for(d) == (match dir {
                    SocketDirection::Input => if d == (node, idx) {
                        None::<(NodeKey, usize)>
                    } else {
                        old(self).src_for(d)
                    },
                    SocketDirection::Output => if old(self).src_for(d) == Some((node, idx)) {
                        None::<(NodeKey, usize)>
                    } else {
                        old(self).src_for(d)
                    },
                }),
            forall|k2: NodeKey| final(self).live(k2) == old(self).live(k2),
            forall|k2: NodeKey|
                old(self).live(k2) ==> final(self).node_of(k2) == old(self).node_of(k2)
                    && final(self).descriptor_of(k2) == old(self).descriptor_of(k2),
            forall|k2: NodeKey| final(self).retired(k2) == old(self).retired(k2),
            final(self).slot_count() == old(self).slot_count(),
    {
        let count: usize;
        match self.node_descriptor(node) {
            Some(d) => {
                proof {
                    assert(d@.input_sockets.len() == d.input_sockets@.len());
                    assert(d@.output_sockets.len() == d.output_sockets@.len());
                }
                count = match dir {
                    SocketDirection::Input => d.input_sockets.len(),
                    SocketDirection::Output => d.output_sockets.len(),
                };
            },
            None => {
                return Err(GraphError::InvalidKey);
            },
        }
        if idx >= count {
            return Err(GraphError::InvalidSocket);
        }
        let rule = match dir {
            SocketDirection::Input => DropRule::AtDestination((node, idx)),
            SocketDirection::Output => DropRule::FromSource((node, idx)),
        };
        proof {
            assert forall|i2: int, j2: int| 0 <= i2 < j2 < self.wires@.len() implies (
            #[trigger] self.wires@[i2]).dst != (#[trigger] self.wires@[j2]).dst by {
                assert(self.wire_list()[i2].dst != self.wire_list()[j2].dst);
            }
        }
        let kept = Self::filtered_wires(&self.wires, &rule);
        self.wires = kept;
        proof {
            Self::lemma_filtered_src(old(self), self, |w: Wire| wire_kept(w, rule));
            assert forall|j: int| 0 <= j < self.wire_list().len() implies self.wire_ok(
                self.wire_list()[j],
            ) by {
                let w = self.wire_list()[j];
                assert(old(self).wire_list().contains(w));
                let jj = choose|jj: int|
                    0 <= jj < old(self).wire_list().len() && old(self).wire_list()[jj] == w;
                assert(old(self).wire_ok(w));
            }
            assert forall|d: (NodeKey, usize)| #[trigger] self.src_for(d) == (match dir {
                SocketDirection::Input => if d == (node, idx) {
                    None::<(NodeKey, usize)>
                } else {
                    old(self).src_for(d)
                },
                SocketDirection::Output => if old(self).src_for(d) == Some((node, idx)) {
                    None::<(NodeKey, usize)>
                } else {
                    old(self).src_for(d)
                },
            }) by {
                match old(self).src_for(d) {
                    Some(s) => {
                        assert(self.src_for(d) == (if wire_kept(
                            Wire { dst: d, src: s },
                            rule,
                        ) {
                            Some(s)
                        } else {
                            None::<(NodeKey, usize)>
                        }));
                    },
                    None => {},
                }
            }
        }
        Ok(())
    }

    /// A mutable borrow of the node behind a live key, for callers that
    /// drive a node's own state directly. The graph's structure — liveness,
    /// descriptors and wiring — is untouched, whatever the caller writes
    /// through the borrow.
    pub fn get_node_mut(&mut self, node: NodeKey) -> (r: &mut N)
        requires
            old(self).wf(),
            old(self).live(node),
        ensures
            *r == old(self).node_of(node),
            final(self).node_of(node) == *final(r),
            final(self).slot_count() == old(self).slot_count(),
            forall|k2: NodeKey| final(self).live(k2) == old(self).live(k2),
            forall|k2: NodeKey| final(self).retired(k2) == old(self).retired(k2),
            forall|k2: NodeKey|
                old(self).live(k2) ==> final(self).descriptor_of(k2) == old(
                    self,
                ).descriptor_of(k2),
            forall|k2: NodeKey|
                k2 != node && old(self).live(k2) ==> final(self).node_of(k2) == old(
                    self,
                ).node_of(k2),
            final(self).wire_list() == old(self).wire_list(),
    {
        let slot = &mut self.slots[node.idx];
        match &mut slot.entry {
            Some(e) => &mut e.node,
            None => unreached(),
        }
    }
}

impl<N: Node> NodeGraph<N> {
    /// Runs one `process` call on the node behind `node`, handing it
    /// `inputs` and the writable blocks in `outputs`. Nothing of the graph
    /// but that node's own state changes, and the shapes of the output
    /// buffers are kept. For a stale or unknown key nothing at all is
    /// touched and the call reports false.
    pub fn process_node(
        &mut self,
        node: NodeKey,
        inputs: &Vec<Vec<Sample>>,
        outputs: &mut Vec<Vec<Sample>>,
    ) -> (ok: bool)
        requires
            old(self).wf(),
        ensures
            final(self).wf(),
            ok == old(self).live(node),
            final(self).slot_count() == old(self).slot_count(),
            forall|k2: NodeKey| final(self).live(k2) == old(self).live(k2),
            forall|k2: NodeKey| final(self).retired(k2) == old(self).retired(k2),
            forall|k2: NodeKey|
                old(self).live(k2) ==> final(self).descriptor_of(k2) == old(
                    self,
                ).descriptor_of(k2),
            forall|k2: NodeKey|
                k2 != node && old(self).live(k2) ==> final(self).node_of(k2) == old(
                    self,
                ).node_of(k2),
            final(self).wire_list() == old(self).wire_list(),
            forall|d: (NodeKey, usize)|
                #[trigger] final(self).src_for(d) == old(self).src_for(d),
            final(self).sink_of() == old(self).sink_of(),
            ok ==> final(self).node_of(node) == old(self).node_of(node).stepped(
                inputs.deep_view(),
            ),
            ok ==> final(outputs).deep_view() == old(self).node_of(node).processed(
                inputs.deep_view(),
                old(outputs).deep_view(),
            ),
            !ok ==> *final(outputs) == *old(outputs) && *final(self) == *old(self),
            final(outputs)@.len() == old(outputs)@.len(),
            forall|i: int|
                0 <= i < final(outputs)@.len() ==> (#[trigger] final(outputs)@[i])@.len() == old(
                    outputs,
                )@[i]@.len(),
    {
        if node.idx >= self.slots.len() {
            return false;
        }
        if !(self.slots[node.idx].gen == node.gen && self.slots[node.idx].entry.is_some()) {
            return false;
        }
        let ghost old_node = old(self).node_of(node);
        let mut slot = self.slots.remove(node.idx);
        match &mut slot.entry {
            Some(e) => {
                proof {
                    assert(e.node == old_node);
                }
                e.node.process(inputs, outputs);
                proof {
                    old_node.processed_shape(inputs.deep_view(), old(outputs).deep_view());
                }
            },
            None => {
                proof {
                    assert(false);
                }
            },
        }
        self.slots.insert(node.idx, slot);
        proof {
            let idx = node.idx as int;
            let new_entry = Entry {
                node: old_node.stepped(inputs.deep_view()),
                descriptor: old(self).slots@[idx].entry->Some_0.descriptor,
            };
            assert(self.slots@ =~= old(self).slots@.update(
                idx,
                Slot { gen: old(self).slots@[idx].gen, entry: Some(new_entry) },
            ));
            assert(self.slots.len() == self.slots@.len());
            assert forall|k2: NodeKey| final(self).live(k2) == old(self).live(k2) by {}
            assert forall|k2: NodeKey| old(self).live(k2) implies self.descriptor_of(k2) == old(
                self,
            ).descriptor_of(k2) by {}
            Self::lemma_wf_preserved(old(self), self);
            Self::lemma_same_wires_same_src(old(self), self);
            assert forall|i: int| 0 <= i < self.slot_count() implies self.live_at(i) == old(
                self,
            ).live_at(i) && self.key_at(i) == old(self).key_at(i) by {}
            assert forall|i: int| #[trigger] old(self).live_at(i) implies old(
                self,
            ).descriptor_of(old(self).key_at(i)) == self.descriptor_of(self.key_at(i)) by {}
            Self::lemma_same_structure_same_sink(old(self), self);
            assert forall|i: int| 0 <= i < final(outputs)@.len() implies (
            #[trigger] final(outputs)@[i])@.len() == old(outputs)@[i]@.len() by {
                assert(final(outputs).deep_view()[i].len() == old(outputs).deep_view()[i].len());
            }
        }
        true
    }
}

} // verus!
