use vstd::prelude::*;

use crate::graph::{NodeGraph, NodeKey};
use crate::node::Node;
use crate::sample::{copy_block, spec_zero_blocks, zero_block, Sample};

verus! {

/// The three-colour visitation tag of the per-block depth-first walk.
#[derive(Clone, Copy, PartialEq, Eq, Structural, Debug)]
enum DfsState {
    NotVisited,
    Visiting,
    Visited,
}

/// One where a tag still counts towards the work left in a block: only a
/// node never reached in this block remains to be evaluated.
spec fn tag_contrib(t: DfsState) -> nat {
    match t {
        DfsState::NotVisited => 1nat,
        DfsState::Visiting => 0nat,
        DfsState::Visited => 0nat,
    }
}

/// How many nodes of the block are still unvisited: the measure that makes
/// the depth-first walk terminate, cycles and all.
spec fn unvisited_in(tags: Seq<DfsState>) -> nat
    decreases tags.len(),
{
    if tags.len() == 0 {
        0
    } else {
        unvisited_in(tags.drop_last()) + tag_contrib(tags.last())
    }
}

proof fn lemma_unvisited_pointwise_le(s1: Seq<DfsState>, s2: Seq<DfsState>)
    requires
        s1.len() == s2.len(),
        forall|i: int| 0 <= i < s1.len() ==> tag_contrib(s2[i]) <= tag_contrib(s1[i]),
    ensures
        unvisited_in(s2) <= unvisited_in(s1),
    decreases s1.len(),
{
    if s1.len() > 0 {
        lemma_unvisited_pointwise_le(s1.drop_last(), s2.drop_last());
    }
}

proof fn lemma_unvisited_update(s: Seq<DfsState>, i: int, v: DfsState)
    requires
        0 <= i < s.len(),
    ensures
        unvisited_in(s.update(i, v)) == unvisited_in(s) - tag_contrib(s[i]) + tag_contrib(v),
    decreases s.len(),
{
    if i == s.len() - 1 {
        assert(s.update(i, v).drop_last() =~= s.drop_last());
        assert(s.update(i, v).last() == v);
    } else {
        lemma_unvisited_update(s.drop_last(), i, v);
        assert(s.update(i, v).drop_last() =~= s.drop_last().update(i, v));
        assert(s.update(i, v).last() == s.last());
    }
}

/// `rows` fresh zeroed blocks of `len` samples each: the writable output
/// buffers handed to one `process` call.
fn make_blocks(rows: usize, len: usize) -> (m: Vec<Vec<Sample>>)
    ensures
        m@.len() == rows,
        forall|r: int| 0 <= r < rows ==> (#[trigger] m@[r])@.len() == len,
        forall|r: int, j: int|
            0 <= r < rows && 0 <= j < len ==> (#[trigger] m@[r]@[j]) == Sample::spec_zero(),
        m.deep_view() == spec_zero_blocks(rows as int, len as int),
{
    let mut m: Vec<Vec<Sample>> = Vec::new();
    let mut r: usize = 0;
    while r < rows
        invariant
            r <= rows,
            m@.len() == r,
            forall|p: int| 0 <= p < r ==> (#[trigger] m@[p])@.len() == len,
            forall|p: int, j: int|
                0 <= p < r && 0 <= j < len ==> (#[trigger] m@[p]@[j]) == Sample::spec_zero(),
        decreases rows - r,
    {
        m.push(zero_block(len));
        r += 1;
    }
    proof {
        assert(m.deep_view() =~~= spec_zero_blocks(rows as int, len as int));
    }
    m
}

/// Fills the block with zeroes: silence at the final output stage.
fn fill_silence(output: &mut Vec<u32>)
    ensures
        final(output)@.len() == old(output)@.len(),
        forall|i: int| 0 <= i < final(output)@.len() ==> final(output)@[i] == 0,
{
    let n = output.len();
    let mut i: usize = 0;
    while i < n
        invariant
            i <= n,
            n == output@.len(),
            forall|j: int| 0 <= j < i ==> output@[j] == 0,
        decreases n - i,
    {
        output.set(i, 0);
        i += 1;
    }
}

/// The per-block evaluation engine. Per node of the graph it keeps a
/// visitation tag and one cached buffer per output socket, all ancillary
/// state that is rebuilt at the start of every block; discarding an engine
/// never changes what a graph means.
pub struct AudioEngine {
    tags: Vec<DfsState>,
    bufs: Vec<Vec<Vec<Sample>>>,
    zeroes_buf: Vec<Sample>,
    block_size: usize,
}

impl AudioEngine {
    /// The block length of the walk now in progress (or last finished).
    pub closed spec fn block_len(&self) -> int {
        self.block_size as int
    }

    /// How many graph slots the per-node state covers.
    pub closed spec fn states_len(&self) -> int {
        self.tags@.len() as int
    }

    spec fn tag_of(&self, i: int) -> DfsState {
        self.tags@[i]
    }

    /// The cached output buffer of socket `sock` of the node behind `k`,
    /// as of the latest evaluation.
    pub closed spec fn out_buffer(&self, k: NodeKey, sock: int) -> Seq<Sample> {
        self.bufs@[k.idx as int][sock]@
    }

    /// All cached output buffers of the node behind `k`, one per output
    /// socket.
    pub closed spec fn node_buffers(&self, k: NodeKey) -> Seq<Seq<Sample>> {
        Seq::new(self.bufs@[k.idx as int]@.len(), |j: int| self.bufs@[k.idx as int][j]@)
    }

    /// Entry `j` of a node's buffer family is that socket's output buffer.
    pub proof fn lemma_node_buffer_entry(&self, k: NodeKey, j: int)
        requires
            0 <= j < self.node_buffers(k).len(),
        ensures
            self.node_buffers(k)[j] == self.out_buffer(k, j),
    {
    }

    /// The engine state is consistent with the graph: per-node state covers
    /// every slot, and a live node has one buffer per output socket, each
    /// of the current block length.
    pub closed spec fn inv<N>(&self, g: &NodeGraph<N>) -> bool {
        &&& self.tags@.len() == g.slot_count()
        &&& self.bufs@.len() == g.slot_count()
        &&& forall|k: NodeKey|
            g.live(k) ==> (#[trigger] self.bufs@[k.idx as int])@.len() == g.descriptor_of(
                k,
            ).output_sockets.len()
        &&& forall|k: NodeKey, j: int|
            g.live(k) && 0 <= j < self.bufs@[k.idx as int]@.len() ==> (
            #[trigger] self.bufs@[k.idx as int]@[j])@.len() == self.block_len()
        &&& self.zeroes_buf@.len() == self.block_len()
    }

    /// A fresh engine with no per-node state; the first block builds it.
    pub fn new() -> (e: AudioEngine)
        ensures
            e.states_len() == 0,
            e.block_len() == 0,
    {
        AudioEngine { tags: Vec::new(), bufs: Vec::new(), zeroes_buf: Vec::new(), block_size: 0 }
    }

    /// Depth-first evaluation of one node for the current block.
    ///
    /// A node not yet reached is tagged as in progress, its inputs are
    /// resolved and evaluated first (producer before consumer), its
    /// `process` is run once, and its outputs are cached and the node
    /// tagged done. Reaching a node already in progress is a cycle: the
    /// walk does not recurse and the node's buffers stay as they are,
    /// stale or zero but well-defined. A node already done is not rerun.
    fn run_graph_node<N: Node>(&mut self, graph: &mut NodeGraph<N>, node: NodeKey)
        requires
            old(graph).wf(),
            old(graph).live(node),
            old(self).inv(old(graph)),
        ensures
            final(graph).wf(),
            final(self).inv(final(graph)),
            final(self).block_len() == old(self).block_len(),
            final(self).states_len() == old(self).states_len(),
            final(graph).slot_count() == old(graph).slot_count(),
            forall|k2: NodeKey| final(graph).live(k2) == old(graph).live(k2),
            forall|k2: NodeKey|
                old(graph).live(k2) ==> final(graph).descriptor_of(k2) == old(
                    graph,
                ).descriptor_of(k2),
            forall|d: (NodeKey, usize)|
                #[trigger] final(graph).src_for(d) == old(graph).src_for(d),
            final(graph).sink_of() == old(graph).sink_of(),
            forall|i: int|
                0 <= i < old(self).states_len() && !(old(self).tag_of(i) is NotVisited)
                    ==> final(self).tag_of(i) == old(self).tag_of(i),
            forall|i: int|
                0 <= i < old(self).states_len() && old(self).tag_of(i) is NotVisited
                    ==> (final(self).tag_of(i) is NotVisited
                    || final(self).tag_of(i) is Visited),
            unvisited_in(final(self).tags@) <= unvisited_in(old(self).tags@),
            old(self).tag_of(node.idx as int) is NotVisited ==> final(self).tag_of(
                node.idx as int,
            ) is Visited,
            // the buffers of a node already reached in this block are never
            // written again
            forall|i: int|
                0 <= i < old(self).states_len() && !(old(self).tag_of(i) is NotVisited)
                    ==> final(self).bufs@[i] == old(self).bufs@[i],
            // a node is processed only when it transitions out of NotVisited:
            // every other node keeps its value
            forall|k2: NodeKey|
                old(graph).live(k2) && !(old(self).tag_of(k2.idx as int) is NotVisited)
                    ==> final(graph).node_of(k2) == old(graph).node_of(k2),
            forall|k2: NodeKey|
                old(graph).live(k2) && final(self).tag_of(k2.idx as int) is NotVisited
                    ==> final(graph).node_of(k2) == old(graph).node_of(k2),
            // a source-only node evaluated in this call was processed exactly
            // once, on no inputs and freshly zeroed buffers
            forall|k2: NodeKey|
                #![trigger old(graph).live(k2)]
                old(graph).live(k2) && old(self).tag_of(k2.idx as int) is NotVisited
                    && final(self).tag_of(k2.idx as int) is Visited && old(
                    graph,
                ).descriptor_of(k2).input_sockets.len() == 0 ==> final(self).node_buffers(k2)
                    == old(graph).node_of(k2).processed(
                    Seq::empty(),
                    spec_zero_blocks(
                        old(graph).descriptor_of(k2).output_sockets.len() as int,
                        old(self).block_len(),
                    ),
                ) && final(graph).node_of(k2) == old(graph).node_of(k2).stepped(Seq::empty()),
            // every resolved source of this node has been reached by the walk
            old(self).tag_of(node.idx as int) is NotVisited ==> forall|i: usize|
                #![trigger old(graph).src_for((node, i))]
                (i as int) < old(graph).descriptor_of(node).input_sockets.len()
                    ==> match old(graph).src_for((node, i)) {
                        Some(sp) => !(final(self).tag_of(sp.0.idx as int) is NotVisited),
                        None => true,
                    },
        decreases unvisited_in(self.tags@),
    {
        proof {
            graph.lemma_live_at(node);
        }
        let tag = self.tags[node.idx];
        match tag {
            DfsState::Visiting => {
            },
            DfsState::Visited => {
            },
            DfsState::NotVisited => {
                self.tags.set(node.idx, DfsState::Visiting);
                proof {
                    lemma_unvisited_update(
                        old(self).tags@,
                        node.idx as int,
                        DfsState::Visiting,
                    );
                    assert forall|k2: NodeKey|
                        old(graph).live(k2) && old(self).tag_of(
                            k2.idx as int,
                        ) is NotVisited implies !(self.tag_of(k2.idx as int) is Visited) by {
                        old(graph).lemma_live_at(k2);
                        if k2.idx != node.idx {
                            assert(self.tags@[k2.idx as int] == old(self).tags@[
                                k2.idx as int
                            ]);
                        }
                    }
                }
                let nin: usize;
                match graph.node_descriptor(node) {
                    Some(d) => {
                        proof {
                            assert(d@.input_sockets.len() == d.input_sockets@.len());
                        }
                        nin = d.input_sockets.len();
                    },
                    None => {
                        proof {
                            assert(false);
                        }
                        nin = 0;
                    },
                }
                let mut inputs: Vec<Vec<Sample>> = Vec::new();
                let mut i: usize = 0;
                while i < nin
                    invariant
                        i <= nin,
                        old(graph).wf(),
                        old(graph).live(node),
                        old(self).inv(old(graph)),
                        graph.wf(),
                        graph.live(node),
                        self.inv(graph),
                        self.block_len() == old(self).block_len(),
                        self.states_len() == old(self).states_len(),
                        graph.slot_count() == old(graph).slot_count(),
                        forall|k2: NodeKey| graph.live(k2) == old(graph).live(k2),
                        forall|k2: NodeKey|
                            old(graph).live(k2) ==> graph.descriptor_of(k2) == old(
                                graph,
                            ).descriptor_of(k2),
                        forall|d: (NodeKey, usize)|
                            #[trigger] graph.src_for(d) == old(graph).src_for(d),
                        graph.sink_of() == old(graph).sink_of(),
                        0 <= (node.idx as int) < self.states_len(),
                        self.tag_of(node.idx as int) is Visiting,
                        forall|j: int|
                            0 <= j < old(self).states_len() && j != node.idx && !(old(
                                self,
                            ).tag_of(j) is NotVisited) ==> self.tag_of(j) == old(self).tag_of(j),
                        forall|j: int|
                            0 <= j < old(self).states_len() && j != node.idx && old(self).tag_of(
                                j,
                            ) is NotVisited ==> (self.tag_of(j) is NotVisited || self.tag_of(
                                j,
                            ) is Visited),
                        old(self).tag_of(node.idx as int) is NotVisited,
                        unvisited_in(self.tags@) <= unvisited_in(old(self).tags@) - 1,
                        inputs@.len() == i,
                        nin as int == old(graph).descriptor_of(node).input_sockets.len(),
                        graph.node_of(node) == old(graph).node_of(node),
                        forall|j: int|
                            0 <= j < old(self).states_len() && !(old(
                                self,
                            ).tag_of(j) is NotVisited) ==> self.bufs@[j] == old(self).bufs@[j],
                        forall|k2: NodeKey|
                            old(graph).live(k2) && !(old(self).tag_of(
                                k2.idx as int,
                            ) is NotVisited) ==> graph.node_of(k2) == old(graph).node_of(k2),
                        forall|k2: NodeKey|
                            old(graph).live(k2) && self.tag_of(k2.idx as int) is NotVisited
                                ==> graph.node_of(k2) == old(graph).node_of(k2),
                        forall|k2: NodeKey|
                            #![trigger old(graph).live(k2)]
                            old(graph).live(k2) && old(self).tag_of(
                                k2.idx as int,
                            ) is NotVisited && self.tag_of(k2.idx as int) is Visited && old(
                                graph,
                            ).descriptor_of(k2).input_sockets.len() == 0
                                ==> self.node_buffers(k2) == old(graph).node_of(k2).processed(
                                Seq::empty(),
                                spec_zero_blocks(
                                    old(graph).descriptor_of(k2).output_sockets.len() as int,
                                    old(self).block_len(),
                                ),
                            ) && graph.node_of(k2) == old(graph).node_of(k2).stepped(
                                Seq::empty(),
                            ),
                        forall|i2: usize|
                            #![trigger old(graph).src_for((node, i2))]
                            i2 < i ==> match old(graph).src_for((node, i2)) {
                                Some(sp) => !(self.tag_of(sp.0.idx as int) is NotVisited),
                                None => true,
                            },
                    decreases nin - i,
                {
                    match graph.src_for_dest(node, i) {
                        Some((sn, si)) => {
                            proof {
                                graph.lemma_wire_endpoints((node, i));
                                graph.lemma_live_at(sn);
                            }
                            let ghost g_before = *graph;
                            let ghost e_before = *self;
                            let ghost tags_before = self.tags@;
                            self.run_graph_node(graph, sn);
                            proof {
                                assert forall|ii: int| 0 <= ii < tags_before.len() implies
                                    tag_contrib(self.tags@[ii]) <= tag_contrib(
                                    tags_before[ii],
                                ) by {
                                    assert(self.tag_of(ii) == self.tags@[ii]);
                                    assert(e_before.tag_of(ii) == tags_before[ii]);
                                }
                                lemma_unvisited_pointwise_le(tags_before, self.tags@);
                                assert forall|j: int|
                                    0 <= j < old(self).states_len() && !(old(
                                        self,
                                    ).tag_of(j) is NotVisited) implies self.bufs@[j] == old(
                                    self,
                                ).bufs@[j] by {
                                    assert(!(e_before.tag_of(j) is NotVisited));
                                    assert(e_before.bufs@[j] == old(self).bufs@[j]);
                                }
                                assert forall|k2: NodeKey|
                                    old(graph).live(k2) && !(old(self).tag_of(
                                        k2.idx as int,
                                    ) is NotVisited) implies graph.node_of(k2) == old(
                                    graph,
                                ).node_of(k2) by {
                                    old(graph).lemma_live_at(k2);
                                    assert(g_before.live(k2));
                                    assert(!(e_before.tag_of(k2.idx as int) is NotVisited));
                                    assert(g_before.node_of(k2) == old(graph).node_of(k2));
                                }
                                assert forall|k2: NodeKey|
                                    old(graph).live(k2) && self.tag_of(
                                        k2.idx as int,
                                    ) is NotVisited implies graph.node_of(k2) == old(
                                    graph,
                                ).node_of(k2) by {
                                    old(graph).lemma_live_at(k2);
                                    assert(g_before.live(k2));
                                    if e_before.tag_of(k2.idx as int) is NotVisited {
                                        assert(g_before.node_of(k2) == old(graph).node_of(k2));
                                    } else {
                                        assert(self.tag_of(k2.idx as int) == e_before.tag_of(
                                            k2.idx as int,
                                        ));
                                    }
                                }
                                assert forall|k2: NodeKey|
                                    old(graph).live(k2) && old(self).tag_of(
                                        k2.idx as int,
                                    ) is NotVisited && self.tag_of(k2.idx as int) is Visited
                                        && old(graph).descriptor_of(k2).input_sockets.len()
                                        == 0 implies self.node_buffers(k2) == old(
                                    graph,
                                ).node_of(k2).processed(
                                    Seq::empty(),
                                    spec_zero_blocks(
                                        old(graph).descriptor_of(
                                            k2,
                                        ).output_sockets.len() as int,
                                        old(self).block_len(),
                                    ),
                                ) && graph.node_of(k2) == old(graph).node_of(k2).stepped(
                                    Seq::empty(),
                                ) by {
                                    old(graph).lemma_live_at(k2);
                                    assert(g_before.live(k2));
                                    if e_before.tag_of(k2.idx as int) is Visited {
                                        assert(self.bufs@[k2.idx as int] == e_before.bufs@[
                                            k2.idx as int
                                        ]);
                                        assert(self.node_buffers(k2) =~~= e_before.node_buffers(
                                            k2,
                                        ));
                                        assert(graph.node_of(k2) == g_before.node_of(k2));
                                        assert(e_before.node_buffers(k2) == old(
                                            graph,
                                        ).node_of(k2).processed(
                                            Seq::empty(),
                                            spec_zero_blocks(
                                                old(graph).descriptor_of(
                                                    k2,
                                                ).output_sockets.len() as int,
                                                old(self).block_len(),
                                            ),
                                        ));
                                        assert(g_before.node_of(k2) == old(
                                            graph,
                                        ).node_of(k2).stepped(Seq::empty()));
                                    } else if e_before.tag_of(k2.idx as int) is NotVisited {
                                        assert(g_before.node_of(k2) == old(graph).node_of(k2));
                                        assert(g_before.descriptor_of(k2) == old(
                                            graph,
                                        ).descriptor_of(k2));
                                        assert(e_before.block_len() == old(self).block_len());
                                    } else {
                                        assert(self.tag_of(k2.idx as int) == e_before.tag_of(
                                            k2.idx as int,
                                        ));
                                    }
                                }
                                assert forall|i2: usize|
                                    #![trigger old(graph).src_for((node, i2))]
                                    i2 < i + 1 implies match old(graph).src_for((node, i2)) {
                                    Some(sp) => !(self.tag_of(sp.0.idx as int) is NotVisited),
                                    None => true,
                                } by {
                                    match old(graph).src_for((node, i2)) {
                                        Some(sp) => {
                                            old(graph).lemma_wire_endpoints((node, i2));
                                            old(graph).lemma_live_at(sp.0);
                                            if i2 < i {
                                                assert(!(e_before.tag_of(
                                                    sp.0.idx as int,
                                                ) is NotVisited));
                                            } else {
                                                assert(g_before.src_for((node, i2)) == old(
                                                    graph,
                                                ).src_for((node, i2)));
                                                assert(sp == (sn, si));
                                            }
                                        },
                                        None => {},
                                    }
                                }
                            }
                            inputs.push(copy_block(&self.bufs[sn.idx][si]));
                        },
                        None => {
                            inputs.push(copy_block(&self.zeroes_buf));
                        },
                    }
                    i += 1;
                }
                let nout: usize;
                match graph.node_descriptor(node) {
                    Some(d) => {
                        proof {
                            assert(d@.output_sockets.len() == d.output_sockets@.len());
                        }
                        nout = d.output_sockets.len();
                    },
                    None => {
                        proof {
                            assert(false);
                        }
                        nout = 0;
                    },
                }
                let mut outputs: Vec<Vec<Sample>> = make_blocks(nout, self.block_size);
                let ghost g1 = *graph;
                let ok = graph.process_node(node, &inputs, &mut outputs);
                proof {
                    assert(ok);
                }
                let ghost self1 = *self;
                let ghost outs_view = outputs@;
                let ghost outs_deep = outputs.deep_view();
                let ghost ins_deep = inputs.deep_view();
                let ghost tags_mid = self.tags@;
                self.bufs.set(node.idx, outputs);
                self.tags.set(node.idx, DfsState::Visited);
                proof {
                    lemma_unvisited_update(tags_mid, node.idx as int, DfsState::Visited);
                    assert(self1.inv(&g1));
                    assert(outs_view.len() == nout);
                    assert forall|j: int| 0 <= j < outs_view.len() implies (
                    #[trigger] outs_view[j])@.len() == self.block_len() by {}
                    assert forall|k2: NodeKey| graph.live(k2) implies (
                    #[trigger] self.bufs@[k2.idx as int])@.len() == graph.descriptor_of(
                        k2,
                    ).output_sockets.len() by {
                        assert(g1.live(k2));
                        g1.lemma_live_at(k2);
                        if k2.idx != node.idx {
                            assert(self.bufs@[k2.idx as int] == self1.bufs@[k2.idx as int]);
                            assert(self1.bufs@[k2.idx as int]@.len() == g1.descriptor_of(
                                k2,
                            ).output_sockets.len());
                        } else {
                            graph.lemma_live_same_slot(k2, node);
                            assert(self.bufs@[k2.idx as int]@ == outs_view);
                        }
                    }
                    assert forall|k2: NodeKey, j: int|
                        graph.live(k2) && 0 <= j < self.bufs@[k2.idx as int]@.len() implies (
                    #[trigger] self.bufs@[k2.idx as int]@[j])@.len() == self.block_len() by {
                        assert(g1.live(k2));
                        g1.lemma_live_at(k2);
                        if k2.idx != node.idx {
                            assert(self.bufs@[k2.idx as int] == self1.bufs@[k2.idx as int]);
                            assert(self1.bufs@[k2.idx as int]@[j]@.len() == self1.block_len());
                        } else {
                            graph.lemma_live_same_slot(k2, node);
                            assert(self.bufs@[k2.idx as int]@ == outs_view);
                        }
                    }
                    // buffers of nodes already reached at entry are untouched
                    assert forall|j: int|
                        0 <= j < old(self).states_len() && !(old(
                            self,
                        ).tag_of(j) is NotVisited) implies self.bufs@[j] == old(
                        self,
                    ).bufs@[j] by {
                        assert(j != node.idx);
                    }
                    // only this node's value was stepped
                    assert forall|k2: NodeKey|
                        old(graph).live(k2) && !(old(self).tag_of(
                            k2.idx as int,
                        ) is NotVisited) implies graph.node_of(k2) == old(graph).node_of(
                        k2,
                    ) by {
                        old(graph).lemma_live_at(k2);
                        assert(k2.idx != node.idx);
                        assert(k2 != node);
                        assert(g1.live(k2));
                        assert(g1.node_of(k2) == old(graph).node_of(k2));
                        assert(graph.node_of(k2) == g1.node_of(k2));
                    }
                    assert forall|k2: NodeKey|
                        old(graph).live(k2) && self.tag_of(k2.idx as int) is NotVisited
                            implies graph.node_of(k2) == old(graph).node_of(k2) by {
                        old(graph).lemma_live_at(k2);
                        assert(k2.idx != node.idx);
                        assert(k2 != node);
                        assert(g1.live(k2));
                        assert(self.tag_of(k2.idx as int) == self1.tag_of(k2.idx as int));
                        assert(g1.node_of(k2) == old(graph).node_of(k2));
                        assert(graph.node_of(k2) == g1.node_of(k2));
                    }
                    // the source-only clause, for this node and for the nodes
                    // its evaluation reached
                    assert forall|k2: NodeKey|
                        old(graph).live(k2) && old(self).tag_of(k2.idx as int) is NotVisited
                            && self.tag_of(k2.idx as int) is Visited && old(
                            graph,
                        ).descriptor_of(k2).input_sockets.len() == 0 implies self.node_buffers(
                        k2,
                    ) == old(graph).node_of(k2).processed(
                        Seq::empty(),
                        spec_zero_blocks(
                            old(graph).descriptor_of(k2).output_sockets.len() as int,
                            old(self).block_len(),
                        ),
                    ) && graph.node_of(k2) == old(graph).node_of(k2).stepped(Seq::empty()) by {
                        if k2.idx == node.idx {
                            assert(graph.live(k2));
                            graph.lemma_live_same_slot(k2, node);
                            assert(k2 == node);
                            assert(nin == 0);
                            assert(inputs@.len() == 0);
                            assert(ins_deep =~~= Seq::<Seq<Sample>>::empty());
                            assert(self.node_buffers(node) =~~= outs_deep);
                            assert(g1.node_of(node) == old(graph).node_of(node));
                        } else {
                            assert(g1.live(k2));
                            g1.lemma_live_at(k2);
                            assert(self.bufs@[k2.idx as int] == self1.bufs@[k2.idx as int]);
                            assert(self.node_buffers(k2) =~~= self1.node_buffers(k2));
                            assert(self.tag_of(k2.idx as int) == self1.tag_of(k2.idx as int));
                            assert(k2 != node);
                            assert(graph.node_of(k2) == g1.node_of(k2));
                        }
                    }
                    // every resolved source of this node has been reached
                    assert forall|i2: usize|
                        #![trigger old(graph).src_for((node, i2))]
                        (i2 as int) < old(graph).descriptor_of(node).input_sockets.len()
                            implies match old(graph).src_for((node, i2)) {
                            Some(sp) => !(self.tag_of(sp.0.idx as int) is NotVisited),
                            None => true,
                        } by {
                        match old(graph).src_for((node, i2)) {
                            Some(sp) => {
                                old(graph).lemma_wire_endpoints((node, i2));
                                old(graph).lemma_live_at(sp.0);
                                if sp.0.idx == node.idx {
                                } else {
                                    assert(self.tag_of(sp.0.idx as int) == self1.tag_of(
                                        sp.0.idx as int,
                                    ));
                                }
                            },
                            None => {},
                        }
                    }
                }
            },
        }
    }

    /// Evaluates the graph once for a block of `output.len()` samples and
    /// extracts the result into `output`.
    ///
    /// Per-node state is rebuilt and zeroed for the requested length, so
    /// the block length may change from call to call without touching the
    /// nodes. The designated sink is the live zero-output-socket node in
    /// the lowest slot. With no sink in the graph, or a sink whose input
    /// socket is unwired, the block is silence. Otherwise the sink is
    /// evaluated depth-first and the real component of the resolved source
    /// buffer — and only the real component — becomes the output, sample
    /// by sample.
    pub fn run_graph<N: Node>(&mut self, graph: &mut NodeGraph<N>, output: &mut Vec<u32>)
        requires
            old(graph).wf(),
        ensures
            final(graph).wf(),
            final(self).inv(final(graph)),
            final(output)@.len() == old(output)@.len(),
            final(self).block_len() == old(output)@.len(),
            final(graph).slot_count() == old(graph).slot_count(),
            forall|k2: NodeKey| final(graph).live(k2) == old(graph).live(k2),
            forall|k2: NodeKey|
                old(graph).live(k2) ==> final(graph).descriptor_of(k2) == old(
                    graph,
                ).descriptor_of(k2),
            forall|d: (NodeKey, usize)|
                #[trigger] final(graph).src_for(d) == old(graph).src_for(d),
            final(graph).sink_of() == old(graph).sink_of(),
            match old(graph).sink_of() {
                None => forall|i: int|
                    0 <= i < final(output)@.len() ==> final(output)@[i] == 0,
                Some(s) => match old(graph).src_for((s, 0usize)) {
                    None => forall|i: int|
                        0 <= i < final(output)@.len() ==> final(output)@[i] == 0,
                    Some(sp) => {
                        &&& final(self).out_buffer(sp.0, sp.1 as int).len()
                            == final(output)@.len()
                        &&& forall|i: int|
                            0 <= i < final(output)@.len() ==> final(output)@[i]
                                == final(self).out_buffer(sp.0, sp.1 as int)[i].re
                        &&& (old(graph).descriptor_of(sp.0).input_sockets.len() == 0
                            ==> final(self).node_buffers(sp.0) == old(graph).node_of(
                            sp.0,
                        ).processed(
                            Seq::empty(),
                            spec_zero_blocks(
                                old(graph).descriptor_of(sp.0).output_sockets.len() as int,
                                old(output)@.len() as int,
                            ),
                        ))
                    },
                },
            },
    {
        let b = output.len();
        self.block_size = b;
        self.zeroes_buf = zero_block(b);
        let count = graph.num_slots();
        self.tags = Vec::new();
        self.bufs = Vec::new();
        let mut i: usize = 0;
        while i < count
            invariant
                i <= count,
                count as int == graph.slot_count(),
                *graph == *old(graph),
                graph.wf(),
                self.block_size == b,
                self.zeroes_buf@.len() == b,
                self.tags@.len() == i,
                self.bufs@.len() == i,
                forall|j: int| 0 <= j < i ==> self.tags@[j] is NotVisited,
                forall|j: int|
                    0 <= j < i ==> (#[trigger] self.bufs@[j])@.len() == (if graph.live_at(j) {
                        graph.descriptor_of(graph.key_at(j)).output_sockets.len()
                    } else {
                        0
                    }),
                forall|j: int, l: int|
                    0 <= j < i && 0 <= l < self.bufs@[j]@.len() ==> (
                    #[trigger] self.bufs@[j]@[l])@.len() == b,
            decreases count - i,
        {
            let nout = graph.slot_output_count(i);
            self.tags.push(DfsState::NotVisited);
            self.bufs.push(make_blocks(nout, b));
            i += 1;
        }
        proof {
            assert forall|k: NodeKey| graph.live(k) implies (
            #[trigger] self.bufs@[k.idx as int])@.len() == graph.descriptor_of(
                k,
            ).output_sockets.len() by {
                graph.lemma_live_at(k);
            }
            assert forall|k: NodeKey, j: int|
                graph.live(k) && 0 <= j < self.bufs@[k.idx as int]@.len() implies (
            #[trigger] self.bufs@[k.idx as int]@[j])@.len() == self.block_len() by {
                graph.lemma_live_at(k);
            }
            assert(self.inv(graph));
        }
        match graph.find_sink() {
            None => {
                fill_silence(output);
            },
            Some(s) => {
                proof {
                    graph.lemma_sink_of();
                    graph.lemma_live_at(s);
                }
                let ghost e0 = *self;
                self.run_graph_node(graph, s);
                match graph.src_for_dest(s, 0) {
                    None => {
                        fill_silence(output);
                    },
                    Some((sn, si)) => {
                        proof {
                            graph.lemma_wire_endpoints((s, 0usize));
                            graph.lemma_live_at(sn);
                            old(graph).lemma_live_at(sn);
                            assert(old(graph).src_for((s, 0usize)) == Some((sn, si)));
                            assert(e0.tag_of(s.idx as int) is NotVisited);
                            assert(e0.tag_of(sn.idx as int) is NotVisited);
                            assert(!(self.tag_of(sn.idx as int) is NotVisited));
                            assert(self.tag_of(sn.idx as int) is Visited);
                            if old(graph).descriptor_of(sn).input_sockets.len() == 0 {
                                assert(self.node_buffers(sn) == old(graph).node_of(
                                    sn,
                                ).processed(
                                    Seq::empty(),
                                    spec_zero_blocks(
                                        old(graph).descriptor_of(
                                            sn,
                                        ).output_sockets.len() as int,
                                        b as int,
                                    ),
                                ));
                            }
                        }
                        let mut j: usize = 0;
                        while j < b
                            invariant
                                j <= b,
                                output@.len() == b,
                                graph.live(sn),
                                self.inv(graph),
                                (sn.idx as int) < self.bufs@.len(),
                                (si as int) < self.bufs@[sn.idx as int]@.len(),
                                self.bufs@[sn.idx as int]@[si as int]@.len() == b,
                                self.block_len() == b,
                                forall|l: int|
                                    0 <= l < j ==> output@[l] == self.out_buffer(
                                        sn,
                                        si as int,
                                    )[l].re,
                            decreases b - j,
                        {
                            let v = self.bufs[sn.idx][si][j].re;
                            output.set(j, v);
                            j += 1;
                        }
                    },
                }
            },
        }
    }
}

} // verus!
