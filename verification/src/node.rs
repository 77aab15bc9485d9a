use vstd::prelude::*;
use vstd::string::StringExecFns;

use crate::sample::Sample;

verus! {

/// The kind of value a socket is declared to carry. Purely descriptive, like
/// the socket label: the engine addresses sockets by index alone.
#[derive(Clone, Copy, PartialEq, Eq, Structural, Debug, Hash)]
pub enum ElementType {
    Float,
    Complex,
}

/// Descriptive data of one input or output pin of a node.
pub struct SocketDescriptor {
    pub label: String,
    pub element_type: ElementType,
}

/// The abstract value of a [`SocketDescriptor`].
#[verifier::ext_equal]
pub struct SocketView {
    pub label: Seq<char>,
    pub element_type: ElementType,
}

impl View for SocketDescriptor {
    type V = SocketView;

    open spec fn view(&self) -> SocketView {
        SocketView { label: self.label@, element_type: self.element_type }
    }
}

/// The socket layout of a node, computed once when the node is added to a
/// graph and cached there. Socket count and order are the addressable
/// identity of a pin; labels are display-only.
pub struct NodeDescriptor {
    pub input_sockets: Vec<SocketDescriptor>,
    pub output_sockets: Vec<SocketDescriptor>,
}

/// The abstract value of a [`NodeDescriptor`].
#[verifier::ext_equal]
pub struct DescriptorView {
    pub input_sockets: Seq<SocketView>,
    pub output_sockets: Seq<SocketView>,
}

impl View for NodeDescriptor {
    type V = DescriptorView;

    open spec fn view(&self) -> DescriptorView {
        DescriptorView {
            input_sockets: self.input_sockets@.map_values(|s: SocketDescriptor| s@),
            output_sockets: self.output_sockets@.map_values(|s: SocketDescriptor| s@),
        }
    }
}

/// The capability contract every processing unit implements: report a socket
/// descriptor, and transform input sample blocks into output sample blocks.
///
/// `process` is handed one read-only block per input socket and one writable
/// block per output socket; it must write only within the blocks it is
/// given, so the shapes of the output buffers are preserved. What a node
/// writes, and how its internal state steps, is pinned down per
/// implementation by `processed` and `stepped`.
pub trait Node: Sized {
    /// The descriptor this node reports when asked.
    spec fn descriptor_view(&self) -> DescriptorView;

    /// The output blocks left behind by one `process` call that was handed
    /// `inputs` and writable buffers holding `prior`.
    spec fn processed(&self, inputs: Seq<Seq<Sample>>, prior: Seq<Seq<Sample>>) -> Seq<Seq<Sample>>;

    /// The node state after one `process` call on `inputs`.
    spec fn stepped(&self, inputs: Seq<Seq<Sample>>) -> Self;

    /// `process` writes only within the buffers it is handed: block count
    /// and block lengths are kept.
    proof fn processed_shape(&self, inputs: Seq<Seq<Sample>>, prior: Seq<Seq<Sample>>)
        ensures
            self.processed(inputs, prior).len() == prior.len(),
            forall|i: int|
                0 <= i < prior.len() ==> (#[trigger] self.processed(inputs, prior)[i]).len()
                    == prior[i].len(),
    ;

    fn get_descriptor(&self) -> (d: NodeDescriptor)
        ensures
            d@ == self.descriptor_view(),
    ;

    fn process(&mut self, inputs: &Vec<Vec<Sample>>, outputs: &mut Vec<Vec<Sample>>)
        ensures
            final(outputs).deep_view() == old(self).processed(
                inputs.deep_view(),
                old(outputs).deep_view(),
            ),
            *final(self) == old(self).stepped(inputs.deep_view()),
    ;
}

/// Builds a descriptor with the given socket labels, every socket carrying
/// complex samples.
fn complex_descriptor(inputs: Vec<&str>, outputs: Vec<&str>) -> (d: NodeDescriptor)
    ensures
        d@.input_sockets.len() == inputs@.len(),
        forall|i: int|
            0 <= i < inputs@.len() ==> #[trigger] d@.input_sockets[i] == (SocketView {
                label: inputs@[i]@,
                element_type: ElementType::Complex,
            }),
        d@.output_sockets.len() == outputs@.len(),
        forall|i: int|
            0 <= i < outputs@.len() ==> #[trigger] d@.output_sockets[i] == (SocketView {
                label: outputs@[i]@,
                element_type: ElementType::Complex,
            }),
{
    let mut input_sockets: Vec<SocketDescriptor> = Vec::new();
    let mut i: usize = 0;
    while i < inputs.len()
        invariant
            i <= inputs@.len(),
            input_sockets@.len() == i,
            forall|j: int|
                0 <= j < i ==> #[trigger] input_sockets@[j]@ == (SocketView {
                    label: inputs@[j]@,
                    element_type: ElementType::Complex,
                }),
        decreases inputs@.len() - i,
    {
        input_sockets.push(
            SocketDescriptor {
                label: String::from_str(inputs[i]),
                element_type: ElementType::Complex,
            },
        );
        i += 1;
    }
    let mut output_sockets: Vec<SocketDescriptor> = Vec::new();
    let mut j: usize = 0;
    while j < outputs.len()
        invariant
            j <= outputs@.len(),
            output_sockets@.len() == j,
            forall|k: int|
                0 <= k < j ==> #[trigger] output_sockets@[k]@ == (SocketView {
                    label: outputs@[k]@,
                    element_type: ElementType::Complex,
                }),
        decreases outputs@.len() - j,
    {
        output_sockets.push(
            SocketDescriptor {
                label: String::from_str(outputs[j]),
                element_type: ElementType::Complex,
            },
        );
        j += 1;
    }
    NodeDescriptor { input_sockets, output_sockets }
}

/// A node that copies its input block to its output block unchanged.
pub struct PassthruNode;

impl Node for PassthruNode {
    open spec fn descriptor_view(&self) -> DescriptorView {
        DescriptorView {
            input_sockets: seq![
                SocketView { label: "In"@, element_type: ElementType::Complex },
            ],
            output_sockets: seq![
                SocketView { label: "Out"@, element_type: ElementType::Complex },
            ],
        }
    }

    open spec fn processed(&self, inputs: Seq<Seq<Sample>>, prior: Seq<Seq<Sample>>) -> Seq<
        Seq<Sample>,
    > {
        if inputs.len() >= 1 && prior.len() >= 1 && inputs[0].len() == prior[0].len() {
            prior.update(0, inputs[0])
        } else {
            prior
        }
    }

    open spec fn stepped(&self, inputs: Seq<Seq<Sample>>) -> PassthruNode {
        *self
    }

    proof fn processed_shape(&self, inputs: Seq<Seq<Sample>>, prior: Seq<Seq<Sample>>) {
    }

    fn get_descriptor(&self) -> (d: NodeDescriptor) {
        let mut ins: Vec<&str> = Vec::new();
        ins.push("In");
        let mut outs: Vec<&str> = Vec::new();
        outs.push("Out");
        let d = complex_descriptor(ins, outs);
        proof {
            assert(d@.input_sockets =~= self.descriptor_view().input_sockets);
            assert(d@.output_sockets =~= self.descriptor_view().output_sockets);
            assert(d@ =~= self.descriptor_view());
        }
        d
    }

    fn process(&mut self, inputs: &Vec<Vec<Sample>>, outputs: &mut Vec<Vec<Sample>>) {
        if inputs.len() >= 1 && outputs.len() >= 1 && inputs[0].len() == outputs[0].len() {
            let blk = crate::sample::copy_block(&inputs[0]);
            outputs.set(0, blk);
        }
        proof {
            assert(outputs.deep_view() =~~= old(self).processed(
                inputs.deep_view(),
                old(outputs).deep_view(),
            ));
        }
    }
}

/// A source node that fills its single output block with a fixed sample.
#[derive(Clone, Copy, PartialEq, Eq, Structural, Debug)]
pub struct ConstantNode {
    pub value: Sample,
}

impl Node for ConstantNode {
    open spec fn descriptor_view(&self) -> DescriptorView {
        DescriptorView {
            input_sockets: Seq::empty(),
            output_sockets: seq![
                SocketView { label: "Out"@, element_type: ElementType::Complex },
            ],
        }
    }

    open spec fn processed(&self, inputs: Seq<Seq<Sample>>, prior: Seq<Seq<Sample>>) -> Seq<
        Seq<Sample>,
    > {
        if prior.len() >= 1 {
            prior.update(0, Seq::new(prior[0].len(), |i: int| self.value))
        } else {
            prior
        }
    }

    open spec fn stepped(&self, inputs: Seq<Seq<Sample>>) -> ConstantNode {
        *self
    }

    proof fn processed_shape(&self, inputs: Seq<Seq<Sample>>, prior: Seq<Seq<Sample>>) {
    }

    fn get_descriptor(&self) -> (d: NodeDescriptor) {
        let ins: Vec<&str> = Vec::new();
        let mut outs: Vec<&str> = Vec::new();
        outs.push("Out");
        let d = complex_descriptor(ins, outs);
        proof {
            assert(d@.input_sockets =~= self.descriptor_view().input_sockets);
            assert(d@.output_sockets =~= self.descriptor_view().output_sockets);
            assert(d@ =~= self.descriptor_view());
        }
        d
    }

    fn process(&mut self, inputs: &Vec<Vec<Sample>>, outputs: &mut Vec<Vec<Sample>>) {
        if outputs.len() >= 1 {
            let n = outputs[0].len();
            let blk = crate::sample::fill_block(n, self.value);
            outputs.set(0, blk);
        }
        proof {
            assert(outputs.deep_view() =~~= old(self).processed(
                inputs.deep_view(),
                old(outputs).deep_view(),
            ));
        }
    }
}

/// What a passthrough node does to the buffers it is handed: when its one
/// input block matches its one output block in length, the output block
/// becomes an exact copy of the input block, and nothing else changes.
pub proof fn lemma_passthru_block(p: PassthruNode, ins: Seq<Seq<Sample>>, prior: Seq<Seq<Sample>>)
    requires
        ins.len() >= 1,
        prior.len() >= 1,
        ins[0].len() == prior[0].len(),
    ensures
        p.processed(ins, prior) == prior.update(0, ins[0]),
{
}

/// What a constant node leaves behind when the engine evaluates it: handed
/// one zeroed output buffer of any block length, every sample of that
/// buffer becomes its configured value. Together with the evaluator's
/// contract this pins the output of a constant wired into the sink.
pub proof fn lemma_constant_block(c: ConstantNode, b: int)
    requires
        b >= 0,
    ensures
        c.processed(Seq::empty(), crate::sample::spec_zero_blocks(1, b)).len() == 1,
        c.processed(Seq::empty(), crate::sample::spec_zero_blocks(1, b))[0] =~= Seq::new(
            b as nat,
            |i: int| c.value,
        ),
{
    let prior = crate::sample::spec_zero_blocks(1, b);
    assert(prior.len() == 1);
    assert(prior[0].len() == b);
}

/// The designated output sink: a single input pin, no output sockets. The
/// engine treats the signal wired into this node as the final output; its
/// own `process` leaves its buffers alone.
pub struct OutputNode;

impl Node for OutputNode {
    open spec fn descriptor_view(&self) -> DescriptorView {
        DescriptorView {
            input_sockets: seq![
                SocketView { label: "Out"@, element_type: ElementType::Complex },
            ],
            output_sockets: Seq::empty(),
        }
    }

    open spec fn processed(&self, inputs: Seq<Seq<Sample>>, prior: Seq<Seq<Sample>>) -> Seq<
        Seq<Sample>,
    > {
        prior
    }

    open spec fn stepped(&self, inputs: Seq<Seq<Sample>>) -> OutputNode {
        *self
    }

    proof fn processed_shape(&self, inputs: Seq<Seq<Sample>>, prior: Seq<Seq<Sample>>) {
    }

    fn get_descriptor(&self) -> (d: NodeDescriptor) {
        let mut ins: Vec<&str> = Vec::new();
        ins.push("Out");
        let outs: Vec<&str> = Vec::new();
        let d = complex_descriptor(ins, outs);
        proof {
            assert(d@.input_sockets =~= self.descriptor_view().input_sockets);
            assert(d@.output_sockets =~= self.descriptor_view().output_sockets);
            assert(d@ =~= self.descriptor_view());
        }
        d
    }

    fn process(&mut self, inputs: &Vec<Vec<Sample>>, outputs: &mut Vec<Vec<Sample>>) {
        proof {
            assert(outputs.deep_view() =~~= old(self).processed(
                inputs.deep_view(),
                old(outputs).deep_view(),
            ));
        }
    }
}

/// The closed set of node implementations shipped with the engine, behind
/// the one capability interface, so that one graph can mix node kinds.
pub enum GraphNode {
    Passthru(PassthruNode),
    Constant(ConstantNode),
    Output(OutputNode),
}

impl Node for GraphNode {
    open spec fn descriptor_view(&self) -> DescriptorView {
        match self {
            GraphNode::Passthru(n) => n.descriptor_view(),
            GraphNode::Constant(n) => n.descriptor_view(),
            GraphNode::Output(n) => n.descriptor_view(),
        }
    }

    open spec fn processed(&self, inputs: Seq<Seq<Sample>>, prior: Seq<Seq<Sample>>) -> Seq<
        Seq<Sample>,
    > {
        match self {
            GraphNode::Passthru(n) => n.processed(inputs, prior),
            GraphNode::Constant(n) => n.processed(inputs, prior),
            GraphNode::Output(n) => n.processed(inputs, prior),
        }
    }

    open spec fn stepped(&self, inputs: Seq<Seq<Sample>>) -> GraphNode {
        match self {
            GraphNode::Passthru(n) => GraphNode::Passthru(n.stepped(inputs)),
            GraphNode::Constant(n) => GraphNode::Constant(n.stepped(inputs)),
            GraphNode::Output(n) => GraphNode::Output(n.stepped(inputs)),
        }
    }

    proof fn processed_shape(&self, inputs: Seq<Seq<Sample>>, prior: Seq<Seq<Sample>>) {
        match self {
            GraphNode::Passthru(n) => n.processed_shape(inputs, prior),
            GraphNode::Constant(n) => n.processed_shape(inputs, prior),
            GraphNode::Output(n) => n.processed_shape(inputs, prior),
        }
    }

    fn get_descriptor(&self) -> (d: NodeDescriptor) {
        match self {
            GraphNode::Passthru(n) => n.get_descriptor(),
            GraphNode::Constant(n) => n.get_descriptor(),
            GraphNode::Output(n) => n.get_descriptor(),
        }
    }

    fn process(&mut self, inputs: &Vec<Vec<Sample>>, outputs: &mut Vec<Vec<Sample>>) {
        match self {
            GraphNode::Passthru(n) => n.process(inputs, outputs),
            GraphNode::Constant(n) => n.process(inputs, outputs),
            GraphNode::Output(n) => n.process(inputs, outputs),
        }
    }
}

} // verus!
