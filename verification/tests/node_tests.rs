use quadio::node::{ConstantNode, ElementType, GraphNode, Node, OutputNode, PassthruNode};
use quadio::sample::{copy_block, fill_block, zero_block, Sample};

#[test]
fn passthru_descriptor_has_one_labelled_pin_each_way() {
    let d = PassthruNode.get_descriptor();
    assert_eq!(d.input_sockets.len(), 1);
    assert_eq!(d.output_sockets.len(), 1);
    assert_eq!(d.input_sockets[0].label, "In");
    assert_eq!(d.output_sockets[0].label, "Out");
    assert_eq!(d.input_sockets[0].element_type, ElementType::Complex);
}

#[test]
fn output_descriptor_declares_no_output_sockets() {
    let d = OutputNode.get_descriptor();
    assert_eq!(d.input_sockets.len(), 1);
    assert_eq!(d.output_sockets.len(), 0);
}

#[test]
fn constant_descriptor_declares_a_single_output() {
    let d = ConstantNode { value: Sample { re: 0, im: 0 } }.get_descriptor();
    assert_eq!(d.input_sockets.len(), 0);
    assert_eq!(d.output_sockets.len(), 1);
}

#[test]
fn passthru_process_copies_its_input_block() {
    let mut n = PassthruNode;
    let s = |re: u32| Sample { re, im: 0 };
    let inputs = vec![vec![s(1), s(2), s(3)]];
    let mut outputs = vec![vec![Sample { re: 0, im: 0 }; 3]];
    n.process(&inputs, &mut outputs);
    assert_eq!(outputs[0], vec![s(1), s(2), s(3)]);
}

#[test]
fn constant_process_fills_its_output_block() {
    let v = Sample { re: 42, im: 7 };
    let mut n = ConstantNode { value: v };
    let inputs: Vec<Vec<Sample>> = Vec::new();
    let mut outputs = vec![vec![Sample { re: 0, im: 0 }; 4]];
    n.process(&inputs, &mut outputs);
    assert_eq!(outputs[0], vec![v; 4]);
}

#[test]
fn output_process_leaves_buffers_alone() {
    let mut n = OutputNode;
    let inputs = vec![vec![Sample { re: 9, im: 9 }]];
    let mut outputs: Vec<Vec<Sample>> = Vec::new();
    n.process(&inputs, &mut outputs);
    assert!(outputs.is_empty());
}

#[test]
fn graph_node_dispatches_to_its_variant() {
    let d = GraphNode::Passthru(PassthruNode).get_descriptor();
    assert_eq!(d.input_sockets.len(), 1);
    let d = GraphNode::Output(OutputNode).get_descriptor();
    assert_eq!(d.output_sockets.len(), 0);

    let v = Sample { re: 5, im: 6 };
    let mut n = GraphNode::Constant(ConstantNode { value: v });
    let inputs: Vec<Vec<Sample>> = Vec::new();
    let mut outputs = vec![vec![Sample { re: 0, im: 0 }; 2]];
    n.process(&inputs, &mut outputs);
    assert_eq!(outputs[0], vec![v; 2]);
}

#[test]
fn sample_zero_is_the_all_zero_encoding() {
    let z = Sample::zero();
    assert_eq!(z, Sample { re: 0, im: 0 });
    assert_eq!(f32::from_bits(z.re), 0.0f32);
}

#[test]
fn block_helpers_build_and_copy_blocks() {
    let z = zero_block(5);
    assert_eq!(z.len(), 5);
    assert!(z.iter().all(|&s| s == Sample { re: 0, im: 0 }));

    let v = Sample { re: 3, im: 4 };
    let f = fill_block(2, v);
    assert_eq!(f, vec![v; 2]);

    let c = copy_block(&f);
    assert_eq!(c, f);
}
