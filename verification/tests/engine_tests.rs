use quadio::audio::AudioEngine;
use quadio::graph::NodeGraph;
use quadio::node::{ConstantNode, GraphNode, OutputNode, PassthruNode};
use quadio::sample::Sample;

fn run(engine: &mut AudioEngine, graph: &mut NodeGraph<GraphNode>, len: usize) -> Vec<u32> {
    let mut out = vec![0u32; len];
    engine.run_graph(graph, &mut out);
    out
}

#[test]
fn lone_sink_produces_all_zero_blocks_of_any_length() {
    let mut g: NodeGraph<GraphNode> = NodeGraph::new();
    g.add_node(GraphNode::Output(OutputNode));
    let mut engine = AudioEngine::new();

    for len in [0usize, 1, 8, 64, 1024] {
        let out = run(&mut engine, &mut g, len);
        assert_eq!(out.len(), len);
        assert!(out.iter().all(|&v| v == 0));
    }
}

#[test]
fn empty_graph_is_silent() {
    let mut g: NodeGraph<GraphNode> = NodeGraph::new();
    let mut engine = AudioEngine::new();
    let out = run(&mut engine, &mut g, 32);
    assert!(out.iter().all(|&v| v == 0));
}

#[test]
fn unconnected_sink_input_is_silent() {
    let mut g: NodeGraph<GraphNode> = NodeGraph::new();
    g.add_node(GraphNode::Constant(ConstantNode {
        value: Sample { re: 1.0f32.to_bits(), im: 0 },
    }));
    g.add_node(GraphNode::Output(OutputNode));
    // The constant exists but nothing is wired into the sink.
    let mut engine = AudioEngine::new();
    let out = run(&mut engine, &mut g, 16);
    assert!(out.iter().all(|&v| v == 0));
}

#[test]
fn passthru_with_unconnected_input_propagates_default_zero() {
    let mut g: NodeGraph<GraphNode> = NodeGraph::new();
    let a = g.add_node(GraphNode::Passthru(PassthruNode));
    let s = g.add_node(GraphNode::Output(OutputNode));
    g.connect((a, 0), (s, 0)).unwrap();

    // a's own input is unconnected, so it copies the shared zero buffer:
    // the sink sees zeroes, not garbage.
    let mut engine = AudioEngine::new();
    let out = run(&mut engine, &mut g, 16);
    assert_eq!(out.len(), 16);
    assert!(out.iter().all(|&v| v == 0));
}

#[test]
fn cyclic_graph_still_completes_a_block() {
    let mut g: NodeGraph<GraphNode> = NodeGraph::new();
    let a = g.add_node(GraphNode::Passthru(PassthruNode));
    let b = g.add_node(GraphNode::Passthru(PassthruNode));
    let s = g.add_node(GraphNode::Output(OutputNode));
    // a -> b -> a is a cycle; a also feeds the sink.
    g.connect((a, 0), (b, 0)).unwrap();
    g.connect((b, 0), (a, 0)).unwrap();
    g.connect((a, 0), (s, 0)).unwrap();

    let mut engine = AudioEngine::new();
    let out = run(&mut engine, &mut g, 16);
    // The walk terminates and yields a complete block; cyclic nodes carry
    // well-defined (zero) values.
    assert_eq!(out.len(), 16);
    assert!(out.iter().all(|&v| v == 0));
}

#[test]
fn constant_chain_fills_the_block_and_survives_a_length_change() {
    let one = 1.0f32.to_bits();
    let mut g: NodeGraph<GraphNode> = NodeGraph::new();
    let c = g.add_node(GraphNode::Constant(ConstantNode {
        value: Sample { re: one, im: 0 },
    }));
    let s = g.add_node(GraphNode::Output(OutputNode));
    g.connect((c, 0), (s, 0)).unwrap();

    let mut engine = AudioEngine::new();
    let out = run(&mut engine, &mut g, 8);
    assert_eq!(out, vec![one; 8]);

    // Changing the block length mid-session needs no node reinitialisation.
    let out = run(&mut engine, &mut g, 3);
    assert_eq!(out, vec![one; 3]);
}

#[test]
fn imaginary_component_is_discarded_at_the_output_stage() {
    let mut g: NodeGraph<GraphNode> = NodeGraph::new();
    let c = g.add_node(GraphNode::Constant(ConstantNode {
        value: Sample { re: 0.5f32.to_bits(), im: 0.25f32.to_bits() },
    }));
    let s = g.add_node(GraphNode::Output(OutputNode));
    g.connect((c, 0), (s, 0)).unwrap();

    let mut engine = AudioEngine::new();
    let out = run(&mut engine, &mut g, 4);
    assert_eq!(out, vec![0.5f32.to_bits(); 4]);
}

#[test]
fn passthru_chain_carries_the_signal_through() {
    let v = 2.5f32.to_bits();
    let mut g: NodeGraph<GraphNode> = NodeGraph::new();
    let c = g.add_node(GraphNode::Constant(ConstantNode {
        value: Sample { re: v, im: 0 },
    }));
    let a = g.add_node(GraphNode::Passthru(PassthruNode));
    let b = g.add_node(GraphNode::Passthru(PassthruNode));
    let s = g.add_node(GraphNode::Output(OutputNode));
    g.connect((c, 0), (a, 0)).unwrap();
    g.connect((a, 0), (b, 0)).unwrap();
    g.connect((b, 0), (s, 0)).unwrap();

    let mut engine = AudioEngine::new();
    let out = run(&mut engine, &mut g, 6);
    assert_eq!(out, vec![v; 6]);
}

#[test]
fn lowest_slot_zero_output_node_is_the_designated_sink() {
    let one = 1.0f32.to_bits();
    let mut g: NodeGraph<GraphNode> = NodeGraph::new();
    let s1 = g.add_node(GraphNode::Output(OutputNode));
    let s2 = g.add_node(GraphNode::Output(OutputNode));
    let c = g.add_node(GraphNode::Constant(ConstantNode {
        value: Sample { re: one, im: 0 },
    }));
    // Only the second sink is wired; the designated sink is the first, so
    // the block is silence.
    g.connect((c, 0), (s2, 0)).unwrap();
    let mut engine = AudioEngine::new();
    let out = run(&mut engine, &mut g, 4);
    assert!(out.iter().all(|&v| v == 0));

    // Wire the first sink and the signal comes through.
    g.connect((c, 0), (s1, 0)).unwrap();
    let out = run(&mut engine, &mut g, 4);
    assert_eq!(out, vec![one; 4]);
}

#[test]
fn graph_edits_between_blocks_take_effect() {
    let one = 1.0f32.to_bits();
    let two = 2.0f32.to_bits();
    let mut g: NodeGraph<GraphNode> = NodeGraph::new();
    let c1 = g.add_node(GraphNode::Constant(ConstantNode {
        value: Sample { re: one, im: 0 },
    }));
    let s = g.add_node(GraphNode::Output(OutputNode));
    g.connect((c1, 0), (s, 0)).unwrap();

    let mut engine = AudioEngine::new();
    assert_eq!(run(&mut engine, &mut g, 4), vec![one; 4]);

    // Replace the source between blocks.
    let c2 = g.add_node(GraphNode::Constant(ConstantNode {
        value: Sample { re: two, im: 0 },
    }));
    g.connect((c2, 0), (s, 0)).unwrap();
    assert_eq!(run(&mut engine, &mut g, 4), vec![two; 4]);

    // Removing the current source leaves the sink unwired: silence again.
    g.remove_node(c2);
    assert!(run(&mut engine, &mut g, 4).iter().all(|&v| v == 0));
}
