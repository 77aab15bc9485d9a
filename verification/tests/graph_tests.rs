use quadio::graph::{GraphError, NodeGraph, SocketDirection};
use quadio::node::{ConstantNode, GraphNode, OutputNode, PassthruNode};
use quadio::sample::Sample;

fn passthru() -> GraphNode {
    GraphNode::Passthru(PassthruNode)
}

fn constant(re: u32, im: u32) -> GraphNode {
    GraphNode::Constant(ConstantNode { value: Sample { re, im } })
}

fn sink() -> GraphNode {
    GraphNode::Output(OutputNode)
}

#[test]
fn invariants_hold_after_every_mutation() {
    let mut g: NodeGraph<GraphNode> = NodeGraph::new();
    assert!(g.validate_wires());

    let a = g.add_node(passthru());
    assert!(g.validate_wires());
    let b = g.add_node(passthru());
    assert!(g.validate_wires());
    let s = g.add_node(sink());
    assert!(g.validate_wires());

    g.connect((a, 0), (b, 0)).unwrap();
    assert!(g.validate_wires());
    g.connect((b, 0), (s, 0)).unwrap();
    assert!(g.validate_wires());

    g.disconnect(b, SocketDirection::Input, 0).unwrap();
    assert!(g.validate_wires());

    g.remove_node(a);
    assert!(g.validate_wires());
    g.remove_node(b);
    assert!(g.validate_wires());
    g.remove_node(s);
    assert!(g.validate_wires());
}

#[test]
fn removing_a_node_removes_every_wire_touching_it() {
    let mut g: NodeGraph<GraphNode> = NodeGraph::new();
    let a = g.add_node(passthru());
    let b = g.add_node(passthru());
    let c = g.add_node(passthru());

    // a feeds b, b feeds c: b is touched by wires on both sides.
    g.connect((a, 0), (b, 0)).unwrap();
    g.connect((b, 0), (c, 0)).unwrap();
    assert_eq!(g.wires().len(), 2);

    let removed = g.remove_node(b);
    assert!(removed.is_some());
    assert!(g.validate_wires());
    for w in g.wires() {
        assert_ne!(w.dst.0, b);
        assert_ne!(w.src.0, b);
    }
    assert_eq!(g.wires().len(), 0);
    assert_eq!(g.src_for_dest(c, 0), None);
}

#[test]
fn connect_replaces_prior_source_and_returns_it() {
    let mut g: NodeGraph<GraphNode> = NodeGraph::new();
    let a = g.add_node(passthru());
    let b = g.add_node(passthru());
    let c = g.add_node(passthru());

    assert_eq!(g.connect((a, 0), (c, 0)).unwrap(), None);
    // Reconnecting the same destination replaces the wire and returns the
    // prior source.
    assert_eq!(g.connect((b, 0), (c, 0)).unwrap(), Some((a, 0)));
    assert_eq!(g.src_for_dest(c, 0), Some((b, 0)));
    assert_eq!(g.wires().len(), 1);
}

#[test]
fn one_output_may_fan_out_to_many_destinations() {
    let mut g: NodeGraph<GraphNode> = NodeGraph::new();
    let a = g.add_node(passthru());
    let b = g.add_node(passthru());
    let c = g.add_node(passthru());

    g.connect((a, 0), (b, 0)).unwrap();
    g.connect((a, 0), (c, 0)).unwrap();
    assert_eq!(g.wires().len(), 2);
    assert_eq!(g.src_for_dest(b, 0), Some((a, 0)));
    assert_eq!(g.src_for_dest(c, 0), Some((a, 0)));

    // Disconnecting the shared output removes both wires.
    g.disconnect(a, SocketDirection::Output, 0).unwrap();
    assert_eq!(g.wires().len(), 0);
}

#[test]
fn disconnect_input_removes_only_that_wire() {
    let mut g: NodeGraph<GraphNode> = NodeGraph::new();
    let a = g.add_node(passthru());
    let b = g.add_node(passthru());
    let c = g.add_node(passthru());

    g.connect((a, 0), (b, 0)).unwrap();
    g.connect((a, 0), (c, 0)).unwrap();
    g.disconnect(b, SocketDirection::Input, 0).unwrap();
    assert_eq!(g.src_for_dest(b, 0), None);
    assert_eq!(g.src_for_dest(c, 0), Some((a, 0)));
}

#[test]
fn stale_keys_never_alias_a_later_node() {
    let mut g: NodeGraph<GraphNode> = NodeGraph::new();
    let a = g.add_node(constant(7, 0));
    assert!(g.remove_node(a).is_some());

    // The freed slot may be reused, but the retired key must not name the
    // new occupant.
    let b = g.add_node(constant(9, 0));
    assert_ne!(a, b);
    assert!(g.get_node(a).is_none());
    assert!(g.node_descriptor(a).is_none());
    assert!(g.remove_node(a).is_none());
    assert!(g.get_node(b).is_some());
}

#[test]
fn removing_an_unknown_key_is_a_no_op() {
    let mut g: NodeGraph<GraphNode> = NodeGraph::new();
    let a = g.add_node(passthru());
    let b = g.add_node(passthru());
    g.connect((a, 0), (b, 0)).unwrap();
    g.remove_node(a);
    // Second removal of the same key: nothing happens, nothing returned.
    assert!(g.remove_node(a).is_none());
    assert!(g.validate_wires());
    assert_eq!(g.wires().len(), 0);
}

#[test]
fn connect_rejects_stale_or_unknown_keys() {
    let mut g: NodeGraph<GraphNode> = NodeGraph::new();
    let a = g.add_node(passthru());
    let b = g.add_node(passthru());
    let gone = g.add_node(passthru());
    g.remove_node(gone);

    assert_eq!(g.connect((gone, 0), (b, 0)), Err(GraphError::InvalidKey));
    assert_eq!(g.connect((a, 0), (gone, 0)), Err(GraphError::InvalidKey));
    assert_eq!(g.wires().len(), 0);
}

#[test]
fn connect_rejects_out_of_range_sockets() {
    let mut g: NodeGraph<GraphNode> = NodeGraph::new();
    let a = g.add_node(passthru());
    let b = g.add_node(passthru());

    // Passthru has exactly one output and one input socket.
    assert_eq!(g.connect((a, 1), (b, 0)), Err(GraphError::InvalidSocket));
    assert_eq!(g.connect((a, 0), (b, 1)), Err(GraphError::InvalidSocket));
    // A sink has no output socket at all.
    let s = g.add_node(sink());
    assert_eq!(g.connect((s, 0), (b, 0)), Err(GraphError::InvalidSocket));
    assert_eq!(g.wires().len(), 0);
}

#[test]
fn disconnect_rejects_bad_key_and_bad_socket() {
    let mut g: NodeGraph<GraphNode> = NodeGraph::new();
    let a = g.add_node(passthru());
    let gone = g.add_node(passthru());
    g.remove_node(gone);

    assert_eq!(
        g.disconnect(gone, SocketDirection::Input, 0),
        Err(GraphError::InvalidKey)
    );
    assert_eq!(
        g.disconnect(a, SocketDirection::Input, 1),
        Err(GraphError::InvalidSocket)
    );
    assert_eq!(
        g.disconnect(a, SocketDirection::Output, 1),
        Err(GraphError::InvalidSocket)
    );
    assert!(g.disconnect(a, SocketDirection::Input, 0).is_ok());
}

#[test]
fn get_node_reads_the_stored_node() {
    let mut g: NodeGraph<GraphNode> = NodeGraph::new();
    let c = g.add_node(constant(11, 12));
    match g.get_node(c) {
        Some(GraphNode::Constant(n)) => {
            assert_eq!(n.value, Sample { re: 11, im: 12 });
        }
        _ => panic!("expected the constant node back"),
    }
}

#[test]
fn get_node_mut_writes_the_stored_node() {
    let mut g: NodeGraph<GraphNode> = NodeGraph::new();
    let c = g.add_node(constant(1, 0));
    if g.get_node(c).is_some() {
        *g.get_node_mut(c) = constant(2, 0);
    }
    match g.get_node(c) {
        Some(GraphNode::Constant(n)) => assert_eq!(n.value, Sample { re: 2, im: 0 }),
        _ => panic!("expected the constant node back"),
    }
}

#[test]
fn nodes_enumerates_each_live_node_once() {
    let mut g: NodeGraph<GraphNode> = NodeGraph::new();
    let a = g.add_node(passthru());
    let b = g.add_node(sink());
    let c = g.add_node(constant(1, 2));
    g.remove_node(b);

    let keys = g.nodes();
    assert_eq!(keys.len(), 2);
    assert!(keys.contains(&a));
    assert!(keys.contains(&c));
    assert!(!keys.contains(&b));
}

#[test]
fn node_descriptor_reports_the_cached_layout() {
    let mut g: NodeGraph<GraphNode> = NodeGraph::new();
    let a = g.add_node(passthru());
    let s = g.add_node(sink());
    let c = g.add_node(constant(0, 0));

    let d = g.node_descriptor(a).unwrap();
    assert_eq!(d.input_sockets.len(), 1);
    assert_eq!(d.output_sockets.len(), 1);
    assert_eq!(d.input_sockets[0].label, "In");
    assert_eq!(d.output_sockets[0].label, "Out");

    let d = g.node_descriptor(s).unwrap();
    assert_eq!(d.input_sockets.len(), 1);
    assert_eq!(d.output_sockets.len(), 0);
    assert_eq!(d.input_sockets[0].label, "Out");

    let d = g.node_descriptor(c).unwrap();
    assert_eq!(d.input_sockets.len(), 0);
    assert_eq!(d.output_sockets.len(), 1);
}

#[test]
fn wires_lists_every_edge_by_destination() {
    let mut g: NodeGraph<GraphNode> = NodeGraph::new();
    let a = g.add_node(passthru());
    let b = g.add_node(passthru());
    let s = g.add_node(sink());
    g.connect((a, 0), (b, 0)).unwrap();
    g.connect((b, 0), (s, 0)).unwrap();

    let ws = g.wires();
    assert_eq!(ws.len(), 2);
    assert!(ws.iter().any(|w| w.src == (a, 0) && w.dst == (b, 0)));
    assert!(ws.iter().any(|w| w.src == (b, 0) && w.dst == (s, 0)));
}
