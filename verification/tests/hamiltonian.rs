use hamiltonian_perf::{find_hamiltonian, BitSet, GraphBuilder, GraphError, Node};

fn s(x: &str) -> String {
    x.to_string()
}

fn names(xs: &[&str]) -> Vec<String> {
    xs.iter().map(|x| x.to_string()).collect()
}

#[test]
fn bitset_starts_empty() {
    let b = BitSet::new();
    assert_eq!(b.state, 0);
}

#[test]
fn bitset_set_and_unset() {
    let mut b = BitSet::new();
    b.set(3);
    assert_eq!(b.state, 8);
    b.set(3);
    assert_eq!(b.state, 8);
    b.set(0);
    assert_eq!(b.state, 9);
    b.unset(3);
    assert_eq!(b.state, 1);
    b.unset(5);
    assert_eq!(b.state, 1);
}

#[test]
fn node_empty_has_no_neighbours() {
    assert_eq!(Node::empty().0, 0);
}

#[test]
fn unfiltered_size_counts_linked_ids() {
    let mut b = GraphBuilder::default();
    b.link(s("a"), names(&["b"]));
    b.link(s("b"), names(&["a"]));
    b.link(s("d"), names(&[]));
    let g = b.build(None).unwrap();
    assert_eq!(g.size(), 2);
}

#[test]
fn filtered_nodes_stay_inside_the_set() {
    let mut b = GraphBuilder::default();
    b.link(s("a"), names(&["b", "c"]));
    b.link(s("b"), names(&["a"]));
    b.link(s("c"), names(&["d"]));
    b.link(s("d"), names(&["c"]));
    let g = b.build(Some(names(&["a", "b", "c"]))).unwrap();
    // c's only neighbour d is outside the set, so c is dropped entirely.
    assert_eq!(g.size(), 2);
    assert_eq!(g.get_node_idx("a"), Ok(0));
    assert_eq!(g.get_node_idx("b"), Ok(1));
    assert_eq!(g.get_node_idx("c"), Err(GraphError::NodeNotFound));
    assert_eq!(g.get_node_idx("d"), Err(GraphError::NodeNotFound));
    // a kept the neighbour name c, but c did not survive, so no bit for it.
    assert_eq!(g.get_node("a").unwrap().0, 0b10);
    assert_eq!(g.get_node("b").unwrap().0, 0b01);
}

#[test]
fn adjacency_bits_follow_surviving_neighbours() {
    let mut b = GraphBuilder::default();
    b.link(s("a"), names(&["b", "c"]));
    b.link(s("b"), names(&["a", "c"]));
    b.link(s("c"), names(&["a", "b"]));
    let g = b.build(None).unwrap();
    assert_eq!(g.size(), 3);
    assert_eq!(g.get_node("a").unwrap().0, 0b110);
    assert_eq!(g.get_node("b").unwrap().0, 0b101);
    assert_eq!(g.get_node("c").unwrap().0, 0b011);
    assert_eq!(g.get_node_by_index(0).0, 0b110);
}

#[test]
fn duplicate_neighbours_are_harmless() {
    let mut b = GraphBuilder::default();
    b.link(s("a"), names(&["b", "b"]));
    b.link(s("a"), names(&["b"]));
    b.link(s("b"), names(&["a"]));
    let g = b.build(None).unwrap();
    assert_eq!(g.size(), 2);
    assert_eq!(g.get_node("a").unwrap().0, 0b10);
}

#[test]
fn link_appends_to_an_existing_entry() {
    let mut b = GraphBuilder::default();
    b.link(s("a"), names(&["b"]));
    b.link(s("a"), names(&["c"]));
    b.link(s("b"), names(&["a"]));
    b.link(s("c"), names(&["a"]));
    let g = b.build(None).unwrap();
    assert_eq!(g.get_node("a").unwrap().0, 0b110);
}

#[test]
fn triangle_takes_lowest_index_first() {
    let mut b = GraphBuilder::default();
    b.link(s("a"), names(&["b", "c"]));
    b.link(s("b"), names(&["a", "c"]));
    b.link(s("c"), names(&["a", "b"]));
    let g = b.build(None).unwrap();
    let path = find_hamiltonian(&g, "a").unwrap();
    assert_eq!(path, Some(names(&["a", "b", "c"])));
}

#[test]
fn square_cycle_path_is_deterministic() {
    let mut b = GraphBuilder::default();
    b.link(s("a"), names(&["b", "d"]));
    b.link(s("b"), names(&["a", "c"]));
    b.link(s("c"), names(&["b", "d"]));
    b.link(s("d"), names(&["a", "c"]));
    let g = b.build(None).unwrap();
    let path = find_hamiltonian(&g, "a").unwrap();
    assert_eq!(path, Some(names(&["a", "b", "c", "d"])));
}

#[test]
fn disjoint_edges_have_no_hamiltonian_path() {
    let mut b = GraphBuilder::default();
    b.link(s("a"), names(&["b"]));
    b.link(s("b"), names(&["a"]));
    b.link(s("c"), names(&["d"]));
    b.link(s("d"), names(&["c"]));
    let g = b.build(None).unwrap();
    assert_eq!(g.size(), 4);
    assert_eq!(find_hamiltonian(&g, "a").unwrap(), None);
}

#[test]
fn isolated_node_is_dropped() {
    let mut b = GraphBuilder::default();
    b.link(s("a"), names(&[]));
    let g = b.build(None).unwrap();
    assert_eq!(g.size(), 0);
}

#[test]
fn unknown_name_is_node_not_found() {
    let mut b = GraphBuilder::default();
    b.link(s("a"), names(&["b"]));
    b.link(s("b"), names(&["a"]));
    let g = b.build(None).unwrap();
    assert_eq!(g.get_node_idx("z"), Err(GraphError::NodeNotFound));
    assert!(g.get_node("z").is_err());
    assert_eq!(find_hamiltonian(&g, "z"), Err(GraphError::NodeNotFound));
}

#[test]
fn over_capacity_build_fails() {
    let mut b = GraphBuilder::default();
    let count = 65usize;
    for i in 0..count {
        let id = format!("n{}", i);
        let next = format!("n{}", (i + 1) % count);
        b.link(id, vec![next]);
    }
    match b.build(None) {
        Ok(_) => panic!("an over-capacity build must fail"),
        Err(e) => assert_eq!(e, GraphError::CapacityExceeded),
    }
}

#[test]
fn exactly_word_width_nodes_still_build() {
    let mut b = GraphBuilder::default();
    let count = 64usize;
    for i in 0..count {
        let id = format!("n{}", i);
        let next = format!("n{}", (i + 1) % count);
        b.link(id, vec![next]);
    }
    let g = b.build(None).unwrap();
    assert_eq!(g.size(), 64);
}

#[test]
fn index_and_name_round_trip() {
    let mut b = GraphBuilder::default();
    b.link(s("a"), names(&["b", "c"]));
    b.link(s("b"), names(&["a", "c"]));
    b.link(s("c"), names(&["a", "b"]));
    let g = b.build(None).unwrap();
    for i in 0..g.size() {
        let ns = g.get_node_names(&[i]);
        assert_eq!(g.get_node_idx(&ns[0]), Ok(i));
    }
}

#[test]
fn node_names_keep_order() {
    let mut b = GraphBuilder::default();
    b.link(s("a"), names(&["b"]));
    b.link(s("b"), names(&["a"]));
    let g = b.build(None).unwrap();
    assert_eq!(g.get_node_names(&[1, 0, 1]), names(&["b", "a", "b"]));
}

#[test]
fn line_graph_found_only_from_its_ends() {
    let mut b = GraphBuilder::default();
    b.link(s("x0"), names(&["x1"]));
    b.link(s("x1"), names(&["x0", "x2"]));
    b.link(s("x2"), names(&["x1", "x3"]));
    b.link(s("x3"), names(&["x2", "x4"]));
    b.link(s("x4"), names(&["x3"]));
    let g = b.build(None).unwrap();
    assert_eq!(
        find_hamiltonian(&g, "x0").unwrap(),
        Some(names(&["x0", "x1", "x2", "x3", "x4"]))
    );
    assert_eq!(
        find_hamiltonian(&g, "x4").unwrap(),
        Some(names(&["x4", "x3", "x2", "x1", "x0"]))
    );
    assert_eq!(find_hamiltonian(&g, "x2").unwrap(), None);
}

#[test]
fn filter_keeps_first_seen_order() {
    let mut b = GraphBuilder::default();
    b.link(s("p"), names(&["q", "r"]));
    b.link(s("q"), names(&["p"]));
    b.link(s("r"), names(&["p"]));
    let g = b.build(Some(names(&["r", "p"]))).unwrap();
    // Dense indices follow the builder's first-seen order, not the filter's.
    assert_eq!(g.get_node_idx("p"), Ok(0));
    assert_eq!(g.get_node_idx("r"), Ok(1));
    assert_eq!(g.get_node_idx("q"), Err(GraphError::NodeNotFound));
}
