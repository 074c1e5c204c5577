use instar_core::graph::Graph;

fn graph(modules: usize, edges: &[(usize, usize)]) -> Graph {
    Graph {
        modules,
        edges: edges.to_vec(),
    }
}

#[test]
fn empty_graph_has_no_cycles() {
    let empty = Graph::new();
    assert_eq!(empty.modules, 0);
    assert!(empty.cycles().is_empty());
}

#[test]
fn acyclic_requires_have_no_cycles() {
    let chain = graph(4, &[(0, 1), (1, 2), (0, 2), (2, 3)]);
    assert!(chain.cycles().is_empty());
}

#[test]
fn cycles_are_sorted_components_in_order_of_their_smallest_module() {
    let tangled = graph(
        7,
        &[(5, 3), (3, 5), (6, 1), (1, 4), (4, 6), (0, 2), (2, 2), (4, 0)],
    );
    assert_eq!(tangled.cycles(), vec![vec![1, 4, 6], vec![2], vec![3, 5]]);
}

#[test]
fn a_module_requiring_itself_is_a_cycle_but_a_lone_module_is_not() {
    let single = graph(3, &[(1, 1), (0, 2)]);
    assert_eq!(single.cycles(), vec![vec![1]]);
}

#[test]
fn one_large_component_lists_every_module_once() {
    let ring = graph(5, &[(4, 3), (3, 2), (2, 1), (1, 0), (0, 4), (0, 4), (2, 4)]);
    assert_eq!(ring.cycles(), vec![vec![0, 1, 2, 3, 4]]);
}
