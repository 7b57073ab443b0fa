use graph_search::nodes::{example_usage, NodeBuilder};
use graph_search::vertexs::{Adjacency, NWVertexBuilder, NonWeightedAdjacency, Vertex};

#[test]
fn vertex_adjacencies_are_kept_in_order() {
    let mut v: Vertex<&str, NonWeightedAdjacency> = Vertex::new("a");
    assert_eq!(v.value, "a");
    assert!(v.level.is_none());
    assert!(v.adjacencies().is_empty());
    v.add_adjacencies(vec![NonWeightedAdjacency::new(3), NonWeightedAdjacency::new(1)]);
    v.add_adjacencies(vec![NonWeightedAdjacency::new(3)]);
    let targets: Vec<usize> = v.adjacencies().iter().map(|a| a.vertex()).collect();
    assert_eq!(targets, vec![3, 1, 3]);
    assert_eq!(v.get(1).map(|a| a.vertex()), Some(1));
    assert!(v.get(3).is_none());
}

#[test]
fn vertex_remove_keeps_order_of_the_rest() {
    let mut v: Vertex<u8, NonWeightedAdjacency> = Vertex::new(0);
    v.add_adjacencies(vec![NonWeightedAdjacency::new(5), NonWeightedAdjacency::new(6), NonWeightedAdjacency::new(7)]);
    assert_eq!(v.remove(1).map(|a| a.vertex()), Some(6));
    assert!(v.remove(2).is_none());
    let targets: Vec<usize> = v.adjacencies().iter().map(|a| a.vertex()).collect();
    assert_eq!(targets, vec![5, 7]);
}

#[test]
fn non_weighted_adjacency_leads_to_its_vertex() {
    let a = NonWeightedAdjacency::new(4);
    assert_eq!(a.vertex, 4);
    assert_eq!(a.vertex(), 4);
}

#[test]
fn vertex_builder_gathers_value_and_records() {
    let v = NWVertexBuilder::new()
        .adjacency(2)
        .value('x')
        .adjacency(0)
        .adjacencies(vec![NonWeightedAdjacency::new(9)])
        .build();
    assert_eq!(v.value, 'x');
    assert!(v.level.is_none());
    let targets: Vec<usize> = v.adjacencies().iter().map(|a| a.vertex()).collect();
    assert_eq!(targets, vec![2, 0, 9]);
}

#[test]
fn node_builder_sets_value_and_links() {
    let n = NodeBuilder::new().next(3).value(42).prev(1).build();
    assert_eq!(n.value, 42);
    assert_eq!(n.next, Some(3));
    assert_eq!(n.prev, Some(1));
    let m = NodeBuilder::new().value("v").build();
    assert_eq!(m.next, None);
    assert_eq!(m.prev, None);
}

#[test]
fn example_usage_links_one_way() {
    let (a, b, c) = example_usage();
    assert_eq!((a.value, a.next, a.prev), (1, None, None));
    assert_eq!((b.value, b.next, b.prev), (2, Some(0), None));
    assert_eq!((c.value, c.next, c.prev), (3, None, Some(1)));
}
