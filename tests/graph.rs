use graph_traversal::Data;

fn numbers() -> Data<i32> {
    Data::from_lists(vec![
        (1, vec![10, 2, 3, 5, 8]),
        (10, vec![11, 12, 13]),
        (2, vec![4]),
        (3, vec![4]),
        (5, vec![6, 9]),
        (8, vec![9]),
        (11, vec![14, 15]),
        (4, vec![7]),
        (6, vec![7]),
    ])
}

fn letters() -> Data<&'static str> {
    Data::from_pairs(vec![("A", "B"), ("A", "C"), ("B", "D"), ("C", "D"), ("C", "E")])
}

#[test]
fn children_keep_input_order() {
    let data = numbers();
    assert_eq!(data.get_children(&1), Some(vec![10, 2, 3, 5, 8]));
    assert_eq!(data.get_children(&11), Some(vec![14, 15]));
}

#[test]
fn shared_descendants_once_at_shortest_depth() {
    let data = numbers();
    let found = data.descendants_iter(&vec![1]);
    let fours: Vec<_> = found.iter().filter(|(_, l)| *l == 4).collect();
    assert_eq!(fours, vec![&(2, 4)]);
    let sevens: Vec<_> = found.iter().filter(|(_, l)| *l == 7).collect();
    assert_eq!(sevens, vec![&(3, 7)]);
    assert_eq!(found.len(), 14);
    assert_eq!(&found[..5], &[(1, 10), (1, 2), (1, 3), (1, 5), (1, 8)]);
}

#[test]
fn node_count_covers_parents_and_children() {
    assert_eq!(numbers().get_n_nodes(), 15);
    assert_eq!(letters().get_n_nodes(), 5);
}

#[test]
fn leaf_is_present_with_no_children() {
    let data = letters();
    assert_eq!(data.get_children(&"D"), Some(vec![]));
    assert_eq!(data.get_children(&"unknown"), None);
    assert_eq!(data.get_children(&"C"), Some(vec!["D", "E"]));
}

#[test]
fn letters_descendants() {
    let data = letters();
    let found = data.descendants_iter(&vec!["A"]);
    assert_eq!(found, vec![(1, "B"), (1, "C"), (2, "D"), (2, "E")]);
}

#[test]
fn unknown_root_gives_nothing() {
    let data = letters();
    assert!(data.descendants_iter(&vec!["__nonexistent__"]).is_empty());
    assert!(data.descendants_iter(&vec![]).is_empty());
}

#[test]
fn unknown_roots_are_dropped_among_known_ones() {
    let data = letters();
    let found = data.descendants_iter(&vec!["zzz", "C"]);
    assert_eq!(found, vec![(1, "D"), (1, "E")]);
}

#[test]
fn traversal_is_repeatable() {
    let data = numbers();
    let first = data.descendants_iter(&vec![1, 3]);
    let second = data.descendants_iter(&vec![1, 3]);
    assert_eq!(first, second);
}

#[test]
fn roots_are_never_emitted() {
    let data = numbers();
    let found = data.descendants_iter(&vec![2, 4, 1]);
    assert!(found.iter().all(|(_, l)| *l != 2 && *l != 4 && *l != 1));
    // all roots are at depth 0, so 7 (child of 4) comes at depth 1
    assert!(found.contains(&(1, 7)));
}

#[test]
fn cycles_terminate_without_repeats() {
    let data = Data::from_pairs(vec![(1u64, 2u64), (2, 3), (3, 1), (3, 4)]);
    let found = data.descendants_iter(&vec![1]);
    assert_eq!(found, vec![(1, 2), (2, 3), (3, 4)]);
    let looped = data.descendants_iter(&vec![3]);
    assert_eq!(looped, vec![(1, 1), (1, 4), (2, 2)]);
}

#[test]
fn no_label_emitted_twice() {
    let data = numbers();
    let found = data.descendants_iter(&vec![1, 10, 5]);
    let mut labels: Vec<i32> = found.iter().map(|(_, l)| *l).collect();
    let n = labels.len();
    labels.sort();
    labels.dedup();
    assert_eq!(labels.len(), n);
}

#[test]
fn repeated_relation_is_kept_twice() {
    let data = Data::from_pairs(vec![("p", "c"), ("p", "c")]);
    assert_eq!(data.get_children(&"p"), Some(vec!["c", "c"]));
    assert_eq!(data.get_n_nodes(), 2);
    assert_eq!(data.descendants_iter(&vec!["p"]), vec![(1, "c")]);
}

#[test]
fn empty_child_list_parent_is_a_node() {
    let data = Data::from_lists(vec![("x", vec![]), ("y", vec!["z"])]);
    assert_eq!(data.get_children(&"x"), Some(vec![]));
    assert_eq!(data.get_n_nodes(), 3);
}

#[test]
fn list_form_matches_pair_form() {
    let rows = Data::from_lists(vec![("A", vec!["B", "C"]), ("B", vec!["D"]), ("C", vec!["D", "E"])]);
    let pairs = letters();
    for l in ["A", "B", "C", "D", "E", "F"] {
        assert_eq!(rows.get_children(&l), pairs.get_children(&l));
    }
    assert_eq!(rows.get_n_nodes(), pairs.get_n_nodes());
    assert_eq!(rows.descendants_iter(&vec!["A"]), pairs.descendants_iter(&vec!["A"]));
}

#[test]
fn cycle_from_two_roots() {
    let data = Data::from_pairs(vec![("a", "b"), ("b", "c"), ("c", "a"), ("c", "d")]);
    assert_eq!(data.descendants_iter(&vec!["a", "c"]), vec![(1, "b"), (1, "d")]);
    assert_eq!(data.descendants_iter(&vec!["a"]), vec![(1, "b"), (2, "c"), (3, "d")]);
}

#[test]
fn full_breadth_first_sequence() {
    let data = numbers();
    assert_eq!(
        data.descendants_iter(&vec![1]),
        vec![
            (1, 10), (1, 2), (1, 3), (1, 5), (1, 8), (2, 11), (2, 12), (2, 13),
            (2, 4), (2, 6), (2, 9), (3, 14), (3, 15), (3, 7)
        ]
    );
}

#[test]
fn self_loop() {
    let data = Data::from_pairs(vec![(7u32, 7u32)]);
    assert_eq!(data.get_children(&7), Some(vec![7]));
    assert!(data.descendants_iter(&vec![7]).is_empty());
}

#[test]
fn empty_input() {
    let data: Data<u8> = Data::from_pairs(vec![]);
    assert_eq!(data.get_n_nodes(), 0);
    assert_eq!(data.get_children(&0), None);
}
