use similar_images::disjoint_set::DisjointSet;

fn sorted(mut groups: Vec<Vec<&'static str>>) -> Vec<Vec<&'static str>> {
    for group in groups.iter_mut() {
        group.sort();
    }
    groups.sort();
    groups
}

#[test]
fn insert_gives_dense_ids_in_order() {
    let mut ds = DisjointSet::new();
    assert_eq!(ds.insert("a"), 0);
    assert_eq!(ds.insert("b"), 1);
    assert_eq!(ds.insert("c"), 2);
}

#[test]
fn fresh_values_are_their_own_representatives() {
    let mut ds = DisjointSet::new();
    ds.insert("a");
    ds.insert("b");
    assert_eq!(ds.find(&"a"), 0);
    assert_eq!(ds.find(&"b"), 1);
}

#[test]
fn union_attaches_first_root_under_second() {
    let mut ds = DisjointSet::new();
    ds.insert("a");
    ds.insert("b");
    ds.insert("c");
    ds.union(&"a", &"b");
    assert_eq!(ds.find(&"a"), 1);
    assert_eq!(ds.find(&"b"), 1);
    assert_eq!(ds.find(&"c"), 2);
    ds.union(&"b", &"c");
    assert_eq!(ds.find(&"a"), 2);
    assert_eq!(ds.find(&"b"), 2);
    assert_eq!(ds.find(&"c"), 2);
}

#[test]
fn union_within_one_set_changes_nothing() {
    let mut ds = DisjointSet::new();
    ds.insert("a");
    ds.insert("b");
    ds.union(&"a", &"b");
    let root = ds.find(&"a");
    ds.union(&"b", &"a");
    ds.union(&"a", &"a");
    assert_eq!(ds.find(&"a"), root);
    assert_eq!(ds.find(&"b"), root);
}

#[test]
fn find_agrees_exactly_for_connected_values() {
    let mut ds = DisjointSet::new();
    let names = ["a", "b", "c", "d", "e", "f"];
    for name in names {
        ds.insert(name);
    }
    ds.union(&"a", &"b");
    ds.union(&"c", &"d");
    ds.union(&"b", &"d");
    let connected = |x: &str, y: &str| {
        let first = ["a", "b", "c", "d"];
        x == y || (first.contains(&x) && first.contains(&y))
    };
    for x in names {
        for y in names {
            assert_eq!(ds.find(&x) == ds.find(&y), connected(x, y));
        }
    }
}

#[test]
fn partition_does_not_depend_on_union_order() {
    let pairs = [("a", "b"), ("c", "d"), ("b", "c"), ("e", "f")];
    let names = ["a", "b", "c", "d", "e", "f", "g"];
    let mut forward = DisjointSet::new();
    let mut backward = DisjointSet::new();
    for name in names {
        forward.insert(name);
        backward.insert(name);
    }
    for (x, y) in pairs {
        forward.union(&x, &y);
    }
    for (x, y) in pairs.iter().rev() {
        backward.union(y, x);
    }
    for x in names {
        for y in names {
            assert_eq!(
                forward.find(&x) == forward.find(&y),
                backward.find(&x) == backward.find(&y)
            );
        }
    }
    assert_eq!(sorted(forward.into_vec()), sorted(backward.into_vec()));
}

#[test]
fn long_chain_is_found_and_compressed() {
    let mut ds = DisjointSet::new();
    let n: usize = 200;
    for i in 0..n {
        ds.insert(i);
    }
    for i in 0..n - 1 {
        ds.union(&i, &(i + 1));
    }
    for i in 0..n {
        assert_eq!(ds.find(&i), n - 1);
    }
    let groups = ds.into_vec();
    assert_eq!(groups.len(), 1);
    assert_eq!(groups[0], (0..n).collect::<Vec<usize>>());
}

#[test]
fn into_vec_of_empty_set_is_empty() {
    let ds: DisjointSet<u32> = DisjointSet::new();
    assert!(ds.into_vec().is_empty());
}

#[test]
fn into_vec_keeps_singletons() {
    let mut ds = DisjointSet::new();
    ds.insert("a");
    ds.insert("b");
    assert_eq!(ds.into_vec(), vec![vec!["a"], vec!["b"]]);
}

#[test]
fn into_vec_orders_groups_by_first_member() {
    let mut ds = DisjointSet::new();
    for name in ["a", "b", "c", "d", "e"] {
        ds.insert(name);
    }
    ds.union(&"e", &"b");
    ds.union(&"d", &"a");
    assert_eq!(ds.into_vec(), vec![vec!["a", "d"], vec!["b", "e"], vec!["c"]]);
}

#[test]
fn into_vec_is_a_partition_of_the_inserted_values() {
    let mut ds = DisjointSet::new();
    let names = ["p", "q", "r", "s", "t", "u", "v"];
    for name in names {
        ds.insert(name);
    }
    ds.union(&"p", &"r");
    ds.union(&"s", &"t");
    ds.union(&"t", &"v");
    let groups = ds.into_vec();
    let mut all: Vec<&str> = groups.iter().flatten().copied().collect();
    assert_eq!(all.len(), names.len());
    all.sort();
    assert_eq!(all, names.to_vec());
    assert!(groups.iter().all(|group| !group.is_empty()));
    assert_eq!(sorted(groups), vec![vec!["p", "r"], vec!["q"], vec!["s", "t", "v"], vec!["u"]]);
}

#[test]
fn works_with_owned_strings() {
    let mut ds = DisjointSet::new();
    ds.insert(String::from("one"));
    ds.insert(String::from("two"));
    ds.union(&String::from("one"), &String::from("two"));
    assert_eq!(ds.find(&String::from("one")), ds.find(&String::from("two")));
    assert_eq!(ds.into_vec(), vec![vec![String::from("one"), String::from("two")]]);
}
