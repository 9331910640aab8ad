//! Which nodes want a topic.

use std::collections::{BTreeMap, BTreeSet};

use mqtt_hub::ids::{ClientId, NodeId};
use mqtt_hub::interest::InterestIndex;
use mqtt_hub::topic::{topic_matches, valid_filter};

fn node(name: &str) -> NodeId {
    NodeId(name.to_string())
}

fn names(nodes: &[NodeId]) -> BTreeSet<String> {
    nodes.iter().map(|n| n.0.clone()).collect()
}

fn set(items: &[&str]) -> BTreeSet<String> {
    items.iter().map(|s| s.to_string()).collect()
}

fn reference(topic: &str, per_node: &BTreeMap<String, Vec<String>>) -> BTreeSet<String> {
    per_node
        .iter()
        .filter(|(_, fs)| fs.iter().any(|f| topic_matches(f, topic)))
        .map(|(n, _)| n.clone())
        .collect()
}

fn corpus() -> (Vec<String>, Vec<String>) {
    let alphabet = ["a", "b", "+", "#", ""];
    let mut filters: Vec<String> = Vec::new();
    let mut topics: Vec<String> = vec![
        "$SYS/broker".into(),
        "$SYS".into(),
        "a".into(),
        "a/b/c/d".into(),
    ];
    for d1 in alphabet {
        filters.push(d1.to_string());
        topics.push(d1.to_string());
        for d2 in alphabet {
            filters.push(format!("{d1}/{d2}"));
            topics.push(format!("{d1}/{d2}"));
            for d3 in alphabet {
                filters.push(format!("{d1}/{d2}/{d3}"));
                topics.push(format!("{d1}/{d2}/{d3}"));
            }
        }
    }
    filters.retain(|f| valid_filter(f));
    filters.sort();
    filters.dedup();
    (filters, topics)
}

fn spread(filters: &[String]) -> BTreeMap<String, Vec<String>> {
    let mut per_node: BTreeMap<String, Vec<String>> = BTreeMap::new();
    for (i, f) in filters.iter().enumerate() {
        per_node.entry(format!("n{}", i % 4)).or_default().push(f.clone());
    }
    per_node
}

#[test]
fn interest_index_matches_the_linear_scan_it_replaced() {
    let (filters, topics) = corpus();
    let mut per_node = spread(&filters);
    let mut idx = InterestIndex::new();
    for (n, fs) in &per_node {
        idx.replace(node(n), fs.clone());
    }
    for topic in &topics {
        assert_eq!(
            names(&idx.nodes_matching(topic)),
            reference(topic, &per_node),
            "index and linear scan disagree on topic {topic:?}"
        );
    }

    assert!(idx.remove(&node("n1")));
    per_node.remove("n1");
    let keep: Vec<String> = per_node["n2"].iter().take(3).cloned().collect();
    idx.replace(node("n2"), keep.clone());
    per_node.insert("n2".to_string(), keep);

    for topic in &topics {
        assert_eq!(
            names(&idx.nodes_matching(topic)),
            reference(topic, &per_node),
            "after churn, index and linear scan disagree on topic {topic:?}"
        );
    }
}

#[test]
fn matching_into_agrees_with_nodes_matching() {
    let (filters, topics) = corpus();
    let per_node = spread(&filters);
    let mut idx = InterestIndex::new();
    for (n, fs) in &per_node {
        idx.replace(node(n), fs.clone());
    }
    let mut scratch: Vec<ClientId> = Vec::new();
    for topic in &topics {
        idx.matching_into(topic, &mut scratch);
        let fast: BTreeSet<String> = scratch.iter().map(|c| c.as_str().to_string()).collect();
        assert_eq!(
            fast,
            names(&idx.nodes_matching(topic)),
            "matching_into and nodes_matching disagree on topic {topic:?}"
        );
        for n in &fast {
            assert!(
                InterestIndex::contains(&scratch, &node(n)),
                "contains() missed {n:?} on topic {topic:?}"
            );
        }
        assert!(
            !InterestIndex::contains(&scratch, &node("not-a-node")),
            "contains() matched a node that never advertised anything"
        );
    }
}

#[test]
fn matching_into_collapses_a_node_on_overlapping_filters() {
    let mut idx = InterestIndex::new();
    idx.replace(node("n"), vec!["a/#".into(), "a/x".into(), "+/x".into()]);
    let mut out = Vec::new();
    idx.matching_into("a/x", &mut out);
    assert_eq!(out.len(), 1, "three matching filters, one node: {out:?}");
    assert_eq!(out[0].as_str(), "n");
}

#[test]
fn resolving_the_same_interest_twice_mints_no_new_ids() {
    let mut idx = InterestIndex::new();
    idx.replace(node("n0"), vec!["a/#".into()]);
    let (mut a, mut b) = (Vec::new(), Vec::new());
    idx.matching_into("a/x", &mut a);
    idx.matching_into("a/x", &mut b);
    assert_eq!(a.len(), 1);
    assert_eq!(b.len(), 1);
    assert!(
        std::ptr::eq(a[0].0.as_ptr(), b[0].0.as_ptr()),
        "each resolution allocated its own id"
    );
}

#[test]
fn matching_into_clears_the_caller_buffer() {
    let mut idx = InterestIndex::new();
    idx.replace(node("n0"), vec!["a/#".into()]);
    let mut out = Vec::new();
    idx.matching_into("a/x", &mut out);
    assert_eq!(out.len(), 1);
    idx.matching_into("b/x", &mut out);
    assert!(out.is_empty(), "a stale node survived into the next topic");
}

#[test]
fn a_node_with_no_filters_still_has_an_interest_entry() {
    let mut idx = InterestIndex::new();
    let n = node("quiet");
    idx.replace(n.clone(), Vec::new());
    assert!(idx.has_node(&n));
    assert!(idx.nodes_matching("anything").is_empty());
    assert!(idx.remove(&n), "an empty announcement is still an entry");
    assert!(!idx.remove(&n), "removing twice reports no entry");
}

#[test]
fn re_announcing_replaces_the_previous_snapshot() {
    let mut idx = InterestIndex::new();
    let n = node("n");
    idx.replace(n.clone(), vec!["a/#".into(), "b/c".into()]);
    assert_eq!(names(&idx.nodes_matching("b/c")), set(&["n"]));
    idx.replace(n.clone(), vec!["a/#".into()]);
    assert!(
        idx.nodes_matching("b/c").is_empty(),
        "a filter absent from the new snapshot must stop matching"
    );
    assert_eq!(names(&idx.nodes_matching("a/x")), set(&["n"]));
}

#[test]
fn nodes_sharing_a_filter_are_independent() {
    let mut idx = InterestIndex::new();
    let (n1, n2) = (node("n1"), node("n2"));
    idx.replace(n1.clone(), vec!["s/+/t".into()]);
    idx.replace(n2.clone(), vec!["s/+/t".into()]);
    assert_eq!(names(&idx.nodes_matching("s/x/t")), set(&["n1", "n2"]));
    idx.remove(&n1);
    assert_eq!(names(&idx.nodes_matching("s/x/t")), set(&["n2"]));
}

#[test]
fn the_key_of_a_node_is_its_name() {
    assert_eq!(InterestIndex::key(&node("n7")).as_str(), "n7");
}
