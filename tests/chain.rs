use markov::{Chain, Link, Node, Step, Violation, EPSILON, SCALE};

fn link(next: &str, weight: u64) -> Link {
    Link { next: next.to_string(), weight }
}

fn node(text: &str, links: Vec<Link>) -> Node {
    let mut n = Node::new(text.to_string());
    for l in links {
        n.add_link(l.next, l.weight);
    }
    n
}

/// start ("a": next 0.5, stop 0.5) and next ("b": start 1.0), ending at "stop".
fn two_node_chain() -> Chain {
    let mut c = Chain::new("start".to_string(), "stop".to_string());
    c.insert(
        "start".to_string(),
        node("a", vec![link("next", SCALE / 2), link("stop", SCALE / 2)]),
    );
    c.insert("next".to_string(), node("b", vec![link("start", SCALE)]));
    c
}

fn single_node_chain(weights: Vec<(&str, u64)>) -> Chain {
    let mut c = Chain::new("only".to_string(), "end".to_string());
    let links = weights.into_iter().map(|(t, w)| link(t, w)).collect();
    c.insert("only".to_string(), node("x", links));
    c
}

#[test]
fn it_works() {
    assert!(0.50 + 0.22 + 0.28 == 1.0);
}

#[test]
fn two_node_model_validates() {
    let c = two_node_chain();
    assert_eq!(c.verify(), None);
    assert!(c.validated().is_ok());
}

#[test]
fn draw_past_first_bucket_ends_walk() {
    let c = two_node_chain();
    assert_eq!(c.walk(&vec![600_000_000]), Some("a".to_string()));
}

#[test]
fn walk_through_second_node() {
    let c = two_node_chain();
    assert_eq!(c.walk(&vec![300_000_000, 600_000_000, 600_000_000]), Some("aba".to_string()));
}

#[test]
fn walk_runs_out_of_draws() {
    let c = two_node_chain();
    assert_eq!(c.walk(&vec![300_000_000, 0]), None);
    assert_eq!(c.walk(&vec![]), None);
}

#[test]
fn walk_is_reproducible() {
    let c = two_node_chain();
    let draws = vec![100, 999_999_999, 500_000_001];
    let first = c.walk(&draws);
    assert_eq!(first, Some("aba".to_string()));
    assert_eq!(c.walk(&draws), first);
}

#[test]
fn walk_never_emits_end_name() {
    let mut c = Chain::new("s".to_string(), "E".to_string());
    c.insert("s".to_string(), node("x", vec![link("t", SCALE / 2), link("E", SCALE / 2)]));
    c.insert("t".to_string(), node("y", vec![link("E", SCALE)]));
    assert_eq!(c.verify(), None);
    for r in [0u64, 400_000_000, 500_000_000, 500_000_001, 999_999_999] {
        let out = c.walk(&vec![r, r, 0]).unwrap();
        assert!(!out.contains('E'));
        assert!(out == "x" || out == "xy");
    }
}

#[test]
fn transition_steps() {
    let c = two_node_chain();
    assert_eq!(c.transition(0, 0), Step::Move(1));
    assert_eq!(c.transition(0, SCALE / 2), Step::Move(1));
    assert_eq!(c.transition(0, SCALE / 2 + 1), Step::Finish);
    assert_eq!(c.transition(0, SCALE + 1), Step::Stay);
    assert_eq!(c.transition(1, 5), Step::Move(0));
}

#[test]
fn draw_past_total_weight_stays() {
    let c = single_node_chain(vec![("end", SCALE - EPSILON)]);
    assert_eq!(c.verify(), None);
    assert_eq!(c.transition(0, SCALE - 1), Step::Stay);
    assert_eq!(c.walk(&vec![SCALE - 1, SCALE - 1, 3]), Some("x".to_string()));
}

#[test]
fn generator_feed_yields_walks() {
    let mut it = two_node_chain().into_iter();
    assert_eq!(it.feed(600_000_000), Some("a".to_string()));
    assert_eq!(it.feed(300_000_000), None);
    assert_eq!(it.feed(1), None);
    assert_eq!(it.feed(700_000_000), Some("aba".to_string()));
    assert_eq!(it.feed(700_000_000), Some("a".to_string()));
}

#[test]
fn generator_step_draws_below_scale() {
    // The single link's cumulative weight is SCALE - EPSILON: only draws in
    // SCALE - EPSILON + 1 .. SCALE stay put, one in a million.
    let mut c = Chain::new("start".to_string(), "stop".to_string());
    c.insert("start".to_string(), node("a", vec![link("stop", SCALE - EPSILON)]));
    let mut it = c.into_iter();
    let mut finished = 0;
    for _ in 0..100 {
        if let Some(s) = it.step() {
            assert_eq!(s, "a");
            finished += 1;
        }
    }
    assert!(finished >= 90);
}

#[test]
fn generator_step_walks_end() {
    let mut it = two_node_chain().into_iter();
    let mut done = 0;
    while done < 5 {
        if let Some(s) = it.step() {
            assert!(s.starts_with('a'));
            assert!(s.len() % 2 == 1);
            done += 1;
        }
    }
}

#[test]
fn near_one_sum_validates() {
    let c = single_node_chain(vec![("only", 499_999_000), ("end", 500_000_000)]);
    assert_eq!(c.verify(), None);
    let c = single_node_chain(vec![("end", SCALE + EPSILON)]);
    assert_eq!(c.verify(), None);
}

#[test]
fn sum_of_nine_tenths_is_rejected() {
    let c = single_node_chain(vec![("only", 400_000_000), ("end", 500_000_000)]);
    assert_eq!(c.verify(), Some(Violation::WeightsNotNormalized("only".to_string())));
    let e = c.validated().unwrap_err();
    assert_eq!(e.0, "links in node only do not sum to 1");
}

#[test]
fn sum_just_past_tolerance_is_rejected() {
    let c = single_node_chain(vec![("end", SCALE - EPSILON - 1)]);
    assert!(matches!(c.verify(), Some(Violation::WeightsNotNormalized(_))));
    let c = single_node_chain(vec![("end", SCALE + EPSILON + 1)]);
    assert!(matches!(c.verify(), Some(Violation::WeightsNotNormalized(_))));
    let c = single_node_chain(vec![("end", u64::MAX), ("only", u64::MAX)]);
    assert!(matches!(c.verify(), Some(Violation::WeightsNotNormalized(_))));
}

#[test]
fn missing_start_is_rejected() {
    let mut c = two_node_chain();
    c.start = "nowhere".to_string();
    assert_eq!(c.verify(), Some(Violation::MissingStartNode));
    assert_eq!(c.validated().unwrap_err().0, "start node not found");
}

#[test]
fn empty_model_is_rejected() {
    let c = Chain::new("start".to_string(), "stop".to_string());
    assert_eq!(c.verify(), Some(Violation::MissingStartNode));
}

#[test]
fn defined_end_is_rejected() {
    let mut c = two_node_chain();
    c.end = "next".to_string();
    assert_eq!(c.verify(), Some(Violation::TerminalNodeDefined));
    assert_eq!(c.validated().unwrap_err().0, "non-dummy end node");
}

#[test]
fn dangling_link_is_rejected() {
    let mut c = two_node_chain();
    c.insert("next".to_string(), node("b", vec![link("gone", SCALE)]));
    assert_eq!(
        c.verify(),
        Some(Violation::DanglingLink("next".to_string(), "gone".to_string()))
    );
    assert_eq!(c.validated().unwrap_err().0, "link gone in node next has no definition");
}

#[test]
fn dangling_link_reported_before_weights() {
    let c = single_node_chain(vec![]);
    assert_eq!(c.verify(), Some(Violation::WeightsNotNormalized("only".to_string())));
    let mut c = Chain::new("only".to_string(), "end".to_string());
    c.insert("only".to_string(), node("x", vec![link("gone", 1)]));
    assert_eq!(
        c.verify(),
        Some(Violation::DanglingLink("only".to_string(), "gone".to_string()))
    );
}

#[test]
fn revalidation_is_idempotent() {
    let c = two_node_chain().validated().unwrap();
    assert_eq!(c.verify(), None);
    let c = c.validated().unwrap();
    assert_eq!(c.verify(), None);
}

#[test]
fn insert_replaces_in_place() {
    let mut c = two_node_chain();
    c.insert("start".to_string(), node("z", vec![link("stop", SCALE)]));
    assert_eq!(c.nodes.len(), 2);
    assert_eq!(c.nodes[0].0, "start");
    assert_eq!(c.nodes[0].1.text, "z");
    assert_eq!(c.find(&"next".to_string()), 1);
    assert_eq!(c.find(&"other".to_string()), 2);
}

#[test]
fn violation_messages() {
    assert_eq!(Violation::MissingStartNode.message(), "start node not found");
    assert_eq!(
        Violation::DanglingLink("n".to_string(), "t".to_string()).message(),
        "link t in node n has no definition"
    );
}

#[test]
fn link_order_does_not_depend_on_insertion() {
    let mut c1 = Chain::new("start".to_string(), "stop".to_string());
    c1.insert(
        "start".to_string(),
        node("a", vec![link("next", SCALE / 2), link("stop", SCALE / 2)]),
    );
    c1.insert("next".to_string(), node("b", vec![link("start", SCALE)]));
    let mut c2 = Chain::new("start".to_string(), "stop".to_string());
    c2.insert(
        "start".to_string(),
        node("a", vec![link("stop", SCALE / 2), link("next", SCALE / 2)]),
    );
    c2.insert("next".to_string(), node("b", vec![link("start", SCALE)]));
    assert!(c1.well_formed() && c2.well_formed());
    assert_eq!(c2.nodes[0].1.links[0].next, "next");
    assert_eq!(c1.walk(&vec![300_000_000, 1, 600_000_000]), Some("aba".to_string()));
    assert_eq!(c2.walk(&vec![300_000_000, 1, 600_000_000]), Some("aba".to_string()));
    let mut it1 = c1.into_iter();
    let mut it2 = c2.into_iter();
    assert_eq!(it1.feed(300_000_000), None);
    assert_eq!(it2.feed(300_000_000), None);
    assert_eq!(it1.feed(5), it2.feed(5));
    assert_eq!(it1.feed(600_000_000), Some("aba".to_string()));
    assert_eq!(it2.feed(600_000_000), Some("aba".to_string()));
}

#[test]
fn add_link_sorts_and_replaces() {
    let mut n = Node::new("t".to_string());
    n.add_link("m".to_string(), 1);
    n.add_link("b".to_string(), 2);
    n.add_link("z".to_string(), 3);
    n.add_link("ab".to_string(), 4);
    n.add_link("m".to_string(), 5);
    let got: Vec<(String, u64)> = n.links.iter().map(|l| (l.next.clone(), l.weight)).collect();
    assert_eq!(
        got,
        vec![
            ("ab".to_string(), 4),
            ("b".to_string(), 2),
            ("m".to_string(), 5),
            ("z".to_string(), 3)
        ]
    );
}

#[test]
fn name_order_is_by_character() {
    assert!(markov::name_less(&"a".to_string(), &"b".to_string()));
    assert!(markov::name_less(&"ab".to_string(), &"abc".to_string()));
    assert!(markov::name_less(&"".to_string(), &"a".to_string()));
    assert!(markov::name_less(&"Z".to_string(), &"a".to_string()));
    assert!(!markov::name_less(&"b".to_string(), &"ab".to_string()));
    assert!(!markov::name_less(&"same".to_string(), &"same".to_string()));
}

#[test]
fn well_formed_detects_disorder_and_repeats() {
    assert!(two_node_chain().well_formed());
    let mut c = two_node_chain();
    c.nodes[0].1.links.swap(0, 1);
    assert!(!c.well_formed());
    let mut c = two_node_chain();
    c.nodes[0].1.links[1].next = "next".to_string();
    assert!(!c.well_formed());
    let mut c = two_node_chain();
    c.nodes.push(("start".to_string(), node("c", vec![])));
    assert!(!c.well_formed());
}
