use protein_graph::api::{
    harvest_node_pairs, set_entities, ProteinArgs, ProteinScoreArgs, ProteinSetArgs,
};
use protein_graph::prober::{confirmed_relations, select_probe_pairs};
use protein_graph::{EntityMap, PathNode};

fn node(id: i32, name: &str) -> PathNode {
    PathNode {
        id,
        labels: vec!["owl__Class".to_string()],
        name: Some(name.to_string()),
        score: None,
    }
}

#[test]
fn repeated_rows_for_one_id_leave_one_entry() {
    let mut m = EntityMap::new();
    m.insert(7, "first".to_string());
    m.insert(7, "second".to_string());
    m.insert(7, "third".to_string());
    assert_eq!(m.len(), 1);
    assert_eq!(m.entity_at(0).id, 7);
    assert_eq!(m.entity_at(0).name, "third");
    assert_eq!(m.get_name(7), Some(&"third".to_string()));
    assert_eq!(m.get_name(8), None);
    m.insert(8, "other".to_string());
    assert_eq!(m.len(), 2);
    assert_eq!(m.get_name(8), Some(&"other".to_string()));
}

#[test]
fn probe_plan_counts_each_unordered_pair_once() {
    let mut m = EntityMap::new();
    for (id, name) in [(1, "A"), (2, "B"), (3, "C"), (4, "D")] {
        m.insert(id, name.to_string());
    }
    let pairs = select_probe_pairs(&m);
    // 4 entities: 4 * 3 / 2 probes
    assert_eq!(pairs.len(), 6);
    for &(a, b) in &pairs {
        assert_ne!(a, b);
        assert!(m.entity_at(a).id > m.entity_at(b).id);
    }
    // each unordered index pair appears exactly once, in row-major order
    assert_eq!(pairs, vec![(1, 0), (2, 0), (2, 1), (3, 0), (3, 1), (3, 2)]);
}

#[test]
fn probe_plan_for_one_entity_is_empty() {
    let mut m = EntityMap::new();
    m.insert(1, "A".to_string());
    assert!(select_probe_pairs(&m).is_empty());
}

#[test]
fn neighborhood_scenario_confirms_expected_relations() {
    // three entities A(1), B(2), C(3) harvested from a neighborhood query
    let rows = vec![(node(1, "A"), node(2, "B")), (node(3, "C"), node(1, "A"))];
    let m = harvest_node_pairs(&rows);
    assert_eq!(m.len(), 3);
    assert_eq!((m.entity_at(0).id, m.entity_at(0).name.as_str()), (1, "A"));
    assert_eq!((m.entity_at(1).id, m.entity_at(1).name.as_str()), (2, "B"));
    assert_eq!((m.entity_at(2).id, m.entity_at(2).name.as_str()), (3, "C"));

    let pairs = select_probe_pairs(&m);
    assert_eq!(pairs, vec![(1, 0), (2, 0), (2, 1)]);
    // probes: (2,1) related, (3,1) related, (3,2) not
    let results = vec![true, true, false];
    let rels = confirmed_relations(&m, &pairs, &results);
    assert_eq!(rels, vec![(2, 1), (3, 1)]);
    assert_eq!(m.get_name(1), Some(&"A".to_string()));
    assert_eq!(m.get_name(2), Some(&"B".to_string()));
    assert_eq!(m.get_name(3), Some(&"C".to_string()));
}

#[test]
fn all_false_probes_confirm_nothing() {
    let mut m = EntityMap::new();
    m.insert(5, "A".to_string());
    m.insert(9, "B".to_string());
    let pairs = select_probe_pairs(&m);
    assert_eq!(pairs, vec![(1, 0)]);
    let rels = confirmed_relations(&m, &pairs, &vec![false]);
    assert!(rels.is_empty());
}

#[test]
fn set_entities_numbers_names_in_order() {
    let names = vec!["alpha".to_string(), "beta".to_string(), "gamma".to_string()];
    let m = set_entities(&names);
    assert_eq!(m.len(), 3);
    for i in 0..3 {
        assert_eq!(m.entity_at(i).id, i as i32);
        assert_eq!(m.entity_at(i).name, names[i]);
    }
    // positions are the ids, so the plan pairs every pair once
    let pairs = select_probe_pairs(&m);
    assert_eq!(pairs, vec![(1, 0), (2, 0), (2, 1)]);
}

#[test]
fn limits_default_as_documented() {
    let a = ProteinArgs { name: "x".to_string(), limit: None };
    assert_eq!(a.effective_limit(), 10);
    let a = ProteinArgs { name: "x".to_string(), limit: Some(3) };
    assert_eq!(a.effective_limit(), 3);
    let s = ProteinScoreArgs { score: 800, limit: None };
    assert_eq!(s.effective_limit(), 15);
    let s = ProteinScoreArgs { score: 800, limit: Some(40) };
    assert_eq!(s.effective_limit(), 40);
}

#[test]
fn set_args_split_on_commas() {
    let args = ProteinSetArgs { proteins: "TP53,BRCA1,EGFR".to_string() };
    assert_eq!(args.names(), vec!["TP53", "BRCA1", "EGFR"]);
    let args = ProteinSetArgs { proteins: "one".to_string() };
    assert_eq!(args.names(), vec!["one"]);
    let args = ProteinSetArgs { proteins: String::new() };
    assert_eq!(args.names(), vec![""]);
    let args = ProteinSetArgs { proteins: "a,,b,".to_string() };
    assert_eq!(args.names(), vec!["a", "", "b", ""]);
}

#[test]
fn harvest_keeps_sentinel_for_unlabeled_node() {
    let unlabeled = PathNode { id: 77, labels: vec![], name: None, score: None };
    let rows = vec![(unlabeled, node(2, "B"))];
    let m = harvest_node_pairs(&rows);
    assert_eq!(m.len(), 2);
    assert_eq!(m.entity_at(0).id, -1);
    assert_eq!(m.entity_at(0).name, "");
}
