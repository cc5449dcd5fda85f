use protein_graph::decoder::decode_paths;
use protein_graph::{AppErrorType, Interact, PathNode};

fn entity(id: i32, name: &str) -> PathNode {
    PathNode {
        id,
        labels: vec!["owl__Class".to_string()],
        name: Some(name.to_string()),
        score: None,
    }
}

fn annotation(score: &str) -> PathNode {
    PathNode {
        id: 1000,
        labels: vec!["owl__Axiom".to_string()],
        name: None,
        score: Some(score.to_string()),
    }
}

fn annotation_without_score() -> PathNode {
    PathNode { id: 1001, labels: vec!["owl__Axiom".to_string()], name: None, score: None }
}

#[test]
fn path_scenario_one_edge() {
    let paths = vec![vec![entity(1, "P1"), annotation("7"), entity(2, "P2")]];
    let (map, edges) = decode_paths(&paths).unwrap();
    assert_eq!(map.entries.len(), 2);
    assert_eq!(map.entries[0].id, 1);
    assert_eq!(map.entries[0].name, "P1");
    assert_eq!(map.entries[1].id, 2);
    assert_eq!(map.entries[1].name, "P2");
    assert_eq!(edges, vec![Interact { node1: 1, node2: 2, score: 7 }]);
}

#[test]
fn zip_truncates_when_scores_run_out() {
    // entity positions [10, 20, 30], score sequence [5]: one edge only
    let paths = vec![vec![entity(10, "A"), annotation("5"), entity(20, "B"), entity(30, "C")]];
    let (map, edges) = decode_paths(&paths).unwrap();
    assert_eq!(map.entries.len(), 3);
    assert_eq!(edges, vec![Interact { node1: 10, node2: 20, score: 5 }]);
}

#[test]
fn zip_truncates_when_entities_run_out() {
    // two entities leave one gap; the second score is dropped
    let paths = vec![vec![entity(1, "A"), annotation("5"), entity(2, "B"), annotation("6")]];
    let (_, edges) = decode_paths(&paths).unwrap();
    assert_eq!(edges, vec![Interact { node1: 1, node2: 2, score: 5 }]);
}

#[test]
fn non_numeric_score_fails_whole_decode() {
    let good = vec![entity(1, "P1"), annotation("7"), entity(2, "P2")];
    let bad = vec![entity(3, "P3"), annotation("abc"), entity(4, "P4")];
    let err = decode_paths(&vec![good, bad]).unwrap_err();
    assert_eq!(err.kind(), AppErrorType::ScoreParseErr);
    assert_eq!(err.code(), 5);
}

#[test]
fn missing_score_property_fails_decode() {
    let paths = vec![vec![entity(1, "P1"), annotation_without_score(), entity(2, "P2")]];
    let err = decode_paths(&paths).unwrap_err();
    assert_eq!(err.kind(), AppErrorType::ScoreParseErr);
}

#[test]
fn unlabeled_entity_becomes_sentinel() {
    let nameless = PathNode { id: 5, labels: vec![], name: None, score: None };
    let paths = vec![vec![nameless, annotation("3"), entity(2, "P2")]];
    let (map, edges) = decode_paths(&paths).unwrap();
    assert_eq!(map.entries[0].id, -1);
    assert_eq!(map.entries[0].name, "");
    assert_eq!(edges, vec![Interact { node1: -1, node2: 2, score: 3 }]);
}

#[test]
fn repeated_entity_id_coalesces_last_write_wins() {
    let paths = vec![
        vec![entity(1, "old"), annotation("2"), entity(2, "B")],
        vec![entity(1, "new"), annotation("4"), entity(3, "C")],
    ];
    let (map, edges) = decode_paths(&paths).unwrap();
    assert_eq!(map.entries.len(), 3);
    assert_eq!(map.entries[0].id, 1);
    assert_eq!(map.entries[0].name, "new");
    assert_eq!(edges.len(), 2);
    assert_eq!(edges[0], Interact { node1: 1, node2: 2, score: 2 });
    assert_eq!(edges[1], Interact { node1: 1, node2: 3, score: 4 });
}

#[test]
fn decoding_twice_yields_identical_results() {
    let paths = vec![
        vec![entity(1, "P1"), annotation("7"), entity(2, "P2")],
        vec![entity(2, "P2"), annotation("9"), entity(3, "P3")],
    ];
    let (map1, edges1) = decode_paths(&paths).unwrap();
    let (map2, edges2) = decode_paths(&paths).unwrap();
    assert_eq!(edges1, edges2);
    assert_eq!(map1.entries.len(), map2.entries.len());
    for (a, b) in map1.entries.iter().zip(map2.entries.iter()) {
        assert_eq!(a.id, b.id);
        assert_eq!(a.name, b.name);
    }
}

#[test]
fn empty_stream_decodes_to_nothing() {
    let paths: Vec<Vec<PathNode>> = vec![];
    let (map, edges) = decode_paths(&paths).unwrap();
    assert_eq!(map.entries.len(), 0);
    assert!(edges.is_empty());
}
