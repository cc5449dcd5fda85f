//! The path decoder.
//!
//! A path query returns, per row, an ordered sequence of nodes that
//! alternates (in well-formed data) between entity nodes and
//! score-bearing annotation nodes. Decoding walks each path in order,
//! merges every entity node into the running entity collection, buffers
//! the annotation scores, and then zips consecutive entity positions
//! with the buffered scores into scored edges. A short path truncates
//! the zip silently; an unparsable score fails the whole decode.

use vstd::prelude::*;
use vstd::string::*;

use crate::entity::{
    extract, extracted, ids_of, is_annotation, merged, wf_rows, Entity, EntityMap, EntityRow,
    PathNode,
};
use crate::err::{AppError, AppErrorType};
use crate::parse::{int_literal_val, parse_i32, parses_to_i32};

verus! {

/// A decoded scored edge: the two entity ids it connects, in path
/// order, and the score of the annotation node between them.
#[derive(Clone, Copy, Debug, PartialEq, Eq, Structural)]
pub struct Interact {
    pub node1: i32,
    pub node2: i32,
    pub score: i32,
}

/// The score text an annotation node carries; a missing score property
/// reads as the empty string (which then fails to parse).
pub open spec fn score_text(n: PathNode) -> Seq<char> {
    match n.score {
        Some(s) => s@,
        None => Seq::<char>::empty(),
    }
}

/// The entities extracted from a path's entity nodes, in traversal
/// order.
pub open spec fn path_entities(nodes: Seq<PathNode>) -> Seq<EntityRow>
    decreases nodes.len(),
{
    if nodes.len() == 0 {
        Seq::<EntityRow>::empty()
    } else {
        let rest = path_entities(nodes.drop_last());
        if is_annotation(nodes.last()) {
            rest
        } else {
            rest.push(extracted(nodes.last()))
        }
    }
}

/// The score texts of a path's annotation nodes, in traversal order.
pub open spec fn path_score_texts(nodes: Seq<PathNode>) -> Seq<Seq<char>>
    decreases nodes.len(),
{
    if nodes.len() == 0 {
        Seq::<Seq<char>>::empty()
    } else {
        let rest = path_score_texts(nodes.drop_last());
        if is_annotation(nodes.last()) {
            rest.push(score_text(nodes.last()))
        } else {
            rest
        }
    }
}

/// Every score text is a well-formed in-range integer literal.
pub open spec fn all_scores_parse(texts: Seq<Seq<char>>) -> bool {
    forall|i: int| 0 <= i < texts.len() ==> parses_to_i32(#[trigger] texts[i])
}

/// The parsed values of a sequence of score texts.
pub open spec fn parsed_scores(texts: Seq<Seq<char>>) -> Seq<i32> {
    texts.map_values(|t: Seq<char>| int_literal_val(t) as i32)
}

/// How many edges the zip of entity positions and scores yields: one
/// per consecutive entity pair, as long as scores last.
pub open spec fn edge_count(ids: Seq<i32>, scores: Seq<i32>) -> nat {
    let gaps: nat = if ids.len() == 0 {
        0
    } else {
        (ids.len() - 1) as nat
    };
    if scores.len() <= gaps {
        scores.len()
    } else {
        gaps
    }
}

/// The edges of one path: the i-th score connects the i-th and
/// (i+1)-th entity position; whichever sequence runs out first ends
/// the zip.
pub open spec fn zipped_edges(ids: Seq<i32>, scores: Seq<i32>) -> Seq<Interact> {
    Seq::new(
        edge_count(ids, scores),
        |i: int| Interact { node1: ids[i], node2: ids[i + 1], score: scores[i] },
    )
}

/// Folding a sequence of extracted entities into a row collection, in
/// order.
pub open spec fn merge_rows(s: Seq<EntityRow>, ents: Seq<EntityRow>) -> Seq<EntityRow>
    decreases ents.len(),
{
    if ents.len() == 0 {
        s
    } else {
        merged(merge_rows(s, ents.drop_last()), ents.last().0, ents.last().1)
    }
}

/// The dedup law over a whole sequence of rows: folding any rows —
/// however often they repeat an id — into a well-formed collection
/// keeps every id unique, and each folded id ends up present; with
/// uniqueness, that is exactly one entry per id named by the rows.
pub proof fn lemma_merge_rows_dedup(s: Seq<EntityRow>, ents: Seq<EntityRow>)
    requires
        wf_rows(s),
    ensures
        wf_rows(merge_rows(s, ents)),
        forall|i: int|
            0 <= i < ents.len() ==> ids_of(merge_rows(s, ents)).contains(
                (#[trigger] ents[i]).0,
            ),
    decreases ents.len(),
{
    if ents.len() > 0 {
        lemma_merge_rows_dedup(s, ents.drop_last());
        let prev = merge_rows(s, ents.drop_last());
        let last = ents.last();
        crate::entity::lemma_merge_dedup(prev, last.0, last.1);
        crate::entity::lemma_merged_keeps_ids(prev, last.0, last.1);
        assert forall|i: int| 0 <= i < ents.len() implies ids_of(merge_rows(s, ents)).contains(
            (#[trigger] ents[i]).0,
        ) by {
            if i < ents.len() - 1 {
                assert(ents.drop_last()[i] == ents[i]);
                assert(ids_of(prev).contains(ents[i].0));
            }
        }
    }
}

/// The entity collection decoded from a whole path stream.
pub open spec fn decode_entities(paths: Seq<Vec<PathNode>>) -> Seq<EntityRow>
    decreases paths.len(),
{
    if paths.len() == 0 {
        Seq::<EntityRow>::empty()
    } else {
        merge_rows(decode_entities(paths.drop_last()), path_entities(paths.last()@))
    }
}

/// The edge list decoded from a whole path stream.
pub open spec fn decode_edges(paths: Seq<Vec<PathNode>>) -> Seq<Interact>
    decreases paths.len(),
{
    if paths.len() == 0 {
        Seq::<Interact>::empty()
    } else {
        decode_edges(paths.drop_last()) + zipped_edges(
            ids_of(path_entities(paths.last()@)),
            parsed_scores(path_score_texts(paths.last()@)),
        )
    }
}

/// Every score text of every path in the stream parses.
pub open spec fn stream_scores_parse(paths: Seq<Vec<PathNode>>) -> bool {
    forall|i: int|
        0 <= i < paths.len() ==> all_scores_parse(path_score_texts((#[trigger] paths[i])@))
}

/// Prefixes of a path contribute prefixes of its entities and score
/// texts.
proof fn lemma_path_prefix(nodes: Seq<PathNode>, k: int)
    requires
        0 <= k <= nodes.len(),
    ensures
        path_entities(nodes.subrange(0, k)).is_prefix_of(path_entities(nodes)),
        path_score_texts(nodes.subrange(0, k)).is_prefix_of(path_score_texts(nodes)),
    decreases nodes.len() - k,
{
    if k == nodes.len() {
        assert(nodes.subrange(0, k) =~= nodes);
    } else {
        let p = nodes.subrange(0, k);
        let q = nodes.subrange(0, k + 1);
        assert(q.drop_last() =~= p);
        assert(q.last() == nodes[k]);
        lemma_path_prefix(nodes, k + 1);
    }
}

/// Decode one path into the running entity collection and edge list.
///
/// On success the path's entities are merged in traversal order and
/// its zipped edges are appended; on a score parse failure nothing is
/// changed and the error kind says so.
pub fn decode_path(map: &mut EntityMap, edges: &mut Vec<Interact>, nodes: &Vec<PathNode>) -> (r:
    Result<(), AppError>)
    requires
        old(map).wf(),
    ensures
        match r {
            Ok(_) => {
                &&& all_scores_parse(path_score_texts(nodes@))
                &&& final(map)@ == merge_rows(old(map)@, path_entities(nodes@))
                &&& final(map).wf()
                &&& final(edges)@ == old(edges)@ + zipped_edges(
                    ids_of(path_entities(nodes@)),
                    parsed_scores(path_score_texts(nodes@)),
                )
            },
            Err(e) => {
                &&& !all_scores_parse(path_score_texts(nodes@))
                &&& *final(map) == *old(map)
                &&& *final(edges) == *old(edges)
                &&& e.spec_kind() == AppErrorType::ScoreParseErr
            },
        },
{
    let n = nodes.len();
    let mut ents: Vec<Entity> = Vec::new();
    let mut svals: Vec<i32> = Vec::new();
    let mut k: usize = 0;
    while k < n
        invariant
            n == nodes@.len(),
            0 <= k <= n,
            ents@.map_values(|e: Entity| (e.id, e.name@)) == path_entities(
                nodes@.subrange(0, k as int),
            ),
            all_scores_parse(path_score_texts(nodes@.subrange(0, k as int))),
            svals@ == parsed_scores(path_score_texts(nodes@.subrange(0, k as int))),
        decreases n - k,
    {
        let ghost pre = nodes@.subrange(0, k as int);
        let ghost cur = nodes@.subrange(0, k + 1 as int);
        proof {
            assert(cur.drop_last() =~= pre);
            assert(cur.last() == nodes@[k as int]);
        }
        let node = &nodes[k];
        if node.is_annotation_node() {
            let txt: &str = match &node.score {
                Some(s) => s.as_str(),
                None => "",
            };
            proof {
                reveal_strlit("");
                assert(txt@ == score_text(*node));
            }
            match parse_i32(txt) {
                Some(v) => {
                    svals.push(v);
                    proof {
                        let texts = path_score_texts(cur);
                        assert(texts.drop_last() =~= path_score_texts(pre));
                        assert(svals@ =~= parsed_scores(texts)) by {
                            assert(v as int == int_literal_val(score_text(*node)));
                        }
                    }
                },
                None => {
                    proof {
                        lemma_path_prefix(nodes@, k + 1 as int);
                        let m = path_score_texts(pre).len() as int;
                        assert(path_score_texts(cur)[m] == score_text(*node));
                        assert(path_score_texts(nodes@)[m] == score_text(*node));
                        assert(!all_scores_parse(path_score_texts(nodes@)));
                    }
                    return Err(
                        AppError::new(
                            AppErrorType::ScoreParseErr,
                            String::from_str("annotation score is not an integer"),
                        ),
                    );
                },
            }
        } else {
            let e = extract(node);
            ents.push(e);
            proof {
                assert(ents@.map_values(|e: Entity| (e.id, e.name@)) =~= path_entities(cur));
            }
        }
        k += 1;
        proof {
            assert(nodes@.subrange(0, k as int) =~= cur);
        }
    }
    proof {
        assert(nodes@.subrange(0, n as int) =~= nodes@);
    }
    let ghost rows = path_entities(nodes@);
    let m = ents.len();
    let mut j: usize = 0;
    while j < m
        invariant
            old(map).wf(),
            m == ents@.len(),
            0 <= j <= m,
            ents@.map_values(|e: Entity| (e.id, e.name@)) == rows,
            map.wf(),
            map@ == merge_rows(old(map)@, rows.subrange(0, j as int)),
        decreases m - j,
    {
        let ghost pre = rows.subrange(0, j as int);
        let ghost cur = rows.subrange(0, j + 1 as int);
        proof {
            assert(cur.drop_last() =~= pre);
            assert(cur.last() == rows[j as int]);
            assert(rows[j as int] == (ents@[j as int].id, ents@[j as int].name@));
        }
        let name = ents[j].name.clone();
        let id = ents[j].id;
        map.insert(id, name);
        j += 1;
        proof {
            assert(rows.subrange(0, j as int) =~= cur);
        }
    }
    proof {
        assert(rows.subrange(0, m as int) =~= rows);
    }
    let ghost ids = ids_of(rows);
    let ghost scores = parsed_scores(path_score_texts(nodes@));
    let gaps: usize = if ents.len() == 0 {
        0
    } else {
        ents.len() - 1
    };
    let cnt: usize = if svals.len() <= gaps {
        svals.len()
    } else {
        gaps
    };
    proof {
        assert(ids.len() == rows.len());
        assert(cnt == edge_count(ids, scores));
    }
    let mut t: usize = 0;
    while t < cnt
        invariant
            0 <= t <= cnt,
            cnt == edge_count(ids, scores),
            ents@.map_values(|e: Entity| (e.id, e.name@)) == rows,
            ids == ids_of(rows),
            cnt + 1 <= ents@.len() || cnt == 0,
            cnt <= svals@.len(),
            svals@ == scores,
            edges@ == old(edges)@ + zipped_edges(ids, scores).subrange(0, t as int),
        decreases cnt - t,
    {
        let e = Interact { node1: ents[t].id, node2: ents[t + 1].id, score: svals[t] };
        proof {
            assert(ids[t as int] == rows[t as int].0);
            assert(ids[t + 1 as int] == rows[t + 1 as int].0);
            assert(rows[t as int] == (ents@[t as int].id, ents@[t as int].name@));
            assert(rows[t + 1 as int] == (ents@[t + 1 as int].id, ents@[t + 1 as int].name@));
            assert(e == zipped_edges(ids, scores)[t as int]);
        }
        edges.push(e);
        t += 1;
        proof {
            assert(zipped_edges(ids, scores).subrange(0, t as int) =~= zipped_edges(
                ids,
                scores,
            ).subrange(0, t - 1 as int).push(zipped_edges(ids, scores)[t - 1 as int]));
        }
    }
    proof {
        assert(zipped_edges(ids, scores).subrange(0, cnt as int) =~= zipped_edges(ids, scores));
    }
    Ok(())
}

/// Decode a whole stream of paths into a fresh entity collection and
/// edge list.
///
/// Succeeds exactly when every annotation score in the stream parses;
/// a single bad score fails the whole decode with no partial result.
pub fn decode_paths(paths: &Vec<Vec<PathNode>>) -> (r: Result<(EntityMap, Vec<Interact>), AppError>)
    ensures
        match r {
            Ok(pr) => {
                &&& stream_scores_parse(paths@)
                &&& pr.0@ == decode_entities(paths@)
                &&& pr.0.wf()
                &&& pr.1@ == decode_edges(paths@)
            },
            Err(e) => {
                &&& !stream_scores_parse(paths@)
                &&& e.spec_kind() == AppErrorType::ScoreParseErr
            },
        },
{
    let n = paths.len();
    let mut map = EntityMap::new();
    let mut edges: Vec<Interact> = Vec::new();
    let mut i: usize = 0;
    while i < n
        invariant
            n == paths@.len(),
            0 <= i <= n,
            map.wf(),
            map@ == decode_entities(paths@.subrange(0, i as int)),
            edges@ == decode_edges(paths@.subrange(0, i as int)),
            forall|j: int|
                0 <= j < i ==> all_scores_parse(path_score_texts((#[trigger] paths@[j])@)),
        decreases n - i,
    {
        let ghost pre = paths@.subrange(0, i as int);
        let ghost cur = paths@.subrange(0, i + 1 as int);
        proof {
            assert(cur.drop_last() =~= pre);
            assert(cur.last() == paths@[i as int]);
        }
        match decode_path(&mut map, &mut edges, &paths[i]) {
            Ok(_) => {},
            Err(e) => {
                proof {
                    assert(!all_scores_parse(path_score_texts(paths@[i as int]@)));
                }
                return Err(e);
            },
        }
        i += 1;
        proof {
            assert(paths@.subrange(0, i as int) =~= cur);
        }
    }
    proof {
        assert(paths@.subrange(0, n as int) =~= paths@);
    }
    Ok((map, edges))
}

/// The decode of a path stream is a function of the stream alone: any
/// two results that satisfy the decode relation for the same stream
/// are identical, so decoding twice yields identical entity
/// collections and edge lists.
pub proof fn lemma_decode_deterministic(
    paths: Seq<Vec<PathNode>>,
    m1: Seq<EntityRow>,
    e1: Seq<Interact>,
    m2: Seq<EntityRow>,
    e2: Seq<Interact>,
)
    requires
        m1 == decode_entities(paths),
        e1 == decode_edges(paths),
        m2 == decode_entities(paths),
        e2 == decode_edges(paths),
    ensures
        m1 == m2,
        e1 == e2,
{
}

} // verus!
