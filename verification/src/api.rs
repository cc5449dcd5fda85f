//! Request arguments and response payloads of the public operations,
//! plus the assembly step that harvests entities from a neighborhood
//! query's rows.
//!
//! The surrounding application parses requests and serializes
//! responses; the types here are the plain shapes the engine computes.

use vstd::prelude::*;

use crate::decoder::Interact;
use crate::entity::{extracted, merged, EntityMap, EntityRow, PathNode};

verus! {

/// Response of the neighborhood and protein-set operations: the
/// deduplicated entities and the confirmed unscored relations.
#[derive(Debug)]
pub struct ProteinResp {
    pub protein_names: EntityMap,
    pub relate: Vec<(i32, i32)>,
}

/// Response of the path operations: the deduplicated entities and the
/// decoded scored edges.
#[derive(Debug)]
pub struct ProteinPathResp {
    pub protein_names: EntityMap,
    pub rels: Vec<Interact>,
}

/// Arguments of the neighborhood operation.
#[derive(Debug)]
pub struct ProteinArgs {
    pub name: String,
    pub limit: Option<i32>,
}

impl ProteinArgs {
    /// The row limit to use: the caller's, or 10 when absent.
    pub fn effective_limit(&self) -> (r: i32)
        ensures
            r == match self.limit {
                Some(l) => l,
                None => 10i32,
            },
    {
        match self.limit {
            Some(l) => l,
            None => 10,
        }
    }
}

/// Arguments of the protein-set operation: the caller's literal list
/// of names, comma-joined as it arrives in the query string.
#[derive(Debug)]
pub struct ProteinSetArgs {
    pub proteins: String,
}

/// Index of the last comma of the sequence, or `-1` when it has none.
pub open spec fn last_comma(s: Seq<char>) -> int
    decreases s.len(),
{
    if s.len() == 0 {
        -1
    } else if s.last() == ',' {
        s.len() - 1
    } else {
        last_comma(s.drop_last())
    }
}

/// The comma-separated parts of the sequence, in order. A sequence
/// without commas is one part; every comma separates two parts, so
/// leading, trailing and doubled commas yield empty parts.
pub open spec fn split_csv(s: Seq<char>) -> Seq<Seq<char>>
    decreases s.len(),
{
    let lc = last_comma(s);
    if lc < 0 || lc >= s.len() {
        seq![s]
    } else {
        split_csv(s.subrange(0, lc)).push(s.subrange(lc + 1, s.len() as int))
    }
}

/// Where the commas after position `from` are known to be absent, the
/// last comma is just before `from`.
proof fn lemma_last_comma_from(s: Seq<char>, from: int)
    requires
        0 <= from <= s.len(),
        forall|j: int| from <= j < s.len() ==> s[j] != ',',
        from == 0 || s[from - 1] == ',',
    ensures
        last_comma(s) == from - 1,
    decreases s.len(),
{
    if s.len() > from {
        assert(s.last() != ',');
        assert forall|j: int| from <= j < s.drop_last().len() implies s.drop_last()[j] != ',' by {
            assert(s.drop_last()[j] == s[j]);
        }
        if from > 0 {
            assert(s.drop_last()[from - 1] == s[from - 1]);
        }
        lemma_last_comma_from(s.drop_last(), from);
    } else {
        if from > 0 {
            assert(s.last() == s[from - 1]);
        }
    }
}

impl ProteinSetArgs {
    /// The caller's literal list of names: the comma-separated parts
    /// of the argument, in order.
    pub fn names(&self) -> (parts: Vec<String>)
        ensures
            parts@.map_values(|p: String| p@) == split_csv(self.proteins@),
    {
        let s: &str = self.proteins.as_str();
        let len = s.unicode_len();
        let mut parts: Vec<String> = Vec::new();
        let mut start: usize = 0;
        let mut i: usize = 0;
        while i < len
            invariant
                s@ == self.proteins@,
                len == s@.len(),
                0 <= start <= i <= len,
                forall|j: int| start <= j < i ==> s@[j] != ',',
                if start == 0 {
                    parts@.len() == 0
                } else {
                    s@[start - 1] == ',' && parts@.map_values(|p: String| p@) == split_csv(
                        s@.subrange(0, start - 1),
                    )
                },
            decreases len - i,
        {
            let c = s.get_char(i);
            if c == ',' {
                let part: String = s.substring_char(start, i).to_owned();
                let ghost before = s@.subrange(0, i as int);
                parts.push(part);
                proof {
                    assert forall|j: int| start <= j < before.len() implies before[j] != ',' by {
                        assert(before[j] == s@[j]);
                    }
                    if start > 0 {
                        assert(before[start - 1] == s@[start - 1]);
                    }
                    lemma_last_comma_from(before, start as int);
                    if start == 0 {
                        assert(split_csv(before) == seq![before]);
                        assert(part@ == before);
                        assert(parts@.map_values(|p: String| p@) =~= seq![before]);
                    } else {
                        assert(before.subrange(0, start - 1) =~= s@.subrange(0, start - 1));
                        assert(before.subrange(start as int, before.len() as int) =~= s@.subrange(
                            start as int,
                            i as int,
                        ));
                        assert(split_csv(before) == split_csv(s@.subrange(0, start - 1)).push(
                            s@.subrange(start as int, i as int),
                        ));
                        assert(parts@.map_values(|p: String| p@) =~= split_csv(before));
                    }
                }
                start = i + 1;
            }
            i += 1;
        }
        let part: String = s.substring_char(start, len).to_owned();
        parts.push(part);
        proof {
            lemma_last_comma_from(s@, start as int);
            if start == 0 {
                assert(split_csv(s@) == seq![s@]);
                assert(s@.subrange(0, len as int) =~= s@);
                assert(parts@.map_values(|p: String| p@) =~= seq![s@]);
            } else {
                assert(split_csv(s@) == split_csv(s@.subrange(0, start - 1)).push(
                    s@.subrange(start as int, len as int),
                ));
                assert(parts@.map_values(|p: String| p@) =~= split_csv(s@));
            }
        }
        parts
    }
}

/// Arguments of the score-threshold path operation.
#[derive(Debug)]
pub struct ProteinScoreArgs {
    pub score: i32,
    pub limit: Option<i32>,
}

impl ProteinScoreArgs {
    /// The row limit to use: the caller's, or 15 when absent.
    pub fn effective_limit(&self) -> (r: i32)
        ensures
            r == match self.limit {
                Some(l) => l,
                None => 15i32,
            },
    {
        match self.limit {
            Some(l) => l,
            None => 15,
        }
    }
}

/// Arguments of the shortest-path operation.
#[derive(Debug)]
pub struct ShortestPathArgs {
    pub source_protein: String,
    pub target_protein: String,
}

/// Arguments of the similarity operation.
#[derive(Debug)]
pub struct QuerySimilarityArgs {
    pub protein_num: i32,
    pub top_k: i32,
}

/// The entity rows harvested from a neighborhood query: both endpoint
/// nodes of every row, merged in row order.
pub open spec fn harvested(rows: Seq<(PathNode, PathNode)>) -> Seq<EntityRow>
    decreases rows.len(),
{
    if rows.len() == 0 {
        Seq::<EntityRow>::empty()
    } else {
        let prev = harvested(rows.drop_last());
        let withn1 = merged(prev, extracted(rows.last().0).0, extracted(rows.last().0).1);
        merged(withn1, extracted(rows.last().1).0, extracted(rows.last().1).1)
    }
}

/// Harvest the entities of a neighborhood query: each row carries the
/// two endpoint nodes of one relation, and both are merged into one
/// deduplicated collection.
pub fn harvest_node_pairs(rows: &Vec<(PathNode, PathNode)>) -> (m: EntityMap)
    ensures
        m@ == harvested(rows@),
        m.wf(),
{
    let n = rows.len();
    let mut m = EntityMap::new();
    let mut i: usize = 0;
    while i < n
        invariant
            n == rows@.len(),
            0 <= i <= n,
            m.wf(),
            m@ == harvested(rows@.subrange(0, i as int)),
        decreases n - i,
    {
        let ghost pre = rows@.subrange(0, i as int);
        let ghost cur = rows@.subrange(0, i + 1 as int);
        proof {
            assert(cur.drop_last() =~= pre);
            assert(cur.last() == rows@[i as int]);
        }
        let e1 = crate::entity::extract(&rows[i].0);
        m.insert(e1.id, e1.name);
        let e2 = crate::entity::extract(&rows[i].1);
        m.insert(e2.id, e2.name);
        i += 1;
        proof {
            assert(rows@.subrange(0, i as int) =~= cur);
        }
    }
    proof {
        assert(rows@.subrange(0, n as int) =~= rows@);
    }
    m
}

/// The entity collection the protein-set operation starts from: the
/// position of each caller-supplied name is its id.
pub open spec fn indexed_entities(names: Seq<String>) -> Seq<EntityRow> {
    Seq::new(names.len(), |i: int| (i as i32, names[i]@))
}

/// Number the caller's names in order: the i-th name becomes the
/// entity `(i, name)`. Positions are distinct, so the collection is
/// well formed without any coalescing.
pub fn set_entities(names: &Vec<String>) -> (m: EntityMap)
    requires
        names@.len() <= i32::MAX,
    ensures
        m@ == indexed_entities(names@),
        m.wf(),
{
    let n = names.len();
    let mut m = EntityMap::new();
    let mut i: usize = 0;
    while i < n
        invariant
            n == names@.len(),
            n <= i32::MAX,
            0 <= i <= n,
            m.wf(),
            m@ == indexed_entities(names@).subrange(0, i as int),
            forall|j: int| 0 <= j < i ==> (#[trigger] m@[j]).0 == j as i32,
        decreases n - i,
    {
        let ghost s0 = m@;
        let id: i32 = i as i32;
        proof {
            crate::entity::lemma_find_id(s0, id);
            if crate::entity::find_id(s0, id) >= 0 {
                assert(s0[crate::entity::find_id(s0, id)].0 == id);
            }
            assert(crate::entity::find_id(s0, id) == -1);
        }
        let name = names[i].clone();
        m.insert(id, name);
        i += 1;
        proof {
            assert(m@ =~= indexed_entities(names@).subrange(0, i as int));
        }
    }
    proof {
        assert(indexed_entities(names@).subrange(0, n as int) =~= indexed_entities(names@));
    }
    m
}

} // verus!
