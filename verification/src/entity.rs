//! The entity identity model.
//!
//! A store row hands back graph nodes; [`PathNode`] holds the parts of
//! one node that the engine reads: its numeric id, its labels, and the
//! two properties of interest (the display label and the annotation
//! score text). [`extract`] turns a node into an [`Entity`], falling
//! back to the sentinel `(-1, "")` when the node has no display label.
//! [`EntityMap`] collects entities in insertion order while keeping ids
//! unique (last write wins on the name).

use vstd::prelude::*;
use vstd::string::*;

verus! {

/// One graph node as the engine sees it: the stable store id, the
/// node's labels, and the two properties the engine ever reads.
#[derive(Debug, Clone)]
pub struct PathNode {
    /// Store-assigned node id.
    pub id: i32,
    /// The node's labels.
    pub labels: Vec<String>,
    /// The display-label property, when present.
    pub name: Option<String>,
    /// The score property of an annotation node, when present.
    pub score: Option<String>,
}

/// A graph entity: stable id plus display name. The id is the dedup
/// key; `(-1, "")` is the sentinel for unlabeled nodes.
#[derive(Debug, Clone)]
pub struct Entity {
    pub id: i32,
    pub name: String,
}

/// The label that marks a score-bearing annotation node.
pub open spec fn annotation_label() -> Seq<char> {
    "owl__Axiom"@
}

/// Whether a node carries the annotation marker label.
pub open spec fn is_annotation(n: PathNode) -> bool {
    exists|i: int| 0 <= i < n.labels@.len() && #[trigger] n.labels@[i]@ == annotation_label()
}

/// The entity a node stands for: `(id, label)` when the display label
/// is present, the sentinel `(-1, "")` when it is absent.
pub open spec fn extracted(n: PathNode) -> (i32, Seq<char>) {
    match n.name {
        Some(s) => (n.id, s@),
        None => (-1i32, Seq::<char>::empty()),
    }
}

impl PathNode {
    /// Whether this node is an annotation node, i.e. carries the
    /// annotation marker among its labels.
    pub fn is_annotation_node(&self) -> (r: bool)
        ensures
            r == is_annotation(*self),
    {
        let marker = String::from_str("owl__Axiom");
        let n = self.labels.len();
        let mut i: usize = 0;
        while i < n
            invariant
                n == self.labels@.len(),
                0 <= i <= n,
                marker@ == annotation_label(),
                forall|j: int| 0 <= j < i ==> #[trigger] self.labels@[j]@ != annotation_label(),
            decreases n - i,
        {
            if self.labels[i] == marker {
                return true;
            }
            i += 1;
        }
        false
    }
}

/// Extract the entity a node stands for: a missing display label
/// means the sentinel entity, not an error.
pub fn extract(node: &PathNode) -> (e: Entity)
    ensures
        (e.id, e.name@) == extracted(*node),
{
    match &node.name {
        Some(s) => Entity { id: node.id, name: s.clone() },
        None => Entity { id: -1, name: String::new() },
    }
}

/// Spec-level image of one entity-map entry.
pub type EntityRow = (i32, Seq<char>);

/// The ids of a row sequence, in order.
pub open spec fn ids_of(s: Seq<EntityRow>) -> Seq<i32> {
    s.map_values(|p: EntityRow| p.0)
}

/// Rows are well formed when no id occurs twice.
pub open spec fn wf_rows(s: Seq<EntityRow>) -> bool {
    forall|i: int, j: int| 0 <= i < j < s.len() ==> (#[trigger] s[i]).0 != (#[trigger] s[j]).0
}

/// Index of the first row with the given id, or `-1` when absent.
pub open spec fn find_id(s: Seq<EntityRow>, id: i32) -> int
    decreases s.len(),
{
    if s.len() == 0 {
        -1
    } else if s[0].0 == id {
        0
    } else {
        let r = find_id(s.drop_first(), id);
        if r < 0 {
            -1
        } else {
            r + 1
        }
    }
}

/// What inserting `(id, name)` does to a row sequence: replace the
/// name of the row already holding `id`, or append a new row.
pub open spec fn merged(s: Seq<EntityRow>, id: i32, name: Seq<char>) -> Seq<EntityRow> {
    let f = find_id(s, id);
    if f < 0 {
        s.push((id, name))
    } else {
        s.update(f, (id, name))
    }
}

/// `find_id` finds the first row with the given id, and `-1` exactly
/// when no row has it.
pub proof fn lemma_find_id(s: Seq<EntityRow>, id: i32)
    ensures
        find_id(s, id) == -1 || (0 <= find_id(s, id) < s.len()),
        find_id(s, id) >= 0 ==> (#[trigger] s[find_id(s, id)]).0 == id,
        forall|i: int| 0 <= i < s.len() && i < find_id(s, id) ==> (#[trigger] s[i]).0 != id,
        find_id(s, id) == -1 ==> forall|i: int| 0 <= i < s.len() ==> (#[trigger] s[i]).0 != id,
    decreases s.len(),
{
    if s.len() > 0 && s[0].0 != id {
        lemma_find_id(s.drop_first(), id);
        assert forall|i: int| 1 <= i < s.len() implies s[i] == s.drop_first()[i - 1] by {}
    }
}

/// The mathematical "mapping id -> name" that a row sequence stands
/// for, later rows overriding earlier ones.
pub open spec fn entity_map_of(s: Seq<EntityRow>) -> Map<int, Seq<char>>
    decreases s.len(),
{
    if s.len() == 0 {
        Map::empty()
    } else {
        entity_map_of(s.drop_last()).insert(s.last().0 as int, s.last().1)
    }
}

/// Appending a fresh row is a functional map insert.
pub proof fn lemma_map_of_push(s: Seq<EntityRow>, r: EntityRow)
    ensures
        entity_map_of(s.push(r)) == entity_map_of(s).insert(r.0 as int, r.1),
{
    assert(s.push(r).drop_last() =~= s);
    assert(s.push(r).last() == r);
}

/// Overwriting the unique row that holds an id is a functional map
/// insert for that id.
pub proof fn lemma_map_of_update(s: Seq<EntityRow>, k: int, id: i32, name: Seq<char>)
    requires
        0 <= k < s.len(),
        s[k].0 == id,
        forall|j: int| 0 <= j < s.len() && j != k ==> (#[trigger] s[j]).0 != id,
    ensures
        entity_map_of(s.update(k, (id, name))) == entity_map_of(s).insert(id as int, name),
    decreases s.len(),
{
    let t = s.update(k, (id, name));
    if k == s.len() - 1 {
        assert(t.drop_last() =~= s.drop_last());
        assert(t.last() == (id, name));
        assert(entity_map_of(s).insert(id as int, name) =~= entity_map_of(s.drop_last()).insert(
            id as int,
            name,
        ));
    } else {
        let sd = s.drop_last();
        assert(sd[k] == s[k]);
        assert forall|j: int| 0 <= j < sd.len() && j != k implies (#[trigger] sd[j]).0 != id by {
            assert(sd[j] == s[j]);
        }
        lemma_map_of_update(sd, k, id, name);
        assert(t.drop_last() =~= sd.update(k, (id, name)));
        assert(t.last() == s.last());
        assert(s.last().0 != id);
        assert(entity_map_of(sd).insert(id as int, name).insert(s.last().0 as int, s.last().1)
            =~= entity_map_of(sd).insert(s.last().0 as int, s.last().1).insert(id as int, name));
    }
}

/// The dedup law: merging a row naming id `k` into a well-formed
/// collection leaves the collection well-formed with exactly one entry
/// for `k` (one exists, and well-formedness forbids a second), and the
/// map view is the functional insert, so a repeated id coalesces
/// instead of adding an entry.
pub proof fn lemma_merge_dedup(s: Seq<EntityRow>, id: i32, name: Seq<char>)
    requires
        wf_rows(s),
    ensures
        wf_rows(merged(s, id, name)),
        exists|k: int|
            0 <= k < merged(s, id, name).len() && (#[trigger] merged(s, id, name)[k]).0 == id,
        entity_map_of(merged(s, id, name)) == entity_map_of(s).insert(id as int, name),
{
    lemma_find_id(s, id);
    let f = find_id(s, id);
    let t = merged(s, id, name);
    if f < 0 {
        assert(t =~= s.push((id, name)));
        lemma_map_of_push(s, (id, name));
        assert(t[s.len() as int].0 == id);
        assert forall|p: int, q: int| 0 <= p < q < t.len() implies (#[trigger] t[p]).0 != (
        #[trigger] t[q]).0 by {
            if q < s.len() {
                assert(s[p].0 != s[q].0);
            } else {
                assert(s[p].0 != id);
            }
        }
    } else {
        assert(s[f].0 == id);
        assert forall|j: int| 0 <= j < s.len() && j != f implies (#[trigger] s[j]).0 != id by {
            if j < f {
                assert(s[j].0 != s[f].0);
            } else {
                assert(s[f].0 != s[j].0);
            }
        }
        lemma_map_of_update(s, f, id, name);
        assert(t[f].0 == id);
        assert forall|p: int, q: int| 0 <= p < q < t.len() implies (#[trigger] t[p]).0 != (
        #[trigger] t[q]).0 by {
            assert(s[p].0 != s[q].0);
        }
    }
}

/// Merging never loses an id: every id already present survives, and
/// the merged id is present afterward.
pub proof fn lemma_merged_keeps_ids(s: Seq<EntityRow>, id: i32, name: Seq<char>)
    ensures
        ids_of(merged(s, id, name)).contains(id),
        forall|x: i32| ids_of(s).contains(x) ==> ids_of(merged(s, id, name)).contains(x),
{
    lemma_find_id(s, id);
    let f = find_id(s, id);
    let t = merged(s, id, name);
    if f < 0 {
        assert(ids_of(t) =~= ids_of(s).push(id));
        assert(ids_of(t)[s.len() as int] == id);
        assert forall|x: i32| ids_of(s).contains(x) implies ids_of(t).contains(x) by {
            let k = choose|k: int| 0 <= k < ids_of(s).len() && ids_of(s)[k] == x;
            assert(ids_of(t)[k] == x);
        }
    } else {
        assert(s[f].0 == id);
        assert(ids_of(t) =~= ids_of(s));
        assert(ids_of(s)[f] == id);
    }
}

/// For a well-formed collection, lookup and the map view agree: an id
/// is in the map exactly when a row holds it, and the map's value is
/// that row's name.
pub proof fn lemma_map_of_find(s: Seq<EntityRow>, id: i32)
    requires
        wf_rows(s),
    ensures
        find_id(s, id) >= 0 <==> entity_map_of(s).dom().contains(id as int),
        find_id(s, id) >= 0 ==> entity_map_of(s)[id as int] == s[find_id(s, id)].1,
    decreases s.len(),
{
    lemma_find_id(s, id);
    if s.len() > 0 {
        let dl = s.drop_last();
        let last = s.last();
        assert(wf_rows(dl)) by {
            assert forall|i: int, j: int| 0 <= i < j < dl.len() implies (#[trigger] dl[i]).0 != (
            #[trigger] dl[j]).0 by {
                assert(dl[i] == s[i] && dl[j] == s[j]);
            }
        }
        lemma_map_of_find(dl, id);
        lemma_find_id(dl, id);
        let f = find_id(s, id);
        let fd = find_id(dl, id);
        if last.0 == id {
            if fd >= 0 {
                assert(s[fd] == dl[fd]);
                assert(s[fd].0 != s[s.len() - 1].0);
            }
            assert(s[s.len() - 1].0 == id);
            assert(f >= 0);
            if f < s.len() - 1 {
                assert(s[f].0 != s[s.len() - 1].0);
            }
            assert(f == s.len() - 1);
        } else {
            if f >= 0 {
                assert(s[f].0 == id);
                assert(f < s.len() - 1);
                assert(dl[f] == s[f]);
                if fd == -1 {
                    assert(dl[f].0 != id);
                }
                if fd < f {
                    assert(s[fd] == dl[fd]);
                    assert(s[fd].0 != id);
                }
                if f < fd {
                    assert(dl[f].0 != id);
                }
                assert(fd == f);
                assert(entity_map_of(s)[id as int] == entity_map_of(dl)[id as int]);
            } else {
                if fd >= 0 {
                    assert(s[fd] == dl[fd]);
                    assert(s[fd].0 != id);
                    assert(dl[fd].0 == id);
                }
                assert(fd == -1);
                assert(!entity_map_of(s).dom().contains(id as int));
            }
        }
    }
}

/// The running entity collection: entities in insertion order, ids
/// unique. This is the "mapping id -> name" every query's results are
/// folded into.
#[derive(Debug, Clone)]
pub struct EntityMap {
    pub entries: Vec<Entity>,
}

impl View for EntityMap {
    type V = Seq<EntityRow>;

    open spec fn view(&self) -> Seq<EntityRow> {
        self.entries@.map_values(|e: Entity| (e.id, e.name@))
    }
}

impl EntityMap {
    /// Ids never repeat among the entries.
    pub open spec fn wf(self) -> bool {
        wf_rows(self@)
    }

    /// An empty collection.
    pub fn new() -> (m: EntityMap)
        ensures
            m@ == Seq::<EntityRow>::empty(),
            m.wf(),
    {
        let m = EntityMap { entries: Vec::new() };
        proof {
            assert(m@ =~= Seq::<EntityRow>::empty());
        }
        m
    }

    /// Number of distinct entities collected so far.
    pub fn len(&self) -> (n: usize)
        ensures
            n == self@.len(),
    {
        self.entries.len()
    }

    /// The entity at one insertion position.
    pub fn entity_at(&self, i: usize) -> (e: &Entity)
        requires
            i < self@.len(),
        ensures
            (e.id, e.name@) == self@[i as int],
    {
        &self.entries[i]
    }

    /// Look up the name recorded for an id: the name of the first
    /// (for a well-formed collection, the only) row holding it.
    pub fn get_name(&self, id: i32) -> (r: Option<&String>)
        ensures
            match r {
                Some(name) => find_id(self@, id) >= 0 && self@[find_id(self@, id)].1 == name@,
                None => find_id(self@, id) == -1,
            },
    {
        let n = self.entries.len();
        let mut i: usize = 0;
        while i < n
            invariant
                n == self.entries@.len(),
                0 <= i <= n,
                forall|j: int| 0 <= j < i ==> (#[trigger] self@[j]).0 != id,
            decreases n - i,
        {
            if self.entries[i].id == id {
                proof {
                    lemma_find_id(self@, id);
                    assert(self@[i as int].0 == id);
                    assert(find_id(self@, id) == i);
                }
                return Some(&self.entries[i].name);
            }
            i += 1;
        }
        proof {
            lemma_find_id(self@, id);
            if find_id(self@, id) >= 0 {
                assert(self@[find_id(self@, id)].0 == id);
            }
        }
        None
    }

    /// Merge one entity into the collection: a row naming an id
    /// already present coalesces with it (last write wins on the
    /// name); otherwise the entity is appended.
    pub fn insert(&mut self, id: i32, name: String)
        requires
            old(self).wf(),
        ensures
            final(self)@ == merged(old(self)@, id, name@),
            final(self).wf(),
    {
        let n = self.entries.len();
        let mut i: usize = 0;
        while i < n
            invariant
                self == old(self),
                old(self).wf(),
                n == self.entries@.len(),
                0 <= i <= n,
                forall|j: int| 0 <= j < i ==> (#[trigger] self@[j]).0 != id,
            decreases n - i,
        {
            if self.entries[i].id == id {
                let ghost s0 = self@;
                let ghost f = find_id(s0, id);
                proof {
                    lemma_find_id(s0, id);
                    assert(s0[i as int].0 == id);
                    assert(f >= 0);
                    assert(f == i);
                }
                self.entries[i] = Entity { id, name };
                proof {
                    assert forall|k: int| 0 <= k < self@.len() implies #[trigger] self@[k]
                        == s0.update(i as int, (id, name@))[k] by {
                        assert(self@[k] == (self.entries@[k].id, self.entries@[k].name@));
                    }
                    assert(self@ =~= s0.update(i as int, (id, name@)));
                    assert forall|p: int, q: int| 0 <= p < q < self@.len() implies (
                    #[trigger] self@[p]).0 != (#[trigger] self@[q]).0 by {
                        assert(s0[p].0 != s0[q].0);
                    }
                }
                return;
            }
            i += 1;
        }
        let ghost s0 = self@;
        proof {
            lemma_find_id(s0, id);
            assert(find_id(s0, id) == -1) by {
                if find_id(s0, id) >= 0 {
                    assert(s0[find_id(s0, id)].0 == id);
                }
            }
        }
        self.entries.push(Entity { id, name });
        proof {
            assert forall|k: int| 0 <= k < self@.len() implies #[trigger] self@[k] == s0.push(
                (id, name@),
            )[k] by {
                assert(self@[k] == (self.entries@[k].id, self.entries@[k].name@));
            }
            assert(self@ =~= s0.push((id, name@)));
            assert forall|p: int, q: int| 0 <= p < q < self@.len() implies (#[trigger] self@[p]).0
                != (#[trigger] self@[q]).0 by {
                if q < s0.len() {
                    assert(s0[p].0 != s0[q].0);
                } else {
                    assert(s0[p].0 != id);
                }
            }
        }
    }
}

} // verus!
