//! Island bookkeeping for the greedy unfold.
//!
//! Every face starts as its own island. Mesh edges are then considered in
//! priority order; for each, [`Unfolder::plan_join`] decides whether the two
//! islands on either side can be glued along it and, if so, how their vertices
//! correspond. The caller checks the join geometrically (rigid alignment and
//! overlap) and, when it is accepted, [`Unfolder::commit_join`] merges the
//! smaller island into the larger. [`Unfolder::finish`] lists the islands with
//! their cut and fold edges.

use vstd::prelude::*;

use super::adjacency::{
    adjacency_of, build, build_error_ok, is_closed_manifold, lemma_repeated_side, lemma_sides_not_all_one, Adjacency,
    MeshEdge,
};
use super::union_find::UnionFind;
use crate::order::{is_stable_desc_order, stable_order_desc};
use super::{EdgeKind, NetEdge, UnfoldError};

verus! {

/// A boundary segment of an island, tagged with its source mesh edge index.
#[derive(Clone, Copy, PartialEq, Eq, Debug, Structural)]
pub struct BoundarySeg {
    /// Island-local vertex index of the segment start.
    pub a: usize,
    /// Island-local vertex index of the segment end.
    pub b: usize,
    /// Index of the mesh edge.
    pub edge: usize,
}

/// The index data of a growing island; its 2D coordinates live with the
/// caller, one per local vertex.
pub struct IslandTopology {
    /// Source mesh face indices in this island.
    pub faces: Vec<usize>,
    /// Number of island-local vertices.
    pub vertex_count: usize,
    /// Mesh vertex to island-local vertex; a later entry overrides an earlier
    /// one with the same mesh vertex.
    pub vmap: Vec<(u32, usize)>,
    /// Perimeter segments, with their source mesh edge.
    pub boundary: Vec<BoundarySeg>,
}

// ----------------------------------------------------------------------------
// The vertex map
// ----------------------------------------------------------------------------

/// The map that an entry list denotes: the last entry for a key wins.
pub open spec fn vmap_view(v: Seq<(u32, usize)>) -> Map<u32, usize>
    decreases v.len(),
{
    if v.len() == 0 {
        Map::empty()
    } else {
        vmap_view(v.drop_last()).insert(v.last().0, v.last().1)
    }
}

/// Looks up `key` in an entry list.
pub fn vmap_get(v: &Vec<(u32, usize)>, key: u32) -> (r: Option<usize>)
    ensures
        r == if vmap_view(v@).contains_key(key) {
            Some(vmap_view(v@)[key])
        } else {
            None::<usize>
        },
{
    let mut i = v.len();
    proof {
        assert(v@.take(i as int) == v@);
    }
    while i > 0
        invariant
            i <= v@.len(),
            vmap_view(v@.take(i as int)).contains_key(key) == vmap_view(v@).contains_key(key),
            vmap_view(v@).contains_key(key) ==> vmap_view(v@)[key] == vmap_view(v@.take(i as int))[key],
        decreases i,
    {
        proof {
            assert(v@.take(i as int).drop_last() == v@.take(i - 1));
        }
        if v[i - 1].0 == key {
            return Some(v[i - 1].1);
        }
        i = i - 1;
    }
    proof {
        assert(v@.take(0) == Seq::<(u32, usize)>::empty());
    }
    None
}

/// Appending entries overrides earlier entries with the same keys.
pub proof fn lemma_vmap_append(a: Seq<(u32, usize)>, b: Seq<(u32, usize)>)
    ensures
        vmap_view(a + b) == vmap_view(a).union_prefer_right(vmap_view(b)),
    decreases b.len(),
{
    if b.len() == 0 {
        assert(a + b == a);
        assert(vmap_view(a).union_prefer_right(Map::empty()) =~= vmap_view(a));
    } else {
        assert((a + b).drop_last() == a + b.drop_last());
        lemma_vmap_append(a, b.drop_last());
        assert(vmap_view(a + b) =~= vmap_view(a).union_prefer_right(vmap_view(b)));
    }
}

/// Every value of the denoted map is a value of some entry.
pub proof fn lemma_vmap_values(v: Seq<(u32, usize)>, key: u32)
    requires
        vmap_view(v).contains_key(key),
    ensures
        exists|j: int| 0 <= j < v.len() && v[j] == (key, vmap_view(v)[key]),
    decreases v.len(),
{
    if v.last().0 != key {
        lemma_vmap_values(v.drop_last(), key);
        let j = choose|j: int| 0 <= j < v.drop_last().len() && v.drop_last()[j] == (key, vmap_view(v.drop_last())[key]);
        assert(v[j] == v.drop_last()[j]);
    } else {
        assert(v[v.len() - 1] == v.last());
    }
}

// ----------------------------------------------------------------------------
// Counting
// ----------------------------------------------------------------------------

/// Number of present islands.
pub open spec fn count_some(s: Seq<Option<IslandTopology>>) -> nat
    decreases s.len(),
{
    if s.len() == 0 {
        0
    } else {
        count_some(s.drop_last()) + if s.last() is Some {
            1nat
        } else {
            0nat
        }
    }
}

/// Number of set flags.
pub open spec fn count_true(s: Seq<bool>) -> nat
    decreases s.len(),
{
    if s.len() == 0 {
        0
    } else {
        count_true(s.drop_last()) + if s.last() {
            1nat
        } else {
            0nat
        }
    }
}

proof fn lemma_count_some_update(s: Seq<Option<IslandTopology>>, i: int, x: Option<IslandTopology>)
    requires
        0 <= i < s.len(),
    ensures
        count_some(s.update(i, x)) + (if s[i] is Some {
            1nat
        } else {
            0nat
        }) == count_some(s) + (if x is Some {
            1nat
        } else {
            0nat
        }),
    decreases s.len(),
{
    let t = s.update(i, x);
    if i < s.len() - 1 {
        assert(t.drop_last() == s.drop_last().update(i, x));
        lemma_count_some_update(s.drop_last(), i, x);
    } else {
        assert(t.drop_last() == s.drop_last());
    }
}

proof fn lemma_count_true_update(s: Seq<bool>, i: int, x: bool)
    requires
        0 <= i < s.len(),
    ensures
        count_true(s.update(i, x)) + (if s[i] {
            1nat
        } else {
            0nat
        }) == count_true(s) + (if x {
            1nat
        } else {
            0nat
        }),
    decreases s.len(),
{
    let t = s.update(i, x);
    if i < s.len() - 1 {
        assert(t.drop_last() == s.drop_last().update(i, x));
        lemma_count_true_update(s.drop_last(), i, x);
    } else {
        assert(t.drop_last() == s.drop_last());
    }
}

proof fn lemma_count_some_all(s: Seq<Option<IslandTopology>>)
    requires
        forall|i: int| 0 <= i < s.len() ==> s[i] is Some,
    ensures
        count_some(s) == s.len(),
    decreases s.len(),
{
    if s.len() > 0 {
        lemma_count_some_all(s.drop_last());
    }
}

proof fn lemma_count_true_none(s: Seq<bool>)
    requires
        forall|i: int| 0 <= i < s.len() ==> !s[i],
    ensures
        count_true(s) == 0,
    decreases s.len(),
{
    if s.len() > 0 {
        lemma_count_true_none(s.drop_last());
    }
}

// ----------------------------------------------------------------------------
// Counting an island's segments and folds
// ----------------------------------------------------------------------------

/// Number of segments of `b` that lie on mesh edge `e`.
pub open spec fn seg_count(b: Seq<BoundarySeg>, e: usize) -> nat
    decreases b.len(),
{
    if b.len() == 0 {
        0
    } else {
        seg_count(b.drop_last(), e) + if b.last().edge == e {
            1nat
        } else {
            0nat
        }
    }
}

/// Number of copies of `x` in `b`.
pub open spec fn copies(b: Seq<BoundarySeg>, x: BoundarySeg) -> nat
    decreases b.len(),
{
    if b.len() == 0 {
        0
    } else {
        copies(b.drop_last(), x) + if b.last() == x {
            1nat
        } else {
            0nat
        }
    }
}

/// How many of the two faces of mesh edge `e` lie in `faces`.
pub open spec fn incident(faces: Seq<usize>, e: MeshEdge) -> nat {
    (if faces.contains(e.face_a) {
        1nat
    } else {
        0nat
    }) + (if faces.contains(e.face_b) {
        1nat
    } else {
        0nat
    })
}

/// Number of the glued mesh edges among `0..k` whose first face lies in
/// `faces`.
pub open spec fn glued_count(joined: Seq<bool>, edges: Seq<MeshEdge>, faces: Seq<usize>, k: int) -> nat
    decreases k,
{
    if k <= 0 {
        0
    } else {
        glued_count(joined, edges, faces, k - 1) + if joined[k - 1] && faces.contains(edges[k - 1].face_a) {
            1nat
        } else {
            0nat
        }
    }
}

/// The counts that every island keeps: `n` faces have `n + 2` boundary
/// segments and `n - 1` glued edges; no mesh edge lies on the boundary more
/// often than the island holds its faces; and the island knows both vertices
/// of each edge glued inside it.
pub open spec fn island_counts(isl: IslandTopology, edges: Seq<MeshEdge>, joined: Seq<bool>) -> bool {
    &&& isl.boundary@.len() == isl.faces@.len() + 2
    &&& glued_count(joined, edges, isl.faces@, edges.len() as int) + 1 == isl.faces@.len()
    &&& forall|e: usize|
        e < edges.len() ==> #[trigger] seg_count(isl.boundary@, e) <= incident(isl.faces@, edges[e as int])
    &&& forall|e: int|
        0 <= e < edges.len() && #[trigger] joined[e] && isl.faces@.contains(edges[e].face_a) ==> vmap_view(
            isl.vmap@,
        ).contains_key(edges[e].va) && vmap_view(isl.vmap@).contains_key(edges[e].vb)
}

proof fn lemma_seg_count_add(a: Seq<BoundarySeg>, b: Seq<BoundarySeg>, e: usize)
    ensures
        seg_count(a + b, e) == seg_count(a, e) + seg_count(b, e),
    decreases b.len(),
{
    if b.len() == 0 {
        assert(a + b == a);
    } else {
        assert((a + b).drop_last() == a + b.drop_last());
        lemma_seg_count_add(a, b.drop_last(), e);
    }
}

/// Dropping the copies of `x` drops them from the count on `x`'s edge only.
proof fn lemma_keep_except_counts(s: Seq<BoundarySeg>, x: BoundarySeg, e: usize)
    ensures
        keep_except(s, x).len() + copies(s, x) == s.len(),
        seg_count(keep_except(s, x), e) + (if x.edge == e {
            copies(s, x)
        } else {
            0nat
        }) == seg_count(s, e),
    decreases s.len(),
{
    if s.len() > 0 {
        lemma_keep_except_counts(s.drop_last(), x, e);
        let tail = if s.last() == x {
            seq![]
        } else {
            seq![s.last()]
        };
        lemma_seg_count_add(keep_except(s.drop_last(), x), tail, e);
        if s.last() != x {
            assert(tail.drop_last() =~= Seq::<BoundarySeg>::empty());
            assert(tail.last().edge == s.last().edge);
            assert(seg_count(tail.drop_last(), e) == 0);
        } else {
            assert(tail =~= Seq::<BoundarySeg>::empty());
            assert(seg_count(tail, e) == 0);
        }
    }
}

proof fn lemma_moved_except_counts(s: Seq<BoundarySeg>, x: BoundarySeg, base: int, plan: JoinPlan, e: usize)
    ensures
        moved_except(s, x, base, plan).len() + copies(s, x) == s.len(),
        seg_count(moved_except(s, x, base, plan), e) + (if x.edge == e {
            copies(s, x)
        } else {
            0nat
        }) == seg_count(s, e),
    decreases s.len(),
{
    if s.len() > 0 {
        lemma_moved_except_counts(s.drop_last(), x, base, plan, e);
        let tail = if s.last() == x {
            seq![]
        } else {
            seq![remap_seg(s.last(), base, plan)]
        };
        lemma_seg_count_add(moved_except(s.drop_last(), x, base, plan), tail, e);
        if s.last() != x {
            assert(tail.drop_last() =~= Seq::<BoundarySeg>::empty());
            assert(tail.last().edge == s.last().edge);
            assert(seg_count(tail.drop_last(), e) == 0);
        } else {
            assert(tail =~= Seq::<BoundarySeg>::empty());
            assert(seg_count(tail, e) == 0);
        }
    }
}

proof fn lemma_copies_bound(s: Seq<BoundarySeg>, x: BoundarySeg)
    ensures
        copies(s, x) <= seg_count(s, x.edge),
    decreases s.len(),
{
    if s.len() > 0 {
        lemma_copies_bound(s.drop_last(), x);
    }
}

proof fn lemma_first_seg_copies(b: Seq<BoundarySeg>, eid: usize, x: BoundarySeg)
    requires
        first_seg(b, eid) == Some(x),
    ensures
        x.edge == eid,
        copies(b, x) >= 1,
    decreases b.len(),
{
    if b[0].edge == eid {
        lemma_copies_at(b, x, 0);
    } else {
        lemma_first_seg_copies(b.drop_first(), eid, x);
        lemma_copies_drop_first(b, x);
    }
}

proof fn lemma_copies_at(b: Seq<BoundarySeg>, x: BoundarySeg, i: int)
    requires
        0 <= i < b.len(),
        b[i] == x,
    ensures
        copies(b, x) >= 1,
    decreases b.len(),
{
    if i < b.len() - 1 {
        lemma_copies_at(b.drop_last(), x, i);
    }
}

proof fn lemma_copies_drop_first(b: Seq<BoundarySeg>, x: BoundarySeg)
    requires
        b.len() > 0,
    ensures
        copies(b, x) >= copies(b.drop_first(), x),
    decreases b.len(),
{
    if b.len() > 1 {
        assert(b.drop_first().drop_last() == b.drop_last().drop_first());
        lemma_copies_drop_first(b.drop_last(), x);
    }
}

/// Gluing edge `eid` between the disjoint face lists `t` and `s` adds it to
/// the glued edges of `t + s`.
proof fn lemma_glued_merge(
    old_joined: Seq<bool>,
    edges: Seq<MeshEdge>,
    t: Seq<usize>,
    s: Seq<usize>,
    eid: int,
    k: int,
)
    requires
        0 <= eid < old_joined.len(),
        !old_joined[eid],
        (t + s).contains(edges[eid].face_a),
        forall|x: usize| !(t.contains(x) && s.contains(x)),
        k <= old_joined.len(),
    ensures
        glued_count(old_joined.update(eid, true), edges, t + s, k) == glued_count(old_joined, edges, t, k)
            + glued_count(old_joined, edges, s, k) + (if eid < k {
            1nat
        } else {
            0nat
        }),
    decreases k,
{
    if k > 0 {
        lemma_glued_merge(old_joined, edges, t, s, eid, k - 1);
        lemma_contains_concat(t, s, edges[k - 1].face_a);
    }
}

proof fn lemma_contains_concat(t: Seq<usize>, s: Seq<usize>, x: usize)
    ensures
        (t + s).contains(x) <==> t.contains(x) || s.contains(x),
{
    if t.contains(x) {
        let j = choose|j: int| 0 <= j < t.len() && t[j] == x;
        assert((t + s)[j] == x);
    }
    if s.contains(x) {
        let j = choose|j: int| 0 <= j < s.len() && s[j] == x;
        assert((t + s)[t.len() + j] == x);
    }
    if (t + s).contains(x) {
        let j = choose|j: int| 0 <= j < (t + s).len() && (t + s)[j] == x;
        if j < t.len() {
            assert(t[j] == x);
        } else {
            assert(s[j - t.len()] == x);
        }
    }
}

/// Gluing edge `eid`, whose first face lies outside `faces`, leaves the glued
/// edges of `faces` as they were.
proof fn lemma_glued_other(old_joined: Seq<bool>, edges: Seq<MeshEdge>, faces: Seq<usize>, eid: int, k: int)
    requires
        0 <= eid < old_joined.len(),
        !faces.contains(edges[eid].face_a),
        k <= old_joined.len(),
    ensures
        glued_count(old_joined.update(eid, true), edges, faces, k) == glued_count(old_joined, edges, faces, k),
    decreases k,
{
    if k > 0 {
        lemma_glued_other(old_joined, edges, faces, eid, k - 1);
    }
}

/// With nothing glued, nothing is counted.
proof fn lemma_glued_none(joined: Seq<bool>, edges: Seq<MeshEdge>, faces: Seq<usize>, k: int)
    requires
        k <= joined.len(),
        forall|e: int| 0 <= e < joined.len() ==> !joined[e],
    ensures
        glued_count(joined, edges, faces, k) == 0,
    decreases k,
{
    if k > 0 {
        lemma_glued_none(joined, edges, faces, k - 1);
    }
}

/// A fresh island of a closed mesh keeps the island counts.
proof fn lemma_initial_counts(faces: Seq<[u32; 3]>, adj: Adjacency, r: int, isl: IslandTopology, joined: Seq<bool>)
    requires
        is_closed_manifold(faces),
        adjacency_of(faces, adj),
        0 <= r < faces.len(),
        initial_island(faces, adj, r, Some(isl)),
        joined.len() == adj.edges@.len(),
        forall|e: int| 0 <= e < joined.len() ==> !joined[e],
    ensures
        island_counts(isl, adj.edges@, joined),
{
    let ne = adj.edges@.len() as int;
    lemma_glued_none(joined, adj.edges@, isl.faces@, ne);
    let fe = adj.face_edges@[r];
    let b = isl.boundary@;
    assert(b.drop_last().drop_last().drop_last() =~= Seq::<BoundarySeg>::empty());
    assert(isl.faces@[0] == r as usize);
    assert forall|eu: usize| eu < ne implies #[trigger] seg_count(isl.boundary@, eu) <= incident(
        isl.faces@,
        adj.edges@[eu as int],
    ) by {
        let edge = adj.edges@[eu as int];
        assert(seg_count(b, eu) == (if fe[0] == eu { 1nat } else { 0nat }) + (if fe[1] == eu { 1nat } else { 0nat })
            + (if fe[2] == eu { 1nat } else { 0nat })) by {
            let b1 = b.drop_last();
            let b2 = b1.drop_last();
            assert(seg_count(b2.drop_last(), eu) == 0);
            assert(b2.last().edge == fe[0]);
            assert(seg_count(b2, eu) == (if fe[0] == eu { 1nat } else { 0nat }));
            assert(b1.last().edge == fe[1]);
            assert(seg_count(b1, eu) == seg_count(b2, eu) + (if fe[1] == eu { 1nat } else { 0nat }));
            assert(b.last().edge == fe[2]);
        }
        assert(isl.faces@.contains(edge.face_a) <==> edge.face_a == r) by {
            if isl.faces@.contains(edge.face_a) {
                let j = choose|j: int| 0 <= j < isl.faces@.len() && isl.faces@[j] == edge.face_a;
            }
        }
        assert(isl.faces@.contains(edge.face_b) <==> edge.face_b == r) by {
            if isl.faces@.contains(edge.face_b) {
                let j = choose|j: int| 0 <= j < isl.faces@.len() && isl.faces@[j] == edge.face_b;
            }
        }
        lemma_sides_not_all_one(faces, adj, r);
        if fe[0] == eu {
            assert(edge.face_a == r || edge.face_b == r);
        }
        if fe[1] == eu {
            assert(edge.face_a == r || edge.face_b == r);
        }
        if fe[2] == eu {
            assert(edge.face_a == r || edge.face_b == r);
        }
        if edge.face_a == r {
            assert(isl.faces@.contains(edge.face_a));
        }
        if edge.face_b == r {
            assert(isl.faces@.contains(edge.face_b));
        }
        if fe[0] == eu && fe[1] == eu {
            lemma_repeated_side(faces, adj, r, 0, 1);
        } else if fe[0] == eu && fe[2] == eu {
            lemma_repeated_side(faces, adj, r, 0, 2);
        } else if fe[1] == eu && fe[2] == eu {
            lemma_repeated_side(faces, adj, r, 1, 2);
        }
    }
}

// ----------------------------------------------------------------------------
// The unfolder
// ----------------------------------------------------------------------------

/// A join the unfolder has decided on, waiting for the caller to test its
/// geometry: island `source` would be glued onto island `target` along a mesh
/// edge whose endpoints are `target_va`, `target_vb` in the target and
/// `source_va`, `source_vb` in the source.
#[derive(Clone, Copy, PartialEq, Eq, Debug, Structural)]
pub struct JoinPlan {
    pub target: usize,
    pub source: usize,
    pub seg_target: BoundarySeg,
    pub seg_source: BoundarySeg,
    pub target_va: usize,
    pub target_vb: usize,
    pub source_va: usize,
    pub source_vb: usize,
}

/// The state of a greedy unfold: the islands, keyed by the root face of their
/// union-find set, and which mesh edges were glued into folds.
pub struct Unfolder {
    uf: UnionFind,
    islands: Vec<Option<IslandTopology>>,
    adj: Adjacency,
    joined: Vec<bool>,
    island_count: usize,
    joined_count: usize,
    pending: Option<(usize, JoinPlan)>,
}

/// The indices an island holds are in range and its faces are distinct.
pub open spec fn island_ok(isl: IslandTopology, n_edges: nat) -> bool {
    &&& forall|j: int| 0 <= j < isl.vmap@.len() ==> (#[trigger] isl.vmap@[j]).1 < isl.vertex_count
    &&& forall|j: int|
        0 <= j < isl.boundary@.len() ==> {
            &&& (#[trigger] isl.boundary@[j]).a < isl.vertex_count
            &&& isl.boundary@[j].b < isl.vertex_count
            &&& isl.boundary@[j].edge < n_edges
        }
    &&& isl.faces@.no_duplicates()
    &&& isl.vertex_count <= 3 * isl.faces@.len()
}

impl Unfolder {
    /// Number of mesh faces.
    pub closed spec fn face_count(&self) -> nat {
        self.islands@.len()
    }

    /// The island whose root face is `r`, if `r` is a root.
    pub closed spec fn island(&self, r: int) -> Option<IslandTopology> {
        self.islands@[r]
    }

    /// The root face of the island that holds face `f`.
    pub closed spec fn root(&self, f: int) -> int {
        self.uf.root(f)
    }

    /// The mesh's edge adjacency.
    pub closed spec fn adjacency(&self) -> Adjacency {
        self.adj
    }

    /// Whether mesh edge `e` was glued into a fold.
    pub closed spec fn is_joined(&self, e: int) -> bool {
        self.joined@[e]
    }

    /// Number of islands.
    pub closed spec fn island_total(&self) -> nat {
        count_some(self.islands@)
    }

    /// Number of mesh edges glued into folds.
    pub closed spec fn joined_total(&self) -> nat {
        count_true(self.joined@)
    }

    /// The join waiting for the caller's geometric test, with its mesh edge.
    pub closed spec fn pending(&self) -> Option<(usize, JoinPlan)> {
        self.pending
    }

    /// `plan` is a join of `self` along mesh edge `eid`.
    pub closed spec fn plan_ok(&self, eid: usize, plan: JoinPlan) -> bool {
        let n = self.islands@.len();
        let e = self.adj.edges@[eid as int];
        &&& eid < self.adj.edges@.len()
        &&& !self.joined@[eid as int]
        &&& plan.target < n
        &&& plan.source < n
        &&& plan.target != plan.source
        &&& self.islands@[plan.target as int] is Some
        &&& self.islands@[plan.source as int] is Some
        &&& plan.target_va < self.islands@[plan.target as int]->0.vertex_count
        &&& plan.target_vb < self.islands@[plan.target as int]->0.vertex_count
        &&& plan.source_va < self.islands@[plan.source as int]->0.vertex_count
        &&& plan.source_vb < self.islands@[plan.source as int]->0.vertex_count
        &&& ((plan.target == self.uf.root(e.face_a as int) && plan.source == self.uf.root(e.face_b as int))
            || (plan.target == self.uf.root(e.face_b as int) && plan.source == self.uf.root(e.face_a as int)))
        &&& first_seg(self.islands@[plan.target as int]->0.boundary@, eid) == Some(plan.seg_target)
        &&& first_seg(self.islands@[plan.source as int]->0.boundary@, eid) == Some(plan.seg_source)
        &&& vmap_view(self.islands@[plan.target as int]->0.vmap@).contains_key(e.va)
        &&& vmap_view(self.islands@[plan.target as int]->0.vmap@).contains_key(e.vb)
    }

    /// The state is consistent.
    pub closed spec fn wf(&self) -> bool {
        let n = self.islands@.len();
        let ne = self.adj.edges@.len();
        &&& n < usize::MAX / 3
        &&& self.uf.wf()
        &&& self.uf.size() == n
        &&& self.joined@.len() == ne
        &&& forall|e: int| 0 <= e < ne ==> (#[trigger] self.adj.edges@[e]).face_a < n && self.adj.edges@[e].face_b < n
        &&& forall|r: int| 0 <= r < n ==> (#[trigger] self.islands@[r] is Some <==> self.uf.is_root(r))
        &&& forall|r: int| 0 <= r < n && #[trigger] self.islands@[r] is Some ==> island_ok(self.islands@[r]->0, ne)
        &&& forall|r: int|
            0 <= r < n && #[trigger] self.islands@[r] is Some ==> island_counts(
                self.islands@[r]->0,
                self.adj.edges@,
                self.joined@,
            )
        &&& forall|f: int|
            0 <= f < n ==> #[trigger] self.islands@[self.uf.root(f)] is Some
                && self.islands@[self.uf.root(f)]->0.faces@.contains(f as usize)
        &&& forall|r: int, j: int|
            0 <= r < n && self.islands@[r] is Some && 0 <= j < self.islands@[r]->0.faces@.len() ==> {
                let f = #[trigger] self.islands@[r]->0.faces@[j];
                f < n && self.uf.root(f as int) == r
            }
        &&& forall|e: int|
            0 <= e < ne && #[trigger] self.joined@[e] ==> self.uf.root(self.adj.edges@[e].face_a as int)
                == self.uf.root(self.adj.edges@[e].face_b as int)
        &&& self.island_count == count_some(self.islands@)
        &&& self.joined_count == count_true(self.joined@)
        &&& self.island_count + self.joined_count == n
        &&& self.pending matches Some((eid, plan)) ==> self.plan_ok(eid, plan)
    }
}

/// Island `r` of a fresh unfold: face `r` alone, its corners as local vertices
/// `0, 1, 2`, and its three half-edges as the boundary.
pub open spec fn initial_island(faces: Seq<[u32; 3]>, adj: Adjacency, r: int, isl: Option<IslandTopology>) -> bool {
    let f = faces[r];
    let fe = adj.face_edges@[r];
    &&& isl is Some
    &&& isl->0.faces@ == seq![r as usize]
    &&& isl->0.vertex_count == 3
    &&& isl->0.vmap@ == seq![(f[0], 0usize), (f[1], 1usize), (f[2], 2usize)]
    &&& isl->0.boundary@ == seq![
        BoundarySeg { a: 0, b: 1, edge: fe[0] },
        BoundarySeg { a: 1, b: 2, edge: fe[1] },
        BoundarySeg { a: 2, b: 0, edge: fe[2] },
    ]
}

impl Unfolder {
    /// Starts an unfold of a closed mesh: one island per face.
    ///
    /// Fails as [`build`] does when the mesh is not a closed manifold.
    pub fn new(faces: &Vec<[u32; 3]>) -> (res: Result<Unfolder, UnfoldError>)
        requires
            faces.len() < usize::MAX / 3,
        ensures
            res is Ok <==> is_closed_manifold(faces@),
            res matches Err(e) ==> build_error_ok(faces@, e),
            res matches Ok(u) ==> {
                &&& u.wf()
                &&& u.face_count() == faces@.len()
                &&& adjacency_of(faces@, u.adjacency())
                &&& u.pending() is None
                &&& u.joined_total() == 0
                &&& u.island_total() == faces@.len()
                &&& forall|e: int| 0 <= e < u.adjacency().edges@.len() ==> !#[trigger] u.is_joined(e)
                &&& forall|r: int|
                    0 <= r < faces@.len() ==> #[trigger] u.root(r) == r && initial_island(
                        faces@,
                        u.adjacency(),
                        r,
                        u.island(r),
                    )
            },
    {
        let adj = match build(faces) {
            Ok(adj) => adj,
            Err(e) => {
                return Err(e);
            },
        };
        let n = faces.len();
        let ne = adj.edges.len();
        let uf = UnionFind::new(n);
        let mut islands: Vec<Option<IslandTopology>> = Vec::new();
        let mut fi: usize = 0;
        while fi < n
            invariant
                n == faces@.len(),
                ne == adj.edges@.len(),
                fi <= n,
                adjacency_of(faces@, adj),
                islands@.len() == fi,
                forall|r: int| 0 <= r < fi ==> #[trigger] initial_island(faces@, adj, r, islands@[r]),
            decreases n - fi,
        {
            let f = faces[fi];
            let fe = adj.face_edges[fi];
            let mut vmap: Vec<(u32, usize)> = Vec::new();
            vmap.push((f[0], 0));
            vmap.push((f[1], 1));
            vmap.push((f[2], 2));
            let mut boundary: Vec<BoundarySeg> = Vec::new();
            boundary.push(BoundarySeg { a: 0, b: 1, edge: fe[0] });
            boundary.push(BoundarySeg { a: 1, b: 2, edge: fe[1] });
            boundary.push(BoundarySeg { a: 2, b: 0, edge: fe[2] });
            let mut fs: Vec<usize> = Vec::new();
            fs.push(fi);
            let isl = IslandTopology { faces: fs, vertex_count: 3, vmap, boundary };
            proof {
                assert(isl.vmap@ == seq![(f[0], 0usize), (f[1], 1usize), (f[2], 2usize)]);
                assert(isl.faces@ == seq![fi]);
                assert(isl.boundary@ == seq![
                    BoundarySeg { a: 0, b: 1, edge: fe[0] },
                    BoundarySeg { a: 1, b: 2, edge: fe[1] },
                    BoundarySeg { a: 2, b: 0, edge: fe[2] },
                ]);
            }
            islands.push(Some(isl));
            proof {
                assert(initial_island(faces@, adj, fi as int, islands@[fi as int]));
            }
            fi = fi + 1;
        }
        let mut joined: Vec<bool> = Vec::new();
        while joined.len() < ne
            invariant
                joined@.len() <= ne,
                forall|e: int| 0 <= e < joined@.len() ==> !joined@[e],
            decreases ne - joined@.len(),
        {
            joined.push(false);
        }
        let u = Unfolder {
            uf,
            islands,
            adj,
            joined,
            island_count: n,
            joined_count: 0,
            pending: None,
        };
        proof {
            assert forall|r: int| 0 <= r < n implies #[trigger] u.islands@[r] is Some by {
                assert(initial_island(faces@, u.adj, r, u.islands@[r]));
            }
            lemma_count_some_all(u.islands@);
            lemma_count_true_none(u.joined@);
            assert forall|e: int| 0 <= e < ne implies (#[trigger] u.adj.edges@[e]).face_a < n
                && u.adj.edges@[e].face_b < n by {
                assert(super::adjacency::edge_placed(faces@, u.adj, e));
                let (ha, hb) = choose|ha: int, hb: int| super::adjacency::edge_has_halves(faces@, u.adj.edges@[e], ha, hb)
                    && u.adj.face_edges@[ha / 3][ha % 3] == e && u.adj.face_edges@[hb / 3][hb % 3] == e;
            }
            assert forall|r: int| 0 <= r < n implies (#[trigger] u.islands@[r] is Some <==> u.uf.is_root(r)) by {
                u.uf.lemma_roots(r);
            }
            assert forall|r: int| 0 <= r < n && #[trigger] u.islands@[r] is Some implies island_counts(
                u.islands@[r]->0,
                u.adj.edges@,
                u.joined@,
            ) by {
                assert(initial_island(faces@, u.adj, r, u.islands@[r]));
                lemma_initial_counts(faces@, u.adj, r, u.islands@[r]->0, u.joined@);
            }
            assert forall|r: int| 0 <= r < n && #[trigger] u.islands@[r] is Some implies island_ok(u.islands@[r]->0, ne as nat) by {
                assert(initial_island(faces@, u.adj, r, u.islands@[r]));
                let fe = u.adj.face_edges@[r];
                assert(fe[0] < ne && fe[1] < ne && fe[2] < ne);
            }
            assert forall|f: int| 0 <= f < n implies #[trigger] u.islands@[u.uf.root(f)] is Some
                && u.islands@[u.uf.root(f)]->0.faces@.contains(f as usize) by {
                assert(initial_island(faces@, u.adj, f, u.islands@[f]));
                assert(u.islands@[f]->0.faces@[0] == f);
            }
            assert forall|r: int, j: int|
                0 <= r < n && u.islands@[r] is Some && 0 <= j < u.islands@[r]->0.faces@.len() implies {
                    let f = #[trigger] u.islands@[r]->0.faces@[j];
                    f < n && u.uf.root(f as int) == r
                } by {
                assert(initial_island(faces@, u.adj, r, u.islands@[r]));
            }
            assert forall|r: int| 0 <= r < n implies #[trigger] u.root(r) == r && initial_island(
                faces@,
                u.adjacency(),
                r,
                u.island(r),
            ) by {
                assert(initial_island(faces@, u.adj, r, u.islands@[r]));
            }
        }
        Ok(u)
    }
}

/// The first boundary segment that lies on mesh edge `eid`.
pub open spec fn first_seg(b: Seq<BoundarySeg>, eid: usize) -> Option<BoundarySeg>
    decreases b.len(),
{
    if b.len() == 0 {
        None
    } else if b[0].edge == eid {
        Some(b[0])
    } else {
        first_seg(b.drop_first(), eid)
    }
}

fn find_seg(b: &Vec<BoundarySeg>, eid: usize) -> (r: Option<BoundarySeg>)
    ensures
        r == first_seg(b@, eid),
{
    let mut i: usize = 0;
    proof {
        assert(b@.skip(0) == b@);
    }
    while i < b.len()
        invariant
            i <= b@.len(),
            first_seg(b@, eid) == first_seg(b@.skip(i as int), eid),
        decreases b@.len() - i,
    {
        proof {
            assert(b@.skip(i as int).drop_first() == b@.skip(i + 1));
        }
        if b[i].edge == eid {
            return Some(b[i]);
        }
        i = i + 1;
    }
    None
}

/// What [`Unfolder::plan_join`] decides for mesh edge `eid`: nothing when both
/// faces already share an island; otherwise the smaller island (the first
/// face's on a tie) becomes the source, and the join is planned when both
/// islands have a boundary segment on the edge and both know its endpoints.
pub open spec fn join_decision(u: Unfolder, eid: int) -> Option<JoinPlan> {
    let e = u.adjacency().edges@[eid];
    let ra = u.root(e.face_a as int);
    let rb = u.root(e.face_b as int);
    if ra == rb {
        None
    } else {
        let swap = u.island(rb)->0.faces@.len() > u.island(ra)->0.faces@.len();
        let t = if swap { rb } else { ra };
        let s = if swap { ra } else { rb };
        let it = u.island(t)->0;
        let is = u.island(s)->0;
        let vt = vmap_view(it.vmap@);
        let vs = vmap_view(is.vmap@);
        match (first_seg(it.boundary@, eid as usize), first_seg(is.boundary@, eid as usize)) {
            (Some(sa), Some(sb)) => {
                if vt.contains_key(e.va) && vt.contains_key(e.vb) && vs.contains_key(e.va)
                    && vs.contains_key(e.vb) {
                    Some(
                        JoinPlan {
                            target: t as usize,
                            source: s as usize,
                            seg_target: sa,
                            seg_source: sb,
                            target_va: vt[e.va],
                            target_vb: vt[e.vb],
                            source_va: vs[e.va],
                            source_vb: vs[e.vb],
                        },
                    )
                } else {
                    None
                }
            },
            _ => None,
        }
    }
}

/// `a` and `b` hold the same islands, adjacency and folds, with the same
/// representatives.
pub open spec fn same_islands(a: Unfolder, b: Unfolder) -> bool {
    &&& a.face_count() == b.face_count()
    &&& a.adjacency() == b.adjacency()
    &&& forall|r: int| 0 <= r < a.face_count() ==> #[trigger] b.island(r) == a.island(r)
    &&& forall|f: int| 0 <= f < a.face_count() ==> #[trigger] b.root(f) == a.root(f)
    &&& forall|e: int| 0 <= e < a.adjacency().edges@.len() ==> #[trigger] b.is_joined(e) == a.is_joined(e)
    &&& a.island_total() == b.island_total()
    &&& a.joined_total() == b.joined_total()
}

impl Unfolder {
    /// The island whose root face is `r` (none when `r` is not a root).
    pub fn island_at(&self, r: usize) -> (isl: &Option<IslandTopology>)
        requires
            r < self.face_count(),
        ensures
            *isl == self.island(r as int),
    {
        &self.islands[r]
    }

    /// The mesh edges, with their faces and vertices.
    pub fn mesh_edges(&self) -> (r: &Vec<MeshEdge>)
        ensures
            r@ == self.adjacency().edges@,
    {
        &self.adj.edges
    }

    /// Decides whether the islands on either side of mesh edge `edge_id` can
    /// be glued along it and how, and remembers the plan for
    /// [`Unfolder::commit_join`].
    pub fn plan_join(&mut self, edge_id: usize) -> (plan: Option<JoinPlan>)
        requires
            old(self).wf(),
            edge_id < old(self).adjacency().edges@.len(),
        ensures
            final(self).wf(),
            same_islands(*old(self), *final(self)),
            plan == join_decision(*old(self), edge_id as int),
            final(self).pending() == match plan {
                Some(p) => Some((edge_id, p)),
                None => None::<(usize, JoinPlan)>,
            },
    {
        let ghost before = *self;
        self.pending = None;
        let e = self.adj.edges[edge_id];
        let ra = self.uf.find(e.face_a);
        let rb = self.uf.find(e.face_b);
        proof {
            assert(self.adj.edges@[edge_id as int] == e);
            self.uf.lemma_roots(e.face_a as int);
            self.uf.lemma_roots(e.face_b as int);
            assert(same_islands(before, *self));
            assert(self.wf());
        }
        if ra == rb {
            return None;
        }
        proof {
            assert(self.islands@[self.uf.root(e.face_a as int)] is Some);
            assert(self.islands@[self.uf.root(e.face_b as int)] is Some);
        }
        let na = match &self.islands[ra] {
            Some(isl) => isl.faces.len(),
            None => 0,
        };
        let nb = match &self.islands[rb] {
            Some(isl) => isl.faces.len(),
            None => 0,
        };
        let (t, s) = if nb > na {
            (rb, ra)
        } else {
            (ra, rb)
        };
        let planned = match (&self.islands[t], &self.islands[s]) {
            (Some(it), Some(is)) => {
                match (find_seg(&it.boundary, edge_id), find_seg(&is.boundary, edge_id)) {
                    (Some(seg_target), Some(seg_source)) => {
                        match (
                            vmap_get(&it.vmap, e.va),
                            vmap_get(&it.vmap, e.vb),
                            vmap_get(&is.vmap, e.va),
                            vmap_get(&is.vmap, e.vb),
                        ) {
                            (Some(target_va), Some(target_vb), Some(source_va), Some(source_vb)) => {
                                proof {
                                    lemma_vmap_values(it.vmap@, e.va);
                                    lemma_vmap_values(it.vmap@, e.vb);
                                    lemma_vmap_values(is.vmap@, e.va);
                                    lemma_vmap_values(is.vmap@, e.vb);
                                }
                                Some(
                                    JoinPlan {
                                        target: t,
                                        source: s,
                                        seg_target,
                                        seg_source,
                                        target_va,
                                        target_vb,
                                        source_va,
                                        source_vb,
                                    },
                                )
                            },
                            _ => None,
                        }
                    },
                    _ => None,
                }
            },
            _ => None,
        };
        match planned {
            Some(p) => {
                self.pending = Some((edge_id, p));
            },
            None => {},
        }
        proof {
            assert(same_islands(before, *self));
            if self.joined@[edge_id as int] {
                assert(self.uf.root(e.face_a as int) == self.uf.root(e.face_b as int));
            }
        }
        planned
    }
}

// ----------------------------------------------------------------------------
// Merging
// ----------------------------------------------------------------------------

/// Distinct indices below `n` number at most `n`.
pub proof fn lemma_distinct_below(s: Seq<usize>, n: nat)
    requires
        s.no_duplicates(),
        forall|i: int| 0 <= i < s.len() ==> s[i] < n,
    ensures
        s.len() <= n,
    decreases s.len(),
{
    if s.len() > 0 {
        let x = s.last();
        let t = s.drop_last();
        let g = |v: usize| if v > x { (v - 1) as usize } else { v };
        let u = t.map_values(g);
        assert forall|i: int, j: int| 0 <= i < u.len() && 0 <= j < u.len() && i != j implies u[i] != u[j] by {
            assert(t[i] != x && t[j] != x);
            assert(t[i] == s[i] && t[j] == s[j]);
            assert(s[i] != s[j]);
        }
        assert forall|i: int| 0 <= i < u.len() implies u[i] < n - 1 by {
            assert(t[i] == s[i]);
            assert(s[i] != s[s.len() - 1]);
        }
        lemma_distinct_below(u, (n - 1) as nat);
    }
}

/// Number of local vertices of the source below `i` that are not the two
/// glued endpoints.
pub open spec fn fresh_rank(i: int, x: int, y: int) -> int {
    i - (if x < i { 1int } else { 0int }) - (if y < i && y != x { 1int } else { 0int })
}

/// The source's local vertices below `k` that become new vertices of the
/// target, in order.
pub open spec fn fresh_upto(k: int, x: int, y: int) -> Seq<usize>
    decreases k,
{
    if k <= 0 {
        seq![]
    } else {
        fresh_upto(k - 1, x, y) + if k - 1 != x && k - 1 != y {
            seq![(k - 1) as usize]
        } else {
            seq![]
        }
    }
}

/// Where the source's local vertex `i` lands in the merged island whose
/// first `base` vertices are the target's.
pub open spec fn remap_local(i: int, base: int, plan: JoinPlan) -> usize {
    if i == plan.source_vb {
        plan.target_vb
    } else if i == plan.source_va {
        plan.target_va
    } else {
        (base + fresh_rank(i, plan.source_va as int, plan.source_vb as int)) as usize
    }
}

pub open spec fn remap_seg(s: BoundarySeg, base: int, plan: JoinPlan) -> BoundarySeg {
    BoundarySeg { a: remap_local(s.a as int, base, plan), b: remap_local(s.b as int, base, plan), edge: s.edge }
}

/// `s` without the segment `x`.
pub open spec fn keep_except(s: Seq<BoundarySeg>, x: BoundarySeg) -> Seq<BoundarySeg>
    decreases s.len(),
{
    if s.len() == 0 {
        seq![]
    } else {
        keep_except(s.drop_last(), x) + if s.last() == x {
            seq![]
        } else {
            seq![s.last()]
        }
    }
}

/// The source's boundary without the glued segment `x`, in merged numbering.
pub open spec fn moved_except(s: Seq<BoundarySeg>, x: BoundarySeg, base: int, plan: JoinPlan) -> Seq<BoundarySeg>
    decreases s.len(),
{
    if s.len() == 0 {
        seq![]
    } else {
        moved_except(s.drop_last(), x, base, plan) + if s.last() == x {
            seq![]
        } else {
            seq![remap_seg(s.last(), base, plan)]
        }
    }
}

/// `m` is the island made by gluing `src` onto `tgt` as `plan` says: the
/// target's faces then the source's, the source's fresh vertices appended,
/// the source's vertex map (renumbered) overriding the target's, and both
/// boundaries without the glued segments.
pub open spec fn merged(m: IslandTopology, tgt: IslandTopology, src: IslandTopology, plan: JoinPlan) -> bool {
    let base = tgt.vertex_count as int;
    &&& m.faces@ == tgt.faces@ + src.faces@
    &&& m.vertex_count == base + fresh_upto(src.vertex_count as int, plan.source_va as int, plan.source_vb as int).len()
    &&& vmap_view(m.vmap@) == vmap_view(tgt.vmap@).union_prefer_right(
        vmap_view(src.vmap@).map_values(|v: usize| remap_local(v as int, base, plan)),
    )
    &&& m.boundary@ == keep_except(tgt.boundary@, plan.seg_target) + moved_except(
        src.boundary@,
        plan.seg_source,
        base,
        plan,
    )
}

/// Renumbering the values of entries renumbers the denoted map.
pub proof fn lemma_vmap_renumber(v: Seq<(u32, usize)>, g: spec_fn(usize) -> usize)
    ensures
        vmap_view(v.map_values(|e: (u32, usize)| (e.0, g(e.1)))) == vmap_view(v).map_values(g),
    decreases v.len(),
{
    let w = v.map_values(|e: (u32, usize)| (e.0, g(e.1)));
    if v.len() == 0 {
        assert(vmap_view(v).map_values(g) =~= Map::empty());
    } else {
        assert(w.drop_last() == v.drop_last().map_values(|e: (u32, usize)| (e.0, g(e.1))));
        lemma_vmap_renumber(v.drop_last(), g);
        assert(vmap_view(w) =~= vmap_view(v).map_values(g));
    }
}

proof fn lemma_fresh_upto(k: int, x: int, y: int)
    requires
        0 <= k,
        0 <= x,
        0 <= y,
    ensures
        fresh_upto(k, x, y).len() == fresh_rank(k, x, y),
        forall|j: int| 0 <= j < fresh_upto(k, x, y).len() ==> (#[trigger] fresh_upto(k, x, y)[j]) < k,
    decreases k,
{
    if k > 0 {
        lemma_fresh_upto(k - 1, x, y);
    }
}

proof fn lemma_remap_bound(v: int, base: int, plan: JoinPlan, vc: int)
    requires
        0 <= v < vc,
        0 <= base,
        plan.source_va < vc,
        plan.source_vb < vc,
        plan.target_va < base,
        plan.target_vb < base,
    ensures
        remap_local(v, base, plan) < base + fresh_rank(vc, plan.source_va as int, plan.source_vb as int),
{
}

proof fn lemma_keep_except_elems(s: Seq<BoundarySeg>, x: BoundarySeg, k: int)
    requires
        0 <= k < keep_except(s, x).len(),
    ensures
        exists|i: int| 0 <= i < s.len() && s[i] == #[trigger] keep_except(s, x)[k],
    decreases s.len(),
{
    let prev = keep_except(s.drop_last(), x);
    if k < prev.len() {
        lemma_keep_except_elems(s.drop_last(), x, k);
        let i = choose|i: int| 0 <= i < s.drop_last().len() && s.drop_last()[i] == prev[k];
        assert(s[i] == s.drop_last()[i]);
    } else {
        assert(keep_except(s, x)[k] == s[s.len() - 1]);
    }
}

proof fn lemma_moved_except_elems(s: Seq<BoundarySeg>, x: BoundarySeg, base: int, plan: JoinPlan, k: int)
    requires
        0 <= k < moved_except(s, x, base, plan).len(),
    ensures
        exists|i: int| 0 <= i < s.len() && remap_seg(s[i], base, plan) == #[trigger] moved_except(s, x, base, plan)[k],
    decreases s.len(),
{
    let prev = moved_except(s.drop_last(), x, base, plan);
    if k < prev.len() {
        lemma_moved_except_elems(s.drop_last(), x, base, plan, k);
        let i = choose|i: int| 0 <= i < s.drop_last().len() && remap_seg(s.drop_last()[i], base, plan) == prev[k];
        assert(s[i] == s.drop_last()[i]);
    } else {
        assert(moved_except(s, x, base, plan)[k] == remap_seg(s[s.len() - 1], base, plan));
    }
}

/// Face `x` lies in island `r` exactly when `r` is its root.
proof fn lemma_island_holds(u: Unfolder, r: int, x: usize)
    requires
        u.wf(),
        0 <= r < u.islands@.len(),
        u.islands@[r] is Some,
        x < u.islands@.len(),
    ensures
        u.islands@[r]->0.faces@.contains(x) <==> u.uf.root(x as int) == r,
{
    if u.islands@[r]->0.faces@.contains(x) {
        let j = choose|j: int| 0 <= j < u.islands@[r]->0.faces@.len() && u.islands@[r]->0.faces@[j] == x;
        assert(u.uf.root(u.islands@[r]->0.faces@[j] as int) == r);
    }
    assert(u.islands@[u.uf.root(x as int)] is Some);
}

/// The island made by a pending join keeps the island counts, with the
/// joined edge now glued.
proof fn lemma_merged_counts(o: Unfolder, eid: usize, plan: JoinPlan, m: IslandTopology)
    requires
        o.wf(),
        o.pending == Some((eid, plan)),
        merged(m, o.islands@[plan.target as int]->0, o.islands@[plan.source as int]->0, plan),
    ensures
        island_counts(m, o.adj.edges@, o.joined@.update(eid as int, true)),
{
    let n = o.islands@.len();
    let edges = o.adj.edges@;
    let ne = edges.len();
    let tgt = o.islands@[plan.target as int]->0;
    let src = o.islands@[plan.source as int]->0;
    let base = tgt.vertex_count as int;
    let ee = edges[eid as int];
    let joined = o.joined@.update(eid as int, true);
    assert(o.plan_ok(eid, plan));
    assert(island_counts(tgt, edges, o.joined@));
    assert(island_counts(src, edges, o.joined@));
    assert(ee.face_a < n && ee.face_b < n);
    lemma_island_holds(o, plan.target as int, ee.face_a);
    lemma_island_holds(o, plan.target as int, ee.face_b);
    lemma_island_holds(o, plan.source as int, ee.face_a);
    lemma_island_holds(o, plan.source as int, ee.face_b);
    assert forall|x: usize| !(tgt.faces@.contains(x) && src.faces@.contains(x)) by {
        if tgt.faces@.contains(x) && src.faces@.contains(x) {
            let j = choose|j: int| 0 <= j < tgt.faces@.len() && tgt.faces@[j] == x;
            assert(x < n && o.uf.root(x as int) == plan.target);
            lemma_island_holds(o, plan.source as int, x);
        }
    }
    // The glued segment occurs once in each boundary.
    assert(incident(tgt.faces@, ee) == 1);
    assert(incident(src.faces@, ee) == 1);
    lemma_first_seg_copies(tgt.boundary@, eid, plan.seg_target);
    lemma_first_seg_copies(src.boundary@, eid, plan.seg_source);
    lemma_copies_bound(tgt.boundary@, plan.seg_target);
    lemma_copies_bound(src.boundary@, plan.seg_source);
    assert(seg_count(tgt.boundary@, eid) <= incident(tgt.faces@, edges[eid as int]));
    assert(seg_count(src.boundary@, eid) <= incident(src.faces@, edges[eid as int]));
    let kept = keep_except(tgt.boundary@, plan.seg_target);
    let moved = moved_except(src.boundary@, plan.seg_source, base, plan);
    lemma_keep_except_counts(tgt.boundary@, plan.seg_target, eid);
    lemma_moved_except_counts(src.boundary@, plan.seg_source, base, plan, eid);
    assert(m.boundary@.len() == m.faces@.len() + 2);
    // Segments on each mesh edge.
    assert forall|e: usize| e < ne implies #[trigger] seg_count(m.boundary@, e) <= incident(
        m.faces@,
        edges[e as int],
    ) by {
        lemma_seg_count_add(kept, moved, e);
        lemma_keep_except_counts(tgt.boundary@, plan.seg_target, e);
        lemma_moved_except_counts(src.boundary@, plan.seg_source, base, plan, e);
        assert(seg_count(tgt.boundary@, e) <= incident(tgt.faces@, edges[e as int]));
        assert(seg_count(src.boundary@, e) <= incident(src.faces@, edges[e as int]));
        lemma_contains_concat(tgt.faces@, src.faces@, edges[e as int].face_a);
        lemma_contains_concat(tgt.faces@, src.faces@, edges[e as int].face_b);
    }
    // Glued edges.
    lemma_contains_concat(tgt.faces@, src.faces@, ee.face_a);
    lemma_glued_merge(o.joined@, edges, tgt.faces@, src.faces@, eid as int, ne as int);
    // Known vertices of glued edges.
    let vt = vmap_view(tgt.vmap@);
    let vs = vmap_view(src.vmap@);
    let vm = vmap_view(m.vmap@);
    assert forall|e: int|
        0 <= e < ne && #[trigger] joined[e] && m.faces@.contains(edges[e].face_a) implies vm.contains_key(
        edges[e].va,
    ) && vm.contains_key(edges[e].vb) by {
        lemma_contains_concat(tgt.faces@, src.faces@, edges[e].face_a);
        if e != eid {
            assert(o.joined@[e]);
            if tgt.faces@.contains(edges[e].face_a) {
                assert(vt.contains_key(edges[e].va) && vt.contains_key(edges[e].vb));
            } else {
                assert(vs.contains_key(edges[e].va) && vs.contains_key(edges[e].vb));
            }
        }
    }
}

/// The effect of committing `plan` along mesh edge `eid`, which took `o` to
/// `f` and returned `appended`.
pub open spec fn commit_effect(o: Unfolder, f: Unfolder, eid: usize, plan: JoinPlan, appended: Option<Vec<usize>>) -> bool {
    let tgt = o.island(plan.target as int)->0;
    let src = o.island(plan.source as int)->0;
    &&& appended is Some
    &&& appended->0@ == fresh_upto(src.vertex_count as int, plan.source_va as int, plan.source_vb as int)
    &&& f.face_count() == o.face_count()
    &&& f.adjacency() == o.adjacency()
    &&& f.island(plan.target as int) is Some
    &&& merged(f.island(plan.target as int)->0, tgt, src, plan)
    &&& f.island(plan.source as int) is None
    &&& forall|r: int|
        0 <= r < o.face_count() && r != plan.target && r != plan.source ==> #[trigger] f.island(r)
            == o.island(r)
    &&& forall|x: int|
        0 <= x < o.face_count() ==> #[trigger] f.root(x) == if o.root(x) == plan.source {
            plan.target as int
        } else {
            o.root(x)
        }
    &&& forall|e: int|
        0 <= e < o.adjacency().edges@.len() ==> #[trigger] f.is_joined(e) == (e == eid || o.is_joined(e))
    &&& f.island_total() + 1 == o.island_total()
    &&& f.joined_total() == o.joined_total() + 1
}

impl Unfolder {
    /// Glues the pending join: the source island is merged into the target
    /// island along the planned mesh edge, which becomes a fold. Returns the
    /// source's local vertices that become new target vertices, in the order
    /// they are appended; `None` when no join is pending.
    pub fn commit_join(&mut self) -> (appended: Option<Vec<usize>>)
        requires
            old(self).wf(),
        ensures
            final(self).wf(),
            final(self).pending() is None,
            old(self).pending() is None ==> appended is None && same_islands(*old(self), *final(self)),
            old(self).pending() matches Some((eid, plan)) ==> commit_effect(
                *old(self),
                *final(self),
                eid,
                plan,
                appended,
            ),
    {
        let ghost o = *self;
        let (eid, plan) = match self.pending {
            Some(p) => p,
            None => {
                return None;
            },
        };
        self.pending = None;
        let t = plan.target;
        let s = plan.source;
        let ghost n = self.islands@.len();
        let ghost ne = self.adj.edges@.len();
        proof {
            assert(o.plan_ok(eid, plan));
        }
        let a_opt = self.islands[t].take();
        let b_opt = self.islands[s].take();
        let (a, mut b) = match (a_opt, b_opt) {
            (Some(a), Some(b)) => (a, b),
            _ => {
                proof {
                    assert(false);
                }
                return None;
            },
        };
        proof {
            assert(a == o.islands@[t as int]->0);
            assert(b == o.islands@[s as int]->0);
            assert(island_ok(a, ne));
            assert(island_ok(b, ne));
            assert forall|i: int, j: int| 0 <= i < a.faces@.len() && 0 <= j < b.faces@.len() implies a.faces@[i] != b.faces@[j] by {
                assert(o.uf.root(a.faces@[i] as int) == t);
                assert(o.uf.root(b.faces@[j] as int) == s);
            }
            vstd::seq_lib::lemma_no_dup_in_concat(a.faces@, b.faces@);
            assert forall|i: int| 0 <= i < (a.faces@ + b.faces@).len() implies (a.faces@ + b.faces@)[i] < n by {
                if i < a.faces@.len() {
                    assert((a.faces@ + b.faces@)[i] == a.faces@[i]);
                } else {
                    assert((a.faces@ + b.faces@)[i] == b.faces@[i - a.faces@.len()]);
                }
            }
            lemma_distinct_below(a.faces@ + b.faces@, n);
        }
        let base = a.vertex_count;
        // Renumber the source's local vertices into the target.
        let mut remapped: Vec<usize> = Vec::new();
        let mut appended: Vec<usize> = Vec::new();
        let mut next = base;
        let mut i: usize = 0;
        while i < b.vertex_count
            invariant
                base == a.vertex_count,
                base + b.vertex_count < usize::MAX,
                i <= b.vertex_count,
                plan.source_va < b.vertex_count,
                plan.source_vb < b.vertex_count,
                remapped@.len() == i,
                forall|j: int| 0 <= j < i ==> remapped@[j] == remap_local(j, base as int, plan),
                appended@ == fresh_upto(i as int, plan.source_va as int, plan.source_vb as int),
                next == base + fresh_rank(i as int, plan.source_va as int, plan.source_vb as int),
            decreases b.vertex_count - i,
        {
            if i == plan.source_vb {
                remapped.push(plan.target_vb);
            } else if i == plan.source_va {
                remapped.push(plan.target_va);
            } else {
                remapped.push(next);
                appended.push(i);
                next = next + 1;
            }
            i = i + 1;
        }
        proof {
            lemma_fresh_upto(b.vertex_count as int, plan.source_va as int, plan.source_vb as int);
        }
        // The target's boundary without the glued segment, then the source's.
        let mut boundary: Vec<BoundarySeg> = Vec::new();
        let mut j: usize = 0;
        while j < a.boundary.len()
            invariant
                j <= a.boundary@.len(),
                boundary@ == keep_except(a.boundary@.take(j as int), plan.seg_target),
            decreases a.boundary@.len() - j,
        {
            proof {
                assert(a.boundary@.take(j + 1).drop_last() == a.boundary@.take(j as int));
            }
            let sg = a.boundary[j];
            if !(sg == plan.seg_target) {
                boundary.push(sg);
            }
            j = j + 1;
        }
        proof {
            assert(a.boundary@.take(a.boundary@.len() as int) == a.boundary@);
        }
        let ghost kept = boundary@;
        let mut j: usize = 0;
        while j < b.boundary.len()
            invariant
                island_ok(b, ne),
                j <= b.boundary@.len(),
                remapped@.len() == b.vertex_count,
                forall|q: int| 0 <= q < b.vertex_count ==> remapped@[q] == remap_local(q, base as int, plan),
                boundary@ == kept + moved_except(b.boundary@.take(j as int), plan.seg_source, base as int, plan),
            decreases b.boundary@.len() - j,
        {
            proof {
                assert(b.boundary@.take(j + 1).drop_last() == b.boundary@.take(j as int));
            }
            let sg = b.boundary[j];
            if !(sg == plan.seg_source) {
                boundary.push(BoundarySeg { a: remapped[sg.a], b: remapped[sg.b], edge: sg.edge });
            }
            j = j + 1;
        }
        proof {
            assert(b.boundary@.take(b.boundary@.len() as int) == b.boundary@);
        }
        // The source's vertex map, renumbered, overrides the target's.
        let ghost g = |v: usize| remap_local(v as int, base as int, plan);
        let ghost ren = |e: (u32, usize)| (e.0, remap_local(e.1 as int, base as int, plan));
        let mut vmap = a.vmap;
        let mut j: usize = 0;
        while j < b.vmap.len()
            invariant
                island_ok(b, ne),
                j <= b.vmap@.len(),
                remapped@.len() == b.vertex_count,
                forall|q: int| 0 <= q < b.vertex_count ==> remapped@[q] == remap_local(q, base as int, plan),
                ren == (|e: (u32, usize)| (e.0, remap_local(e.1 as int, base as int, plan))),
                vmap@ == a.vmap@ + b.vmap@.take(j as int).map_values(ren),
            decreases b.vmap@.len() - j,
        {
            let (k, v) = b.vmap[j];
            proof {
                assert(b.vmap@[j as int] == (k, v));
                assert(v < b.vertex_count);
            }
            let ghost before_push = vmap@;
            vmap.push((k, remapped[v]));
            proof {
                assert(remapped@[v as int] == remap_local(v as int, base as int, plan));
                assert(ren(b.vmap@[j as int]) == (b.vmap@[j as int].0, remap_local(b.vmap@[j as int].1 as int, base as int, plan)));
                assert(ren(b.vmap@[j as int]) == (k, remapped@[v as int]));
                assert(vmap@ == before_push.push((k, remapped@[v as int])));
                assert(b.vmap@.take(j + 1).map_values(ren) == b.vmap@.take(j as int).map_values(ren).push(ren(b.vmap@[j as int])));
            }
            j = j + 1;
        }
        proof {
            assert(b.vmap@.take(b.vmap@.len() as int) == b.vmap@);
            lemma_vmap_append(a.vmap@, b.vmap@.map_values(ren));
            lemma_vmap_renumber(b.vmap@, g);
            assert(b.vmap@.map_values(ren) == b.vmap@.map_values(|e: (u32, usize)| (e.0, g(e.1))));
        }
        let ghost a_faces = a.faces@;
        let ghost b_faces = b.faces@;
        let ghost a0 = a;
        let ghost b0 = b;
        let mut faces = a.faces;
        faces.append(&mut b.faces);
        let isl = IslandTopology { faces, vertex_count: next, vmap, boundary };
        let ghost new_isl = isl;
        proof {
            assert(new_isl.faces@ == a_faces + b_faces);
            let bv = b.vertex_count as int;
            assert forall|q: int| 0 <= q < new_isl.vmap@.len() implies (#[trigger] new_isl.vmap@[q]).1 < new_isl.vertex_count by {
                if q < a.vmap@.len() {
                    assert(new_isl.vmap@[q] == a.vmap@[q]);
                } else {
                    let r = q - a.vmap@.len();
                    assert(new_isl.vmap@[q] == ren(b.vmap@[r]));
                    assert(b.vmap@[r].1 < bv);
                    lemma_remap_bound(b.vmap@[r].1 as int, base as int, plan, bv);
                }
            }
            assert forall|q: int| 0 <= q < new_isl.boundary@.len() implies {
                &&& (#[trigger] new_isl.boundary@[q]).a < new_isl.vertex_count
                &&& new_isl.boundary@[q].b < new_isl.vertex_count
                &&& new_isl.boundary@[q].edge < ne
            } by {
                if q < kept.len() {
                    lemma_keep_except_elems(a.boundary@, plan.seg_target, q);
                    assert(new_isl.boundary@[q] == kept[q]);
                } else {
                    let r = q - kept.len();
                    let moved = moved_except(b.boundary@, plan.seg_source, base as int, plan);
                    assert(new_isl.boundary@[q] == moved[r]);
                    lemma_moved_except_elems(b.boundary@, plan.seg_source, base as int, plan, r);
                    let i = choose|i: int| 0 <= i < b.boundary@.len() && remap_seg(b.boundary@[i], base as int, plan) == moved[r];
                    lemma_remap_bound(b.boundary@[i].a as int, base as int, plan, bv);
                    lemma_remap_bound(b.boundary@[i].b as int, base as int, plan, bv);
                }
            }
            assert(island_ok(new_isl, ne));
        }
        let ghost mid = self.islands@;
        self.islands.set(t, Some(isl));
        self.uf.link(t, s);
        self.joined.set(eid, true);
        proof {
            assert(mid == o.islands@.update(t as int, None).update(s as int, None));
            assert(self.islands@ == o.islands@.update(t as int, Some(new_isl)).update(s as int, None));
            lemma_count_some_update(o.islands@, t as int, Some(new_isl));
            lemma_count_some_update(o.islands@.update(t as int, Some(new_isl)), s as int, None);
            lemma_count_true_update(o.joined@, eid as int, true);
        }
        self.island_count = self.island_count - 1;
        self.joined_count = self.joined_count + 1;
        proof {
            let f = *self;
            assert forall|r: int| 0 <= r < n implies (#[trigger] f.islands@[r] is Some <==> f.uf.is_root(r)) by {
                assert(o.islands@[r] is Some <==> o.uf.is_root(r));
            }
            assert forall|r: int| 0 <= r < n && #[trigger] f.islands@[r] is Some implies island_ok(f.islands@[r]->0, ne) by {
                if r != t {
                    assert(f.islands@[r] == o.islands@[r]);
                }
            }
            assert forall|x: int| 0 <= x < n implies #[trigger] f.islands@[f.uf.root(x)] is Some
                && f.islands@[f.uf.root(x)]->0.faces@.contains(x as usize) by {
                assert(o.islands@[o.uf.root(x)] is Some && o.islands@[o.uf.root(x)]->0.faces@.contains(x as usize));
                o.uf.lemma_roots(x);
                if o.uf.root(x) == s {
                    let j = choose|j: int| 0 <= j < b_faces.len() && b_faces[j] == x as usize;
                    assert(new_isl.faces@[a_faces.len() + j] == x as usize);
                } else if o.uf.root(x) == t {
                    let j = choose|j: int| 0 <= j < a_faces.len() && a_faces[j] == x as usize;
                    assert(new_isl.faces@[j] == x as usize);
                }
            }
            assert forall|r: int, j: int|
                0 <= r < n && f.islands@[r] is Some && 0 <= j < f.islands@[r]->0.faces@.len() implies {
                    let x = #[trigger] f.islands@[r]->0.faces@[j];
                    x < n && f.uf.root(x as int) == r
                } by {
                if r == t {
                    if j < a_faces.len() {
                        assert(f.islands@[r]->0.faces@[j] == a_faces[j]);
                        assert(o.islands@[t as int]->0.faces@[j] == a_faces[j]);
                    } else {
                        assert(f.islands@[r]->0.faces@[j] == b_faces[j - a_faces.len()]);
                        assert(o.islands@[s as int]->0.faces@[j - a_faces.len()] == b_faces[j - a_faces.len()]);
                    }
                } else {
                    assert(f.islands@[r] == o.islands@[r]);
                    assert(o.islands@[r]->0.faces@[j] == f.islands@[r]->0.faces@[j]);
                }
            }
            assert forall|e: int| 0 <= e < ne && #[trigger] f.joined@[e] implies f.uf.root(f.adj.edges@[e].face_a as int)
                == f.uf.root(f.adj.edges@[e].face_b as int) by {
                if e != eid {
                    assert(o.joined@[e]);
                }
            }
            assert(appended@ == fresh_upto(b0.vertex_count as int, plan.source_va as int, plan.source_vb as int));
            assert(merged(new_isl, a0, b0, plan));
            assert(f.joined@ == o.joined@.update(eid as int, true));
            assert forall|r: int| 0 <= r < n && #[trigger] f.islands@[r] is Some implies island_counts(
                f.islands@[r]->0,
                f.adj.edges@,
                f.joined@,
            ) by {
                if r == t {
                    lemma_merged_counts(o, eid, plan, new_isl);
                } else {
                    let other = o.islands@[r]->0;
                    let fa = o.adj.edges@[eid as int].face_a;
                    assert(f.islands@[r] == o.islands@[r]);
                    assert(island_counts(other, o.adj.edges@, o.joined@));
                    assert(o.plan_ok(eid, plan));
                    lemma_island_holds(o, r, fa);
                    lemma_glued_other(o.joined@, o.adj.edges@, other.faces@, eid as int, ne as int);
                }
            }
            assert(f.wf());
            assert forall|r: int|
                0 <= r < n && r != t && r != s implies #[trigger] f.island(r) == o.island(r) by {}
        }
        Some(appended)
    }
}

// ----------------------------------------------------------------------------
// The finished net
// ----------------------------------------------------------------------------

/// A finished island: its root face, its faces, how many local vertices it
/// has, and every edge (boundary cuts, then folds) in local vertex indices.
pub struct IslandLayout {
    pub root: usize,
    pub faces: Vec<usize>,
    pub vertex_count: usize,
    pub edges: Vec<NetEdge>,
}

/// The boundary segments of an island as cut lines.
pub open spec fn cut_edges(b: Seq<BoundarySeg>) -> Seq<NetEdge> {
    b.map_values(|s: BoundarySeg| NetEdge { a: s.a, b: s.b, kind: EdgeKind::Cut })
}

/// The fold lines that an island shows among mesh edges `0..k`: each mesh
/// edge glued between two faces of the island (whose two vertices the island
/// knows), with the given kind.
pub open spec fn fold_edges(u: Unfolder, isl: IslandTopology, kinds: Seq<EdgeKind>, k: int) -> Seq<NetEdge>
    decreases k,
{
    if k <= 0 {
        seq![]
    } else {
        let e = u.adjacency().edges@[k - 1];
        let vm = vmap_view(isl.vmap@);
        fold_edges(u, isl, kinds, k - 1) + if u.is_joined(k - 1) && isl.faces@.contains(e.face_a)
            && isl.faces@.contains(e.face_b) && vm.contains_key(e.va) && vm.contains_key(e.vb) {
            seq![NetEdge { a: vm[e.va], b: vm[e.vb], kind: kinds[k - 1] }]
        } else {
            seq![]
        }
    }
}

/// All net edges of an island: its cuts, then its folds.
pub open spec fn net_edges(u: Unfolder, isl: IslandTopology, kinds: Seq<EdgeKind>) -> Seq<NetEdge> {
    cut_edges(isl.boundary@) + fold_edges(u, isl, kinds, u.adjacency().edges@.len() as int)
}

/// `l` lays out the island of `u` rooted at `l.root`.
pub open spec fn layout_of(u: Unfolder, kinds: Seq<EdgeKind>, l: IslandLayout) -> bool {
    let isl = u.island(l.root as int)->0;
    &&& l.root < u.face_count()
    &&& u.island(l.root as int) is Some
    &&& l.faces@ == isl.faces@
    &&& l.vertex_count == isl.vertex_count
    &&& l.edges@ == net_edges(u, isl, kinds)
    &&& forall|j: int| 0 <= j < l.faces@.len() ==> #[trigger] l.faces@[j] < u.face_count()
    &&& forall|j: int| 0 <= j < l.edges@.len() ==> (#[trigger] l.edges@[j]).a < l.vertex_count && l.edges@[j].b < l.vertex_count
}

/// The fold lines of an island join its own local vertices.
proof fn lemma_fold_edges_bounded(u: Unfolder, isl: IslandTopology, kinds: Seq<EdgeKind>, k: int)
    requires
        forall|j: int| 0 <= j < isl.vmap@.len() ==> (#[trigger] isl.vmap@[j]).1 < isl.vertex_count,
    ensures
        forall|q: int| 0 <= q < fold_edges(u, isl, kinds, k).len() ==> (#[trigger] fold_edges(u, isl, kinds, k)[q]).a
            < isl.vertex_count && fold_edges(u, isl, kinds, k)[q].b < isl.vertex_count,
    decreases k,
{
    if k > 0 {
        lemma_fold_edges_bounded(u, isl, kinds, k - 1);
        let e = u.adjacency().edges@[k - 1];
        let vm = vmap_view(isl.vmap@);
        if vm.contains_key(e.va) && vm.contains_key(e.vb) {
            lemma_vmap_values(isl.vmap@, e.va);
            lemma_vmap_values(isl.vmap@, e.vb);
        }
        let prev = fold_edges(u, isl, kinds, k - 1);
        let cur = fold_edges(u, isl, kinds, k);
        assert forall|q: int| 0 <= q < cur.len() implies (#[trigger] cur[q]).a < isl.vertex_count && cur[q].b < isl.vertex_count by {
            if q < prev.len() {
                assert(cur[q] == prev[q]);
            }
        }
    }
}

/// The indices of the present islands, in increasing order.
pub open spec fn some_indices(s: Seq<Option<IslandTopology>>) -> Seq<usize>
    decreases s.len(),
{
    if s.len() == 0 {
        seq![]
    } else {
        some_indices(s.drop_last()) + if s.last() is Some {
            seq![(s.len() - 1) as usize]
        } else {
            seq![]
        }
    }
}

proof fn lemma_some_indices(s: Seq<Option<IslandTopology>>)
    requires
        s.len() < usize::MAX,
    ensures
        some_indices(s).len() == count_some(s),
        forall|p: int| 0 <= p < some_indices(s).len() ==> (#[trigger] some_indices(s)[p]) < s.len() && s[some_indices(s)[p] as int] is Some,
        forall|p: int, q: int| 0 <= p < q < some_indices(s).len() ==> #[trigger] some_indices(s)[p] < #[trigger] some_indices(s)[q],
        forall|r: int| 0 <= r < s.len() && #[trigger] s[r] is Some ==> some_indices(s).contains(r as usize),
    decreases s.len(),
{
    if s.len() > 0 {
        let t = s.drop_last();
        lemma_some_indices(t);
        let prev = some_indices(t);
        let cur = some_indices(s);
        assert forall|p: int| 0 <= p < cur.len() implies (#[trigger] cur[p]) < s.len() && s[cur[p] as int] is Some by {
            if p < prev.len() {
                assert(cur[p] == prev[p]);
                assert(s[prev[p] as int] == t[prev[p] as int]);
            }
        }
        assert forall|p: int, q: int| 0 <= p < q < cur.len() implies #[trigger] cur[p] < #[trigger] cur[q] by {
            assert(cur[p] == prev[p]);
            if q < prev.len() {
                assert(cur[q] == prev[q]);
            }
        }
        assert forall|r: int| 0 <= r < s.len() && #[trigger] s[r] is Some implies some_indices(s).contains(r as usize) by {
            if r < t.len() {
                assert(t[r] is Some);
                let p = choose|p: int| 0 <= p < some_indices(t).len() && some_indices(t)[p] == r as usize;
                assert(some_indices(s)[p] == r as usize);
            } else {
                assert(some_indices(s)[some_indices(s).len() - 1] == r as usize);
            }
        }
    }
}

/// A duplicate-free list of `m` indices below `m` holds every index below `m`.
pub proof fn lemma_covers(order: Seq<usize>, m: nat, i: usize)
    requires
        order.len() == m,
        order.no_duplicates(),
        forall|p: int| 0 <= p < order.len() ==> order[p] < m,
        i < m,
    ensures
        order.contains(i),
{
    if !order.contains(i) {
        let g = |v: usize| if v > i { (v - 1) as usize } else { v };
        let u = order.map_values(g);
        assert forall|p: int, q: int| 0 <= p < u.len() && 0 <= q < u.len() && p != q implies u[p] != u[q] by {
            assert(order[p] != i && order[q] != i);
        }
        assert forall|p: int| 0 <= p < u.len() implies u[p] < m - 1 by {
            assert(order[p] != i);
        }
        lemma_distinct_below(u, (m - 1) as nat);
    }
}

impl Unfolder {
    /// Lays out one island: its cut lines, then the fold lines it shows.
    fn layout(&self, r: usize, fold_kinds: &Vec<EdgeKind>) -> (l: IslandLayout)
        requires
            self.wf(),
            r < self.face_count(),
            self.island(r as int) is Some,
            fold_kinds@.len() == self.adjacency().edges@.len(),
        ensures
            layout_of(*self, fold_kinds@, l),
            l.root == r,
    {
        let isl = self.islands[r].as_ref().unwrap();
        let mut faces: Vec<usize> = Vec::new();
        let mut j: usize = 0;
        while j < isl.faces.len()
            invariant
                j <= isl.faces@.len(),
                faces@ == isl.faces@.take(j as int),
            decreases isl.faces@.len() - j,
        {
            faces.push(isl.faces[j]);
            proof {
                assert(isl.faces@.take(j + 1) == isl.faces@.take(j as int).push(isl.faces@[j as int]));
            }
            j = j + 1;
        }
        proof {
            assert(isl.faces@.take(isl.faces@.len() as int) == isl.faces@);
        }
        let mut edges: Vec<NetEdge> = Vec::new();
        let mut j: usize = 0;
        while j < isl.boundary.len()
            invariant
                j <= isl.boundary@.len(),
                edges@ == cut_edges(isl.boundary@.take(j as int)),
            decreases isl.boundary@.len() - j,
        {
            let sg = isl.boundary[j];
            edges.push(NetEdge { a: sg.a, b: sg.b, kind: EdgeKind::Cut });
            proof {
                assert(cut_edges(isl.boundary@.take(j + 1)) == cut_edges(isl.boundary@.take(j as int)).push(NetEdge { a: sg.a, b: sg.b, kind: EdgeKind::Cut }));
            }
            j = j + 1;
        }
        proof {
            assert(isl.boundary@.take(isl.boundary@.len() as int) == isl.boundary@);
        }
        let ghost cuts = edges@;
        // Which faces belong to the island.
        let n = self.islands.len();
        let mut member: Vec<bool> = Vec::new();
        while member.len() < n
            invariant
                member@.len() <= n,
                forall|g: int| 0 <= g < member@.len() ==> !#[trigger] member@[g],
            decreases n - member@.len(),
        {
            member.push(false);
        }
        let mut j: usize = 0;
        while j < isl.faces.len()
            invariant
                self.wf(),
                n == self.islands@.len(),
                member@.len() == n,
                j <= isl.faces@.len(),
                *isl == self.islands@[r as int]->0,
                r < n,
                self.islands@[r as int] is Some,
                forall|g: int| 0 <= g < n ==> #[trigger] member@[g] == isl.faces@.take(j as int).contains(g as usize),
            decreases isl.faces@.len() - j,
        {
            let f = isl.faces[j];
            proof {
                assert(isl.faces@[j as int] < n);
                assert(isl.faces@.take(j + 1) == isl.faces@.take(j as int).push(f));
            }
            let ghost before = member@;
            member.set(f, true);
            proof {
                let t0 = isl.faces@.take(j as int);
                let t1 = isl.faces@.take(j + 1);
                assert forall|g: int| 0 <= g < n implies #[trigger] member@[g] == t1.contains(g as usize) by {
                    if g == f as int {
                        assert(t1[j as int] == f);
                    } else {
                        assert(member@[g] == before[g]);
                        if t1.contains(g as usize) {
                            let q = choose|q: int| 0 <= q < t1.len() && t1[q] == g as usize;
                            assert(t0[q] == g as usize);
                        }
                        if t0.contains(g as usize) {
                            let q = choose|q: int| 0 <= q < t0.len() && t0[q] == g as usize;
                            assert(t1[q] == g as usize);
                        }
                    }
                }
            }
            j = j + 1;
        }
        proof {
            assert(isl.faces@.take(isl.faces@.len() as int) == isl.faces@);
        }
        let ne = self.adj.edges.len();
        let mut eid: usize = 0;
        while eid < ne
            invariant
                self.wf(),
                ne == self.adj.edges@.len(),
                fold_kinds@.len() == ne,
                eid <= ne,
                *isl == self.islands@[r as int]->0,
                n == self.islands@.len(),
                member@.len() == n,
                forall|g: int| 0 <= g < n ==> #[trigger] member@[g] == isl.faces@.contains(g as usize),
                edges@ == cuts + fold_edges(*self, *isl, fold_kinds@, eid as int),
            decreases ne - eid,
        {
            let e = self.adj.edges[eid];
            proof {
                assert(self.adj.edges@[eid as int] == e);
                assert(e.face_a < n && e.face_b < n);
                if isl.faces@.contains(e.face_a) {
                    let q = choose|q: int| 0 <= q < isl.faces@.len() && isl.faces@[q] == e.face_a;
                    assert(isl.faces@[q] < n);
                }
            }
            if self.joined[eid] && member[e.face_a] && member[e.face_b] {
                match (vmap_get(&isl.vmap, e.va), vmap_get(&isl.vmap, e.vb)) {
                    (Some(a), Some(b)) => {
                        edges.push(NetEdge { a, b, kind: fold_kinds[eid] });
                    },
                    _ => {},
                }
            }
            proof {
                assert(self.joined@[eid as int] == self.is_joined(eid as int));
            }
            eid = eid + 1;
        }
        proof {
            assert(island_ok(*isl, ne as nat));
            lemma_fold_edges_bounded(*self, *isl, fold_kinds@, ne as int);
            let folds = fold_edges(*self, *isl, fold_kinds@, ne as int);
            assert forall|j: int| 0 <= j < edges@.len() implies (#[trigger] edges@[j]).a < isl.vertex_count && edges@[j].b < isl.vertex_count by {
                if j < cuts.len() {
                    assert(edges@[j] == cuts[j]);
                    assert(cuts[j].a == isl.boundary@[j].a);
                } else {
                    assert(edges@[j] == folds[j - cuts.len()]);
                }
            }
            assert forall|j: int| 0 <= j < faces@.len() implies #[trigger] faces@[j] < self.face_count() by {
                assert(faces@[j] == isl.faces@[j]);
            }
        }
        IslandLayout { root: r, faces, vertex_count: isl.vertex_count, edges }
    }

    /// Lists the islands, largest (by face count) first; islands of equal size
    /// in order of their root face. Each island lists its boundary segments as
    /// cut lines, then, for every mesh edge glued between two of its faces, a
    /// fold line of the kind that `fold_kinds` gives that edge.
    pub fn finish(&self, fold_kinds: &Vec<EdgeKind>) -> (layouts: Vec<IslandLayout>)
        requires
            self.wf(),
            fold_kinds@.len() == self.adjacency().edges@.len(),
        ensures
            layouts@.len() == self.island_total(),
            forall|k: int| 0 <= k < layouts@.len() ==> layout_of(*self, fold_kinds@, #[trigger] layouts@[k]),
            forall|r: int| 0 <= r < self.face_count() && #[trigger] self.island(r) is Some ==> exists|k: int| 0 <= k < layouts@.len() && #[trigger] layouts@[k].root == r,
            forall|p: int, q: int| 0 <= p < q < layouts@.len() ==> #[trigger] layouts@[p].root != #[trigger] layouts@[q].root,
            forall|p: int, q: int|
                0 <= p < q < layouts@.len() ==> {
                    let lp = #[trigger] layouts@[p];
                    let lq = #[trigger] layouts@[q];
                    lp.faces@.len() > lq.faces@.len() || (lp.faces@.len() == lq.faces@.len() && lp.root < lq.root)
                },
    {
        let n = self.islands.len();
        let mut roots: Vec<usize> = Vec::new();
        let mut keys: Vec<u64> = Vec::new();
        let mut r: usize = 0;
        while r < n
            invariant
                self.wf(),
                n == self.islands@.len(),
                r <= n,
                roots@ == some_indices(self.islands@.take(r as int)),
                keys@.len() == roots@.len(),
                forall|p: int| 0 <= p < keys@.len() ==> #[trigger] keys@[p] == self.islands@[roots@[p] as int]->0.faces@.len(),
            decreases n - r,
        {
            proof {
                assert(self.islands@.take(r + 1).drop_last() == self.islands@.take(r as int));
                lemma_some_indices(self.islands@.take(r as int));
            }
            match &self.islands[r] {
                Some(isl) => {
                    roots.push(r);
                    proof {
                        assert(isl.faces@.len() < usize::MAX) by {
                            assert(island_ok(*isl, self.adj.edges@.len()));
                            lemma_distinct_below(isl.faces@, n as nat);
                        }
                    }
                    keys.push(isl.faces.len() as u64);
                },
                None => {},
            }
            r = r + 1;
        }
        proof {
            assert(self.islands@.take(n as int) == self.islands@);
            lemma_some_indices(self.islands@);
        }
        let order = stable_order_desc(&keys);
        let mut layouts: Vec<IslandLayout> = Vec::new();
        let mut k: usize = 0;
        while k < order.len()
            invariant
                self.wf(),
                fold_kinds@.len() == self.adjacency().edges@.len(),
                is_stable_desc_order(keys@, order@),
                roots@ == some_indices(self.islands@),
                keys@.len() == roots@.len(),
                forall|p: int| 0 <= p < keys@.len() ==> #[trigger] keys@[p] == self.islands@[roots@[p] as int]->0.faces@.len(),
                k <= order@.len(),
                layouts@.len() == k,
                forall|q: int| 0 <= q < k ==> #[trigger] layouts@[q].root == roots@[order@[q] as int],
                forall|q: int| 0 <= q < k ==> layout_of(*self, fold_kinds@, #[trigger] layouts@[q]),
            decreases order@.len() - k,
        {
            proof {
                lemma_some_indices(self.islands@);
            }
            let root = roots[order[k]];
            let l = self.layout(root, fold_kinds);
            layouts.push(l);
            k = k + 1;
        }
        proof {
            lemma_some_indices(self.islands@);
            assert forall|rr: int| 0 <= rr < self.face_count() && #[trigger] self.island(rr) is Some implies exists|q: int| 0 <= q < layouts@.len() && #[trigger] layouts@[q].root == rr by {
                assert(self.islands@[rr] is Some);
                let i = choose|i: int| 0 <= i < roots@.len() && roots@[i] == rr as usize;
                lemma_covers(order@, keys@.len() as nat, i as usize);
                let q = choose|q: int| 0 <= q < order@.len() && order@[q] == i as usize;
                assert(layouts@[q].root == rr);
            }
            assert forall|p: int, q: int| 0 <= p < q < layouts@.len() implies #[trigger] layouts@[p].root != #[trigger] layouts@[q].root by {
                assert(order@[p] != order@[q]);
                if order@[p] > order@[q] {
                    assert(roots@[order@[q] as int] < roots@[order@[p] as int]);
                } else {
                    assert(roots@[order@[p] as int] < roots@[order@[q] as int]);
                }
            }
            assert forall|p: int, q: int| 0 <= p < q < layouts@.len() implies {
                let lp = #[trigger] layouts@[p];
                let lq = #[trigger] layouts@[q];
                lp.faces@.len() > lq.faces@.len() || (lp.faces@.len() == lq.faces@.len() && lp.root < lq.root)
            } by {
                assert(crate::order::before_desc(keys@, order@[p], order@[q]));
                assert(layout_of(*self, fold_kinds@, layouts@[p]));
                assert(layout_of(*self, fold_kinds@, layouts@[q]));
                if order@[p] > order@[q] {
                    assert(roots@[order@[q] as int] < roots@[order@[p] as int]);
                } else if order@[p] < order@[q] {
                    assert(roots@[order@[p] as int] < roots@[order@[q] as int]);
                }
            }
        }
        layouts
    }
}

// ----------------------------------------------------------------------------
// Laws
// ----------------------------------------------------------------------------

/// Every face lies in exactly one island, once.
pub proof fn law_faces_partitioned(u: Unfolder)
    requires
        u.wf(),
    ensures
        forall|f: int|
            0 <= f < u.face_count() ==> #[trigger] u.island(u.root(f)) is Some && u.island(
                u.root(f),
            )->0.faces@.contains(f as usize),
        forall|r: int, f: usize|
            0 <= r < u.face_count() && #[trigger] u.island(r) is Some && u.island(r)->0.faces@.contains(f)
                ==> #[trigger] u.root(f as int) == r,
        forall|r: int| 0 <= r < u.face_count() && #[trigger] u.island(r) is Some ==> u.island(r)->0.faces@.no_duplicates(),
{
    assert forall|r: int, f: usize|
        0 <= r < u.face_count() && #[trigger] u.island(r) is Some && u.island(r)->0.faces@.contains(f)
            implies #[trigger] u.root(f as int) == r by {
        let j = choose|j: int| 0 <= j < u.islands@[r]->0.faces@.len() && u.islands@[r]->0.faces@[j] == f;
        assert(u.uf.root(u.islands@[r]->0.faces@[j] as int) == r);
    }
    assert forall|r: int| 0 <= r < u.face_count() && #[trigger] u.island(r) is Some implies u.island(r)->0.faces@.no_duplicates() by {
        assert(island_ok(u.islands@[r]->0, u.adj.edges@.len()));
    }
}

/// Each glued mesh edge (a fold) joins two faces of the same island.
pub proof fn law_folds_inside_islands(u: Unfolder)
    requires
        u.wf(),
    ensures
        forall|e: int|
            0 <= e < u.adjacency().edges@.len() && #[trigger] u.is_joined(e) ==> u.root(
                u.adjacency().edges@[e].face_a as int,
            ) == u.root(u.adjacency().edges@[e].face_b as int),
{
}

/// Every glue step merges two islands into one: islands and folds together
/// always number the faces.
pub proof fn law_islands_and_folds(u: Unfolder)
    requires
        u.wf(),
    ensures
        u.island_total() + u.joined_total() == u.face_count(),
{
}

/// The fold lines of island `r` are exactly its glued edges.
proof fn lemma_fold_edges_glued(u: Unfolder, r: int, kinds: Seq<EdgeKind>, k: int)
    requires
        u.wf(),
        0 <= r < u.islands@.len(),
        u.islands@[r] is Some,
        k <= u.adj.edges@.len(),
        forall|e: int| 0 <= e < kinds.len() ==> !(#[trigger] kinds[e] is Cut),
        kinds.len() == u.adj.edges@.len(),
    ensures
        fold_edges(u, u.islands@[r]->0, kinds, k).len() == glued_count(
            u.joined@,
            u.adj.edges@,
            u.islands@[r]->0.faces@,
            k,
        ),
        forall|q: int|
            0 <= q < fold_edges(u, u.islands@[r]->0, kinds, k).len() ==> !((#[trigger] fold_edges(
                u,
                u.islands@[r]->0,
                kinds,
                k,
            )[q]).kind is Cut),
    decreases k,
{
    if k > 0 {
        let isl = u.islands@[r]->0;
        lemma_fold_edges_glued(u, r, kinds, k - 1);
        let e = u.adj.edges@[k - 1];
        assert(island_counts(isl, u.adj.edges@, u.joined@));
        if u.joined@[k - 1] && isl.faces@.contains(e.face_a) {
            assert(e.face_a < u.islands@.len() && e.face_b < u.islands@.len());
            lemma_island_holds(u, r, e.face_a);
            lemma_island_holds(u, r, e.face_b);
        }
        let prev = fold_edges(u, isl, kinds, k - 1);
        let cur = fold_edges(u, isl, kinds, k);
        assert forall|q: int| 0 <= q < cur.len() implies !((#[trigger] cur[q]).kind is Cut) by {
            if q < prev.len() {
                assert(cur[q] == prev[q]);
            } else {
                assert(cur[q].kind == kinds[k - 1]);
            }
        }
    }
}

/// An island of `n` faces has `n + 2` boundary segments and `n - 1` glued
/// mesh edges between its faces: its layout shows `n + 2` cut lines followed
/// by `n - 1` fold lines, when no fold is given the cut kind.
pub proof fn law_island_edge_counts(u: Unfolder, kinds: Seq<EdgeKind>, l: IslandLayout)
    requires
        u.wf(),
        layout_of(u, kinds, l),
        kinds.len() == u.adjacency().edges@.len(),
        forall|e: int| 0 <= e < kinds.len() ==> !(#[trigger] kinds[e] is Cut),
    ensures
        l.edges@.len() == 2 * l.faces@.len() + 1,
        forall|j: int| 0 <= j < l.faces@.len() + 2 ==> (#[trigger] l.edges@[j]).kind is Cut,
        forall|j: int| l.faces@.len() + 2 <= j < l.edges@.len() ==> !((#[trigger] l.edges@[j]).kind is Cut),
{
    let r = l.root as int;
    let isl = u.islands@[r]->0;
    let ne = u.adj.edges@.len() as int;
    assert(island_counts(isl, u.adj.edges@, u.joined@));
    lemma_fold_edges_glued(u, r, kinds, ne);
    let cuts = cut_edges(isl.boundary@);
    let folds = fold_edges(u, isl, kinds, ne);
    assert(l.edges@ == cuts + folds);
    assert forall|j: int| 0 <= j < l.faces@.len() + 2 implies (#[trigger] l.edges@[j]).kind is Cut by {
        assert(l.edges@[j] == cuts[j]);
    }
    assert forall|j: int| l.faces@.len() + 2 <= j < l.edges@.len() implies !((#[trigger] l.edges@[j]).kind is Cut) by {
        assert(l.edges@[j] == folds[j - cuts.len()]);
    }
}

/// Face `f` lies in some island of the net.
pub open spec fn face_in_net(layouts: Seq<IslandLayout>, f: int) -> bool {
    exists|k: int| 0 <= k < layouts.len() && (#[trigger] layouts[k].faces@).contains(f as usize)
}

/// In the finished net every face lies in exactly one island.
pub proof fn law_net_partitions_faces(u: Unfolder, kinds: Seq<EdgeKind>, layouts: Seq<IslandLayout>)
    requires
        u.wf(),
        forall|k: int| 0 <= k < layouts.len() ==> layout_of(u, kinds, #[trigger] layouts[k]),
        forall|r: int| 0 <= r < u.face_count() && #[trigger] u.island(r) is Some ==> exists|k: int| 0 <= k < layouts.len() && #[trigger] layouts[k].root == r,
        forall|p: int, q: int| 0 <= p < q < layouts.len() ==> #[trigger] layouts[p].root != #[trigger] layouts[q].root,
    ensures
        forall|f: int| 0 <= f < u.face_count() ==> #[trigger] face_in_net(layouts, f),
        forall|f: usize, p: int, q: int|
            0 <= p < layouts.len() && 0 <= q < layouts.len() && #[trigger] layouts[p].faces@.contains(f)
                && #[trigger] layouts[q].faces@.contains(f) ==> p == q,
        forall|k: int| 0 <= k < layouts.len() ==> (#[trigger] layouts[k].faces@).no_duplicates(),
{
    law_faces_partitioned(u);
    assert forall|f: int| 0 <= f < u.face_count() implies #[trigger] face_in_net(layouts, f) by {
        let r = u.root(f);
        u.uf.lemma_roots(f);
        assert(u.island(r) is Some);
        let k = choose|k: int| 0 <= k < layouts.len() && #[trigger] layouts[k].root == r;
        assert(layout_of(u, kinds, layouts[k]));
        assert(layouts[k].faces@.contains(f as usize));
    }
    assert forall|f: usize, p: int, q: int|
        0 <= p < layouts.len() && 0 <= q < layouts.len() && #[trigger] layouts[p].faces@.contains(f)
            && #[trigger] layouts[q].faces@.contains(f) implies p == q by {
        assert(layout_of(u, kinds, layouts[p]));
        assert(layout_of(u, kinds, layouts[q]));
        assert(u.root(f as int) == layouts[p].root);
        assert(u.root(f as int) == layouts[q].root);
        if p < q {
            assert(layouts[p].root != layouts[q].root);
        } else if q < p {
            assert(layouts[q].root != layouts[p].root);
        }
    }
    assert forall|k: int| 0 <= k < layouts.len() implies (#[trigger] layouts[k].faces@).no_duplicates() by {
        assert(layout_of(u, kinds, layouts[k]));
    }
}

} // verus!
