//! Edge adjacency of a triangulated mesh.
//!
//! Face `f` has three directed half-edges, numbered `3 * f + k` for `k < 3`:
//! half-edge `k` runs from corner `k` to corner `(k + 1) % 3`. Two half-edges
//! belong to the same mesh edge when they join the same two vertices, in
//! either direction. A mesh is a closed 2-manifold (for this purpose) when
//! every mesh edge is shared by exactly two half-edges.

use vstd::prelude::*;
use vstd::hash_map::HashMapWithView;

use super::UnfoldError;

verus! {

broadcast use vstd::std_specs::hash::group_hash_axioms;

// ----------------------------------------------------------------------------
// Model
// ----------------------------------------------------------------------------

/// The undirected key of the edge between vertices `a` and `b`: the smaller
/// index first.
pub open spec fn vkey(a: u32, b: u32) -> (u32, u32) {
    if a <= b {
        (a, b)
    } else {
        (b, a)
    }
}

/// The number of half-edges of the mesh.
pub open spec fn he_count(faces: Seq<[u32; 3]>) -> int {
    3 * faces.len() as int
}

/// The edge key of half-edge `h`.
pub open spec fn he_key(faces: Seq<[u32; 3]>, h: int) -> (u32, u32) {
    let f = faces[h / 3];
    vkey(f[h % 3], f[(h % 3 + 1) % 3])
}

/// How many of the half-edges `0..n` have the edge key `kk`.
pub open spec fn key_count(faces: Seq<[u32; 3]>, kk: (u32, u32), n: int) -> nat
    decreases n,
{
    if n <= 0 {
        0
    } else {
        key_count(faces, kk, n - 1) + if he_key(faces, n - 1) == kk {
            1nat
        } else {
            0nat
        }
    }
}

/// How many half-edges of the mesh join the two vertices of `kk`.
pub open spec fn multiplicity(faces: Seq<[u32; 3]>, kk: (u32, u32)) -> nat {
    key_count(faces, kk, he_count(faces))
}

/// Every mesh edge is shared by exactly two half-edges.
pub open spec fn is_closed_manifold(faces: Seq<[u32; 3]>) -> bool {
    forall|h: int| 0 <= h < he_count(faces) ==> #[trigger] multiplicity(faces, he_key(faces, h)) == 2
}

/// Mesh edges used by a single half-edge (open boundary).
pub open spec fn open_edges(faces: Seq<[u32; 3]>) -> Set<(u32, u32)> {
    Set::new(|kk: (u32, u32)| multiplicity(faces, kk) == 1)
}

/// Mesh edges used by more than two half-edges (non-manifold).
pub open spec fn overshared_edges(faces: Seq<[u32; 3]>) -> Set<(u32, u32)> {
    Set::new(|kk: (u32, u32)| multiplicity(faces, kk) >= 3)
}

/// An undirected mesh edge with its two incident faces. `va <= vb` are the
/// edge's vertices.
#[derive(Clone, Copy, Debug)]
pub struct MeshEdge {
    pub face_a: usize,
    pub face_b: usize,
    pub va: u32,
    pub vb: u32,
}

/// The edge adjacency built from a triangulated mesh.
pub struct Adjacency {
    pub edges: Vec<MeshEdge>,
    /// For each face, the mesh edge index of each directed edge
    /// (v0 to v1, v1 to v2, v2 to v0).
    pub face_edges: Vec<[usize; 3]>,
}

/// Two distinct half-edges `ha < hb` of `edge` carry its key, and their faces
/// are its two faces.
pub open spec fn edge_has_halves(faces: Seq<[u32; 3]>, edge: MeshEdge, ha: int, hb: int) -> bool {
    &&& 0 <= ha < hb < he_count(faces)
    &&& he_key(faces, ha) == (edge.va, edge.vb)
    &&& he_key(faces, hb) == (edge.va, edge.vb)
    &&& edge.face_a == ha / 3
    &&& edge.face_b == hb / 3
}

/// Mesh edge `e` of `adj` is made of two half-edges that name it.
pub open spec fn edge_placed(faces: Seq<[u32; 3]>, adj: Adjacency, e: int) -> bool {
    exists|ha: int, hb: int|
        #![trigger edge_has_halves(faces, adj.edges@[e], ha, hb)]
        {
            &&& edge_has_halves(faces, adj.edges@[e], ha, hb)
            &&& adj.face_edges@[ha / 3][ha % 3] == e
            &&& adj.face_edges@[hb / 3][hb % 3] == e
        }
}

/// `adj` is the adjacency of `faces`: each face's half-edges name the mesh
/// edge with their key and one of whose faces they are, each mesh edge is
/// made of two of the mesh's half-edges that name it, and no key occurs twice.
pub open spec fn adjacency_of(faces: Seq<[u32; 3]>, adj: Adjacency) -> bool {
    &&& adj.face_edges@.len() == faces.len()
    &&& forall|f: int, k: int|
        #![trigger adj.face_edges@[f][k]]
        0 <= f < faces.len() && 0 <= k < 3 ==> {
            let e = adj.face_edges@[f][k];
            &&& e < adj.edges@.len()
            &&& (adj.edges@[e as int].va, adj.edges@[e as int].vb) == he_key(faces, 3 * f + k)
            &&& (adj.edges@[e as int].face_a == f || adj.edges@[e as int].face_b == f)
        }
    &&& forall|e: int| 0 <= e < adj.edges@.len() ==> #[trigger] edge_placed(faces, adj, e)
    &&& forall|e1: int, e2: int|
        0 <= e1 < e2 < adj.edges@.len() ==> (#[trigger] adj.edges@[e1].va, adj.edges@[e1].vb) != (
        #[trigger] adj.edges@[e2].va, adj.edges@[e2].vb)
}

// ----------------------------------------------------------------------------
// Lemmas about counting
// ----------------------------------------------------------------------------

proof fn lemma_count_monotone(faces: Seq<[u32; 3]>, kk: (u32, u32), a: int, b: int)
    requires
        a <= b,
    ensures
        key_count(faces, kk, a) <= key_count(faces, kk, b),
    decreases b - a,
{
    if a < b {
        lemma_count_monotone(faces, kk, a, b - 1);
    }
}

proof fn lemma_count_bound(faces: Seq<[u32; 3]>, kk: (u32, u32), n: int)
    requires
        0 <= n,
    ensures
        key_count(faces, kk, n) <= n,
    decreases n,
{
    if n > 0 {
        lemma_count_bound(faces, kk, n - 1);
    }
}

/// An occurrence at `a` adds one to every count past `a`.
proof fn lemma_count_step(faces: Seq<[u32; 3]>, kk: (u32, u32), a: int, b: int)
    requires
        0 <= a < b,
        he_key(faces, a) == kk,
    ensures
        key_count(faces, kk, b) >= key_count(faces, kk, a) + 1,
{
    lemma_count_monotone(faces, kk, a + 1, b);
}

/// A positive count is witnessed by an occurrence.
proof fn lemma_count_witness(faces: Seq<[u32; 3]>, kk: (u32, u32), n: int) -> (h: int)
    requires
        key_count(faces, kk, n) > 0,
    ensures
        0 <= h < n,
        he_key(faces, h) == kk,
    decreases n,
{
    if he_key(faces, n - 1) == kk {
        n - 1
    } else {
        lemma_count_witness(faces, kk, n - 1)
    }
}

/// With multiplicity two, the first and second occurrences are the only ones.
proof fn lemma_two_occurrences(
    faces: Seq<[u32; 3]>,
    kk: (u32, u32),
    first: int,
    second: int,
    g: int,
)
    requires
        0 <= first < second,
        0 <= g < he_count(faces),
        he_key(faces, first) == kk,
        he_key(faces, second) == kk,
        he_key(faces, g) == kk,
        key_count(faces, kk, first) == 0,
        key_count(faces, kk, second) == 1,
        multiplicity(faces, kk) == 2,
    ensures
        g == first || g == second,
{
    if g < first {
        lemma_count_step(faces, kk, g, first);
    } else if first < g && g < second {
        lemma_count_step(faces, kk, first, g);
        lemma_count_step(faces, kk, g, second);
    } else if g > second {
        lemma_count_step(faces, kk, second, g);
        lemma_count_step(faces, kk, g, he_count(faces));
    }
}

/// Three distinct half-edges with one key share it three times or more.
proof fn lemma_three_halves(faces: Seq<[u32; 3]>, kk: (u32, u32), g1: int, g2: int, g3: int)
    requires
        0 <= g1 < he_count(faces),
        0 <= g2 < he_count(faces),
        0 <= g3 < he_count(faces),
        g1 != g2,
        g1 != g3,
        g2 != g3,
        he_key(faces, g1) == kk,
        he_key(faces, g2) == kk,
        he_key(faces, g3) == kk,
    ensures
        multiplicity(faces, kk) >= 3,
{
    let lo = if g1 <= g2 && g1 <= g3 { g1 } else if g2 <= g3 { g2 } else { g3 };
    let hi = if g1 >= g2 && g1 >= g3 { g1 } else if g2 >= g3 { g2 } else { g3 };
    let mid = g1 + g2 + g3 - lo - hi;
    assert(lo < mid < hi);
    assert(he_key(faces, mid) == kk);
    lemma_count_step(faces, kk, lo, mid);
    lemma_count_step(faces, kk, mid, hi);
    lemma_count_step(faces, kk, hi, he_count(faces));
}

/// In a closed mesh, a face two of whose sides name the same mesh edge is
/// both faces of that edge.
pub proof fn lemma_repeated_side(faces: Seq<[u32; 3]>, adj: Adjacency, f: int, k1: int, k2: int)
    requires
        is_closed_manifold(faces),
        adjacency_of(faces, adj),
        0 <= f < faces.len(),
        0 <= k1 < k2 < 3,
        adj.face_edges@[f][k1] == adj.face_edges@[f][k2],
    ensures
        adj.edges@[adj.face_edges@[f][k1] as int].face_a == f,
        adj.edges@[adj.face_edges@[f][k1] as int].face_b == f,
{
    let e = adj.face_edges@[f][k1] as int;
    let edge = adj.edges@[e];
    let kk = (edge.va, edge.vb);
    assert(adj.face_edges@[f][k2] == e);
    assert(edge_placed(faces, adj, e));
    let (ha, hb) = choose|ha: int, hb: int|
        #![trigger edge_has_halves(faces, adj.edges@[e], ha, hb)]
        {
            &&& edge_has_halves(faces, adj.edges@[e], ha, hb)
            &&& adj.face_edges@[ha / 3][ha % 3] == e
            &&& adj.face_edges@[hb / 3][hb % 3] == e
        };
    let x = 3 * f + k1;
    let y = 3 * f + k2;
    assert(x / 3 == f && x % 3 == k1 && y / 3 == f && y % 3 == k2) by (nonlinear_arith)
        requires
            x == 3 * f + k1,
            y == 3 * f + k2,
            0 <= k1 < 3,
            0 <= k2 < 3,
    ;
    assert(he_key(faces, x) == kk);
    assert(he_key(faces, y) == kk);
    assert(0 <= x < y < he_count(faces));
    assert(multiplicity(faces, he_key(faces, x)) == 2);
    if !(x == ha && y == hb) {
        if x != ha && x != hb {
            lemma_three_halves(faces, kk, x, ha, hb);
        } else if x == ha {
            lemma_three_halves(faces, kk, y, ha, hb);
        } else {
            lemma_three_halves(faces, kk, y, ha, hb);
        }
    }
}

/// In a closed mesh, the three sides of a face never all name one mesh edge.
pub proof fn lemma_sides_not_all_one(faces: Seq<[u32; 3]>, adj: Adjacency, f: int)
    requires
        is_closed_manifold(faces),
        adjacency_of(faces, adj),
        0 <= f < faces.len(),
    ensures
        !(adj.face_edges@[f][0] == adj.face_edges@[f][1] && adj.face_edges@[f][1] == adj.face_edges@[f][2]),
{
    if adj.face_edges@[f][0] == adj.face_edges@[f][1] && adj.face_edges@[f][1] == adj.face_edges@[f][2] {
        let e = adj.face_edges@[f][0] as int;
        let kk = (adj.edges@[e].va, adj.edges@[e].vb);
        assert(adj.face_edges@[f][1] == e && adj.face_edges@[f][2] == e);
        assert((3 * f) / 3 == f && (3 * f) % 3 == 0 && (3 * f + 1) / 3 == f && (3 * f + 1) % 3 == 1 && (3 * f + 2)
            / 3 == f && (3 * f + 2) % 3 == 2) by (nonlinear_arith)
            requires
                0 <= f,
        ;
        assert(he_key(faces, 3 * f) == kk);
        assert(he_key(faces, 3 * f + 1) == kk);
        assert(he_key(faces, 3 * f + 2) == kk);
        assert(multiplicity(faces, he_key(faces, 3 * f)) == 2);
        lemma_three_halves(faces, kk, 3 * f, 3 * f + 1, 3 * f + 2);
    }
}

// ----------------------------------------------------------------------------
// Keys in executable code
// ----------------------------------------------------------------------------

pub open spec fn pack(kk: (u32, u32)) -> u64 {
    (kk.0 as int * 0x1_0000_0000 + kk.1 as int) as u64
}

proof fn lemma_pack_injective(k1: (u32, u32), k2: (u32, u32))
    requires
        pack(k1) == pack(k2),
    ensures
        k1 == k2,
{
    let a1 = k1.0 as int;
    let b1 = k1.1 as int;
    let a2 = k2.0 as int;
    let b2 = k2.1 as int;
    assert(a1 * 0x1_0000_0000 + b1 == a2 * 0x1_0000_0000 + b2);
    assert(a1 == a2 && b1 == b2) by (nonlinear_arith)
        requires
            a1 * 0x1_0000_0000 + b1 == a2 * 0x1_0000_0000 + b2,
            0 <= b1 < 0x1_0000_0000,
            0 <= b2 < 0x1_0000_0000,
            0 <= a1,
            0 <= a2,
    ;
}

fn pack_key(kk: (u32, u32)) -> (p: u64)
    ensures
        p == pack(kk),
{
    (kk.0 as u64) * 0x1_0000_0000 + (kk.1 as u64)
}

fn half_edge_key(faces: &Vec<[u32; 3]>, h: usize) -> (kk: (u32, u32))
    requires
        h < he_count(faces@),
    ensures
        kk == he_key(faces@, h as int),
{
    let f = faces[h / 3];
    let k = h % 3;
    let a = f[k];
    let b = f[(k + 1) % 3];
    if a <= b {
        (a, b)
    } else {
        (b, a)
    }
}

/// The occurrence record of a key after scanning half-edges `0..n`: its count,
/// its first occurrence, and (from the second occurrence on) its second.
pub open spec fn entry_ok(faces: Seq<[u32; 3]>, kk: (u32, u32), n: int, entry: (usize, usize, usize)) -> bool {
    &&& entry.0 == key_count(faces, kk, n)
    &&& entry.1 < n
    &&& he_key(faces, entry.1 as int) == kk
    &&& key_count(faces, kk, entry.1 as int) == 0
    &&& entry.0 >= 2 ==> {
        &&& entry.1 < entry.2 < n
        &&& he_key(faces, entry.2 as int) == kk
        &&& key_count(faces, kk, entry.2 as int) == 1
    }
}

/// Counts the half-edges of every key, remembering each key's first two
/// occurrences.
fn count_half_edges(faces: &Vec<[u32; 3]>) -> (m: HashMapWithView<u64, (usize, usize, usize)>)
    requires
        faces.len() < usize::MAX / 3,
    ensures
        forall|kk: (u32, u32)|
            #![trigger m@.contains_key(pack(kk))]
            m@.contains_key(pack(kk)) <==> multiplicity(faces@, kk) > 0,
        forall|kk: (u32, u32)|
            #![trigger m@[pack(kk)]]
            m@.contains_key(pack(kk)) ==> entry_ok(faces@, kk, he_count(faces@), m@[pack(kk)]),
{
    let n = faces.len() * 3;
    let mut m: HashMapWithView<u64, (usize, usize, usize)> = HashMapWithView::new();
    let mut h: usize = 0;
    while h < n
        invariant
            n == he_count(faces@),
            n < usize::MAX,
            h <= n,
            forall|kk: (u32, u32)|
                #![trigger m@.contains_key(pack(kk))]
                m@.contains_key(pack(kk)) <==> key_count(faces@, kk, h as int) > 0,
            forall|kk: (u32, u32)|
                #![trigger m@[pack(kk)]]
                m@.contains_key(pack(kk)) ==> entry_ok(faces@, kk, h as int, m@[pack(kk)]),
        decreases n - h,
    {
        let kk = half_edge_key(faces, h);
        let p = pack_key(kk);
        let ghost old_m = m@;
        let entry = match m.get(&p) {
            Some(e) => {
                let (c, first, second) = *e;
                proof {
                    assert(entry_ok(faces@, kk, h as int, old_m[pack(kk)]));
                    lemma_count_bound(faces@, kk, h as int);
                }
                if c == 1 {
                    (c + 1, first, h)
                } else {
                    (c + 1, first, second)
                }
            },
            None => {
                proof {
                    assert(!old_m.contains_key(pack(kk)));
                }
                (1, h, 0)
            },
        };
        m.insert(p, entry);
        proof {
            assert forall|k2: (u32, u32)|
                #![trigger m@.contains_key(pack(k2))]
                m@.contains_key(pack(k2)) <==> key_count(faces@, k2, h + 1) > 0 by {
                if pack(k2) == pack(kk) {
                    lemma_pack_injective(k2, kk);
                } else {
                    assert(k2 != kk);
                }
            }
            assert forall|k2: (u32, u32)|
                #![trigger m@[pack(k2)]]
                m@.contains_key(pack(k2)) implies entry_ok(faces@, k2, h + 1, m@[pack(k2)]) by {
                if pack(k2) == pack(kk) {
                    lemma_pack_injective(k2, kk);
                } else {
                    assert(k2 != kk);
                    assert(old_m.contains_key(pack(k2)));
                    assert(entry_ok(faces@, k2, h as int, old_m[pack(k2)]));
                }
            }
        }
        h = h + 1;
    }
    m
}

/// `samples` lists `min(count, 5)` distinct members of `set`.
pub open spec fn samples_of(samples: Seq<(u32, u32)>, set: Set<(u32, u32)>, count: usize) -> bool {
    &&& samples.len() == if count < 5 { count as int } else { 5 }
    &&& forall|i: int| 0 <= i < samples.len() ==> set.contains(#[trigger] samples[i])
    &&& samples.no_duplicates()
}

/// What `build` reports for a mesh that is not a closed manifold.
pub open spec fn build_error_ok(faces: Seq<[u32; 3]>, e: UnfoldError) -> bool {
    match e {
        UnfoldError::OpenBoundary { count, samples } => {
            &&& open_edges(faces).finite()
            &&& count > 0
            &&& count == open_edges(faces).len()
            &&& samples_of(samples@, open_edges(faces), count)
        },
        UnfoldError::NonManifold { count, samples } => {
            &&& open_edges(faces).is_empty()
            &&& overshared_edges(faces).finite()
            &&& count > 0
            &&& count == overshared_edges(faces).len()
            &&& samples_of(samples@, overshared_edges(faces), count)
        },
        _ => false,
    }
}

/// Keys of the half-edges `0..n` whose multiplicity satisfies `pick`.
pub open spec fn seen_keys(faces: Seq<[u32; 3]>, n: int, open: bool) -> Set<(u32, u32)> {
    Set::new(
        |kk: (u32, u32)|
            key_count(faces, kk, n) > 0 && if open {
                multiplicity(faces, kk) == 1
            } else {
                multiplicity(faces, kk) >= 3
            },
    )
}

/// Edge `e` of `edges` is recorded with its two half-edges `halves[e]`, the
/// first of which lies before `h`.
pub open spec fn edge_recorded(
    faces: Seq<[u32; 3]>,
    edges: Seq<MeshEdge>,
    halves: Seq<(int, int)>,
    he_edge: Seq<usize>,
    h: int,
    e: int,
) -> bool {
    let ha = halves[e].0;
    let hb = halves[e].1;
    let kk = (edges[e].va, edges[e].vb);
    &&& edge_has_halves(faces, edges[e], ha, hb)
    &&& ha < h
    &&& he_edge[ha] == e
    &&& he_edge[hb] == e
    &&& key_count(faces, kk, ha) == 0
    &&& key_count(faces, kk, hb) == 1
    &&& multiplicity(faces, kk) == 2
}

/// Builds the edge adjacency of the mesh.
///
/// Succeeds exactly when every mesh edge is shared by two half-edges. Otherwise
/// reports the open-boundary edges (shared by one half-edge) if there are any,
/// else the non-manifold edges (shared by three or more), with their number and
/// up to five of them.
pub fn build(faces: &Vec<[u32; 3]>) -> (res: Result<Adjacency, UnfoldError>)
    requires
        faces.len() < usize::MAX / 3,
    ensures
        res is Ok <==> is_closed_manifold(faces@),
        res matches Ok(adj) ==> adjacency_of(faces@, adj),
        res matches Err(e) ==> build_error_ok(faces@, e),
{
    let ghost fs = faces@;
    let m = count_half_edges(faces);
    let n = faces.len() * 3;
    let mut he_edge: Vec<usize> = Vec::new();
    while he_edge.len() < n
        invariant
            n == he_count(fs),
            he_edge.len() <= n,
            forall|g: int| 0 <= g < he_edge.len() ==> he_edge@[g] == usize::MAX,
        decreases n - he_edge.len(),
    {
        he_edge.push(usize::MAX);
    }
    let mut edges: Vec<MeshEdge> = Vec::new();
    let ghost mut halves: Seq<(int, int)> = seq![];
    let mut open_count: usize = 0;
    let mut open_samples: Vec<(u32, u32)> = Vec::new();
    let mut nm_count: usize = 0;
    let mut nm_samples: Vec<(u32, u32)> = Vec::new();
    let ghost mut open_set: Set<(u32, u32)> = Set::empty();
    let ghost mut nm_set: Set<(u32, u32)> = Set::empty();
    proof {
        assert(open_set =~= seen_keys(fs, 0, true));
        assert(nm_set =~= seen_keys(fs, 0, false));
    }
    let mut h: usize = 0;
    while h < n
        invariant
            fs == faces@,
            n == he_count(fs),
            n < usize::MAX,
            h <= n,
            he_edge.len() == n,
            forall|kk: (u32, u32)|
                #![trigger m@.contains_key(pack(kk))]
                m@.contains_key(pack(kk)) <==> multiplicity(fs, kk) > 0,
            forall|kk: (u32, u32)|
                #![trigger m@[pack(kk)]]
                m@.contains_key(pack(kk)) ==> entry_ok(fs, kk, he_count(fs), m@[pack(kk)]),
            open_set == seen_keys(fs, h as int, true),
            open_set.finite(),
            open_count == open_set.len(),
            samples_of(open_samples@, open_set, open_count),
            nm_set == seen_keys(fs, h as int, false),
            nm_set.finite(),
            nm_count == nm_set.len(),
            samples_of(nm_samples@, nm_set, nm_count),
            halves.len() == edges@.len(),
            open_count + nm_count + edges@.len() <= h,
            forall|e: int|
                0 <= e < edges@.len() ==> #[trigger] edge_recorded(
                    fs,
                    edges@,
                    halves,
                    he_edge@,
                    h as int,
                    e,
                ),
            forall|g: int|
                #![trigger he_edge@[g]]
                0 <= g < n && he_edge@[g] != usize::MAX ==> {
                    &&& he_edge@[g] < edges@.len()
                    &&& (halves[he_edge@[g] as int].0 == g || halves[he_edge@[g] as int].1 == g)
                },
            forall|g: int|
                0 <= g < n && key_count(fs, he_key(fs, g), h as int) > 0 && multiplicity(
                    fs,
                    #[trigger] he_key(fs, g),
                ) == 2 ==> he_edge@[g] != usize::MAX,
        decreases n - h,
    {
        let kk = half_edge_key(faces, h);
        let p = pack_key(kk);
        proof {
            lemma_count_step(fs, kk, h as int, n as int);
        }
        let (c, first, second) = match m.get(&p) {
            Some(e) => *e,
            None => {
                proof {
                    assert(false);
                }
                (0, 0, 0)
            },
        };
        proof {
            assert(entry_ok(fs, kk, he_count(fs), m@[pack(kk)]));
        }
        let ghost old_open = open_set;
        let ghost old_nm = nm_set;
        let ghost old_edges = edges@;
        let ghost old_he = he_edge@;
        let ghost old_halves = halves;
        if first == h {
            if c == 1 {
                if open_samples.len() < 5 {
                    open_samples.push(kk);
                }
                open_count = open_count + 1;
                proof {
                    open_set = open_set.insert(kk);
                }
            } else if c == 2 {
                let e = edges.len();
                edges.push(MeshEdge { face_a: first / 3, face_b: second / 3, va: kk.0, vb: kk.1 });
                he_edge.set(first, e);
                he_edge.set(second, e);
                proof {
                    halves = halves.push((first as int, second as int));
                }
            } else {
                if nm_samples.len() < 5 {
                    nm_samples.push(kk);
                }
                nm_count = nm_count + 1;
                proof {
                    nm_set = nm_set.insert(kk);
                }
            }
        }
        proof {
            let hi = h as int;
            if first != h {
                if hi < first {
                    lemma_count_step(fs, kk, hi, first as int);
                }
                lemma_count_step(fs, kk, first as int, hi);
            }
            assert(open_set =~= seen_keys(fs, hi + 1, true));
            assert(nm_set =~= seen_keys(fs, hi + 1, false));
            assert forall|e: int|
                0 <= e < edges@.len() implies #[trigger] edge_recorded(
                    fs,
                    edges@,
                    halves,
                    he_edge@,
                    hi + 1,
                    e,
                ) by {
                if e < old_edges.len() {
                    assert(edge_recorded(fs, old_edges, old_halves, old_he, hi, e));
                    let k2 = (edges@[e].va, edges@[e].vb);
                    assert(edges@[e] == old_edges[e]);
                    assert(halves[e] == old_halves[e]);
                    if k2 == kk && first == h && c == 2 {
                        lemma_count_step(fs, kk, halves[e].0, hi);
                    }
                }
            }
            assert forall|g: int|
                0 <= g < n && key_count(fs, he_key(fs, g), hi + 1) > 0 && multiplicity(
                    fs,
                    #[trigger] he_key(fs, g),
                ) == 2 implies he_edge@[g] != usize::MAX by {
                if he_key(fs, g) == kk && first == h {
                    lemma_two_occurrences(fs, kk, first as int, second as int, g);
                } else if he_key(fs, g) != kk {
                    assert(key_count(fs, he_key(fs, g), hi) > 0);
                    assert(old_he[g] != usize::MAX);
                }
            }
        }
        h = h + 1;
    }
    proof {
        assert(open_set =~= open_edges(fs));
        assert(nm_set =~= overshared_edges(fs));
    }
    if open_count > 0 {
        proof {
            vstd::set::axiom_set_choose_len(open_set);
            let kk = open_set.choose();
            assert(open_set.contains(kk));
            let g = lemma_count_witness(fs, kk, he_count(fs));
            assert(multiplicity(fs, he_key(fs, g)) != 2);
        }
        return Err(UnfoldError::OpenBoundary { count: open_count, samples: open_samples });
    }
    if nm_count > 0 {
        proof {
            vstd::set::axiom_set_choose_len(nm_set);
            let kk = nm_set.choose();
            assert(nm_set.contains(kk));
            let g = lemma_count_witness(fs, kk, he_count(fs));
            assert(multiplicity(fs, he_key(fs, g)) != 2);
        }
        return Err(UnfoldError::NonManifold { count: nm_count, samples: nm_samples });
    }
    proof {
        assert forall|g: int| 0 <= g < n implies #[trigger] multiplicity(fs, he_key(fs, g)) == 2 by {
            lemma_count_step(fs, he_key(fs, g), g, n as int);
            if multiplicity(fs, he_key(fs, g)) == 1 {
                assert(open_set.contains(he_key(fs, g)));
            }
            if multiplicity(fs, he_key(fs, g)) >= 3 {
                assert(nm_set.contains(he_key(fs, g)));
            }
        }
    }
    let mut face_edges: Vec<[usize; 3]> = Vec::new();
    let mut f: usize = 0;
    while f < faces.len()
        invariant
            fs == faces@,
            n == he_count(fs),
            f <= fs.len(),
            he_edge.len() == n,
            face_edges@.len() == f,
            forall|i: int, k: int|
                #![trigger face_edges@[i][k]]
                0 <= i < f && 0 <= k < 3 ==> face_edges@[i][k] == he_edge@[3 * i + k],
        decreases fs.len() - f,
    {
        let row = [he_edge[3 * f], he_edge[3 * f + 1], he_edge[3 * f + 2]];
        face_edges.push(row);
        f = f + 1;
    }
    let adj = Adjacency { edges, face_edges };
    proof {
        assert forall|i: int, k: int|
            #![trigger adj.face_edges@[i][k]]
            0 <= i < fs.len() && 0 <= k < 3 implies {
                let e = adj.face_edges@[i][k];
                &&& e < adj.edges@.len()
                &&& (adj.edges@[e as int].va, adj.edges@[e as int].vb) == he_key(fs, 3 * i + k)
                &&& (adj.edges@[e as int].face_a == i || adj.edges@[e as int].face_b == i)
            } by {
            let g = 3 * i + k;
            assert(g / 3 == i && g % 3 == k);
            assert(adj.face_edges@[i][k] == he_edge@[g]);
            lemma_count_step(fs, he_key(fs, g), g, n as int);
            assert(key_count(fs, he_key(fs, g), n as int) > 0);
            assert(he_edge@[g] != usize::MAX);
            let e = he_edge@[g] as int;
            assert(edge_recorded(fs, adj.edges@, halves, he_edge@, n as int, e));
        }
        assert forall|e: int| 0 <= e < adj.edges@.len() implies #[trigger] edge_placed(fs, adj, e) by {
            let ha = halves[e].0;
            let hb = halves[e].1;
            assert(edge_recorded(fs, adj.edges@, halves, he_edge@, n as int, e));
            assert(edge_has_halves(fs, adj.edges@[e], ha, hb));
            assert(3 * (ha / 3) + ha % 3 == ha);
            assert(0 <= ha / 3 < fs.len() && 0 <= ha % 3 < 3);
            assert(0 <= hb / 3 < fs.len() && 0 <= hb % 3 < 3);
            assert(adj.face_edges@[ha / 3][ha % 3] == he_edge@[3 * (ha / 3) + ha % 3]);
            assert(adj.face_edges@[hb / 3][hb % 3] == he_edge@[3 * (hb / 3) + hb % 3]);
            assert({
                &&& edge_has_halves(fs, adj.edges@[e], ha, hb)
                &&& adj.face_edges@[ha / 3][ha % 3] == e
                &&& adj.face_edges@[hb / 3][hb % 3] == e
            });
            assert(3 * (hb / 3) + hb % 3 == hb);
            assert(adj.face_edges@[ha / 3][ha % 3] == he_edge@[ha]);
            assert(adj.face_edges@[hb / 3][hb % 3] == he_edge@[hb]);
        }
        assert forall|e1: int, e2: int|
            0 <= e1 < e2 < adj.edges@.len() implies (#[trigger] adj.edges@[e1].va, adj.edges@[e1].vb)
            != (#[trigger] adj.edges@[e2].va, adj.edges@[e2].vb) by {
            let k1 = (adj.edges@[e1].va, adj.edges@[e1].vb);
            let k2 = (adj.edges@[e2].va, adj.edges@[e2].vb);
            assert(edge_recorded(fs, adj.edges@, halves, he_edge@, n as int, e1));
            assert(edge_recorded(fs, adj.edges@, halves, he_edge@, n as int, e2));
            if k1 == k2 {
                let a1 = halves[e1].0;
                let a2 = halves[e2].0;
                if a1 < a2 {
                    lemma_count_step(fs, k1, a1, a2);
                } else if a2 < a1 {
                    lemma_count_step(fs, k1, a2, a1);
                }
            }
        }
    }
    Ok(adj)
}

} // verus!
