//! Papercraft unfolding: the combinatorial core of turning a closed triangle
//! mesh into a set of flat islands.
//!
//! The geometry (flattening faces, aligning islands, overlap tests, dihedral
//! angles) works on floating-point coordinates and stays with the caller. What
//! lives here is everything that decides on indices: mesh validation, edge
//! adjacency, the union-find that tracks islands, the bookkeeping of island
//! merges, and the final classification of net edges.

pub mod adjacency;
pub mod union_find;
pub mod net;

use vstd::prelude::*;

use crate::text::{decimal, push_decimal, push_str};

use adjacency::{build, build_error_ok, is_closed_manifold};

verus! {

/// Classification of an edge in the 2D net.
#[derive(Clone, Copy, PartialEq, Eq, Debug, Structural)]
pub enum EdgeKind {
    /// Boundary of the net: the paper is cut here.
    Cut,
    /// Interior fold folding toward the viewer (interior angle below 180 degrees).
    Valley,
    /// Interior fold folding away from the viewer (interior angle above 180 degrees).
    Mountain,
    /// Both adjacent faces lie in the same plane: no fold line drawn.
    Coplanar,
}

/// An edge of an island in 2D, referencing island-local vertex indices.
#[derive(Clone, Copy, PartialEq, Eq, Debug, Structural)]
pub struct NetEdge {
    pub a: usize,
    pub b: usize,
    pub kind: EdgeKind,
}

/// Stats about mesh decimation performed before unfolding.
#[derive(Clone, Debug)]
pub struct SimplifiedStats {
    pub original_faces: usize,
    pub final_faces: usize,
    /// Present when decimation failed and the original mesh was used instead.
    pub error: Option<String>,
}

/// Structured failure modes for the unfold pipeline.
#[derive(Clone, Debug)]
pub enum UnfoldError {
    TooSmall(usize),
    NotTriangulated,
    OutOfRange { face: usize, vertex: u32, vertex_count: usize },
    DegenerateFace(usize),
    OpenBoundary { count: usize, samples: Vec<(u32, u32)> },
    NonManifold { count: usize, samples: Vec<(u32, u32)> },
}

/// Default target triangle count for mesh decimation.
pub const TARGET_FACES_DEFAULT: u32 = 100;

/// What an open-boundary message advises.
pub const OPEN_BOUNDARY_ADVICE: &'static str = ". The mesh must be a closed manifold \u{2014} a single sealed surface with no holes. Imported game models often have separate parts (wheels, windows, trim) or open rims; export a single merged, watertight mesh to unfold it.";

/// What a non-manifold message advises.
pub const NON_MANIFOLD_ADVICE: &'static str = ". The mesh must be a closed manifold \u{2014} a single sealed surface with no holes. Imported game models often have separate parts (wheels, windows, trim); export a single merged, watertight mesh to unfold it.";

// ----------------------------------------------------------------------------
// Error messages
// ----------------------------------------------------------------------------

/// `items` joined with `sep` between consecutive items.
pub open spec fn join_seqs(items: Seq<Seq<char>>, sep: Seq<char>) -> Seq<char>
    decreases items.len(),
{
    if items.len() == 0 {
        seq![]
    } else if items.len() == 1 {
        items[0]
    } else {
        join_seqs(items.drop_last(), sep) + sep + items.last()
    }
}

/// How an edge sample reads: `(a, b)`.
pub open spec fn pair_text(p: (u32, u32)) -> Seq<char> {
    "("@ + decimal(p.0 as nat) + ", "@ + decimal(p.1 as nat) + ")"@
}

/// The sample clause of a topology error: empty without samples, else
/// ` (e.g. edge (a, b), (c, d)...)` with an ellipsis character.
pub open spec fn sample_text(samples: Seq<(u32, u32)>) -> Seq<char> {
    if samples.len() == 0 {
        seq![]
    } else {
        " (e.g. edge "@ + join_seqs(samples.map_values(|p: (u32, u32)| pair_text(p)), ", "@) + "\u{2026})"@
    }
}

/// The message of an unfold error.
pub open spec fn error_text(e: UnfoldError) -> Seq<char> {
    match e {
        UnfoldError::TooSmall(n) => "Mesh has "@ + decimal(n as nat) + " face(s); at least 4 are required to unfold."@,
        UnfoldError::NotTriangulated => "Face index array length is not a multiple of 3; expected a triangulated mesh."@,
        UnfoldError::OutOfRange { face, vertex, vertex_count } => "Face "@ + decimal(face as nat)
            + " references vertex index "@ + decimal(vertex as nat) + ", but the mesh has only "@
            + decimal(vertex_count as nat) + " vertices."@,
        UnfoldError::DegenerateFace(face) => "Face "@ + decimal(face as nat) + " has zero area and cannot be unfolded."@,
        UnfoldError::OpenBoundary { count, samples } => "Mesh has "@ + decimal(count as nat)
            + " open-boundary edge(s) (each shared by only one face)"@ + sample_text(samples@) + OPEN_BOUNDARY_ADVICE@,
        UnfoldError::NonManifold { count, samples } => "Mesh has "@ + decimal(count as nat)
            + " non-manifold edge(s) (each shared by more than two faces)"@ + sample_text(samples@) + NON_MANIFOLD_ADVICE@,
    }
}

/// Appends the sample clause for `samples`.
pub fn push_samples(out: &mut String, samples: &Vec<(u32, u32)>)
    ensures
        final(out)@ == old(out)@ + sample_text(samples@),
{
    if samples.len() == 0 {
        return;
    }
    push_str(out, " (e.g. edge ");
    let ghost start = out@;
    let ghost items = samples@.map_values(|p: (u32, u32)| pair_text(p));
    let mut i: usize = 0;
    while i < samples.len()
        invariant
            0 < samples@.len(),
            i <= samples@.len(),
            items == samples@.map_values(|p: (u32, u32)| pair_text(p)),
            out@ == start + join_seqs(items.take(i as int), ", "@),
        decreases samples@.len() - i,
    {
        proof {
            assert(items.take(i + 1).drop_last() == items.take(i as int));
            assert(items.take(i + 1).last() == pair_text(samples@[i as int]));
        }
        if i > 0 {
            push_str(out, ", ");
        }
        let (a, b) = samples[i];
        push_str(out, "(");
        push_decimal(out, a as u64);
        push_str(out, ", ");
        push_decimal(out, b as u64);
        push_str(out, ")");
        proof {
            if i == 0 {
                assert(items.take(1) == seq![items[0]]);
            }
        }
        i = i + 1;
    }
    proof {
        assert(items.take(samples@.len() as int) == items);
    }
    push_str(out, "\u{2026})");
}

/// The sample clause of a topology error: nothing without samples, else
/// ` (e.g. edge (a, b), (c, d)...)`.
pub fn sample_str(samples: &Vec<(u32, u32)>) -> (s: String)
    ensures
        s@ == sample_text(samples@),
{
    let mut s = String::new();
    push_samples(&mut s, samples);
    s
}

impl UnfoldError {
    /// The message that describes this error to the user.
    pub fn message(&self) -> (s: String)
        ensures
            s@ == error_text(*self),
    {
        let mut s = String::new();
        match self {
            UnfoldError::TooSmall(n) => {
                push_str(&mut s, "Mesh has ");
                push_decimal(&mut s, *n as u64);
                push_str(&mut s, " face(s); at least 4 are required to unfold.");
            },
            UnfoldError::NotTriangulated => {
                push_str(&mut s, "Face index array length is not a multiple of 3; expected a triangulated mesh.");
            },
            UnfoldError::OutOfRange { face, vertex, vertex_count } => {
                push_str(&mut s, "Face ");
                push_decimal(&mut s, *face as u64);
                push_str(&mut s, " references vertex index ");
                push_decimal(&mut s, *vertex as u64);
                push_str(&mut s, ", but the mesh has only ");
                push_decimal(&mut s, *vertex_count as u64);
                push_str(&mut s, " vertices.");
            },
            UnfoldError::DegenerateFace(face) => {
                push_str(&mut s, "Face ");
                push_decimal(&mut s, *face as u64);
                push_str(&mut s, " has zero area and cannot be unfolded.");
            },
            UnfoldError::OpenBoundary { count, samples } => {
                push_str(&mut s, "Mesh has ");
                push_decimal(&mut s, *count as u64);
                push_str(&mut s, " open-boundary edge(s) (each shared by only one face)");
                push_samples(&mut s, samples);
                push_str(&mut s, OPEN_BOUNDARY_ADVICE);
            },
            UnfoldError::NonManifold { count, samples } => {
                push_str(&mut s, "Mesh has ");
                push_decimal(&mut s, *count as u64);
                push_str(&mut s, " non-manifold edge(s) (each shared by more than two faces)");
                push_samples(&mut s, samples);
                push_str(&mut s, NON_MANIFOLD_ADVICE);
            },
        }
        s
    }
}

// ----------------------------------------------------------------------------
// Input validation
// ----------------------------------------------------------------------------

/// Checks that both flat arrays hold whole triples: coordinates (x, y, z) and
/// face indices.
pub fn check_triangulated(coordinate_count: usize, index_count: usize) -> (r: Result<(), UnfoldError>)
    ensures
        r is Ok <==> coordinate_count % 3 == 0 && index_count % 3 == 0,
        r matches Err(e) ==> e == UnfoldError::NotTriangulated,
{
    if coordinate_count % 3 != 0 {
        return Err(UnfoldError::NotTriangulated);
    }
    if index_count % 3 != 0 {
        return Err(UnfoldError::NotTriangulated);
    }
    Ok(())
}

/// The decimation target: the requested one, or [`TARGET_FACES_DEFAULT`].
pub fn resolve_target(target_faces: Option<u32>) -> (t: u32)
    ensures
        t == match target_faces {
            Some(t) => t,
            None => TARGET_FACES_DEFAULT,
        },
{
    match target_faces {
        Some(t) => t,
        None => TARGET_FACES_DEFAULT,
    }
}

/// Decimation only runs for meshes with more than twice the target faces;
/// meshes close to the target are left untouched.
pub fn needs_simplification(original_faces: usize, target: u32) -> (b: bool)
    ensures
        b == (original_faces > 2 * target),
{
    (original_faces as u64) > (target as u64) * 2
}

/// Groups a flat index array into triangles.
pub fn group_triangles(indices: &Vec<u32>) -> (faces: Vec<[u32; 3]>)
    requires
        indices.len() % 3 == 0,
    ensures
        faces@.len() == indices@.len() / 3,
        forall|i: int|
            0 <= i < faces@.len() ==> (#[trigger] faces@[i])[0] == indices@[3 * i] && faces@[i][1]
                == indices@[3 * i + 1] && faces@[i][2] == indices@[3 * i + 2],
{
    let mut faces: Vec<[u32; 3]> = Vec::new();
    let len = indices.len();
    let n = len / 3;
    let mut i: usize = 0;
    while i < n
        invariant
            len == indices@.len(),
            n == indices@.len() / 3,
            indices@.len() % 3 == 0,
            i <= n,
            faces@.len() == i,
            forall|j: int|
                0 <= j < i ==> (#[trigger] faces@[j])[0] == indices@[3 * j] && faces@[j][1]
                    == indices@[3 * j + 1] && faces@[j][2] == indices@[3 * j + 2],
        decreases n - i,
    {
        proof {
            assert(3 * i + 2 < indices@.len()) by (nonlinear_arith)
                requires
                    i < indices@.len() / 3,
            ;
        }
        faces.push([indices[3 * i], indices[3 * i + 1], indices[3 * i + 2]]);
        i = i + 1;
    }
    faces
}

/// Every corner of every face names one of the `vertex_count` vertices.
pub open spec fn indices_in_range(faces: Seq<[u32; 3]>, vertex_count: usize) -> bool {
    forall|i: int, k: int| 0 <= i < faces.len() && 0 <= k < 3 ==> (#[trigger] faces[i][k]) < vertex_count
}

/// The first corner of `f` that names no vertex (the last corner if the
/// first two do).
pub open spec fn first_bad_corner(f: [u32; 3], vertex_count: usize) -> int {
    if f[0] >= vertex_count {
        0
    } else if f[1] >= vertex_count {
        1
    } else {
        2
    }
}

/// `e` reports the first corner, in face order then corner order, that names
/// no vertex.
pub open spec fn first_out_of_range(faces: Seq<[u32; 3]>, vertex_count: usize, e: UnfoldError) -> bool {
    match e {
        UnfoldError::OutOfRange { face, vertex, vertex_count: vc } => {
            &&& vc == vertex_count
            &&& face < faces.len()
            &&& vertex == faces[face as int][first_bad_corner(faces[face as int], vertex_count)]
            &&& vertex >= vertex_count
            &&& forall|i: int, k: int| 0 <= i < face && 0 <= k < 3 ==> (#[trigger] faces[i][k]) < vertex_count
        },
        _ => false,
    }
}

/// Checks that every face corner names an existing vertex, reporting the
/// first one that does not.
pub fn check_indices(faces: &Vec<[u32; 3]>, vertex_count: usize) -> (r: Result<(), UnfoldError>)
    ensures
        r is Ok <==> indices_in_range(faces@, vertex_count),
        r matches Err(e) ==> first_out_of_range(faces@, vertex_count, e),
{
    let mut i: usize = 0;
    while i < faces.len()
        invariant
            i <= faces@.len(),
            forall|j: int, k: int| 0 <= j < i && 0 <= k < 3 ==> (#[trigger] faces@[j][k]) < vertex_count,
        decreases faces@.len() - i,
    {
        let f = faces[i];
        let mut k: usize = 0;
        while k < 3
            invariant
                i < faces@.len(),
                f == faces@[i as int],
                k <= 3,
                forall|j: int, k3: int| 0 <= j < i && 0 <= k3 < 3 ==> (#[trigger] faces@[j][k3]) < vertex_count,
                forall|k2: int| 0 <= k2 < k ==> (#[trigger] f[k2]) < vertex_count,
            decreases 3 - k,
        {
            if f[k] as usize >= vertex_count {
                let e = UnfoldError::OutOfRange { face: i, vertex: f[k], vertex_count };
                proof {
                    assert(faces@[i as int][k as int] == f[k as int]);
                    assert forall|k2: int| 0 <= k2 < k implies #[trigger] faces@[i as int][k2] < vertex_count by {
                        assert(faces@[i as int][k2] == f[k2]);
                    }
                    assert(f[k as int] >= vertex_count);
                    assert(first_out_of_range(faces@, vertex_count, e));
                }
                return Err(e);
            }
            k = k + 1;
        }
        i = i + 1;
    }
    Ok(())
}

/// The index checks that precede unfolding: at least four faces, and every
/// corner names an existing vertex.
pub fn validate_faces(faces: &Vec<[u32; 3]>, vertex_count: usize) -> (r: Result<(), UnfoldError>)
    ensures
        r is Ok <==> faces@.len() >= 4 && indices_in_range(faces@, vertex_count),
        r matches Err(e) ==> if faces@.len() < 4 {
            e == UnfoldError::TooSmall(faces@.len() as usize)
        } else {
            first_out_of_range(faces@, vertex_count, e)
        },
{
    if faces.len() < 4 {
        return Err(UnfoldError::TooSmall(faces.len()));
    }
    check_indices(faces, vertex_count)
}

// ----------------------------------------------------------------------------
// Decimation bookkeeping
// ----------------------------------------------------------------------------

impl SimplifiedStats {
    /// Decimation took the mesh from `original_faces` to `final_faces`.
    pub fn reduced(original_faces: usize, final_faces: usize) -> (s: SimplifiedStats)
        ensures
            s.original_faces == original_faces,
            s.final_faces == final_faces,
            s.error is None,
    {
        SimplifiedStats { original_faces, final_faces, error: None }
    }

    /// Decimation failed with `error`; the original mesh is used unchanged.
    pub fn fallback(original_faces: usize, error: String) -> (s: SimplifiedStats)
        ensures
            s.original_faces == original_faces,
            s.final_faces == original_faces,
            s.error == Some(error),
    {
        SimplifiedStats { original_faces, final_faces: original_faces, error: Some(error) }
    }
}

/// The note recorded when the decimated mesh is no longer a closed manifold
/// and the original is used instead.
pub open spec fn fallback_note_text(e: UnfoldError) -> Seq<char> {
    "Simplified mesh was no longer a closed manifold ("@ + error_text(e) + "); used the original mesh instead."@
}

/// The note recorded when the decimated mesh is no longer a closed manifold
/// and the original is used instead.
pub fn manifold_fallback_note(e: &UnfoldError) -> (s: String)
    ensures
        s@ == fallback_note_text(*e),
{
    let mut s = String::new();
    push_str(&mut s, "Simplified mesh was no longer a closed manifold (");
    let m = e.message();
    push_str(&mut s, m.as_str());
    push_str(&mut s, "); used the original mesh instead.");
    s
}

/// The triangles of a flat index array.
pub open spec fn triangles_of(indices: Seq<u32>) -> Seq<[u32; 3]> {
    Seq::new((indices.len() / 3) as nat, |i: int| [indices[3 * i], indices[3 * i + 1], indices[3 * i + 2]])
}

/// `note` reports why the triangles `faces` are no closed manifold, as
/// [`build`] finds it.
pub open spec fn reports_broken_manifold(faces: Seq<[u32; 3]>, note: Seq<char>) -> bool {
    exists|e: UnfoldError| #[trigger] build_error_ok(faces, e) && note == fallback_note_text(e)
}

/// Settles which mesh the unfold goes on with once decimation was tried on a
/// mesh of `original_faces` triangles `original` (decimation reports its
/// triangles and their count): the decimated triangles
/// when decimation succeeded and left a closed manifold, else the original
/// ones, with a note of what went wrong.
pub fn settle_decimation(
    original: Vec<[u32; 3]>,
    original_faces: usize,
    outcome: Result<(Vec<u32>, usize), String>,
) -> (r: (Vec<[u32; 3]>, SimplifiedStats))
    requires
        original@.len() == original_faces,
        outcome matches Ok((reduced, final_faces)) ==> reduced@.len() % 3 == 0 && reduced@.len() < usize::MAX
            && final_faces == reduced@.len() / 3,
    ensures
        r.1.original_faces == original_faces,
        r.1.final_faces == r.0@.len(),
        match outcome {
            Ok((reduced, final_faces)) => if is_closed_manifold(triangles_of(reduced@)) {
                &&& r.0@ == triangles_of(reduced@)
                &&& r.1.final_faces == final_faces
                &&& r.1.error is None
            } else {
                &&& r.0@ == original@
                &&& r.1.final_faces == original_faces
                &&& r.1.error matches Some(note) && reports_broken_manifold(triangles_of(reduced@), note@)
            },
            Err(e) => {
                &&& r.0@ == original@
                &&& r.1.final_faces == original_faces
                &&& r.1.error == Some(e)
            },
        },
{
    match outcome {
        Ok((reduced, final_faces)) => {
            let faces = group_triangles(&reduced);
            proof {
                let t = triangles_of(reduced@);
                assert forall|i: int| 0 <= i < faces@.len() implies #[trigger] faces@[i] == t[i] by {
                    assert(faces@[i]@ =~= t[i]@);
                }
                assert(faces@ =~= t);
            }
            match build(&faces) {
                Ok(_) => (faces, SimplifiedStats::reduced(original_faces, final_faces)),
                Err(e) => {
                    let note = manifold_fallback_note(&e);
                    proof {
                        assert(build_error_ok(faces@, e));
                    }
                    (original, SimplifiedStats::fallback(original_faces, note))
                },
            }
        },
        Err(e) => (original, SimplifiedStats::fallback(original_faces, e)),
    }
}

/// Checks a decimation request and gives the index count to aim for: three
/// per target face, at least one triangle.
pub fn simplify_request(index_count: usize, position_count: usize, target_faces: u32) -> (r: Result<u64, String>)
    ensures
        r matches Ok(n) ==> index_count > 0 && target_faces > 0 && index_count % 3 == 0
            && position_count <= u32::MAX && n == 3 * target_faces,
        r matches Err(m) ==> if index_count == 0 || target_faces == 0 {
            m@ == "no faces to simplify"@
        } else if index_count % 3 != 0 {
            m@ == "face array is not triangulated"@
        } else {
            position_count > u32::MAX && m@ == "mesh too large to simplify"@
        },
        r is Ok <==> (index_count > 0 && target_faces > 0 && index_count % 3 == 0 && position_count <= u32::MAX),
{
    if index_count == 0 || target_faces == 0 {
        return Err("no faces to simplify".to_owned());
    }
    if index_count % 3 != 0 {
        return Err("face array is not triangulated".to_owned());
    }
    if position_count > u32::MAX as usize {
        return Err("mesh too large to simplify".to_owned());
    }
    Ok((target_faces as u64) * 3)
}

/// Checks what decimation produced: at least one triangle before dropping
/// degenerate ones, and at least one kept after.
pub fn check_simplified(index_count: usize, kept: Option<usize>) -> (r: Result<(), String>)
    ensures
        r is Ok <==> index_count >= 3 && (kept matches Some(k) ==> k > 0),
        r matches Err(m) ==> if index_count < 3 {
            m@ == "simplification produced an empty mesh"@
        } else {
            m@ == "simplification produced only degenerate triangles"@
        },
{
    if index_count < 3 {
        return Err("simplification produced an empty mesh".to_owned());
    }
    match kept {
        Some(0) => Err("simplification produced only degenerate triangles".to_owned()),
        _ => Ok(()),
    }
}

} // verus!
