use foldquery::unfold::adjacency::build;
use foldquery::unfold::net::Unfolder;
use foldquery::unfold::union_find::UnionFind;
use foldquery::unfold::{
    check_indices, check_simplified, check_triangulated, group_triangles, manifold_fallback_note,
    needs_simplification, resolve_target, sample_str, settle_decimation, simplify_request, validate_faces, EdgeKind, SimplifiedStats,
    UnfoldError, TARGET_FACES_DEFAULT,
};

fn tetrahedron_faces() -> Vec<[u32; 3]> {
    vec![[0, 1, 2], [0, 3, 1], [0, 2, 3], [1, 3, 2]]
}

fn cube_faces() -> Vec<[u32; 3]> {
    vec![
        [0, 3, 2],
        [0, 2, 1],
        [4, 5, 6],
        [4, 6, 7],
        [0, 1, 5],
        [0, 5, 4],
        [3, 7, 6],
        [3, 6, 2],
        [0, 4, 7],
        [0, 7, 3],
        [1, 2, 6],
        [1, 6, 5],
    ]
}

fn open_pyramid_faces() -> Vec<[u32; 3]> {
    vec![[0, 1, 4], [1, 2, 4], [2, 3, 4], [3, 0, 4]]
}

fn double_tetrahedron_faces() -> Vec<[u32; 3]> {
    vec![
        [0, 1, 2],
        [0, 3, 1],
        [0, 2, 3],
        [1, 3, 2],
        [0, 1, 4],
        [0, 5, 1],
        [0, 4, 5],
        [1, 5, 4],
    ]
}

/// The index checks that precede unfolding, in the order the pipeline runs
/// them on a mesh whose vertices are all distinct.
fn checked(coords: usize, indices: Vec<u32>) -> Result<Vec<[u32; 3]>, String> {
    check_triangulated(coords, indices.len()).map_err(|e| e.message())?;
    let faces = group_triangles(&indices);
    let vertex_count = coords / 3;
    check_indices(&faces, vertex_count).map_err(|e| e.message())?;
    validate_faces(&faces, vertex_count).map_err(|e| e.message())?;
    Unfolder::new(&faces).map_err(|e| e.message())?;
    Ok(faces)
}

fn flat(faces: &[[u32; 3]]) -> Vec<u32> {
    faces.iter().flatten().copied().collect()
}

#[test]
fn open_boundary_mesh_rejected() {
    let err = checked(15, flat(&open_pyramid_faces())).unwrap_err();
    assert!(err.contains("open-boundary"), "expected open-boundary error, got: {err}");
}

#[test]
fn non_manifold_mesh_rejected() {
    let err = checked(18, flat(&double_tetrahedron_faces())).unwrap_err();
    assert!(err.contains("non-manifold"), "expected non-manifold error, got: {err}");
}

#[test]
fn degenerate_inputs_rejected() {
    let err = checked(0, vec![]).unwrap_err();
    assert!(err.contains("at least 4"), "got: {err}");
    let err = checked(9, vec![0, 1, 2]).unwrap_err();
    assert!(err.contains("at least 4"), "got: {err}");
    let err = checked(12, vec![0, 1, 2, 0, 3, 1, 0, 2, 3, 0, 1, 99]).unwrap_err();
    assert!(err.contains("references vertex index 99"), "got: {err}");
}

#[test]
fn error_messages_read_in_full() {
    assert_eq!(
        UnfoldError::TooSmall(2).message(),
        "Mesh has 2 face(s); at least 4 are required to unfold."
    );
    assert_eq!(
        UnfoldError::NotTriangulated.message(),
        "Face index array length is not a multiple of 3; expected a triangulated mesh."
    );
    assert_eq!(
        UnfoldError::OutOfRange { face: 3, vertex: 99, vertex_count: 4 }.message(),
        "Face 3 references vertex index 99, but the mesh has only 4 vertices."
    );
    assert_eq!(UnfoldError::DegenerateFace(7).message(), "Face 7 has zero area and cannot be unfolded.");
    assert_eq!(
        UnfoldError::OpenBoundary { count: 4, samples: vec![(0, 1), (2, 3)] }.message(),
        "Mesh has 4 open-boundary edge(s) (each shared by only one face) (e.g. edge (0, 1), (2, 3)\u{2026}). The mesh must be a closed manifold \u{2014} a single sealed surface with no holes. Imported game models often have separate parts (wheels, windows, trim) or open rims; export a single merged, watertight mesh to unfold it."
    );
    assert_eq!(
        UnfoldError::NonManifold { count: 1, samples: vec![] }.message(),
        "Mesh has 1 non-manifold edge(s) (each shared by more than two faces). The mesh must be a closed manifold \u{2014} a single sealed surface with no holes. Imported game models often have separate parts (wheels, windows, trim); export a single merged, watertight mesh to unfold it."
    );
}

#[test]
fn open_pyramid_reports_its_four_rim_edges() {
    match build(&open_pyramid_faces()) {
        Err(UnfoldError::OpenBoundary { count, samples }) => {
            assert_eq!(count, 4);
            assert!(!samples.is_empty() && samples.len() <= 5);
            for (a, b) in samples {
                assert!(a < b && b <= 3, "a rim edge joins two base corners");
            }
        }
        other => panic!("expected an open boundary, got {:?}", other.err()),
    }
}

#[test]
fn double_tetrahedron_reports_its_shared_edge() {
    match build(&double_tetrahedron_faces()) {
        Err(UnfoldError::NonManifold { count, samples }) => {
            assert_eq!(count, 1);
            assert_eq!(samples, vec![(0, 1)]);
        }
        other => panic!("expected a non-manifold edge, got {:?}", other.err()),
    }
}

#[test]
fn closed_meshes_have_every_edge_shared_by_two_faces() {
    let adj = build(&tetrahedron_faces()).unwrap();
    assert_eq!(adj.edges.len(), 6);
    assert_eq!(adj.face_edges.len(), 4);
    for e in &adj.edges {
        assert_ne!(e.face_a, e.face_b);
        assert!(e.va < e.vb);
    }
    let cube = build(&cube_faces()).unwrap();
    assert_eq!(cube.edges.len(), 18);
    for (f, slots) in cube.face_edges.iter().enumerate() {
        for &eid in slots {
            let e = &cube.edges[eid];
            assert!(e.face_a == f || e.face_b == f);
        }
    }
}

#[test]
fn checks_order_and_targets() {
    assert!(check_triangulated(9, 6).is_ok());
    assert!(matches!(check_triangulated(10, 6), Err(UnfoldError::NotTriangulated)));
    assert!(matches!(check_triangulated(9, 7), Err(UnfoldError::NotTriangulated)));
    assert_eq!(group_triangles(&vec![5, 6, 7, 8, 9, 10]), vec![[5, 6, 7], [8, 9, 10]]);
    assert!(matches!(
        check_indices(&vec![[0, 1, 2], [0, 7, 9]], 3),
        Err(UnfoldError::OutOfRange { face: 1, vertex: 7, vertex_count: 3 })
    ));
    assert!(matches!(validate_faces(&vec![[0, 1, 9]], 3), Err(UnfoldError::TooSmall(1))));
    assert_eq!(resolve_target(None), TARGET_FACES_DEFAULT);
    assert_eq!(resolve_target(None), 100);
    assert_eq!(resolve_target(Some(30)), 30);
    assert!(!needs_simplification(12, 100));
    assert!(!needs_simplification(200, 100));
    assert!(needs_simplification(201, 100));
}

#[test]
fn decimation_requests_and_results() {
    assert_eq!(simplify_request(0, 9, 10), Err("no faces to simplify".to_string()));
    assert_eq!(simplify_request(9, 9, 0), Err("no faces to simplify".to_string()));
    assert_eq!(simplify_request(10, 9, 10), Err("face array is not triangulated".to_string()));
    assert_eq!(simplify_request(9, 9, 10), Ok(30));
    assert_eq!(check_simplified(0, None), Err("simplification produced an empty mesh".to_string()));
    assert_eq!(check_simplified(6, Some(0)), Err("simplification produced only degenerate triangles".to_string()));
    assert_eq!(check_simplified(6, Some(2)), Ok(()));
    let s = SimplifiedStats::reduced(528, 100);
    assert_eq!((s.original_faces, s.final_faces, s.error), (528, 100, None));
    let s = SimplifiedStats::fallback(172, "boom".to_string());
    assert_eq!((s.original_faces, s.final_faces, s.error), (172, 172, Some("boom".to_string())));
    assert_eq!(
        manifold_fallback_note(&UnfoldError::TooSmall(0)),
        "Simplified mesh was no longer a closed manifold (Mesh has 0 face(s); at least 4 are required to unfold.); used the original mesh instead."
    );
}

/// Drives the greedy join over every mesh edge in order, accepting every join
/// (as a layout without overlaps would), and returns the finished islands.
fn join_all(faces: &Vec<[u32; 3]>) -> (Unfolder, Vec<foldquery::unfold::net::IslandLayout>) {
    let mut u = Unfolder::new(faces).unwrap();
    let edge_count = u.mesh_edges().len();
    for eid in 0..edge_count {
        if u.plan_join(eid).is_some() {
            assert!(u.commit_join().is_some());
        }
    }
    let kinds = vec![EdgeKind::Valley; edge_count];
    let layouts = u.finish(&kinds);
    (u, layouts)
}

#[test]
fn tetrahedron_joins_into_one_island() {
    let (_, layouts) = join_all(&tetrahedron_faces());
    assert_eq!(layouts.len(), 1);
    let island = &layouts[0];
    assert_eq!(island.faces.len(), 4);
    assert!((4..=6).contains(&island.vertex_count));
    let cuts = island.edges.iter().filter(|e| e.kind == EdgeKind::Cut).count();
    let folds = island.edges.iter().filter(|e| e.kind != EdgeKind::Cut).count();
    assert_eq!(cuts, 6);
    assert_eq!(folds, 3);
}

#[test]
fn every_face_lands_in_exactly_one_island() {
    let faces = cube_faces();
    let mut u = Unfolder::new(&faces).unwrap();
    // Accept only every other join, to leave several islands.
    let edge_count = u.mesh_edges().len();
    let mut committed = 0;
    for eid in 0..edge_count {
        if u.plan_join(eid).is_some() && eid % 2 == 0 {
            assert!(u.commit_join().is_some());
            committed += 1;
        }
    }
    let layouts = u.finish(&vec![EdgeKind::Mountain; edge_count]);
    let mut seen = vec![false; faces.len()];
    for island in &layouts {
        for &f in &island.faces {
            assert!(!seen[f], "face {f} appears twice");
            seen[f] = true;
        }
    }
    assert!(seen.iter().all(|s| *s));
    // Every glued edge merged two islands into one.
    assert_eq!(layouts.len() + committed, faces.len());
    for w in layouts.windows(2) {
        assert!(w[0].faces.len() >= w[1].faces.len());
    }
}

#[test]
fn a_join_that_is_not_committed_leaves_islands_apart() {
    let faces = tetrahedron_faces();
    let mut u = Unfolder::new(&faces).unwrap();
    let plan = u.plan_join(0).expect("two different faces");
    assert_ne!(plan.target, plan.source);
    // Planning again replaces the pending join; nothing is glued.
    let layouts = u.finish(&vec![EdgeKind::Coplanar; u.mesh_edges().len()]);
    assert_eq!(layouts.len(), 4);
    for l in &layouts {
        assert_eq!(l.faces.len(), 1);
        assert_eq!(l.vertex_count, 3);
        assert_eq!(l.edges.len(), 3);
        assert!(l.edges.iter().all(|e| e.kind == EdgeKind::Cut));
    }
}

#[test]
fn union_find_links_and_finds() {
    let mut uf = UnionFind::new(5);
    assert_eq!(uf.find(3), 3);
    uf.link(1, 3);
    assert_eq!(uf.find(3), 1);
    uf.link(1, 4);
    assert_eq!(uf.find(4), 1);
    assert_eq!(uf.find(0), 0);
}

#[test]
fn decimation_falls_back_when_the_mesh_breaks() {
    let original = cube_faces();
    let (faces, stats) = settle_decimation(original.clone(), 12, Ok((flat(&tetrahedron_faces()), 4)));
    assert_eq!(faces, tetrahedron_faces());
    assert_eq!((stats.original_faces, stats.final_faces, stats.error), (12, 4, None));

    let (faces, stats) = settle_decimation(original.clone(), 12, Ok((flat(&open_pyramid_faces()), 4)));
    assert_eq!(faces, original);
    assert_eq!((stats.original_faces, stats.final_faces), (12, 12));
    let note = stats.error.expect("a fallback note");
    assert!(note.starts_with("Simplified mesh was no longer a closed manifold (Mesh has 4 open-boundary edge(s)"));
    assert!(note.ends_with("); used the original mesh instead."));

    let (faces, stats) = settle_decimation(original.clone(), 12, Err("simplification produced an empty mesh".to_string()));
    assert_eq!(faces, original);
    assert_eq!(stats.final_faces, 12);
    assert_eq!(stats.error.as_deref(), Some("simplification produced an empty mesh"));
}

#[test]
fn samples_read_as_edge_lists() {
    assert_eq!(sample_str(&vec![]), "");
    assert_eq!(sample_str(&vec![(3, 4)]), " (e.g. edge (3, 4)\u{2026})");
    assert_eq!(sample_str(&vec![(0, 1), (10, 200)]), " (e.g. edge (0, 1), (10, 200)\u{2026})");
}

#[test]
fn islands_start_as_single_faces() {
    let faces = tetrahedron_faces();
    let mut u = Unfolder::new(&faces).unwrap();
    let first = u.island_at(0).as_ref().expect("face 0 is its own island");
    assert_eq!(first.faces, vec![0]);
    assert_eq!(first.vertex_count, 3);
    assert_eq!(first.vmap, vec![(0, 0), (1, 1), (2, 2)]);
    assert_eq!(first.boundary.len(), 3);
    let plan = u.plan_join(0).unwrap();
    let appended = u.commit_join().unwrap();
    // The source's two shared corners are glued; its third corner is new.
    assert_eq!(appended.len(), 1);
    assert!(u.island_at(plan.source).is_none());
    let merged = u.island_at(plan.target).as_ref().unwrap();
    assert_eq!(merged.faces.len(), 2);
    assert_eq!(merged.vertex_count, 4);
    assert_eq!(merged.boundary.len(), 4);
}

#[test]
fn islands_show_only_their_own_folds() {
    // Glue faces 0 and 1 along vertices (0, 1), and faces 2 and 3 along
    // vertices (2, 3): two islands that each know all four vertices.
    let faces = tetrahedron_faces();
    let mut u = Unfolder::new(&faces).unwrap();
    let edges = u.mesh_edges().clone();
    for (eid, e) in edges.iter().enumerate() {
        if (e.va, e.vb) == (0, 1) || (e.va, e.vb) == (2, 3) {
            assert!(u.plan_join(eid).is_some());
            assert!(u.commit_join().is_some());
        }
    }
    let layouts = u.finish(&vec![EdgeKind::Valley; edges.len()]);
    assert_eq!(layouts.len(), 2);
    for island in &layouts {
        assert_eq!(island.faces.len(), 2);
        let folds = island.edges.iter().filter(|e| e.kind != EdgeKind::Cut).count();
        assert_eq!(folds, 1, "an island of two faces has one fold");
        for e in &island.edges {
            assert!(e.a < island.vertex_count && e.b < island.vertex_count);
        }
    }
}

#[test]
fn find_points_the_path_at_the_root() {
    let mut uf = UnionFind::new(4);
    uf.link(2, 3);
    uf.link(1, 2);
    uf.link(0, 1);
    assert_eq!(uf.find(3), 0);
    assert_eq!(uf.find(2), 0);
    assert_eq!(uf.find(1), 0);
    assert_eq!(uf.find(0), 0);
}

#[test]
fn find_compresses_the_whole_path() {
    // Chain 3 -> 2 -> 1 -> 0; after finding 3, every node points at 0, so a
    // later link of 0 under another root moves them all at once.
    let mut uf = UnionFind::new(5);
    uf.link(2, 3);
    uf.link(1, 2);
    uf.link(0, 1);
    assert_eq!(uf.find(3), 0);
    uf.link(4, 0);
    for x in 0..5 {
        assert_eq!(uf.find(x), 4);
    }
}

#[test]
fn islands_have_two_more_cuts_than_faces_and_one_fold_fewer() {
    let faces = cube_faces();
    let mut u = Unfolder::new(&faces).unwrap();
    let edge_count = u.mesh_edges().len();
    for eid in 0..edge_count {
        if u.plan_join(eid).is_some() && eid % 3 != 1 {
            assert!(u.commit_join().is_some());
        }
    }
    let layouts = u.finish(&vec![EdgeKind::Mountain; edge_count]);
    for island in &layouts {
        let n = island.faces.len();
        assert_eq!(island.edges.len(), 2 * n + 1);
        assert!(island.edges[..n + 2].iter().all(|e| e.kind == EdgeKind::Cut));
        assert!(island.edges[n + 2..].iter().all(|e| e.kind == EdgeKind::Mountain));
    }
}
