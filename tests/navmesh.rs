use foxtrot::navmesh::{
    has_navmesh_marker, has_navmesh_marker_lowered, read_navmesh, NavMeshBake, NAVMESH_MARKER,
};
use foxtrot::tree::SceneTree;

/// 0: level (marked later), 1: floor with mesh, 2: props, 3: table with mesh,
/// 4: other root, 5: rock with mesh under 4.
fn level() -> SceneTree {
    let mut t = SceneTree::new();
    assert_eq!(t.add_node(None, false), Some(0));
    assert_eq!(t.add_node(Some(0), true), Some(1));
    assert_eq!(t.add_node(Some(0), false), Some(2));
    assert_eq!(t.add_node(Some(2), true), Some(3));
    assert_eq!(t.add_node(None, false), Some(4));
    assert_eq!(t.add_node(Some(4), true), Some(5));
    t
}

#[test]
fn add_node_rejects_missing_parent() {
    let mut t = SceneTree::new();
    assert_eq!(t.add_node(Some(0), false), None);
    assert_eq!(t.node_count(), 0);
    assert_eq!(t.add_node(None, true), Some(0));
    assert_eq!(t.add_node(Some(1), true), None);
    assert_eq!(t.node_count(), 1);
    assert_eq!(t.parent(0), None);
    assert!(t.mesh_at(0));
}

#[test]
fn ancestor_chain_runs_root_first() {
    let t = level();
    assert_eq!(t.ancestor_chain(3), vec![0, 2, 3]);
    assert_eq!(t.ancestor_chain(0), vec![0]);
    assert_eq!(t.ancestor_chain(5), vec![4, 5]);
}

#[test]
fn chain_of_leaf_extends_chain_of_parent() {
    let t = level();
    let mut mid = t.ancestor_chain(2);
    mid.push(3);
    assert_eq!(t.ancestor_chain(3), mid);
}

/// Translation and scale on one axis: composing parent then child.
fn compose(parent: (f32, f32), child: (f32, f32)) -> (f32, f32) {
    (parent.0 + parent.1 * child.0, parent.1 * child.1)
}

#[test]
fn composing_along_chain_matches_stepwise_composition() {
    let t = level();
    let locals = [(1.0f32, 2.0f32), (0.0, 1.0), (3.0, 0.5), (4.0, 2.0), (0.0, 1.0), (0.0, 1.0)];
    let fold = |chain: Vec<usize>| {
        let mut acc = locals[chain[0]];
        for &n in &chain[1..] {
            acc = compose(acc, locals[n]);
        }
        acc
    };
    let whole = fold(t.ancestor_chain(3));
    let stepwise = compose(fold(t.ancestor_chain(2)), locals[3]);
    assert_eq!(whole, stepwise);
    assert_eq!(whole, (11.0, 2.0));
}

#[test]
fn descends_from_follows_parents() {
    let t = level();
    assert!(t.descends_from(3, 0));
    assert!(t.descends_from(3, 2));
    assert!(!t.descends_from(3, 3));
    assert!(!t.descends_from(5, 0));
    assert!(!t.descends_from(0, 0));
}

#[test]
fn meshes_below_searches_whole_subtree() {
    let t = level();
    assert_eq!(t.meshes_below(0), vec![1, 3]);
    assert_eq!(t.meshes_below(2), vec![3]);
    assert_eq!(t.meshes_below(1), Vec::<usize>::new());
    assert_eq!(t.meshes_below(4), vec![5]);
}

#[test]
fn marker_matches_ignoring_case() {
    assert_eq!(NAVMESH_MARKER, "[navmesh]");
    assert!(has_navmesh_marker("Level [navmesh]"));
    assert!(has_navmesh_marker("[NavMesh] ground"));
    assert!(has_navmesh_marker("x[NAVMESH]y"));
    assert!(!has_navmesh_marker("navmesh"));
    assert!(!has_navmesh_marker("[nav mesh]"));
    assert!(!has_navmesh_marker("[navmes"));
    assert!(!has_navmesh_marker(""));
}

#[test]
fn lowered_marker_match_is_exact() {
    assert!(has_navmesh_marker_lowered("a[navmesh]"));
    assert!(has_navmesh_marker_lowered("[navmesh]"));
    assert!(!has_navmesh_marker_lowered("[NAVMESH]"));
    assert!(!has_navmesh_marker_lowered("[navmesh"));
    assert!(has_navmesh_marker_lowered("[[navmesh]]"));
}

#[test]
fn unmarked_label_bakes_nothing() {
    let t = level();
    let added = vec![(0usize, String::from("Level"))];
    assert!(read_navmesh(&t, &added).is_empty());
}

#[test]
fn marked_label_without_meshes_bakes_nothing() {
    let t = level();
    let added = vec![(1usize, String::from("Floor [navmesh]"))];
    assert!(read_navmesh(&t, &added).is_empty());
}

#[test]
fn marked_label_with_one_mesh_bakes_once() {
    let t = level();
    let added = vec![(4usize, String::from("Outside [NavMesh]"))];
    assert_eq!(
        read_navmesh(&t, &added),
        vec![NavMeshBake { marker: 4, mesh_node: 5 }]
    );
}

#[test]
fn marked_label_bakes_every_mesh_below() {
    let t = level();
    let added = vec![
        (2usize, String::from("props")),
        (0usize, String::from("LEVEL [NAVMESH]")),
        (4usize, String::from("[navmesh]")),
    ];
    assert_eq!(
        read_navmesh(&t, &added),
        vec![
            NavMeshBake { marker: 0, mesh_node: 1 },
            NavMeshBake { marker: 0, mesh_node: 3 },
            NavMeshBake { marker: 4, mesh_node: 5 },
        ]
    );
}

#[test]
fn no_added_nodes_bakes_nothing() {
    let t = level();
    assert!(read_navmesh(&t, &Vec::new()).is_empty());
}
