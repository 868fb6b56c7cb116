use crate::tree::{indices, SceneTree};
use vstd::prelude::*;

verus! {

/// The tag that marks a node as the root of a navigable region, matched
/// case-insensitively anywhere in the node's label.
pub const NAVMESH_MARKER: &'static str = "[navmesh]";

/// Marker component attached beside each baked navigation mesh.
#[derive(Debug, Clone, Copy, PartialEq, Eq, Default)]
pub struct NavMesh;

/// One navigation mesh to bake: the geometry of `mesh_node`, projected through
/// the world transform of the marked node `marker`, baked and attached back to
/// `mesh_node`.
#[derive(Debug, Clone, Copy, PartialEq, Eq)]
pub struct NavMeshBake {
    pub marker: usize,
    pub mesh_node: usize,
}

/// What `str::to_lowercase` makes of a label.
pub uninterp spec fn lower_of(s: Seq<char>) -> Seq<char>;

/// Relies on str::to_lowercase: the result depends on the characters alone.
#[verifier::external_body]
fn lowercase(s: &str) -> (r: String)
    ensures
        r@ == lower_of(s@),
{
    s.to_lowercase()
}

pub open spec fn marker_seq() -> Seq<char> {
    NAVMESH_MARKER@
}

/// `needle` occurs in `hay` at position `i`.
pub open spec fn occurs_at(hay: Seq<char>, needle: Seq<char>, i: int) -> bool {
    0 <= i && i + needle.len() <= hay.len() && hay.subrange(i, i + needle.len()) == needle
}

/// `needle` occurs somewhere in `hay`.
pub open spec fn contains_seq(hay: Seq<char>, needle: Seq<char>) -> bool {
    exists|i: int| occurs_at(hay, needle, i)
}

/// Whether an already lowercased label holds the marker.
pub fn has_navmesh_marker_lowered(lowered: &str) -> (r: bool)
    ensures
        r == contains_seq(lowered@, marker_seq()),
{
    proof {
        reveal_strlit("[navmesh]");
    }
    let marker = NAVMESH_MARKER;
    let m = marker.unicode_len();
    let n = lowered.unicode_len();
    if n < m {
        assert forall|i: int| !occurs_at(lowered@, marker_seq(), i) by {}
        return false;
    }
    let mut i: usize = 0;
    while i <= n - m
        invariant
            m == marker_seq().len(),
            n == lowered@.len(),
            1 <= m <= n,
            marker@ == marker_seq(),
            i <= n - m + 1,
            forall|k: int| 0 <= k < i ==> !occurs_at(lowered@, marker_seq(), k),
        decreases n - m + 1 - i,
    {
        let mut j: usize = 0;
        let mut same = true;
        assert(lowered@.subrange(i as int, i as int) =~= marker_seq().subrange(0, 0));
        while j < m && same
            invariant
                m == marker_seq().len(),
                marker@ == marker_seq(),
                n == lowered@.len(),
                i + m <= n,
                j <= m,
                same == (lowered@.subrange(i as int, i + j) == marker_seq().subrange(0, j as int)),
            decreases m - j,
        {
            let a = lowered.get_char(i + j);
            let b = marker.get_char(j);
            proof {
                assert(lowered@.subrange(i as int, i + j + 1) =~= lowered@.subrange(i as int, i + j).push(a));
                assert(marker_seq().subrange(0, j + 1) =~= marker_seq().subrange(0, j as int).push(b));
                if same && a != b {
                    assert(lowered@.subrange(i as int, i + j + 1)[j as int] != marker_seq().subrange(0, j + 1)[j as int]);
                }
                if !same {
                    assert(lowered@.subrange(i as int, i + j + 1).subrange(0, j as int) =~= lowered@.subrange(i as int, i + j));
                    assert(marker_seq().subrange(0, j + 1).subrange(0, j as int) =~= marker_seq().subrange(0, j as int));
                }
            }
            same = same && a == b;
            j = j + 1;
        }
        if same {
            assert(marker_seq().subrange(0, m as int) =~= marker_seq());
            assert(occurs_at(lowered@, marker_seq(), i as int));
            return true;
        }
        if j < m {
            assert(!occurs_at(lowered@, marker_seq(), i as int)) by {
                if occurs_at(lowered@, marker_seq(), i as int) {
                    assert(lowered@.subrange(i as int, i + j) =~= lowered@.subrange(i as int, i + m).subrange(0, j as int));
                }
            }
        } else {
            assert(marker_seq().subrange(0, m as int) =~= marker_seq());
        }
        i = i + 1;
    }
    false
}

/// Whether a node label holds the marker, ignoring case.
pub fn has_navmesh_marker(label: &str) -> (r: bool)
    ensures
        r == contains_seq(lower_of(label@), marker_seq()),
{
    let lowered = lowercase(label);
    has_navmesh_marker_lowered(lowered.as_str())
}

/// A list of added nodes with their labels, labels seen as characters.
pub open spec fn labels_view(added: Seq<(usize, String)>) -> Seq<(usize, Seq<char>)> {
    added.map_values(|p: (usize, String)| (p.0, p.1@))
}

/// The bakes one added node asks for: one per mesh below it when its label
/// holds the marker, none otherwise.
pub open spec fn bakes_for(tree: SceneTree, node: usize, label: Seq<char>) -> Seq<NavMeshBake> {
    if contains_seq(lower_of(label), marker_seq()) {
        tree.meshes_below_spec(node as int).map_values(
            |m: usize| NavMeshBake { marker: node, mesh_node: m },
        )
    } else {
        Seq::empty()
    }
}

/// The bakes that a batch of added nodes asks for, batch order kept.
pub open spec fn bakes_of(tree: SceneTree, added: Seq<(usize, Seq<char>)>) -> Seq<NavMeshBake>
    decreases added.len(),
{
    if added.len() == 0 {
        Seq::empty()
    } else {
        bakes_of(tree, added.drop_last()) + bakes_for(tree, added.last().0, added.last().1)
    }
}

/// Decides, for the nodes whose labels were just set, which meshes to bake
/// into navigation meshes: for each node whose label holds the marker, one bake
/// per mesh anywhere below it, attached to that mesh's node and projected
/// through the marked node's world transform.
pub fn read_navmesh(tree: &SceneTree, added: &Vec<(usize, String)>) -> (r: Vec<NavMeshBake>)
    requires
        tree.wf(),
        forall|k: int| 0 <= k < added@.len() ==> (#[trigger] added@[k]).0 < tree.len(),
    ensures
        r@ == bakes_of(*tree, labels_view(added@)),
{
    let mut r: Vec<NavMeshBake> = Vec::new();
    let mut k: usize = 0;
    while k < added.len()
        invariant
            tree.wf(),
            k <= added@.len(),
            r@ == bakes_of(*tree, labels_view(added@.subrange(0, k as int))),
        decreases added@.len() - k,
    {
        let node = added[k].0;
        proof {
            let a = labels_view(added@.subrange(0, k + 1));
            assert(a.drop_last() =~= labels_view(added@.subrange(0, k as int)));
            assert(a.last() == (node, added@[k as int].1@));
        }
        if has_navmesh_marker(added[k].1.as_str()) {
            let meshes = tree.meshes_below(node);
            let ghost start = r@;
            let mut j: usize = 0;
            while j < meshes.len()
                invariant
                    j <= meshes@.len(),
                    r@ == start + meshes@.subrange(0, j as int).map_values(
                        |m: usize| NavMeshBake { marker: node, mesh_node: m },
                    ),
                decreases meshes@.len() - j,
            {
                r.push(NavMeshBake { marker: node, mesh_node: meshes[j] });
                assert(meshes@.subrange(0, j + 1) =~= meshes@.subrange(0, j as int).push(meshes@[j as int]));
                assert(r@ =~= start + meshes@.subrange(0, j + 1).map_values(
                    |m: usize| NavMeshBake { marker: node, mesh_node: m },
                ));
                j = j + 1;
            }
            assert(meshes@.subrange(0, j as int) =~= meshes@);
        } else {
            assert(r@ =~= r@ + Seq::<NavMeshBake>::empty());
        }
        k = k + 1;
    }
    assert(added@.subrange(0, k as int) =~= added@);
    r
}

/// Over the first `k` indices, the nodes below `node` that carry a mesh are
/// `only` alone when `only` is the one such node and lies below `k`, and none
/// otherwise.
proof fn lemma_meshes_below_at_most_one(tree: SceneTree, node: usize, only: Option<usize>, k: nat)
    requires
        tree.wf(),
        k <= tree.len(),
        forall|x: usize|
            (x as int) < tree.len() ==> (#[trigger] (tree.mesh_below(node as int))(x) <==> only
                == Some(x)),
    ensures
        indices(k).filter(tree.mesh_below(node as int)) == if only is Some && (only->0 as nat)
            < k {
            seq![only->0]
        } else {
            Seq::<usize>::empty()
        },
    decreases k,
{
    reveal(Seq::filter);
    tree.lemma_len_fits();
    if k > 0 {
        lemma_meshes_below_at_most_one(tree, node, only, (k - 1) as nat);
        assert(indices(k).drop_last() =~= indices((k - 1) as nat));
        let x = (k - 1) as usize;
        assert(indices(k).last() == x);
        assert((tree.mesh_below(node as int))(x) <==> only == Some(x));
        let prev = indices((k - 1) as nat).filter(tree.mesh_below(node as int));
        assert(indices(k).filter(tree.mesh_below(node as int)) == if (tree.mesh_below(
            node as int,
        ))(x) {
            prev.push(x)
        } else {
            prev
        });
        if only == Some(x) {
            assert(prev =~= Seq::<usize>::empty());
            assert(indices(k).filter(tree.mesh_below(node as int)) =~= seq![x]);
        } else {
            assert(indices(k).filter(tree.mesh_below(node as int)) =~= indices(
                (k - 1) as nat,
            ).filter(tree.mesh_below(node as int)));
        }
    } else {
        assert(indices(0).filter(tree.mesh_below(node as int)) =~= Seq::<usize>::empty());
    }
}

/// A node whose label lacks the marker, ignoring case, asks for no bake.
pub proof fn lemma_unmarked_bakes_nothing(
    tree: SceneTree,
    added: Seq<(usize, Seq<char>)>,
    node: usize,
    label: Seq<char>,
)
    requires
        !contains_seq(lower_of(label), marker_seq()),
    ensures
        bakes_for(tree, node, label).len() == 0,
        bakes_of(tree, added.push((node, label))) == bakes_of(tree, added),
{
    let a = added.push((node, label));
    assert(a.drop_last() =~= added);
    assert(bakes_of(tree, added) + Seq::<NavMeshBake>::empty() =~= bakes_of(tree, added));
}

/// A marked node with no mesh anywhere below it asks for no bake.
pub proof fn lemma_marked_without_meshes(
    tree: SceneTree,
    added: Seq<(usize, Seq<char>)>,
    node: usize,
    label: Seq<char>,
)
    requires
        tree.wf(),
        forall|d: int|
            0 <= d < tree.len() ==> !(#[trigger] tree.has_mesh(d) && tree.is_descendant(
                d,
                node as int,
            )),
    ensures
        bakes_for(tree, node, label).len() == 0,
        bakes_of(tree, added.push((node, label))) == bakes_of(tree, added),
{
    lemma_meshes_below_at_most_one(tree, node, None, tree.len());
    let a = added.push((node, label));
    assert(a.drop_last() =~= added);
    assert(bakes_for(tree, node, label) =~= Seq::<NavMeshBake>::empty());
    assert(bakes_of(tree, added) + Seq::<NavMeshBake>::empty() =~= bakes_of(tree, added));
}

/// A marked node with exactly one mesh below it, at `d`, asks for exactly one
/// bake, attached to `d`.
pub proof fn lemma_marked_with_one_mesh(
    tree: SceneTree,
    added: Seq<(usize, Seq<char>)>,
    node: usize,
    label: Seq<char>,
    d: usize,
)
    requires
        tree.wf(),
        contains_seq(lower_of(label), marker_seq()),
        d < tree.len(),
        tree.has_mesh(d as int),
        tree.is_descendant(d as int, node as int),
        forall|e: int|
            0 <= e < tree.len() && #[trigger] tree.has_mesh(e) && tree.is_descendant(e, node as int)
                ==> e == d,
    ensures
        bakes_for(tree, node, label) == seq![NavMeshBake { marker: node, mesh_node: d }],
        bakes_of(tree, added.push((node, label))) == bakes_of(tree, added).push(
            NavMeshBake { marker: node, mesh_node: d },
        ),
{
    assert forall|x: usize|
        (x as int) < tree.len() implies (#[trigger] (tree.mesh_below(node as int))(x) <==> Some(d)
        == Some(x)) by {
        if tree.has_mesh(x as int) && tree.is_descendant(x as int, node as int) {
            assert(x as int == d as int);
        }
    }
    lemma_meshes_below_at_most_one(tree, node, Some(d), tree.len());
    let a = added.push((node, label));
    assert(a.drop_last() =~= added);
    assert(bakes_for(tree, node, label) =~= seq![NavMeshBake { marker: node, mesh_node: d }]);
    assert(bakes_of(tree, added) + seq![NavMeshBake { marker: node, mesh_node: d }]
        =~= bakes_of(tree, added).push(NavMeshBake { marker: node, mesh_node: d }));
}

} // verus!
