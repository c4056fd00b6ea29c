use vstd::prelude::*;

use crate::geom::{
    clamp_i64, cube_bounded, cube_touches_sphere, in_sphere, lemma_square_bound, Vec3, COORD_LIMIT,
    GRAY, LEAF_SIZE,
};

verus! {

/// What a region does with its contents: a leaf stores point indices
/// directly and is never subdivided further; an internal region owns exactly
/// eight child regions and stores nothing itself.
pub enum NodeState {
    Leaf { point_indices: Vec<usize> },
    Internal { children: Vec<Octree> },
}

/// One cubical region of space: the region covers the axis-aligned cube
/// centered at `center` with edge length `size`.
///
/// A tree is built once, by `new` followed by repeated `insert` calls, and
/// read afterwards through `get_vertices`, `get_num_cubes` and
/// `query_sphere`.
pub struct Octree {
    pub center: Vec3,
    pub size: i64,
    pub state: NodeState,
}

/// The mathematical shape of a region's contents.
#[verifier::ext_equal]
pub ghost enum StateView {
    Leaf { points: Seq<usize> },
    Internal { children: Seq<TreeView> },
}

/// The mathematical shape of a tree: everything about an [`Octree`] except
/// the incidental capacity of its vectors.  All contracts of this crate
/// speak about this view.
#[verifier::ext_equal]
pub ghost struct TreeView {
    pub center: Vec3,
    pub size: i64,
    pub state: StateView,
}

/// The view of an empty leaf region.
pub open spec fn empty_leaf(c: Vec3, s: i64) -> TreeView {
    TreeView { center: c, size: s, state: StateView::Leaf { points: Seq::empty() } }
}

/// The octant of `(c, s)` that holds `p`: bit 0 is set when `p` lies on the
/// positive-x side of the center, bit 1 for y, bit 2 for z.  Points exactly
/// on a center plane go to the negative side.
pub open spec fn child_index_of(c: Vec3, p: Vec3) -> int {
    (if p.x > c.x {
        1int
    } else {
        0int
    }) + (if p.y > c.y {
        2int
    } else {
        0int
    }) + (if p.z > c.z {
        4int
    } else {
        0int
    })
}

/// Center of octant `k` of the cube `(c, s)`: offset by a quarter edge along
/// each axis, sign chosen by the bits of `k`.
pub open spec fn octant_center(c: Vec3, s: i64, k: int) -> Vec3 {
    Vec3 {
        x: (if k % 2 == 1 {
            c.x + s / 4
        } else {
            c.x - s / 4
        }) as i64,
        y: (if k / 2 % 2 == 1 {
            c.y + s / 4
        } else {
            c.y - s / 4
        }) as i64,
        z: (if k / 4 % 2 == 1 {
            c.z + s / 4
        } else {
            c.z - s / 4
        }) as i64,
    }
}

/// The eight empty leaves a region of cube `(c, s)` subdivides into.
pub open spec fn fresh_children(c: Vec3, s: i64) -> Seq<TreeView> {
    Seq::new(8, |k: int| empty_leaf(octant_center(c, s, k), (s / 2) as i64))
}

impl Octree {
    pub open spec fn view(self) -> TreeView
        decreases self,
    {
        TreeView {
            center: self.center,
            size: self.size,
            state: match self.state {
                NodeState::Leaf { point_indices } => StateView::Leaf { points: point_indices@ },
                NodeState::Internal { children } => StateView::Internal {
                    children: views_of(children@),
                },
            },
        }
    }
}

/// The views of a sequence of subtrees, in order.
pub open spec fn views_of(s: Seq<Octree>) -> Seq<TreeView>
    decreases s,
{
    if s.len() == 0 {
        Seq::empty()
    } else {
        views_of(s.drop_last()).push(s.last().view())
    }
}

pub proof fn lemma_views_of(s: Seq<Octree>)
    ensures
        views_of(s).len() == s.len(),
        forall|i: int| 0 <= i < s.len() ==> views_of(s)[i] == (#[trigger] s[i]).view(),
    decreases s.len(),
{
    if s.len() > 0 {
        lemma_views_of(s.drop_last());
        assert forall|i: int| 0 <= i < s.len() implies views_of(s)[i] == (#[trigger] s[i]).view() by {
            if i < s.len() - 1 {
                assert(s.drop_last()[i] == s[i]);
            } else {
                assert(s[i] == s.last());
            }
        }
    }
}

pub proof fn lemma_views_of_update(s: Seq<Octree>, k: int, t: Octree)
    requires
        0 <= k < s.len(),
    ensures
        views_of(s.update(k, t)) == views_of(s).update(k, t.view()),
{
    lemma_views_of(s);
    lemma_views_of(s.update(k, t));
    assert forall|i: int| 0 <= i < s.len() implies views_of(s.update(k, t))[i] == views_of(
        s,
    ).update(k, t.view())[i] by {
        if i == k {
            assert(s.update(k, t)[i] == t);
        } else {
            assert(s.update(k, t)[i] == s[i]);
        }
    }
    assert(views_of(s.update(k, t)) =~= views_of(s).update(k, t.view()));
}

/// Geometric relation between a region and its `k`-th child: half the edge
/// length, center offset into octant `k`.
pub open spec fn child_shape(v: TreeView, c: TreeView, k: int) -> bool {
    &&& c.size == v.size / 2
    &&& c.center == octant_center(v.center, v.size, k)
}

/// Well-formed region hierarchy:
/// - every edge length is positive and the covering cube stays within
///   `COORD_LIMIT` on every axis;
/// - a region larger than `LEAF_SIZE` that is still a leaf holds no points
///   (points are only ever stored once a region is at or below the
///   threshold);
/// - an internal region is larger than `LEAF_SIZE` and owns exactly eight
///   well-formed children, each covering one octant at half the edge length.
pub open spec fn wf(v: TreeView) -> bool
    decreases v,
{
    &&& 0 < v.size
    &&& cube_bounded(v.center, v.size)
    &&& match v.state {
        StateView::Leaf { points } => v.size > LEAF_SIZE ==> points.len() == 0,
        StateView::Internal { children } => {
            &&& v.size > LEAF_SIZE
            &&& children.len() == 8
            &&& forall|k: int|
                0 <= k < 8 ==> child_shape(v, #[trigger] children[k], k) && wf(children[k])
        },
    }
}

/// Total number of regions in the hierarchy, leaves and internal alike.
pub open spec fn count(v: TreeView) -> nat
    decreases v,
{
    match v.state {
        StateView::Leaf { .. } => 1,
        StateView::Internal { children } => 1 + count_forest(children),
    }
}

/// Sum of `count` over a sequence of subtrees.
pub open spec fn count_forest(s: Seq<TreeView>) -> nat
    decreases s,
{
    if s.len() == 0 {
        0
    } else {
        count_forest(s.drop_last()) + count(s.last())
    }
}

/// Extending a prefix by one subtree adds that subtree's count.
pub proof fn lemma_count_forest_take_step(s: Seq<TreeView>, j: int)
    requires
        0 <= j < s.len(),
    ensures
        count_forest(s.take(j + 1)) == count_forest(s.take(j)) + count(s[j]),
{
    assert(s.take(j + 1).drop_last() =~= s.take(j));
    assert(s.take(j + 1).last() == s[j]);
}

/// A prefix of a forest never counts more than the whole forest.
pub proof fn lemma_count_forest_prefix(s: Seq<TreeView>, j: int)
    requires
        0 <= j <= s.len(),
    ensures
        count_forest(s.take(j)) <= count_forest(s),
    decreases s.len() - j,
{
    if j == s.len() {
        assert(s.take(j) =~= s);
    } else {
        lemma_count_forest_take_step(s, j);
        lemma_count_forest_prefix(s, j + 1);
    }
}

/// Number of leaf regions in the hierarchy.
pub open spec fn leaf_count(v: TreeView) -> nat
    decreases v,
{
    match v.state {
        StateView::Leaf { .. } => 1,
        StateView::Internal { children } => leaf_count_forest(children),
    }
}

/// Sum of `leaf_count` over a sequence of subtrees.
pub open spec fn leaf_count_forest(s: Seq<TreeView>) -> nat
    decreases s,
{
    if s.len() == 0 {
        0
    } else {
        leaf_count_forest(s.drop_last()) + leaf_count(s.last())
    }
}

/// The six scalars of one emitted vertex: position, then the fixed mid-gray
/// color.
pub open spec fn vertex_scalars(x: i64, y: i64, z: i64) -> Seq<i64> {
    seq![x, y, z, GRAY, GRAY, GRAY]
}

/// The scalars of one triangulated face: two triangles sharing a diagonal,
/// six vertices in all.
pub open spec fn face_scalars(
    a: (i64, i64, i64),
    b: (i64, i64, i64),
    c: (i64, i64, i64),
    d: (i64, i64, i64),
    e: (i64, i64, i64),
    f: (i64, i64, i64),
) -> Seq<i64> {
    vertex_scalars(a.0, a.1, a.2) + vertex_scalars(b.0, b.1, b.2) + vertex_scalars(c.0, c.1, c.2)
        + vertex_scalars(d.0, d.1, d.2) + vertex_scalars(e.0, e.1, e.2) + vertex_scalars(
        f.0,
        f.1,
        f.2,
    )
}

/// The 216 scalars (36 vertices of 6 scalars) describing the cube `(c, s)`
/// as triangles wound counterclockwise seen from outside, faces in the fixed
/// order front (+z), back (-z), left (-x), right (+x), top (+y),
/// bottom (-y).
pub open spec fn cube_scalars(c: Vec3, s: i64) -> Seq<i64> {
    let nx = (c.x - s / 2) as i64;
    let px = (c.x + s / 2) as i64;
    let ny = (c.y - s / 2) as i64;
    let py = (c.y + s / 2) as i64;
    let nz = (c.z - s / 2) as i64;
    let pz = (c.z + s / 2) as i64;
    face_scalars(
        (nx, ny, pz),
        (px, ny, pz),
        (px, py, pz),
        (nx, ny, pz),
        (px, py, pz),
        (nx, py, pz),
    ) + face_scalars(
        (px, ny, nz),
        (nx, ny, nz),
        (nx, py, nz),
        (px, ny, nz),
        (nx, py, nz),
        (px, py, nz),
    ) + face_scalars(
        (nx, ny, nz),
        (nx, ny, pz),
        (nx, py, pz),
        (nx, ny, nz),
        (nx, py, pz),
        (nx, py, nz),
    ) + face_scalars(
        (px, ny, pz),
        (px, ny, nz),
        (px, py, nz),
        (px, ny, pz),
        (px, py, nz),
        (px, py, pz),
    ) + face_scalars(
        (nx, py, pz),
        (px, py, pz),
        (px, py, nz),
        (nx, py, pz),
        (px, py, nz),
        (nx, py, nz),
    ) + face_scalars(
        (nx, ny, nz),
        (px, ny, nz),
        (px, ny, pz),
        (nx, ny, nz),
        (px, ny, pz),
        (nx, ny, pz),
    )
}

/// Every scalar emitted by the hierarchy: each leaf contributes its cube,
/// leaves visited in child order; internal regions contribute nothing of
/// their own.
pub open spec fn emission(v: TreeView) -> Seq<i64>
    decreases v,
{
    match v.state {
        StateView::Leaf { .. } => cube_scalars(v.center, v.size),
        StateView::Internal { children } => emission_forest(children),
    }
}

/// Concatenation of `emission` over a sequence of subtrees.
pub open spec fn emission_forest(s: Seq<TreeView>) -> Seq<i64>
    decreases s,
{
    if s.len() == 0 {
        Seq::empty()
    } else {
        emission_forest(s.drop_last()) + emission(s.last())
    }
}

/// Extending a prefix by one subtree appends that subtree's emission.
pub proof fn lemma_emission_forest_take_step(s: Seq<TreeView>, j: int)
    requires
        0 <= j < s.len(),
    ensures
        emission_forest(s.take(j + 1)) == emission_forest(s.take(j)) + emission(s[j]),
{
    assert(s.take(j + 1).drop_last() =~= s.take(j));
    assert(s.take(j + 1).last() == s[j]);
}

/// Every point index stored in the hierarchy, leaves visited in child order.
pub open spec fn points_of(v: TreeView) -> Seq<usize>
    decreases v,
{
    match v.state {
        StateView::Leaf { points } => points,
        StateView::Internal { children } => points_forest(children),
    }
}

/// Concatenation of `points_of` over a sequence of subtrees.
pub open spec fn points_forest(s: Seq<TreeView>) -> Seq<usize>
    decreases s,
{
    if s.len() == 0 {
        Seq::empty()
    } else {
        points_forest(s.drop_last()) + points_of(s.last())
    }
}

/// Position of point `i` in a flat buffer holding six scalars per point:
/// the first three scalars of its stride.
pub open spec fn point_at(buf: Seq<i64>, i: usize) -> Vec3 {
    Vec3 { x: buf[6 * i], y: buf[6 * i + 1], z: buf[6 * i + 2] }
}

/// The subsequence of `points` whose buffer positions lie within distance
/// `r` of `qc`, order preserved.
pub open spec fn hits(points: Seq<usize>, qc: Vec3, r: i64, buf: Seq<i64>) -> Seq<usize>
    decreases points,
{
    if points.len() == 0 {
        Seq::empty()
    } else {
        hits(points.drop_last(), qc, r, buf) + (if in_sphere(
            qc,
            r,
            point_at(buf, points.last()),
        ) {
            seq![points.last()]
        } else {
            Seq::empty()
        })
    }
}

/// What a sphere query returns: nothing from a region whose cube the sphere
/// misses; from a surviving leaf, its stored indices whose buffer positions
/// lie within the sphere; from a surviving internal region, its children's
/// answers concatenated in child order.
pub open spec fn query_model(v: TreeView, qc: Vec3, r: i64, buf: Seq<i64>) -> Seq<usize>
    decreases v,
{
    if !cube_touches_sphere(v.center, v.size, qc, r) {
        Seq::empty()
    } else {
        match v.state {
            StateView::Leaf { points } => hits(points, qc, r, buf),
            StateView::Internal { children } => query_forest(children, qc, r, buf),
        }
    }
}

/// Concatenation of `query_model` over a sequence of subtrees.
pub open spec fn query_forest(s: Seq<TreeView>, qc: Vec3, r: i64, buf: Seq<i64>) -> Seq<usize>
    decreases s,
{
    if s.len() == 0 {
        Seq::empty()
    } else {
        query_forest(s.drop_last(), qc, r, buf) + query_model(s.last(), qc, r, buf)
    }
}

/// Extending a prefix by one index appends at most that index.
pub proof fn lemma_hits_take_step(points: Seq<usize>, qc: Vec3, r: i64, buf: Seq<i64>, j: int)
    requires
        0 <= j < points.len(),
    ensures
        hits(points.take(j + 1), qc, r, buf) == hits(points.take(j), qc, r, buf) + (if in_sphere(
            qc,
            r,
            point_at(buf, points[j]),
        ) {
            seq![points[j]]
        } else {
            Seq::empty()
        }),
{
    assert(points.take(j + 1).drop_last() =~= points.take(j));
    assert(points.take(j + 1).last() == points[j]);
}

/// Extending a prefix by one subtree appends that subtree's answer.
pub proof fn lemma_query_forest_take_step(s: Seq<TreeView>, qc: Vec3, r: i64, buf: Seq<i64>, j: int)
    requires
        0 <= j < s.len(),
    ensures
        query_forest(s.take(j + 1), qc, r, buf) == query_forest(s.take(j), qc, r, buf)
            + query_model(s[j], qc, r, buf),
{
    assert(s.take(j + 1).drop_last() =~= s.take(j));
    assert(s.take(j + 1).last() == s[j]);
}

/// The whole forest splits around its `k`-th member.
pub proof fn lemma_points_forest_split(s: Seq<TreeView>, k: int)
    requires
        0 <= k < s.len(),
    ensures
        points_forest(s) == points_forest(s.take(k)) + points_of(s[k]) + points_forest(
            s.skip(k + 1),
        ),
    decreases s.len(),
{
    if k == s.len() - 1 {
        assert(s.take(k) =~= s.drop_last());
        assert(s.skip(k + 1) =~= Seq::<TreeView>::empty());
        assert(points_forest(s) =~= points_forest(s.take(k)) + points_of(s[k]) + points_forest(
            s.skip(k + 1),
        ));
    } else {
        lemma_points_forest_split(s.drop_last(), k);
        assert(s.drop_last().take(k) =~= s.take(k));
        assert(s.drop_last()[k] == s[k]);
        assert(s.skip(k + 1).drop_last() =~= s.drop_last().skip(k + 1));
        assert(s.skip(k + 1).last() == s.last());
        assert(s.skip(k + 1).len() > 0);
        assert(points_forest(s) =~= points_forest(s.take(k)) + points_of(s[k]) + points_forest(
            s.skip(k + 1),
        ));
    }
}

/// The subtree that appears where an empty leaf covering `(c, s)` absorbs
/// the pair `(i, p)`: subdivision repeats, halving the edge length and
/// following `p`'s octant, until the region no longer exceeds `LEAF_SIZE`;
/// that leaf stores `i`.
pub open spec fn descend_fresh(c: Vec3, s: i64, i: usize, p: Vec3) -> TreeView
    decreases s,
{
    if s <= LEAF_SIZE {
        TreeView { center: c, size: s, state: StateView::Leaf { points: seq![i] } }
    } else {
        let k = child_index_of(c, p);
        TreeView {
            center: c,
            size: s,
            state: StateView::Internal {
                children: fresh_children(c, s).update(
                    k,
                    descend_fresh(octant_center(c, s, k), (s / 2) as i64, i, p),
                ),
            },
        }
    }
}

/// What one insertion does to a tree: a region at or below `LEAF_SIZE`
/// appends the index to its point list; a larger region subdivides if it is
/// still a leaf, then routes the pair into the octant that holds `p`.
pub open spec fn insert_model(v: TreeView, i: usize, p: Vec3) -> TreeView
    decreases v,
{
    if v.size <= LEAF_SIZE {
        match v.state {
            StateView::Leaf { points } => TreeView {
                center: v.center,
                size: v.size,
                state: StateView::Leaf { points: points.push(i) },
            },
            StateView::Internal { .. } => v,
        }
    } else {
        match v.state {
            StateView::Leaf { .. } => {
                let k = child_index_of(v.center, p);
                TreeView {
                    center: v.center,
                    size: v.size,
                    state: StateView::Internal {
                        children: fresh_children(v.center, v.size).update(
                            k,
                            descend_fresh(
                                octant_center(v.center, v.size, k),
                                (v.size / 2) as i64,
                                i,
                                p,
                            ),
                        ),
                    },
                }
            },
            StateView::Internal { children } => {
                let k = child_index_of(v.center, p);
                if children.len() == 8 {
                    TreeView {
                        center: v.center,
                        size: v.size,
                        state: StateView::Internal {
                            children: children.update(k, insert_model(children[k], i, p)),
                        },
                    }
                } else {
                    // only reachable on trees that `wf` rules out
                    v
                }
            },
        }
    }
}

/// Insertion never moves or resizes a region.
pub proof fn lemma_insert_model_keeps_frame(v: TreeView, i: usize, p: Vec3)
    ensures
        insert_model(v, i, p).center == v.center,
        insert_model(v, i, p).size == v.size,
{
}

/// Inserting into an empty leaf builds exactly the `descend_fresh` subtree.
pub proof fn lemma_insert_empty_leaf(c: Vec3, s: i64, i: usize, p: Vec3)
    ensures
        insert_model(empty_leaf(c, s), i, p) == descend_fresh(c, s, i, p),
{
    if s <= LEAF_SIZE {
        assert(Seq::<usize>::empty().push(i) =~= seq![i]);
    }
}

/// An octant of a bounded cube is again a bounded cube.
pub proof fn lemma_octant_cube_bounded(c: Vec3, s: i64, k: int)
    requires
        0 < s,
        cube_bounded(c, s),
    ensures
        cube_bounded(octant_center(c, s, k), (s / 2) as i64),
        octant_center(c, s, k).x == if k % 2 == 1 {
            c.x + s / 4
        } else {
            c.x - s / 4
        },
        octant_center(c, s, k).y == if k / 2 % 2 == 1 {
            c.y + s / 4
        } else {
            c.y - s / 4
        },
        octant_center(c, s, k).z == if k / 4 % 2 == 1 {
            c.z + s / 4
        } else {
            c.z - s / 4
        },
{
    lemma_quarters(s as int);
}

/// Division facts used when a cube of edge `s` splits into octants of edge
/// `s / 2` offset by `s / 4`.
pub proof fn lemma_quarters(s: int)
    requires
        0 <= s,
    ensures
        0 <= s / 4,
        0 <= s / 2,
        (s / 2) / 2 == s / 4,
        2 * (s / 4) <= s / 2,
        s / 4 + (s / 2) / 2 <= s / 2,
        s / 2 <= s,
{
    vstd::arithmetic::div_mod::lemma_div_denominator(s, 2, 2);
    assert(0 <= s / 4 && 0 <= s / 2 && 2 * (s / 4) <= s / 2 && s / 2 <= s) by {
        vstd::arithmetic::div_mod::lemma_fundamental_div_mod(s, 2);
        vstd::arithmetic::div_mod::lemma_fundamental_div_mod(s, 4);
        vstd::arithmetic::div_mod::lemma_fundamental_div_mod(s / 2, 2);
    }
}

/// Exact test of `in_sphere` on machine integers, squaring in `i128`.
fn within_distance(px: i64, py: i64, pz: i64, q: &Vec3, r: i64) -> (b: bool)
    requires
        -COORD_LIMIT <= px <= COORD_LIMIT,
        -COORD_LIMIT <= py <= COORD_LIMIT,
        -COORD_LIMIT <= pz <= COORD_LIMIT,
        q.bounded(),
        0 <= r <= COORD_LIMIT,
    ensures
        b == in_sphere(*q, r, (Vec3 { x: px, y: py, z: pz })),
{
    let dx = (px - q.x) as i128;
    let dy = (py - q.y) as i128;
    let dz = (pz - q.z) as i128;
    proof {
        lemma_square_bound(dx as int);
        lemma_square_bound(dy as int);
        lemma_square_bound(dz as int);
        lemma_square_bound(r as int);
    }
    dx * dx + dy * dy + dz * dz <= (r as i128) * (r as i128)
}

/// Appends one vertex: three position scalars, then the fixed mid-gray
/// color.
fn push_vertex(out: &mut Vec<i64>, x: i64, y: i64, z: i64)
    ensures
        final(out)@ == old(out)@ + vertex_scalars(x, y, z),
{
    out.push(x);
    out.push(y);
    out.push(z);
    out.push(GRAY);
    out.push(GRAY);
    out.push(GRAY);
    proof {
        assert(out@ =~= old(out)@ + vertex_scalars(x, y, z));
    }
}

/// Appends one triangulated face: six vertices, two triangles.
fn push_face(
    out: &mut Vec<i64>,
    a: (i64, i64, i64),
    b: (i64, i64, i64),
    c: (i64, i64, i64),
    d: (i64, i64, i64),
    e: (i64, i64, i64),
    f: (i64, i64, i64),
)
    ensures
        final(out)@ == old(out)@ + face_scalars(a, b, c, d, e, f),
{
    push_vertex(out, a.0, a.1, a.2);
    push_vertex(out, b.0, b.1, b.2);
    push_vertex(out, c.0, c.1, c.2);
    push_vertex(out, d.0, d.1, d.2);
    push_vertex(out, e.0, e.1, e.2);
    push_vertex(out, f.0, f.1, f.2);
    proof {
        assert(out@ =~= old(out)@ + face_scalars(a, b, c, d, e, f));
    }
}

impl Octree {
    /// A fresh index covering the cube `(center, size)`: a single empty
    /// leaf.  The caller guarantees a positive edge length; the bound on the
    /// covering cube keeps all later arithmetic within machine range.
    pub fn new(center: Vec3, size: i64) -> (t: Octree)
        requires
            0 < size,
            cube_bounded(center, size),
        ensures
            t@ == empty_leaf(center, size),
            wf(t@),
    {
        Octree { center, size, state: NodeState::Leaf { point_indices: Vec::new() } }
    }

    /// One-time, irreversible transition of an oversized leaf into an
    /// internal region owning eight empty octant leaves.
    fn subdivide(&mut self)
        requires
            wf(old(self)@),
            old(self).state is Leaf,
            old(self).size > LEAF_SIZE,
        ensures
            final(self)@ == (TreeView {
                center: old(self).center,
                size: old(self).size,
                state: StateView::Internal {
                    children: fresh_children(old(self).center, old(self).size),
                },
            }),
            wf(final(self)@),
    {
        let c = self.center;
        let s = self.size;
        proof {
            lemma_quarters(s as int);
        }
        let q = s / 4;
        let h = s / 2;
        let mut children: Vec<Octree> = Vec::new();
        children.push(Octree {
            center: Vec3 { x: c.x - q, y: c.y - q, z: c.z - q },
            size: h,
            state: NodeState::Leaf { point_indices: Vec::new() },
        });
        children.push(Octree {
            center: Vec3 { x: c.x + q, y: c.y - q, z: c.z - q },
            size: h,
            state: NodeState::Leaf { point_indices: Vec::new() },
        });
        children.push(Octree {
            center: Vec3 { x: c.x - q, y: c.y + q, z: c.z - q },
            size: h,
            state: NodeState::Leaf { point_indices: Vec::new() },
        });
        children.push(Octree {
            center: Vec3 { x: c.x + q, y: c.y + q, z: c.z - q },
            size: h,
            state: NodeState::Leaf { point_indices: Vec::new() },
        });
        children.push(Octree {
            center: Vec3 { x: c.x - q, y: c.y - q, z: c.z + q },
            size: h,
            state: NodeState::Leaf { point_indices: Vec::new() },
        });
        children.push(Octree {
            center: Vec3 { x: c.x + q, y: c.y - q, z: c.z + q },
            size: h,
            state: NodeState::Leaf { point_indices: Vec::new() },
        });
        children.push(Octree {
            center: Vec3 { x: c.x - q, y: c.y + q, z: c.z + q },
            size: h,
            state: NodeState::Leaf { point_indices: Vec::new() },
        });
        children.push(Octree {
            center: Vec3 { x: c.x + q, y: c.y + q, z: c.z + q },
            size: h,
            state: NodeState::Leaf { point_indices: Vec::new() },
        });
        proof {
            lemma_views_of(children@);
            assert forall|k: int| 0 <= k < 8 implies views_of(children@)[k] == fresh_children(
                c,
                s,
            )[k] by {
                lemma_octant_cube_bounded(c, s, k);
                assert(children@[k].view() == views_of(children@)[k]);
                assert(children@[k]@.state->points =~= Seq::<usize>::empty());
                assert(views_of(children@)[k] =~~= fresh_children(c, s)[k]);
            }
            assert(views_of(children@) =~= fresh_children(c, s));
            assert forall|k: int| 0 <= k < 8 implies {
                let fc = #[trigger] fresh_children(c, s)[k];
                child_shape(
                    TreeView {
                        center: c,
                        size: s,
                        state: StateView::Internal { children: fresh_children(c, s) },
                    },
                    fc,
                    k,
                ) && wf(fc)
            } by {
                lemma_octant_cube_bounded(c, s, k);
            }
        }
        self.state = NodeState::Internal { children };
    }

    /// Files `point_index` into the leaf region that holds `position`:
    /// a region at or below `LEAF_SIZE` stores the index directly; a larger
    /// region subdivides on first use and routes the pair into the octant
    /// of `position`.  Indices are stored as given: nothing deduplicates.
    pub fn insert(&mut self, point_index: usize, position: Vec3)
        requires
            wf(old(self)@),
        ensures
            final(self)@ == insert_model(old(self)@, point_index, position),
            wf(final(self)@),
        decreases old(self).size,
    {
        if self.size <= LEAF_SIZE {
            match &mut self.state {
                NodeState::Leaf { point_indices } => {
                    point_indices.push(point_index);
                },
                NodeState::Internal { .. } => {
                    proof {
                        assert(false);
                    }
                },
            }
            return ;
        }
        if matches!(&self.state, NodeState::Leaf { .. }) {
            self.subdivide();
        }
        let ghost pre = self@;
        let k = self.get_child_index(&position);
        match &mut self.state {
            NodeState::Internal { children } => {
                proof {
                    lemma_views_of(children@);
                }
                let ghost cpre = children@;
                children[k].insert(point_index, position);
                proof {
                    lemma_views_of_update(cpre, k as int, children@[k as int]);
                }
            },
            NodeState::Leaf { .. } => {
                proof {
                    assert(false);
                }
            },
        }
        proof {
            let kk = child_index_of(pre.center, position);
            lemma_insert_model_keeps_frame(pre.state->children[kk], point_index, position);
            assert(self@.state->children =~= pre.state->children.update(
                kk,
                insert_model(pre.state->children[kk], point_index, position),
            ));
            assert(wf(self@)) by {
                assert forall|j: int| 0 <= j < 8 implies {
                    let cj = #[trigger] self@.state->children[j];
                    child_shape(self@, cj, j) && wf(cj)
                } by {
                    if j != kk {
                        assert(self@.state->children[j] == pre.state->children[j]);
                    }
                }
            }
            if old(self)@.state is Leaf {
                lemma_insert_empty_leaf(
                    octant_center(old(self).center, old(self).size, kk),
                    (old(self).size / 2) as i64,
                    point_index,
                    position,
                );
                assert(pre.state->children[kk] == empty_leaf(
                    octant_center(old(self).center, old(self).size, kk),
                    (old(self).size / 2) as i64,
                ));
                assert(self@ =~~= insert_model(old(self)@, point_index, position));
            } else {
                assert(pre == old(self)@);
                assert(self@ =~~= insert_model(old(self)@, point_index, position));
            }
        }
    }

    /// Total number of regions in this hierarchy, leaf and internal alike.
    /// A leaf counts one; an internal region counts itself plus all eight
    /// children, recursively.
    pub fn get_num_cubes(&self) -> (n: usize)
        requires
            wf(self@),
            count(self@) <= usize::MAX,
        ensures
            n == count(self@),
        decreases self.size,
    {
        match &self.state {
            NodeState::Leaf { .. } => 1,
            NodeState::Internal { children } => {
                proof {
                    lemma_views_of(children@);
                }
                let ghost cs = views_of(children@);
                let mut total: usize = 1;
                let mut j: usize = 0;
                while j < children.len()
                    invariant
                        wf(self@),
                        count(self@) <= usize::MAX,
                        self@.state matches StateView::Internal { children: cv } && cv == cs,
                        cs == views_of(children@),
                        children@.len() == 8,
                        0 <= j <= 8,
                        total == 1 + count_forest(cs.take(j as int)),
                    decreases 8 - j,
                {
                    proof {
                        lemma_views_of(children@);
                        lemma_count_forest_take_step(cs, j as int);
                        lemma_count_forest_prefix(cs, j + 1);
                    }
                    let c = children[j].get_num_cubes();
                    total += c;
                    j += 1;
                }
                proof {
                    assert(cs.take(8) =~= cs);
                }
                total
            },
        }
    }

    /// Appends the triangulated cubes of every leaf region to `vertices`,
    /// leaves visited in child order.  Internal regions emit nothing of
    /// their own.  The output is a pure function of the hierarchy's shape.
    pub fn get_vertices(&self, vertices: &mut Vec<i64>)
        requires
            wf(self@),
        ensures
            final(vertices)@ == old(vertices)@ + emission(self@),
        decreases self.size,
    {
        match &self.state {
            NodeState::Leaf { .. } => {
                self.generate_cube_vertices(vertices);
            },
            NodeState::Internal { children } => {
                proof {
                    lemma_views_of(children@);
                }
                let ghost cs = views_of(children@);
                let mut j: usize = 0;
                proof {
                    assert(vertices@ =~= old(vertices)@ + emission_forest(cs.take(0)));
                }
                while j < children.len()
                    invariant
                        wf(self@),
                        self@.state matches StateView::Internal { children: cv } && cv == cs,
                        cs == views_of(children@),
                        children@.len() == 8,
                        0 <= j <= 8,
                        vertices@ == old(vertices)@ + emission_forest(cs.take(j as int)),
                    decreases 8 - j,
                {
                    proof {
                        lemma_views_of(children@);
                        lemma_emission_forest_take_step(cs, j as int);
                    }
                    children[j].get_vertices(vertices);
                    j += 1;
                }
                proof {
                    assert(cs.take(8) =~= cs);
                }
            },
        }
    }

    /// Appends the 36 vertices describing this region's covering cube.
    fn generate_cube_vertices(&self, vertices: &mut Vec<i64>)
        requires
            0 < self.size,
            cube_bounded(self.center, self.size),
        ensures
            final(vertices)@ == old(vertices)@ + cube_scalars(self.center, self.size),
    {
        let h = self.size / 2;
        let nx = self.center.x - h;
        let px = self.center.x + h;
        let ny = self.center.y - h;
        let py = self.center.y + h;
        let nz = self.center.z - h;
        let pz = self.center.z + h;

        // Front face (+z), counterclockwise from outside
        push_face(vertices, (nx, ny, pz), (px, ny, pz), (px, py, pz), (nx, ny, pz), (px, py, pz), (nx, py, pz));
        // Back face (-z)
        push_face(vertices, (px, ny, nz), (nx, ny, nz), (nx, py, nz), (px, ny, nz), (nx, py, nz), (px, py, nz));
        // Left face (-x)
        push_face(vertices, (nx, ny, nz), (nx, ny, pz), (nx, py, pz), (nx, ny, nz), (nx, py, pz), (nx, py, nz));
        // Right face (+x)
        push_face(vertices, (px, ny, pz), (px, ny, nz), (px, py, nz), (px, ny, pz), (px, py, nz), (px, py, pz));
        // Top face (+y)
        push_face(vertices, (nx, py, pz), (px, py, pz), (px, py, nz), (nx, py, pz), (px, py, nz), (nx, py, nz));
        // Bottom face (-y)
        push_face(vertices, (nx, ny, nz), (px, ny, nz), (px, ny, pz), (nx, ny, nz), (px, ny, pz), (nx, ny, pz));
        proof {
            assert(vertices@ =~= old(vertices)@ + cube_scalars(self.center, self.size));
        }
    }

    /// Indices of stored points whose positions, read from `vertex_points`
    /// (six scalars per point, position first), lie within `radius` of
    /// `center`, distance measured inclusively.  Subtrees whose covering
    /// cube the sphere cannot reach are pruned wholesale.
    pub fn query_sphere(&self, center: &Vec3, radius: i64, vertex_points: &[i64]) -> (found: Vec<
        usize,
    >)
        requires
            wf(self@),
            center.bounded(),
            0 <= radius <= COORD_LIMIT,
            forall|t: int|
                0 <= t < vertex_points@.len() ==> -COORD_LIMIT <= #[trigger] vertex_points@[t]
                    <= COORD_LIMIT,
            forall|j: int|
                0 <= j < points_of(self@).len() ==> 6 * (#[trigger] points_of(self@)[j] as int) + 3
                    <= vertex_points@.len(),
        ensures
            found@ == query_model(self@, *center, radius, vertex_points@),
        decreases self.size,
    {
        let mut found: Vec<usize> = Vec::new();
        if !self.intersects_sphere(center, radius) {
            proof {
                assert(found@ =~= query_model(self@, *center, radius, vertex_points@));
            }
            return found;
        }
        match &self.state {
            NodeState::Leaf { point_indices } => {
                let ghost pts = point_indices@;
                let mut j: usize = 0;
                proof {
                    assert(points_of(self@) == pts);
                    assert(found@ =~= hits(pts.take(0), *center, radius, vertex_points@));
                }
                while j < point_indices.len()
                    invariant
                        point_indices@ == pts,
                        pts == points_of(self@),
                        0 <= j <= pts.len(),
                        center.bounded(),
                        0 <= radius <= COORD_LIMIT,
                        forall|t: int|
                            0 <= t < vertex_points@.len() ==> -COORD_LIMIT
                                <= #[trigger] vertex_points@[t] <= COORD_LIMIT,
                        forall|jj: int|
                            0 <= jj < pts.len() ==> 6 * (#[trigger] pts[jj] as int) + 3
                                <= vertex_points@.len(),
                        found@ == hits(pts.take(j as int), *center, radius, vertex_points@),
                    decreases pts.len() - j,
                {
                    let idx = point_indices[j];
                    let buf_len = vertex_points.len();
                    proof {
                        assert(6 * (pts[j as int] as int) + 3 <= buf_len);
                    }
                    let offset = idx * 6;
                    let x = vertex_points[offset];
                    let y = vertex_points[offset + 1];
                    let z = vertex_points[offset + 2];
                    proof {
                        lemma_hits_take_step(pts, *center, radius, vertex_points@, j as int);
                        assert(point_at(vertex_points@, idx) == (Vec3 { x, y, z }));
                    }
                    if within_distance(x, y, z, center, radius) {
                        found.push(idx);
                    }
                    j += 1;
                }
                proof {
                    assert(pts.take(pts.len() as int) =~= pts);
                }
            },
            NodeState::Internal { children } => {
                proof {
                    lemma_views_of(children@);
                }
                let ghost cs = views_of(children@);
                let mut j: usize = 0;
                proof {
                    assert(found@ =~= query_forest(cs.take(0), *center, radius, vertex_points@));
                }
                while j < children.len()
                    invariant
                        wf(self@),
                        self@.state matches StateView::Internal { children: cv } && cv == cs,
                        cs == views_of(children@),
                        children@.len() == 8,
                        0 <= j <= 8,
                        center.bounded(),
                        0 <= radius <= COORD_LIMIT,
                        forall|t: int|
                            0 <= t < vertex_points@.len() ==> -COORD_LIMIT
                                <= #[trigger] vertex_points@[t] <= COORD_LIMIT,
                        forall|jj: int|
                            0 <= jj < points_of(self@).len() ==> 6 * (#[trigger] points_of(
                                self@,
                            )[jj] as int) + 3 <= vertex_points@.len(),
                        found@ == query_forest(cs.take(j as int), *center, radius, vertex_points@),
                    decreases 8 - j,
                {
                    proof {
                        lemma_views_of(children@);
                        lemma_query_forest_take_step(
                            cs,
                            *center,
                            radius,
                            vertex_points@,
                            j as int,
                        );
                        lemma_points_forest_split(cs, j as int);
                        let pre = points_forest(cs.take(j as int));
                        assert forall|t: int| 0 <= t < points_of(cs[j as int]).len() implies 6 * (
                        #[trigger] points_of(cs[j as int])[t] as int) + 3
                            <= vertex_points@.len() by {
                            assert(points_of(self@)[pre.len() + t] == points_of(cs[j as int])[t]);
                        }
                    }
                    let mut sub = children[j].query_sphere(center, radius, vertex_points);
                    found.append(&mut sub);
                    j += 1;
                }
                proof {
                    assert(cs.take(8) =~= cs);
                }
            },
        }
        found
    }

    /// The sphere `(center, radius)` reaches this region's covering cube:
    /// the per-axis clamp of `center` into the cube lies within `radius` of
    /// `center`.
    fn intersects_sphere(&self, center: &Vec3, radius: i64) -> (b: bool)
        requires
            0 < self.size,
            cube_bounded(self.center, self.size),
            center.bounded(),
            0 <= radius <= COORD_LIMIT,
        ensures
            b == cube_touches_sphere(self.center, self.size, *center, radius),
    {
        let half = self.size / 2;
        let lox = self.center.x - half;
        let hix = self.center.x + half;
        let loy = self.center.y - half;
        let hiy = self.center.y + half;
        let loz = self.center.z - half;
        let hiz = self.center.z + half;
        let cx = clamp_i64(center.x, lox, hix);
        let cy = clamp_i64(center.y, loy, hiy);
        let cz = clamp_i64(center.z, loz, hiz);
        let dx = (cx - center.x) as i128;
        let dy = (cy - center.y) as i128;
        let dz = (cz - center.z) as i128;
        proof {
            lemma_square_bound(dx as int);
            lemma_square_bound(dy as int);
            lemma_square_bound(dz as int);
            lemma_square_bound(radius as int);
        }
        dx * dx + dy * dy + dz * dz <= (radius as i128) * (radius as i128)
    }

    /// Octant of this region's center that `point` falls in.
    fn get_child_index(&self, point: &Vec3) -> (k: usize)
        ensures
            k == child_index_of(self.center, *point),
            k < 8,
    {
        let mut index: usize = 0;
        if point.x > self.center.x {
            index += 1;
        }
        if point.y > self.center.y {
            index += 2;
        }
        if point.z > self.center.z {
            index += 4;
        }
        index
    }
}

} // verus!
