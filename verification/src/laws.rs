use vstd::prelude::*;

use crate::geom::{
    cube_bounded, cube_touches_sphere, dist_sq, in_cube, in_sphere, lemma_pruned_cube_has_no_hits,
    sphere_covers_cube, Vec3, LEAF_SIZE,
};
use crate::octree::{
    child_index_of, child_shape, count, count_forest, descend_fresh, emission, emission_forest,
    empty_leaf, fresh_children, hits, insert_model, leaf_count, leaf_count_forest,
    lemma_insert_model_keeps_frame, lemma_octant_cube_bounded, lemma_quarters, octant_center,
    point_at, points_forest, points_of, query_forest, query_model, wf, StateView, TreeView,
};
use vstd::arithmetic::div_mod::{
    lemma_div_denominator, lemma_fundamental_div_mod, lemma_fundamental_div_mod_converse_div,
    lemma_fundamental_div_mod_converse_mod, lemma_mod_division_less_than_divisor,
};

verus! {

/// Count recurrence: a leaf region counts one; an internal region counts
/// itself plus the sum of its children's counts.
pub proof fn lemma_count_recurrence(v: TreeView)
    ensures
        v.state is Leaf ==> count(v) == 1,
        v.state matches StateView::Internal { children } ==> count(v) == 1 + count_forest(
            children,
        ),
{
}

/// Emission length: every leaf contributes exactly 36 vertices of 6
/// scalars, so the emitted stream is `36 * 6` scalars per leaf region.
pub proof fn lemma_emission_length(v: TreeView)
    ensures
        emission(v).len() == leaf_count(v) * 36 * 6,
    decreases v,
{
    match v.state {
        StateView::Leaf { .. } => {},
        StateView::Internal { children } => {
            lemma_emission_length_forest(children);
        },
    }
}

/// Emission length, summed over a sequence of subtrees.
pub proof fn lemma_emission_length_forest(s: Seq<TreeView>)
    ensures
        emission_forest(s).len() == leaf_count_forest(s) * 36 * 6,
    decreases s,
{
    if s.len() > 0 {
        lemma_emission_length_forest(s.drop_last());
        lemma_emission_length(s.last());
    }
}

/// For a tree that never subdivided (a single leaf), the emitted length is
/// exactly `count * 36 * 6`.
pub proof fn lemma_emission_length_unsubdivided(v: TreeView)
    requires
        v.state is Leaf,
    ensures
        emission(v).len() == count(v) * 36 * 6,
{
    lemma_emission_length(v);
}

/// A build is the fold of single insertions over an ordered sequence of
/// `(index, position)` pairs, starting from the empty leaf over `(c, s)`.
pub open spec fn build_model(c: Vec3, s: i64, inserts: Seq<(usize, Vec3)>) -> TreeView
    decreases inserts,
{
    if inserts.len() == 0 {
        empty_leaf(c, s)
    } else {
        insert_model(
            build_model(c, s, inserts.drop_last()),
            inserts.last().0,
            inserts.last().1,
        )
    }
}

/// Determinism: identical ordered insert sequences over the same root
/// produce identical trees, and therefore byte-identical emissions.
pub proof fn lemma_build_deterministic(
    c: Vec3,
    s: i64,
    a: Seq<(usize, Vec3)>,
    b: Seq<(usize, Vec3)>,
)
    requires
        a == b,
    ensures
        build_model(c, s, a) == build_model(c, s, b),
        emission(build_model(c, s, a)) == emission(build_model(c, s, b)),
{
}

/// The octant index decomposes into one bit per axis.
proof fn lemma_octant_bits(c: Vec3, p: Vec3)
    ensures
        0 <= child_index_of(c, p) < 8,
        child_index_of(c, p) % 2 == (if p.x > c.x {
            1int
        } else {
            0int
        }),
        child_index_of(c, p) / 2 % 2 == (if p.y > c.y {
            1int
        } else {
            0int
        }),
        child_index_of(c, p) / 4 % 2 == (if p.z > c.z {
            1int
        } else {
            0int
        }),
{
    let a: int = if p.x > c.x {
        1
    } else {
        0
    };
    let b: int = if p.y > c.y {
        1
    } else {
        0
    };
    let d: int = if p.z > c.z {
        1
    } else {
        0
    };
    let k = a + 2 * b + 4 * d;
    assert(child_index_of(c, p) == k);
    lemma_fundamental_div_mod_converse_mod(k, 2, b + 2 * d, a);
    lemma_fundamental_div_mod_converse_div(k, 2, b + 2 * d, a);
    lemma_fundamental_div_mod_converse_mod(b + 2 * d, 2, d, b);
    lemma_fundamental_div_mod_converse_div(k, 4, d, a + 2 * b);
    lemma_fundamental_div_mod_converse_mod(d, 2, 0, d);
}

/// When `s` leaves remainder at most 1 modulo 4, halving is exact: the two
/// quarters of `s` make up one half.
proof fn lemma_even_halves(s: int)
    requires
        0 <= s,
        s % 4 <= 1,
    ensures
        s / 2 == 2 * (s / 4),
        (s / 2) / 2 == s / 4,
{
    lemma_fundamental_div_mod(s, 4);
    lemma_mod_division_less_than_divisor(s, 4);
    lemma_fundamental_div_mod_converse_div(s, 2, 2 * (s / 4), s % 4);
    lemma_div_denominator(s, 2, 2);
}

/// A point of a cube lies inside the octant that `child_index_of` selects
/// for it, provided the edge length splits evenly (remainder at most 1
/// modulo 4).
pub proof fn lemma_routing_containment(c: Vec3, s: i64, p: Vec3)
    requires
        0 < s,
        cube_bounded(c, s),
        (s as int) % 4 <= 1,
        in_cube(c, s, p),
    ensures
        in_cube(octant_center(c, s, child_index_of(c, p)), (s / 2) as i64, p),
{
    let k = child_index_of(c, p);
    lemma_octant_bits(c, p);
    lemma_octant_cube_bounded(c, s, k);
    lemma_even_halves(s as int);
}

/// Edge lengths that keep splitting evenly all the way down to the leaf
/// threshold.
pub open spec fn halvable(s: int) -> bool
    decreases s,
{
    s <= LEAF_SIZE || (s % 4 <= 1 && halvable(s / 2))
}

/// Every point index stored in a leaf has its buffer position inside that
/// leaf's covering cube.
pub open spec fn stored_in_cubes(v: TreeView, buf: Seq<i64>) -> bool
    decreases v,
{
    match v.state {
        StateView::Leaf { points } => forall|j: int|
            0 <= j < points.len() ==> in_cube(v.center, v.size, point_at(buf, #[trigger] points[j])),
        StateView::Internal { children } => forall|k: int|
            0 <= k < children.len() ==> stored_in_cubes(#[trigger] children[k], buf),
    }
}

/// Routing correctness for the subtree grown out of a fresh leaf: the
/// inserted position ends up inside the covering cube of the leaf that
/// stores its index.
proof fn lemma_descend_fresh_stored(c: Vec3, s: i64, i: usize, p: Vec3, buf: Seq<i64>)
    requires
        0 < s,
        cube_bounded(c, s),
        halvable(s as int),
        in_cube(c, s, p),
        point_at(buf, i) == p,
    ensures
        stored_in_cubes(descend_fresh(c, s, i, p), buf),
    decreases s,
{
    if s > LEAF_SIZE {
        let k = child_index_of(c, p);
        lemma_octant_bits(c, p);
        lemma_octant_cube_bounded(c, s, k);
        lemma_routing_containment(c, s, p);
        lemma_descend_fresh_stored(octant_center(c, s, k), (s / 2) as i64, i, p, buf);
        let dv = descend_fresh(c, s, i, p);
        assert forall|kk: int| 0 <= kk < 8 implies stored_in_cubes(
            #[trigger] dv.state->children[kk],
            buf,
        ) by {
            if kk != k {
                assert(dv.state->children[kk] == fresh_children(c, s)[kk]);
                assert(dv.state->children[kk].state->points.len() == 0);
            }
        }
    }
}

/// Routing correctness: one insertion preserves the invariant that every
/// stored index's position lies inside the covering cube of the leaf that
/// stores it, provided the inserted position lies inside the root cube and
/// the root edge length splits evenly down to the threshold.
pub proof fn lemma_insert_routes_into_cubes(v: TreeView, i: usize, p: Vec3, buf: Seq<i64>)
    requires
        wf(v),
        halvable(v.size as int),
        stored_in_cubes(v, buf),
        in_cube(v.center, v.size, p),
        point_at(buf, i) == p,
    ensures
        stored_in_cubes(insert_model(v, i, p), buf),
    decreases v,
{
    let r = insert_model(v, i, p);
    if v.size <= LEAF_SIZE {
        assert(stored_in_cubes(r, buf));
    } else {
        let k = child_index_of(v.center, p);
        lemma_octant_bits(v.center, p);
        match v.state {
            StateView::Leaf { .. } => {
                lemma_octant_cube_bounded(v.center, v.size, k);
                lemma_routing_containment(v.center, v.size, p);
                lemma_descend_fresh_stored(
                    octant_center(v.center, v.size, k),
                    (v.size / 2) as i64,
                    i,
                    p,
                    buf,
                );
                assert forall|kk: int| 0 <= kk < 8 implies stored_in_cubes(
                    #[trigger] r.state->children[kk],
                    buf,
                ) by {
                    if kk != k {
                        assert(r.state->children[kk] == fresh_children(v.center, v.size)[kk]);
                    }
                }
            },
            StateView::Internal { children } => {
                lemma_routing_containment(v.center, v.size, p);
                assert(child_shape(v, children[k], k));
                lemma_insert_routes_into_cubes(children[k], i, p, buf);
                assert forall|kk: int| 0 <= kk < 8 implies stored_in_cubes(
                    #[trigger] r.state->children[kk],
                    buf,
                ) by {
                    if kk != k {
                        assert(r.state->children[kk] == children[kk]);
                    }
                }
            },
        }
    }
}

/// A forest of regions that store nothing contributes no indices.
proof fn lemma_points_forest_all_empty(s: Seq<TreeView>)
    requires
        forall|k: int| 0 <= k < s.len() ==> points_of(#[trigger] s[k]) == Seq::<usize>::empty(),
    ensures
        points_forest(s) == Seq::<usize>::empty(),
    decreases s,
{
    if s.len() > 0 {
        assert forall|k: int| 0 <= k < s.drop_last().len() implies points_of(
            #[trigger] s.drop_last()[k],
        ) == Seq::<usize>::empty() by {
            assert(s.drop_last()[k] == s[k]);
        }
        lemma_points_forest_all_empty(s.drop_last());
        assert(s[s.len() - 1] == s.last());
        assert(points_forest(s) =~= Seq::<usize>::empty());
    }
}

/// A subtree grown out of a fresh leaf stores exactly the one inserted
/// index.
proof fn lemma_descend_fresh_points(c: Vec3, s: i64, i: usize, p: Vec3)
    ensures
        points_of(descend_fresh(c, s, i, p)) == seq![i],
    decreases s,
{
    if s > LEAF_SIZE {
        let k = child_index_of(c, p);
        lemma_octant_bits(c, p);
        lemma_descend_fresh_points(octant_center(c, s, k), (s / 2) as i64, i, p);
        let sub = descend_fresh(octant_center(c, s, k), (s / 2) as i64, i, p);
        let ch = fresh_children(c, s).update(k, sub);
        crate::octree::lemma_points_forest_split(ch, k);
        assert forall|j: int| 0 <= j < ch.take(k).len() implies points_of(
            #[trigger] ch.take(k)[j],
        ) == Seq::<usize>::empty() by {
            assert(ch.take(k)[j] == fresh_children(c, s)[j]);
        }
        lemma_points_forest_all_empty(ch.take(k));
        assert forall|j: int| 0 <= j < ch.skip(k + 1).len() implies points_of(
            #[trigger] ch.skip(k + 1)[j],
        ) == Seq::<usize>::empty() by {
            assert(ch.skip(k + 1)[j] == fresh_children(c, s)[j + k + 1]);
        }
        lemma_points_forest_all_empty(ch.skip(k + 1));
        assert(points_of(descend_fresh(c, s, i, p)) =~= seq![i]);
    }
}

/// Each insertion stores exactly one new copy of the inserted index and
/// leaves every other stored index untouched: the stored indices of the
/// new tree, as a multiset, are the old ones plus `i`.
pub proof fn lemma_insert_adds_index(v: TreeView, i: usize, p: Vec3)
    requires
        wf(v),
    ensures
        points_of(insert_model(v, i, p)).to_multiset() == points_of(v).to_multiset().insert(i),
    decreases v,
{
    broadcast use vstd::seq_lib::group_to_multiset_ensures;

    let r = insert_model(v, i, p);
    if v.size <= LEAF_SIZE {
        assert(points_of(r) == points_of(v).push(i));
    } else {
        let k = child_index_of(v.center, p);
        lemma_octant_bits(v.center, p);
        match v.state {
            StateView::Leaf { points } => {
                assert(r == descend_fresh(v.center, v.size, i, p));
                lemma_descend_fresh_points(v.center, v.size, i, p);
                assert(points.len() == 0);
                assert(points =~= Seq::<usize>::empty());
                assert(seq![i] =~= Seq::<usize>::empty().push(i));
                assert(points_of(r).to_multiset() =~= points_of(v).to_multiset().insert(i));
            },
            StateView::Internal { children } => {
                let rc = insert_model(children[k], i, p);
                let ch = children.update(k, rc);
                lemma_insert_adds_index(children[k], i, p);
                crate::octree::lemma_points_forest_split(ch, k);
                crate::octree::lemma_points_forest_split(children, k);
                assert(ch.take(k) =~= children.take(k));
                assert(ch.skip(k + 1) =~= children.skip(k + 1));
                let a = points_forest(children.take(k));
                let b = points_of(children[k]);
                let c = points_forest(children.skip(k + 1));
                let b1 = points_of(rc);
                vstd::seq_lib::lemma_multiset_commutative(a + b, c);
                vstd::seq_lib::lemma_multiset_commutative(a, b);
                vstd::seq_lib::lemma_multiset_commutative(a + b1, c);
                vstd::seq_lib::lemma_multiset_commutative(a, b1);
                assert(points_of(r).to_multiset() =~= points_of(v).to_multiset().insert(i));
            },
        }
    }
}

/// The subtree grown out of a fresh leaf is well formed and keeps the
/// leaf's frame.
proof fn lemma_descend_fresh_wf(c: Vec3, s: i64, i: usize, p: Vec3)
    requires
        0 < s,
        cube_bounded(c, s),
    ensures
        wf(descend_fresh(c, s, i, p)),
        descend_fresh(c, s, i, p).center == c,
        descend_fresh(c, s, i, p).size == s,
    decreases s,
{
    if s > LEAF_SIZE {
        let k = child_index_of(c, p);
        lemma_octant_bits(c, p);
        lemma_octant_cube_bounded(c, s, k);
        lemma_quarters(s as int);
        lemma_descend_fresh_wf(octant_center(c, s, k), (s / 2) as i64, i, p);
        let dv = descend_fresh(c, s, i, p);
        assert forall|kk: int| 0 <= kk < 8 implies {
            let ck = #[trigger] dv.state->children[kk];
            child_shape(dv, ck, kk) && wf(ck)
        } by {
            lemma_octant_cube_bounded(c, s, kk);
            if kk != k {
                assert(dv.state->children[kk] == fresh_children(c, s)[kk]);
            }
        }
    }
}

/// One insertion keeps a tree well formed and keeps its frame.
pub proof fn lemma_insert_model_wf(v: TreeView, i: usize, p: Vec3)
    requires
        wf(v),
    ensures
        wf(insert_model(v, i, p)),
    decreases v,
{
    let r = insert_model(v, i, p);
    if v.size > LEAF_SIZE {
        let k = child_index_of(v.center, p);
        lemma_octant_bits(v.center, p);
        match v.state {
            StateView::Leaf { .. } => {
                lemma_descend_fresh_wf(v.center, v.size, i, p);
                assert(r == descend_fresh(v.center, v.size, i, p));
            },
            StateView::Internal { children } => {
                lemma_insert_model_wf(children[k], i, p);
                lemma_insert_model_keeps_frame(children[k], i, p);
                assert forall|kk: int| 0 <= kk < 8 implies {
                    let ck = #[trigger] r.state->children[kk];
                    child_shape(r, ck, kk) && wf(ck)
                } by {
                    if kk != k {
                        assert(r.state->children[kk] == children[kk]);
                    }
                    assert(child_shape(v, children[kk], kk));
                }
            },
        }
    }
}

/// The indices of an ordered insert sequence, in order.
pub open spec fn indices_of(inserts: Seq<(usize, Vec3)>) -> Seq<usize>
    decreases inserts,
{
    if inserts.len() == 0 {
        Seq::empty()
    } else {
        indices_of(inserts.drop_last()).push(inserts.last().0)
    }
}

/// A finished build is well formed and stores each inserted index exactly
/// as often as it was inserted — no omissions, no extra copies.
pub proof fn lemma_build_stores_each_insert_once(c: Vec3, s: i64, inserts: Seq<(usize, Vec3)>)
    requires
        0 < s,
        cube_bounded(c, s),
    ensures
        wf(build_model(c, s, inserts)),
        points_of(build_model(c, s, inserts)).to_multiset() == indices_of(inserts).to_multiset(),
    decreases inserts,
{
    broadcast use vstd::seq_lib::group_to_multiset_ensures;

    if inserts.len() == 0 {
        assert(points_of(build_model(c, s, inserts)) =~= indices_of(inserts));
    } else {
        lemma_build_stores_each_insert_once(c, s, inserts.drop_last());
        let t = build_model(c, s, inserts.drop_last());
        lemma_insert_model_wf(t, inserts.last().0, inserts.last().1);
        lemma_insert_adds_index(t, inserts.last().0, inserts.last().1);
        assert(points_of(build_model(c, s, inserts)).to_multiset() =~= indices_of(
            inserts,
        ).to_multiset());
    }
}

/// A point of an octant's cube lies in the parent cube as well.
proof fn lemma_octant_cube_nested(c: Vec3, s: i64, k: int, p: Vec3)
    requires
        0 < s,
        cube_bounded(c, s),
        in_cube(octant_center(c, s, k), (s / 2) as i64, p),
    ensures
        in_cube(c, s, p),
{
    lemma_octant_cube_bounded(c, s, k);
    lemma_quarters(s as int);
}

/// In a well-formed tree, every stored index's position lies inside the
/// cube of the node whose subtree stores it, at every level.
proof fn lemma_stored_in_node_cube(v: TreeView, buf: Seq<i64>)
    requires
        wf(v),
        stored_in_cubes(v, buf),
    ensures
        forall|j: int|
            0 <= j < points_of(v).len() ==> in_cube(
                v.center,
                v.size,
                point_at(buf, #[trigger] points_of(v)[j]),
            ),
    decreases v,
{
    match v.state {
        StateView::Leaf { points } => {
            assert(points_of(v) == points);
        },
        StateView::Internal { children } => {
            assert forall|k: int, p: Vec3|
                0 <= k < children.len() && #[trigger] in_cube(
                    children[k].center,
                    children[k].size,
                    p,
                ) implies in_cube(v.center, v.size, p) by {
                assert(child_shape(v, children[k], k));
                lemma_octant_cube_nested(v.center, v.size, k, p);
            }
            lemma_stored_forest_in_cube(children, buf, v.center, v.size);
            assert(points_of(v) == points_forest(children));
        },
    }
}

/// Forest version of `lemma_stored_in_node_cube`: if each member's cube
/// lies inside `(c, sz)`, all stored positions do too.
proof fn lemma_stored_forest_in_cube(s: Seq<TreeView>, buf: Seq<i64>, c: Vec3, sz: i64)
    requires
        forall|k: int| 0 <= k < s.len() ==> wf(#[trigger] s[k]) && stored_in_cubes(s[k], buf),
        forall|k: int, p: Vec3|
            0 <= k < s.len() && #[trigger] in_cube(s[k].center, s[k].size, p) ==> in_cube(
                c,
                sz,
                p,
            ),
    ensures
        forall|j: int|
            0 <= j < points_forest(s).len() ==> in_cube(
                c,
                sz,
                point_at(buf, #[trigger] points_forest(s)[j]),
            ),
    decreases s,
{
    if s.len() > 0 {
        assert forall|k: int| 0 <= k < s.drop_last().len() implies wf(#[trigger] s.drop_last()[k])
            && stored_in_cubes(s.drop_last()[k], buf) by {
            assert(s.drop_last()[k] == s[k]);
        }
        assert forall|k: int, p: Vec3|
            0 <= k < s.drop_last().len() && #[trigger] in_cube(
                s.drop_last()[k].center,
                s.drop_last()[k].size,
                p,
            ) implies in_cube(c, sz, p) by {
            assert(s.drop_last()[k] == s[k]);
            assert(in_cube(s[k].center, s[k].size, p));
        }
        lemma_stored_forest_in_cube(s.drop_last(), buf, c, sz);
        assert(s[s.len() - 1] == s.last());
        lemma_stored_in_node_cube(s.last(), buf);
        let dl = points_forest(s.drop_last());
        assert forall|j: int| 0 <= j < points_forest(s).len() implies in_cube(
            c,
            sz,
            point_at(buf, #[trigger] points_forest(s)[j]),
        ) by {
            if j < dl.len() {
                assert(points_forest(s)[j] == dl[j]);
            } else {
                assert(points_forest(s)[j] == points_of(s.last())[j - dl.len()]);
                assert(in_cube(
                    s.last().center,
                    s.last().size,
                    point_at(buf, points_of(s.last())[j - dl.len()]),
                ));
            }
        }
    }
}

/// `hits` distributes over concatenation.
proof fn lemma_hits_append(a: Seq<usize>, b: Seq<usize>, qc: Vec3, r: i64, buf: Seq<i64>)
    ensures
        hits(a + b, qc, r, buf) == hits(a, qc, r, buf) + hits(b, qc, r, buf),
    decreases b.len(),
{
    if b.len() == 0 {
        assert(a + b =~= a);
        assert(hits(a, qc, r, buf) + hits(b, qc, r, buf) =~= hits(a, qc, r, buf));
    } else {
        lemma_hits_append(a, b.drop_last(), qc, r, buf);
        assert((a + b).drop_last() =~= a + b.drop_last());
        assert((a + b).last() == b.last());
        assert(hits(a + b, qc, r, buf) =~= hits(a, qc, r, buf) + hits(b, qc, r, buf));
    }
}

/// A list of indices none of whose positions lie in the sphere hits
/// nothing.
proof fn lemma_hits_none(pts: Seq<usize>, qc: Vec3, r: i64, buf: Seq<i64>)
    requires
        forall|j: int|
            0 <= j < pts.len() ==> !in_sphere(qc, r, point_at(buf, #[trigger] pts[j])),
    ensures
        hits(pts, qc, r, buf) == Seq::<usize>::empty(),
    decreases pts.len(),
{
    if pts.len() > 0 {
        assert forall|j: int| 0 <= j < pts.drop_last().len() implies !in_sphere(
            qc,
            r,
            point_at(buf, #[trigger] pts.drop_last()[j]),
        ) by {
            assert(pts.drop_last()[j] == pts[j]);
        }
        lemma_hits_none(pts.drop_last(), qc, r, buf);
        assert(pts[pts.len() - 1] == pts.last());
        assert(hits(pts, qc, r, buf) =~= Seq::<usize>::empty());
    }
}

/// A list of indices all of whose positions lie in the sphere is returned
/// whole.
proof fn lemma_hits_all(pts: Seq<usize>, qc: Vec3, r: i64, buf: Seq<i64>)
    requires
        forall|j: int| 0 <= j < pts.len() ==> in_sphere(qc, r, point_at(buf, #[trigger] pts[j])),
    ensures
        hits(pts, qc, r, buf) == pts,
    decreases pts.len(),
{
    if pts.len() > 0 {
        assert forall|j: int| 0 <= j < pts.drop_last().len() implies in_sphere(
            qc,
            r,
            point_at(buf, #[trigger] pts.drop_last()[j]),
        ) by {
            assert(pts.drop_last()[j] == pts[j]);
        }
        lemma_hits_all(pts.drop_last(), qc, r, buf);
        assert(pts[pts.len() - 1] == pts.last());
        assert(hits(pts, qc, r, buf) =~= pts);
    } else {
        assert(hits(pts, qc, r, buf) =~= pts);
    }
}

/// An index whose position lies in the sphere is among the hits.
proof fn lemma_hits_contains(pts: Seq<usize>, qc: Vec3, r: i64, buf: Seq<i64>, j: int)
    requires
        0 <= j < pts.len(),
        in_sphere(qc, r, point_at(buf, pts[j])),
    ensures
        hits(pts, qc, r, buf).contains(pts[j]),
    decreases pts.len(),
{
    let h = hits(pts, qc, r, buf);
    let hd = hits(pts.drop_last(), qc, r, buf);
    if j == pts.len() - 1 {
        assert(pts.last() == pts[j]);
        assert(h[hd.len() as int] == pts[j]);
    } else {
        lemma_hits_contains(pts.drop_last(), qc, r, buf, j);
        assert(pts.drop_last()[j] == pts[j]);
        let w = choose|w: int| 0 <= w < hd.len() && hd[w] == pts[j];
        assert(h[w] == pts[j]);
    }
}

/// The heart of query correctness: on a well-formed tree whose stored
/// positions respect the leaf cubes, a sphere query returns exactly the
/// stored indices whose positions lie in the sphere, in storage order.
/// Pruning never loses a qualifying index.
pub proof fn lemma_query_is_filter(v: TreeView, qc: Vec3, r: i64, buf: Seq<i64>)
    requires
        wf(v),
        stored_in_cubes(v, buf),
    ensures
        query_model(v, qc, r, buf) == hits(points_of(v), qc, r, buf),
    decreases v,
{
    if !cube_touches_sphere(v.center, v.size, qc, r) {
        lemma_stored_in_node_cube(v, buf);
        assert forall|j: int| 0 <= j < points_of(v).len() implies !in_sphere(
            qc,
            r,
            point_at(buf, #[trigger] points_of(v)[j]),
        ) by {
            lemma_pruned_cube_has_no_hits(v.center, v.size, qc, r, point_at(buf, points_of(v)[j]));
        }
        lemma_hits_none(points_of(v), qc, r, buf);
    } else {
        match v.state {
            StateView::Leaf { .. } => {},
            StateView::Internal { children } => {
                lemma_query_forest_is_filter(children, qc, r, buf);
            },
        }
    }
}

/// Forest version of `lemma_query_is_filter`.
proof fn lemma_query_forest_is_filter(s: Seq<TreeView>, qc: Vec3, r: i64, buf: Seq<i64>)
    requires
        forall|k: int| 0 <= k < s.len() ==> wf(#[trigger] s[k]) && stored_in_cubes(s[k], buf),
    ensures
        query_forest(s, qc, r, buf) == hits(points_forest(s), qc, r, buf),
    decreases s,
{
    if s.len() > 0 {
        assert forall|k: int| 0 <= k < s.drop_last().len() implies wf(#[trigger] s.drop_last()[k])
            && stored_in_cubes(s.drop_last()[k], buf) by {
            assert(s.drop_last()[k] == s[k]);
        }
        lemma_query_forest_is_filter(s.drop_last(), qc, r, buf);
        assert(s[s.len() - 1] == s.last());
        lemma_query_is_filter(s.last(), qc, r, buf);
        lemma_hits_append(points_forest(s.drop_last()), points_of(s.last()), qc, r, buf);
    }
}

/// Sphere query completeness: a sphere that covers the whole root cube
/// brings back every stored index, in storage order, nothing else and
/// nothing twice beyond what was stored.
pub proof fn lemma_query_complete(v: TreeView, qc: Vec3, r: i64, buf: Seq<i64>)
    requires
        wf(v),
        stored_in_cubes(v, buf),
        sphere_covers_cube(qc, r, v.center, v.size),
    ensures
        query_model(v, qc, r, buf) == points_of(v),
{
    lemma_query_is_filter(v, qc, r, buf);
    lemma_stored_in_node_cube(v, buf);
    assert forall|j: int| 0 <= j < points_of(v).len() implies in_sphere(
        qc,
        r,
        point_at(buf, #[trigger] points_of(v)[j]),
    ) by {
        assert(in_cube(v.center, v.size, point_at(buf, points_of(v)[j])));
    }
    lemma_hits_all(points_of(v), qc, r, buf);
}

/// Sphere query exactness: a query centered exactly on a stored point's
/// position returns that point's index even at radius zero, the boundary
/// being inclusive.
pub proof fn lemma_query_finds_stored_point(
    v: TreeView,
    qc: Vec3,
    r: i64,
    buf: Seq<i64>,
    j: int,
)
    requires
        wf(v),
        stored_in_cubes(v, buf),
        0 <= j < points_of(v).len(),
        point_at(buf, points_of(v)[j]) == qc,
        r >= 0,
    ensures
        query_model(v, qc, r, buf).contains(points_of(v)[j]),
{
    lemma_query_is_filter(v, qc, r, buf);
    assert(dist_sq(qc, qc) == 0);
    assert(r * r >= 0) by (nonlinear_arith)
        requires
            r >= 0,
    ;
    lemma_hits_contains(points_of(v), qc, r, buf, j);
}

} // verus!
