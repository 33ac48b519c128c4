use vstd::prelude::*;
use crate::bounded_volume_hierarchy::{
    lemma_bounds_enclose, primitives_of, BVHBuildNode, BVHBuildNodeData,
};
use crate::bounds::Bounds;
use crate::linear_bvh::lemma_closest_in_primitives;
use crate::ray::Ray;
use crate::raytracer::Collision;
use crate::traits::{closest_in, shortened, Boundable, Drawable};

verus! {

/// The parameter at which a ray hits an item, if it does.
pub open spec fn distance<D: Drawable>(item: D, ray: Ray) -> Option<i64> {
    match item.hit(ray) {
        Some(c) => Some(c.t),
        None => None,
    }
}

/// The parameter of a reported hit.
pub open spec fn reached(found: Option<Collision>) -> Option<i64> {
    match found {
        Some(c) => Some(c.t),
        None => None,
    }
}

/// A distance, if it is no more than `limit`.
pub open spec fn within(d: Option<i64>, limit: i64) -> Option<i64> {
    match d {
        Some(t) => if t <= limit {
            Some(t)
        } else {
            None
        },
        None => None,
    }
}

/// The smaller of two distances, where there are two.
pub open spec fn nearer(a: Option<i64>, b: Option<i64>) -> Option<i64> {
    match (a, b) {
        (None, _) => b,
        (_, None) => a,
        (Some(x), Some(y)) => if x <= y {
            Some(x)
        } else {
            Some(y)
        },
    }
}

/// The least parameter at which the ray hits any of the items.
pub open spec fn nearest<D: Drawable>(items: Seq<D>, ray: Ray) -> Option<i64>
    decreases items.len(),
{
    if items.len() == 0 {
        None
    } else {
        nearer(nearest(items.drop_last(), ray), distance(items.last(), ray))
    }
}

/// What a scan expects of an item.
///
/// A ray hits it within the ray's range. And the far limit of a ray only
/// cuts hits off: with the limit drawn in, a hit within the new limit stays
/// where it is, and no hit appears that was not there.
pub open spec fn steady<D: Drawable>(item: D) -> bool {
    &&& forall|ray: Ray| (#[trigger] item.hit(ray)) matches Some(c) ==> ray.min <= c.t <= ray.max
    &&& forall|ray: Ray, limit: i64|
        limit <= ray.max ==> distance(item, #[trigger] ray.with_max(limit)) == within(
            distance(item, ray),
            limit,
        )
}

/// What a hierarchy expects of a primitive: it is steady, its box has its
/// corners the right way round, and where a ray hits it, the ray is inside
/// its box.
pub open spec fn lawful<D: Boundable>(item: D) -> bool {
    &&& steady(item)
    &&& item.extent().wf()
    &&& forall|ray: Ray| (#[trigger] item.hit(ray)) matches Some(c) ==> item.extent().meets_at(ray, c.t as int, 1)
}

/// Whether every item is steady.
pub open spec fn all_steady<D: Drawable>(items: Seq<D>) -> bool {
    forall|i: int| 0 <= i < items.len() ==> steady(#[trigger] items[i])
}

/// Whether every item is lawful.
pub open spec fn all_lawful<D: Boundable>(items: Seq<D>) -> bool {
    forall|i: int| 0 <= i < items.len() ==> lawful(#[trigger] items[i])
}

/// The least distance is the distance of one of the items, and no item is
/// hit before it.
pub proof fn lemma_nearest_is_least<D: Drawable>(items: Seq<D>, ray: Ray)
    ensures
        nearest(items, ray) matches Some(t) ==> exists|i: int|
            0 <= i < items.len() && #[trigger] distance(items[i], ray) == Some(t),
        forall|i: int|
            0 <= i < items.len() ==> (#[trigger] distance(items[i], ray) matches Some(d) ==> (nearest(
                items,
                ray,
            ) matches Some(t) && t <= d)),
    decreases items.len(),
{
    if items.len() > 0 {
        let rest = items.drop_last();
        lemma_nearest_is_least(rest, ray);
        if let Some(t) = nearest(items, ray) {
            if distance(items.last(), ray) == Some(t) {
                assert(distance(items[items.len() - 1], ray) == Some(t));
            } else {
                let i = choose|i: int| 0 <= i < rest.len() && #[trigger] distance(rest[i], ray) == Some(t);
                assert(distance(items[i], ray) == Some(t));
            }
        }
        assert forall|i: int| 0 <= i < items.len() implies (#[trigger] distance(
            items[i],
            ray,
        ) matches Some(d) ==> (nearest(items, ray) matches Some(t) && t <= d)) by {
            if i < rest.len() {
                assert(rest[i] == items[i]);
            }
        }
    }
}

/// Steady items are hit within the range of the ray.
proof fn lemma_nearest_in_range<D: Drawable>(items: Seq<D>, ray: Ray)
    requires
        all_steady(items),
    ensures
        nearest(items, ray) matches Some(t) ==> ray.min <= t <= ray.max,
    decreases items.len(),
{
    if items.len() > 0 {
        let rest = items.drop_last();
        assert forall|i: int| 0 <= i < rest.len() implies steady(#[trigger] rest[i]) by {
            assert(rest[i] == items[i]);
        }
        lemma_nearest_in_range(rest, ray);
        assert(steady(items[items.len() - 1]));
    }
}

/// Drawing in the far limit of a ray cuts the least distance off, or leaves
/// it where it is.
proof fn lemma_nearest_shortened<D: Drawable>(items: Seq<D>, ray: Ray, limit: i64)
    requires
        all_steady(items),
        limit <= ray.max,
    ensures
        nearest(items, ray.with_max(limit)) == within(nearest(items, ray), limit),
    decreases items.len(),
{
    if items.len() > 0 {
        let rest = items.drop_last();
        assert forall|i: int| 0 <= i < rest.len() implies steady(#[trigger] rest[i]) by {
            assert(rest[i] == items[i]);
        }
        lemma_nearest_shortened(rest, ray, limit);
        assert(steady(items[items.len() - 1]));
        assert(distance(items.last(), ray.with_max(limit)) == within(distance(items.last(), ray), limit));
    }
}

/// The least distance over two groups of items is the smaller of the two
/// least distances.
proof fn lemma_nearest_of_both<D: Drawable>(a: Seq<D>, b: Seq<D>, ray: Ray)
    ensures
        nearest(a + b, ray) == nearer(nearest(a, ray), nearest(b, ray)),
    decreases b.len(),
{
    if b.len() == 0 {
        assert(a + b =~= a);
    } else {
        lemma_nearest_of_both(a, b.drop_last(), ray);
        assert((a + b).drop_last() =~= a + b.drop_last());
        assert((a + b).last() == b.last());
    }
}

/// A ray that misses a box hits no lawful item inside the box.
proof fn lemma_missed_box_holds_no_hit<D: Boundable>(items: Seq<D>, bounds: Bounds, ray: Ray)
    requires
        all_lawful(items),
        forall|i: int| 0 <= i < items.len() ==> bounds.contains(#[trigger] items[i].extent()),
        !bounds.meets(ray),
    ensures
        nearest(items, ray) is None,
    decreases items.len(),
{
    if items.len() > 0 {
        let rest = items.drop_last();
        assert forall|i: int| 0 <= i < rest.len() implies lawful(#[trigger] rest[i])
            && bounds.contains(rest[i].extent()) by {
            assert(rest[i] == items[i]);
        }
        lemma_missed_box_holds_no_hit(rest, bounds, ray);
        let last = items[items.len() - 1];
        assert(lawful(last));
        assert(bounds.contains(last.extent()));
        if let Some(c) = last.hit(ray) {
            assert(last.extent().meets_at(ray, c.t as int, 1));
            assert(bounds.meets_at(ray, c.t as int, 1));
        }
    }
}

/// Testing steady items one after the other, each against the ray as
/// shortened by the hits before it, ends with a hit at the least parameter
/// at which the ray hits any of them; and with none if it hits none.
pub proof fn lemma_scan_finds_nearest<D: Drawable>(items: Seq<D>, ray: Ray)
    requires
        all_steady(items),
    ensures
        reached(closest_in(items, ray)) == nearest(items, ray),
    decreases items.len(),
{
    if items.len() > 0 {
        let rest = items.drop_last();
        assert forall|i: int| 0 <= i < rest.len() implies steady(#[trigger] rest[i]) by {
            assert(rest[i] == items[i]);
        }
        lemma_scan_finds_nearest(rest, ray);
        lemma_nearest_in_range(rest, ray);
        let last = items[items.len() - 1];
        assert(steady(last));
        let before = closest_in(rest, ray);
        if let Some(c) = before {
            assert(distance(last, ray.with_max(c.t)) == within(distance(last, ray), c.t));
        }
    }
}

/// The primitives below a node, left to right.
pub open spec fn primitives_below<P: Boundable>(node: BVHBuildNode<P>) -> Seq<P> {
    primitives_of(node.infos())
}

/// Whether the items of a tree belong to lawful primitives.
pub open spec fn holds_lawful<P: Boundable>(node: BVHBuildNode<P>) -> bool {
    &&& node.wf()
    &&& forall|i: int| 0 <= i < node.infos().len() ==> (#[trigger] node.infos()[i]).wf()
    &&& all_lawful(primitives_below(node))
}

/// Traversal of a tree over lawful primitives ends with a hit at the least
/// parameter at which the ray hits any primitive of the tree, and with none
/// if it hits none: no subtree is passed over that holds a nearer hit.
pub proof fn lemma_tree_finds_nearest<P: Boundable>(node: BVHBuildNode<P>, ray: Ray)
    requires
        holds_lawful(node),
    ensures
        reached(node.closest(ray)) == nearest(primitives_below(node), ray),
    decreases node,
{
    let all = primitives_below(node);
    lemma_bounds_enclose(node);
    if !node.bounds.meets(ray) {
        assert forall|i: int| 0 <= i < all.len() implies node.bounds.contains(
            #[trigger] all[i].extent(),
        ) by {
            assert(node.infos()[i].wf());
            assert(node.bounds.contains(node.infos()[i].bounds));
        }
        lemma_missed_box_holds_no_hit(all, node.bounds, ray);
    } else {
        match node.data {
            BVHBuildNodeData::PrimInfos(v) => {
                lemma_closest_in_primitives(v@, ray);
                lemma_scan_finds_nearest(all, ray);
            },
            BVHBuildNodeData::Children(c) => {
                let left = primitives_below(c.0);
                let right = primitives_below(c.1);
                assert(all =~= left + right);
                assert forall|i: int| 0 <= i < c.0.infos().len() implies (#[trigger] c.0.infos()[i]).wf()
                    && lawful(left[i]) by {
                    assert(node.infos()[i] == c.0.infos()[i]);
                    assert(all[i] == left[i]);
                }
                assert forall|i: int| 0 <= i < c.1.infos().len() implies (#[trigger] c.1.infos()[i]).wf()
                    && lawful(right[i]) by {
                    assert(node.infos()[c.0.infos().len() + i] == c.1.infos()[i]);
                    assert(all[left.len() + i] == right[i]);
                }
                assert(all_lawful(left));
                assert(all_lawful(right));
                lemma_nearest_of_both(left, right, ray);
                lemma_nearest_in_range(left, ray);
                lemma_nearest_in_range(right, ray);
                lemma_tree_finds_nearest(c.0, ray);
                lemma_tree_finds_nearest(c.1, ray);
                if ray.heads_down(node.split_axis) {
                    let found = c.1.closest(ray);
                    lemma_tree_finds_nearest(c.0, shortened(ray, found));
                    if let Some(hit) = found {
                        lemma_nearest_shortened(left, ray, hit.t);
                    }
                } else {
                    let found = c.0.closest(ray);
                    lemma_tree_finds_nearest(c.1, shortened(ray, found));
                    if let Some(hit) = found {
                        lemma_nearest_shortened(right, ray, hit.t);
                    }
                }
            },
        }
    }
}

} // verus!
