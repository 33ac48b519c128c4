use vstd::prelude::*;
use vstd::seq_lib::lemma_multiset_commutative;
pub use crate::bounds::Bounds;
use crate::nearest::{holds_lawful, lemma_tree_finds_nearest, nearest, primitives_below, reached};
use crate::ray::Ray;
use crate::raytracer::Collision;
use crate::traits::{closest_in, intersect_collection, latest, same_hit, shortened, Boundable, Drawable};
use crate::vectors::{SplitAxis, V3};

verus! {

/// A primitive together with the box around it and the centre of that box:
/// what the builder sorts primitives by.
#[derive(Debug)]
pub struct BVHPrimitiveInfo<P> {
    pub primitive: P,
    pub bounds: Bounds,
    pub centroid: V3,
}

impl<P: Boundable> BVHPrimitiveInfo<P> {
    /// Whether the box and the centre are those of the primitive.
    pub open spec fn wf(self) -> bool {
        &&& self.bounds == self.primitive.extent()
        &&& self.centroid == self.bounds.center()
    }

    pub fn new(primitive: P) -> (info: Self)
        ensures
            info.primitive == primitive,
            info.wf(),
    {
        let bounds = primitive.bounds();
        let centroid = bounds.centroid();
        BVHPrimitiveInfo { primitive, bounds, centroid }
    }

    /// Whether the centroid lies below the mean `sum / count` along `axis`.
    pub fn is_below_mean(&self, axis: SplitAxis, sum: i128, count: i128) -> (b: bool)
        requires
            0 <= count <= 0x1_0000_0000_0000_0000,
        ensures
            b == below_mean(self.centroid, axis, sum as int, count as int),
    {
        let c: i128 = axis.proj(self.centroid) as i128;
        assert(-0x8000_0000_0000_0000_0000_0000 <= c * count <= 0x8000_0000_0000_0000_0000_0000)
            by (nonlinear_arith)
            requires
                -0x8000_0000 <= c <= 0x8000_0000,
                0 <= count <= 0x1_0000_0000_0000_0000,
        ;
        c * count < sum
    }
}

impl<P: Boundable> Drawable for BVHPrimitiveInfo<P> {
    open spec fn hit(&self, ray: Ray) -> Option<Collision> {
        self.primitive.hit(ray)
    }

    fn intersect(&self, ray: Ray) -> (c: Option<Collision>) {
        self.primitive.intersect(ray)
    }
}

impl<P: Boundable> Boundable for BVHPrimitiveInfo<P> {
    open spec fn extent(&self) -> Bounds {
        self.bounds
    }

    fn bounds(&self) -> (b: Bounds) {
        self.bounds
    }
}

impl<P: Boundable> Boundable for BVHBuildNode<P> {
    open spec fn extent(&self) -> Bounds {
        self.bounds
    }

    fn bounds(&self) -> (b: Bounds) {
        self.bounds
    }
}

impl<P: Boundable> Drawable for BVHBuildNode<P> {
    open spec fn hit(&self, ray: Ray) -> Option<Collision> {
        self.closest(ray)
    }

    /// Walks the tree for one ray. Over lawful primitives the hit that
    /// remains is the one nearest along the ray.
    fn intersect(&self, ray: Ray) -> (c: Option<Collision>)
        ensures
            holds_lawful(*self) ==> reached(c) == nearest(primitives_below(*self), ray),
    {
        proof {
            if holds_lawful(*self) {
                lemma_tree_finds_nearest(*self, ray);
            }
        }
        self.intersect_node(ray)
    }
}

/// Whether a centroid lies strictly below the mean `sum / count` of all
/// centroids along `axis`. The comparison is exact: no division is made.
pub open spec fn below_mean(centroid: V3, axis: SplitAxis, sum: int, count: int) -> bool {
    axis.of(centroid) * count < sum
}

/// The smallest box around the boxes of all the items.
pub open spec fn hull<P>(infos: Seq<BVHPrimitiveInfo<P>>) -> Bounds
    decreases infos.len(),
{
    if infos.len() <= 1 {
        infos[0].bounds
    } else {
        Bounds::join(hull(infos.drop_last()), infos.last().bounds)
    }
}

/// The smallest box around the centroids of all the items.
pub open spec fn centroid_hull<P>(infos: Seq<BVHPrimitiveInfo<P>>) -> Bounds
    decreases infos.len(),
{
    if infos.len() <= 1 {
        Bounds::point(infos[0].centroid)
    } else {
        Bounds::join(centroid_hull(infos.drop_last()), Bounds::point(infos.last().centroid))
    }
}

/// The sum of the centroids' coordinates along `axis`.
pub open spec fn centroid_sum<P>(infos: Seq<BVHPrimitiveInfo<P>>, axis: SplitAxis) -> int
    decreases infos.len(),
{
    if infos.len() == 0 {
        0
    } else {
        centroid_sum(infos.drop_last(), axis) + axis.of(infos.last().centroid)
    }
}

/// Whether the builder keeps these items together: there are few enough of
/// them, or no axis tells their centroids apart.
pub open spec fn stays_whole<P>(infos: Seq<BVHPrimitiveInfo<P>>, prims_per_leaf: usize) -> bool {
    infos.len() <= prims_per_leaf || centroid_hull(infos).min_point == centroid_hull(
        infos,
    ).max_point
}

/// Whether the boxes of all the primitives have one centre.
pub open spec fn same_centers<P: Boundable>(primitives: Seq<P>) -> bool {
    forall|i: int, j: int|
        0 <= i < primitives.len() && 0 <= j < primitives.len() ==> (#[trigger] primitives[i].extent()).center()
            == (#[trigger] primitives[j].extent()).center()
}

/// Whether no two of the items have one centroid.
pub open spec fn centroids_differ<P>(infos: Seq<BVHPrimitiveInfo<P>>) -> bool {
    forall|i: int, j: int| 0 <= i < j < infos.len() ==> infos[i].centroid != infos[j].centroid
}

/// The primitives of the items, in order.
pub open spec fn primitives_of<P>(infos: Seq<BVHPrimitiveInfo<P>>) -> Seq<P> {
    infos.map_values(|info: BVHPrimitiveInfo<P>| info.primitive)
}

/// What a node holds: the primitives of a leaf, or the two children of an
/// interior node.
#[derive(Debug)]
pub enum BVHBuildNodeData<P> {
    PrimInfos(Vec<BVHPrimitiveInfo<P>>),
    Children(Box<(BVHBuildNode<P>, BVHBuildNode<P>)>),
}

/// A node of the hierarchy in tree form. Each interior node owns its two
/// children.
#[derive(Debug)]
pub struct BVHBuildNode<P> {
    pub bounds: Bounds,
    pub split_axis: SplitAxis,
    pub n_prims: usize,
    pub n_nodes: usize,
    pub data: BVHBuildNodeData<P>,
}

/// Why no hierarchy could be built.
#[derive(Clone, Copy, Debug, PartialEq, Eq, Structural)]
pub enum BuildError {
    /// There was no primitive to build over.
    NoPrimitives,
    /// A leaf was allowed to hold no primitive at all.
    ZeroLeafSize,
}

impl BuildError {
    /// A sentence that says what was wrong with the input.
    pub fn message(&self) -> (s: &'static str)
        ensures
            self == BuildError::NoPrimitives ==> s@
                == "cannot build a hierarchy over an empty set of primitives"@,
            self == BuildError::ZeroLeafSize ==> s@
                == "a leaf must be allowed to hold at least one primitive"@,
    {
        match self {
            BuildError::NoPrimitives => "cannot build a hierarchy over an empty set of primitives",
            BuildError::ZeroLeafSize => "a leaf must be allowed to hold at least one primitive",
        }
    }
}

impl<P: Boundable> BVHBuildNode<P> {
    /// The items of all leaves, left to right.
    pub open spec fn infos(self) -> Seq<BVHPrimitiveInfo<P>>
        decreases self,
    {
        match self.data {
            BVHBuildNodeData::PrimInfos(v) => v@,
            BVHBuildNodeData::Children(c) => c.0.infos() + c.1.infos(),
        }
    }

    /// The number of nodes of the tree, this one included.
    pub open spec fn size(self) -> nat
        decreases self,
    {
        match self.data {
            BVHBuildNodeData::PrimInfos(_) => 1,
            BVHBuildNodeData::Children(c) => 1 + c.0.size() + c.1.size(),
        }
    }

    /// The number of items in the largest leaf.
    pub open spec fn largest_leaf(self) -> nat
        decreases self,
    {
        match self.data {
            BVHBuildNodeData::PrimInfos(v) => v@.len(),
            BVHBuildNodeData::Children(c) => if c.0.largest_leaf() >= c.1.largest_leaf() {
                c.0.largest_leaf()
            } else {
                c.1.largest_leaf()
            },
        }
    }

    /// The number of nodes on the longest path from this node to a leaf.
    pub open spec fn height(self) -> nat
        decreases self,
    {
        match self.data {
            BVHBuildNodeData::PrimInfos(_) => 1,
            BVHBuildNodeData::Children(c) => 1 + if c.0.height() >= c.1.height() {
                c.0.height()
            } else {
                c.1.height()
            },
        }
    }

    /// The invariant of the tree.
    ///
    /// A leaf holds at least one item, its box is the hull of its items'
    /// boxes, and it counts as one node. The box of an interior node is the
    /// union of its children's boxes, and its two counts are the sums of its
    /// children's: `n_prims` counts the primitives below the node and
    /// `n_nodes` the leaves.
    pub open spec fn wf(self) -> bool
        decreases self,
    {
        match self.data {
            BVHBuildNodeData::PrimInfos(v) => {
                &&& v@.len() > 0
                &&& self.bounds == hull(v@)
                &&& self.split_axis == self.bounds.longest_axis()
                &&& self.n_prims == v@.len()
                &&& self.n_nodes == 1
            },
            BVHBuildNodeData::Children(c) => {
                &&& c.0.wf()
                &&& c.1.wf()
                &&& self.bounds == Bounds::join(c.0.bounds, c.1.bounds)
                &&& self.n_prims == c.0.n_prims + c.1.n_prims
                &&& self.n_nodes == c.0.n_nodes + c.1.n_nodes
            },
        }
    }

    /// Whether the tree is the one that splitting at the mean centroid
    /// yields.
    ///
    /// Every leaf holds items that stay whole under the limit. Every
    /// interior node holds items that do not; its axis is the longest axis
    /// of the hull of their centroids; its first child holds exactly the
    /// items whose centroid lies below the mean along that axis, and its
    /// second child the others.
    pub open spec fn split_at_mean(self, prims_per_leaf: usize) -> bool
        decreases self,
    {
        match self.data {
            BVHBuildNodeData::PrimInfos(v) => stays_whole(v@, prims_per_leaf),
            BVHBuildNodeData::Children(c) => {
                let all = self.infos();
                let sum = centroid_sum(all, self.split_axis);
                &&& c.0.split_at_mean(prims_per_leaf)
                &&& c.1.split_at_mean(prims_per_leaf)
                &&& !stays_whole(all, prims_per_leaf)
                &&& self.split_axis == centroid_hull(all).longest_axis()
                &&& forall|i: int|
                    0 <= i < c.0.infos().len() ==> below_mean(
                        #[trigger] c.0.infos()[i].centroid,
                        self.split_axis,
                        sum,
                        all.len() as int,
                    )
                &&& forall|i: int|
                    0 <= i < c.1.infos().len() ==> !below_mean(
                        #[trigger] c.1.infos()[i].centroid,
                        self.split_axis,
                        sum,
                        all.len() as int,
                    )
            },
        }
    }

    /// The hit that traversal from this node reports.
    ///
    /// A node whose box the ray misses reports nothing. A leaf tests its
    /// primitives in order. An interior node asks first the child on the side
    /// the ray comes from, then the other with the ray shortened by what the
    /// first reported.
    pub open spec fn closest(self, ray: Ray) -> Option<Collision>
        decreases self,
    {
        if self.bounds.meets(ray) {
            match self.data {
                BVHBuildNodeData::PrimInfos(v) => closest_in(v@, ray),
                BVHBuildNodeData::Children(c) => {
                    if ray.heads_down(self.split_axis) {
                        let found = c.1.closest(ray);
                        latest(found, c.0.closest(shortened(ray, found)))
                    } else {
                        let found = c.0.closest(ray);
                        latest(found, c.1.closest(shortened(ray, found)))
                    }
                },
            }
        } else {
            None
        }
    }

    /// Walks the tree for one ray and returns the hit that remains.
    fn intersect_node(&self, ray: Ray) -> (out: Option<Collision>)
        ensures
            same_hit(out, self.closest(ray)),
        decreases self,
    {
        if self.bounds.intersects(&ray) {
            match &self.data {
                BVHBuildNodeData::PrimInfos(prim_infos) => intersect_collection(
                    prim_infos.as_slice(),
                    ray,
                ),
                BVHBuildNodeData::Children(children) => {
                    let (near, far) = if ray.points_down(self.split_axis) {
                        (&children.1, &children.0)
                    } else {
                        (&children.0, &children.1)
                    };
                    let found = near.intersect_node(ray);
                    let mut ray = ray;
                    if let Some(coll) = &found {
                        ray.max = coll.t;
                    }
                    match far.intersect_node(ray) {
                        Some(coll) => Some(coll),
                        None => found,
                    }
                },
            }
        } else {
            None
        }
    }

    /// Whether the node holds primitives rather than children.
    pub fn is_leaf(&self) -> (b: bool)
        ensures
            b == (self.data is PrimInfos),
    {
        matches!(self.data, BVHBuildNodeData::PrimInfos(_))
    }

    /// A leaf that holds the given items.
    fn new_leaf(prim_infos: Vec<BVHPrimitiveInfo<P>>) -> (node: Self)
        requires
            prim_infos@.len() > 0,
        ensures
            node.wf(),
            node.data matches BVHBuildNodeData::PrimInfos(v) && v@ == prim_infos@,
    {
        let n = prim_infos.len();
        let mut bounds = prim_infos[0].bounds;
        let mut i: usize = 1;
        while i < n
            invariant
                n == prim_infos@.len(),
                1 <= i <= n,
                bounds == hull(prim_infos@.take(i as int)),
            decreases n - i,
        {
            proof {
                assert(prim_infos@.take(i + 1).drop_last() == prim_infos@.take(i as int));
            }
            bounds = Bounds::union(bounds, prim_infos[i].bounds);
            i += 1;
        }
        proof {
            assert(prim_infos@.take(n as int) == prim_infos@);
        }
        let split_axis = bounds.maximum_length_axis();
        BVHBuildNode {
            bounds,
            split_axis,
            n_prims: n,
            n_nodes: 1,
            data: BVHBuildNodeData::PrimInfos(prim_infos),
        }
    }

    /// An interior node over two subtrees.
    fn new_interior(split_axis: SplitAxis, c1: Self, c2: Self) -> (node: Self)
        requires
            c1.wf(),
            c2.wf(),
            c1.n_prims + c2.n_prims <= usize::MAX,
            c1.n_nodes + c2.n_nodes <= usize::MAX,
        ensures
            node.wf(),
            node.split_axis == split_axis,
            node.data matches BVHBuildNodeData::Children(c) && c.0 == c1 && c.1 == c2,
    {
        let bounds = Bounds::union(c1.bounds, c2.bounds);
        BVHBuildNode {
            bounds,
            split_axis,
            n_prims: c1.n_prims + c2.n_prims,
            n_nodes: c1.n_nodes + c2.n_nodes,
            data: BVHBuildNodeData::Children(Box::new((c1, c2))),
        }
    }

    /// Sums the centroids along each axis and finds the hull of the
    /// centroids, in one pass.
    fn centroid_stats(prim_infos: &Vec<BVHPrimitiveInfo<P>>) -> (r: (i128, i128, i128, Bounds))
        requires
            prim_infos@.len() > 0,
        ensures
            r.0 == centroid_sum(prim_infos@, SplitAxis::X),
            r.1 == centroid_sum(prim_infos@, SplitAxis::Y),
            r.2 == centroid_sum(prim_infos@, SplitAxis::Z),
            r.3 == centroid_hull(prim_infos@),
    {
        let n = prim_infos.len();
        let first = prim_infos[0].centroid;
        let mut sx: i128 = first.x as i128;
        let mut sy: i128 = first.y as i128;
        let mut sz: i128 = first.z as i128;
        let mut bounds = Bounds::around(first);
        let mut i: usize = 1;
        proof {
            let one = prim_infos@.take(1);
            assert(one.drop_last().len() == 0);
            assert(centroid_sum(one.drop_last(), SplitAxis::X) == 0);
            assert(centroid_sum(one.drop_last(), SplitAxis::Y) == 0);
            assert(centroid_sum(one.drop_last(), SplitAxis::Z) == 0);
        }
        while i < n
            invariant
                n == prim_infos@.len(),
                1 <= i <= n,
                sx == centroid_sum(prim_infos@.take(i as int), SplitAxis::X),
                sy == centroid_sum(prim_infos@.take(i as int), SplitAxis::Y),
                sz == centroid_sum(prim_infos@.take(i as int), SplitAxis::Z),
                -0x8000_0000 * i <= sx <= 0x8000_0000 * i,
                -0x8000_0000 * i <= sy <= 0x8000_0000 * i,
                -0x8000_0000 * i <= sz <= 0x8000_0000 * i,
                bounds == centroid_hull(prim_infos@.take(i as int)),
            decreases n - i,
        {
            proof {
                assert(prim_infos@.take(i + 1).drop_last() == prim_infos@.take(i as int));
            }
            let c = prim_infos[i].centroid;
            sx = sx + c.x as i128;
            sy = sy + c.y as i128;
            sz = sz + c.z as i128;
            bounds = Bounds::union_v3(bounds, c);
            i += 1;
        }
        proof {
            assert(prim_infos@.take(n as int) == prim_infos@);
        }
        (sx, sy, sz, bounds)
    }

    /// Rearranges the items so that those whose centroid lies below the mean
    /// `sum / count` along `axis` come first, and returns how many they are.
    ///
    /// This is `partition::partition_index`, which swaps items of the slice
    /// until every item that satisfies the predicate stands before every
    /// item that does not, and returns the index of the first that does not.
    /// The contract states just that: the items are the same, each as often
    /// as before, and the returned index parts them by the predicate.
    #[verifier::external_body]
    fn partition_by_mean(
        prim_infos: &mut Vec<BVHPrimitiveInfo<P>>,
        axis: SplitAxis,
        sum: i128,
        count: i128,
    ) -> (mid: usize)
        requires
            0 <= count <= 0x1_0000_0000_0000_0000,
        ensures
            final(prim_infos)@.to_multiset() == old(prim_infos)@.to_multiset(),
            mid <= final(prim_infos)@.len(),
            forall|i: int|
                0 <= i < mid ==> below_mean(
                    #[trigger] final(prim_infos)@[i].centroid,
                    axis,
                    sum as int,
                    count as int,
                ),
            forall|i: int|
                mid <= i < final(prim_infos)@.len() ==> !below_mean(
                    #[trigger] final(prim_infos)@[i].centroid,
                    axis,
                    sum as int,
                    count as int,
                ),
    {
        partition::partition_index(prim_infos.as_mut_slice(), |p| p.is_below_mean(axis, sum, count))
    }

    /// Builds the subtree over the given items.
    ///
    /// Items that stay whole become a leaf, in the order given. Others are
    /// parted at the mean of their centroids along the longest axis of the
    /// centroids' hull, and each part is built in turn. Both parts are
    /// smaller than the whole, because the least centroid along that axis
    /// lies below the mean and the greatest does not.
    fn recursive_build_bvh(mut prim_infos: Vec<BVHPrimitiveInfo<P>>, prims_per_leaf: usize) -> (node:
        Self)
        requires
            prim_infos@.len() > 0,
        ensures
            node.wf(),
            node.infos().to_multiset() == prim_infos@.to_multiset(),
            node.split_at_mean(prims_per_leaf),
            node.n_prims == prim_infos@.len(),
            node.n_nodes <= node.n_prims,
            stays_whole(prim_infos@, prims_per_leaf) ==> (node.data matches BVHBuildNodeData::PrimInfos(v)
                && v@ == prim_infos@),
            !stays_whole(prim_infos@, prims_per_leaf) ==> node.data is Children,
        decreases prim_infos@.len(),
    {
        let n_prims = prim_infos.len();
        if n_prims <= prims_per_leaf {
            return Self::new_leaf(prim_infos);
        }
        let (sx, sy, sz, centroid_bounds) = Self::centroid_stats(&prim_infos);
        let split_dim = centroid_bounds.maximum_length_axis();
        if centroid_bounds.is_singularity() {
            return Self::new_leaf(prim_infos);
        }
        let sum = match split_dim {
            SplitAxis::X => sx,
            SplitAxis::Y => sy,
            SplitAxis::Z => sz,
        };
        let ghost before = prim_infos@;
        let mid = Self::partition_by_mean(&mut prim_infos, split_dim, sum, n_prims as i128);
        let ghost after = prim_infos@;
        proof {
            lemma_mean_parts_both_sides(before, after, split_dim, mid as int);
            before.to_multiset_ensures();
            after.to_multiset_ensures();
        }
        let right = prim_infos.split_off(mid);
        let left = prim_infos;
        proof {
            assert(after =~= left@ + right@);
            lemma_multiset_commutative(left@, right@);
        }
        let first = Self::recursive_build_bvh(left, prims_per_leaf);
        let second = Self::recursive_build_bvh(right, prims_per_leaf);
        let node = Self::new_interior(split_dim, first, second);
        proof {
            let all = node.infos();
            assert(all == first.infos() + second.infos());
            lemma_multiset_commutative(first.infos(), second.infos());
            assert(all.to_multiset() =~= before.to_multiset());
            all.to_multiset_ensures();
            lemma_same_items_same_hull(all, before);
            lemma_same_items_same_sum(all, before, split_dim);
            assert forall|i: int| 0 <= i < first.infos().len() implies below_mean(
                #[trigger] first.infos()[i].centroid,
                split_dim,
                sum as int,
                all.len() as int,
            ) by {
                lemma_same_items_contain(first.infos(), left@, first.infos()[i]);
                let j = choose|j: int| 0 <= j < left@.len() && left@[j] == first.infos()[i];
                assert(after[j] == left@[j]);
            }
            assert forall|i: int| 0 <= i < second.infos().len() implies !below_mean(
                #[trigger] second.infos()[i].centroid,
                split_dim,
                sum as int,
                all.len() as int,
            ) by {
                lemma_same_items_contain(second.infos(), right@, second.infos()[i]);
                let j = choose|j: int| 0 <= j < right@.len() && right@[j] == second.infos()[i];
                assert(after[mid + j] == right@[j]);
            }
        }
        node
    }

    /// Builds the hierarchy over the given primitives, with leaves of at
    /// most `prims_per_leaf` primitives wherever the centroids can be told
    /// apart.
    ///
    /// Fails when there is no primitive, or when `prims_per_leaf` is zero.
    pub fn new(primitives: Vec<P>, prims_per_leaf: usize) -> (r: Result<Self, BuildError>)
        ensures
            primitives@.len() == 0 ==> r == Err::<Self, BuildError>(BuildError::NoPrimitives),
            primitives@.len() > 0 && prims_per_leaf == 0 ==> r == Err::<Self, BuildError>(
                BuildError::ZeroLeafSize,
            ),
            primitives@.len() > 0 && prims_per_leaf > 0 ==> r is Ok,
            r matches Ok(node) ==> {
                &&& node.wf()
                &&& node.split_at_mean(prims_per_leaf)
                &&& primitives_of(node.infos()).to_multiset() == primitives@.to_multiset()
                &&& forall|i: int| 0 <= i < node.infos().len() ==> (#[trigger] node.infos()[i]).wf()
                &&& node.n_prims == primitives@.len()
                &&& node.data is PrimInfos <==> primitives@.len() <= prims_per_leaf || same_centers(
                    primitives@,
                )
                &&& node.data is PrimInfos ==> primitives_of(node.infos()) == primitives@
            },
    {
        if primitives.len() == 0 {
            return Err(BuildError::NoPrimitives);
        }
        if prims_per_leaf == 0 {
            return Err(BuildError::ZeroLeafSize);
        }
        let ghost given = primitives@;
        let mut prim_infos: Vec<BVHPrimitiveInfo<P>> = Vec::with_capacity(primitives.len());
        for prim in it: primitives
            invariant
                it.seq() == given,
                prim_infos@.len() == it.index(),
                forall|j: int|
                    0 <= j < it.index() ==> (#[trigger] prim_infos@[j]).wf() && prim_infos@[j].primitive
                        == given[j],
        {
            prim_infos.push(BVHPrimitiveInfo::new(prim));
        }
        let ghost wrapped = prim_infos@;
        assert(primitives_of(wrapped) =~= given);
        let node = Self::recursive_build_bvh(prim_infos, prims_per_leaf);
        proof {
            lemma_point_hull_means_one_centroid(wrapped);
            assert(same_centers(given) <==> centroid_hull(wrapped).min_point == centroid_hull(wrapped).max_point) by {
                if centroid_hull(wrapped).min_point == centroid_hull(wrapped).max_point {
                    assert forall|i: int, j: int|
                        0 <= i < given.len() && 0 <= j < given.len() implies (#[trigger] given[i].extent()).center()
                        == (#[trigger] given[j].extent()).center() by {
                        assert(wrapped[i].wf() && wrapped[j].wf());
                    }
                }
                if same_centers(given) {
                    assert forall|i: int| 0 <= i < wrapped.len() implies (#[trigger] wrapped[i]).centroid
                        == wrapped[0].centroid by {
                        assert(wrapped[i].wf() && wrapped[0].wf());
                        assert(given[i].extent().center() == given[0].extent().center());
                    }
                }
            }
            lemma_same_items_same_primitives(node.infos(), wrapped);
            assert forall|i: int| 0 <= i < node.infos().len() implies (#[trigger] node.infos()[i]).wf() by {
                lemma_same_items_contain(node.infos(), wrapped, node.infos()[i]);
            }
        }
        Ok(node)
    }
}

/// An item of one sequence is an item of every sequence with the same items.
proof fn lemma_same_items_contain<A>(a: Seq<A>, b: Seq<A>, x: A)
    requires
        a.to_multiset() == b.to_multiset(),
        a.contains(x),
    ensures
        b.contains(x),
        exists|j: int| 0 <= j < b.len() && b[j] == x,
{
    a.to_multiset_ensures();
    b.to_multiset_ensures();
    assert(a.to_multiset().count(x) > 0);
    assert(b.to_multiset().count(x) > 0);
    assert(b.contains(x));
}

/// Taking one item out of a sequence takes its centroid out of the sum.
proof fn lemma_sum_without<P>(s: Seq<BVHPrimitiveInfo<P>>, axis: SplitAxis, j: int)
    requires
        0 <= j < s.len(),
    ensures
        centroid_sum(s, axis) == centroid_sum(s.remove(j), axis) + axis.of(s[j].centroid),
    decreases s.len(),
{
    if j == s.len() - 1 {
        assert(s.remove(j) == s.drop_last());
    } else {
        lemma_sum_without(s.drop_last(), axis, j);
        assert(s.remove(j).drop_last() == s.drop_last().remove(j));
        assert(s.remove(j).last() == s.last());
    }
}

/// The sum of the centroids does not depend on the order of the items.
proof fn lemma_same_items_same_sum<P>(
    a: Seq<BVHPrimitiveInfo<P>>,
    b: Seq<BVHPrimitiveInfo<P>>,
    axis: SplitAxis,
)
    requires
        a.to_multiset() == b.to_multiset(),
    ensures
        centroid_sum(a, axis) == centroid_sum(b, axis),
    decreases a.len(),
{
    a.to_multiset_ensures();
    b.to_multiset_ensures();
    if a.len() == 0 {
        assert(b.len() == 0);
    } else {
        let x = a.last();
        assert(a.contains(x));
        lemma_same_items_contain(a, b, x);
        let j = choose|j: int| 0 <= j < b.len() && b[j] == x;
        assert(a.drop_last() == a.remove(a.len() - 1));
        assert(a.drop_last().to_multiset() == b.remove(j).to_multiset());
        lemma_same_items_same_sum(a.drop_last(), b.remove(j), axis);
        lemma_sum_without(b, axis, j);
    }
}

/// Along every axis, the hull of the centroids reaches from the least
/// centroid to the greatest.
proof fn lemma_centroid_hull_is_tight<P>(s: Seq<BVHPrimitiveInfo<P>>, axis: SplitAxis)
    requires
        s.len() > 0,
    ensures
        centroid_hull(s).wf(),
        forall|j: int|
            0 <= j < s.len() ==> axis.of(centroid_hull(s).min_point) <= axis.of(
                #[trigger] s[j].centroid,
            ) <= axis.of(centroid_hull(s).max_point),
        exists|j: int|
            0 <= j < s.len() && axis.of(#[trigger] s[j].centroid) == axis.of(
                centroid_hull(s).min_point,
            ),
        exists|j: int|
            0 <= j < s.len() && axis.of(#[trigger] s[j].centroid) == axis.of(
                centroid_hull(s).max_point,
            ),
    decreases s.len(),
{
    if s.len() == 1 {
        assert(axis.of(s[0].centroid) == axis.of(centroid_hull(s).min_point));
    } else {
        let rest = s.drop_last();
        lemma_centroid_hull_is_tight(rest, axis);
        let lo = choose|j: int|
            0 <= j < rest.len() && axis.of(#[trigger] rest[j].centroid) == axis.of(
                centroid_hull(rest).min_point,
            );
        let hi = choose|j: int|
            0 <= j < rest.len() && axis.of(#[trigger] rest[j].centroid) == axis.of(
                centroid_hull(rest).max_point,
            );
        let last = s.len() - 1;
        assert(rest[lo] == s[lo] && rest[hi] == s[hi]);
        assert forall|j: int| 0 <= j < s.len() implies axis.of(centroid_hull(s).min_point)
            <= axis.of(#[trigger] s[j].centroid) <= axis.of(centroid_hull(s).max_point) by {
            if j < last {
                assert(rest[j] == s[j]);
            }
        }
        if axis.of(s[last].centroid) < axis.of(centroid_hull(rest).min_point) {
            assert(axis.of(s[last].centroid) == axis.of(centroid_hull(s).min_point));
        } else {
            assert(axis.of(s[lo].centroid) == axis.of(centroid_hull(s).min_point));
        }
        if axis.of(s[last].centroid) > axis.of(centroid_hull(rest).max_point) {
            assert(axis.of(s[last].centroid) == axis.of(centroid_hull(s).max_point));
        } else {
            assert(axis.of(s[hi].centroid) == axis.of(centroid_hull(s).max_point));
        }
    }
}

/// The hull of the centroids does not depend on the order of the items.
proof fn lemma_same_items_same_hull<P>(a: Seq<BVHPrimitiveInfo<P>>, b: Seq<BVHPrimitiveInfo<P>>)
    requires
        a.to_multiset() == b.to_multiset(),
        a.len() > 0,
    ensures
        centroid_hull(a) == centroid_hull(b),
{
    a.to_multiset_ensures();
    b.to_multiset_ensures();
    lemma_hull_faces_agree(a, b, SplitAxis::X);
    lemma_hull_faces_agree(a, b, SplitAxis::Y);
    lemma_hull_faces_agree(a, b, SplitAxis::Z);
}

proof fn lemma_hull_faces_agree<P>(
    a: Seq<BVHPrimitiveInfo<P>>,
    b: Seq<BVHPrimitiveInfo<P>>,
    axis: SplitAxis,
)
    requires
        a.to_multiset() == b.to_multiset(),
        a.len() > 0,
        b.len() > 0,
    ensures
        axis.of(centroid_hull(a).min_point) == axis.of(centroid_hull(b).min_point),
        axis.of(centroid_hull(a).max_point) == axis.of(centroid_hull(b).max_point),
{
    lemma_centroid_hull_is_tight(a, axis);
    lemma_centroid_hull_is_tight(b, axis);
    let a_lo = choose|j: int|
        0 <= j < a.len() && axis.of(#[trigger] a[j].centroid) == axis.of(centroid_hull(a).min_point);
    let a_hi = choose|j: int|
        0 <= j < a.len() && axis.of(#[trigger] a[j].centroid) == axis.of(centroid_hull(a).max_point);
    let b_lo = choose|j: int|
        0 <= j < b.len() && axis.of(#[trigger] b[j].centroid) == axis.of(centroid_hull(b).min_point);
    let b_hi = choose|j: int|
        0 <= j < b.len() && axis.of(#[trigger] b[j].centroid) == axis.of(centroid_hull(b).max_point);
    lemma_same_items_contain(a, b, a[a_lo]);
    lemma_same_items_contain(a, b, a[a_hi]);
    lemma_same_items_contain(b, a, b[b_lo]);
    lemma_same_items_contain(b, a, b[b_hi]);
    let i1 = choose|j: int| 0 <= j < b.len() && b[j] == a[a_lo];
    let i2 = choose|j: int| 0 <= j < b.len() && b[j] == a[a_hi];
    let i3 = choose|j: int| 0 <= j < a.len() && a[j] == b[b_lo];
    let i4 = choose|j: int| 0 <= j < a.len() && a[j] == b[b_hi];
    assert(axis.of(b[i1].centroid) >= axis.of(centroid_hull(b).min_point));
    assert(axis.of(b[i2].centroid) <= axis.of(centroid_hull(b).max_point));
    assert(axis.of(a[i3].centroid) >= axis.of(centroid_hull(a).min_point));
    assert(axis.of(a[i4].centroid) <= axis.of(centroid_hull(a).max_point));
}

/// The hull of the centroids is a single point exactly when all the
/// centroids are one point.
proof fn lemma_point_hull_means_one_centroid<P>(s: Seq<BVHPrimitiveInfo<P>>)
    requires
        s.len() > 0,
    ensures
        centroid_hull(s).min_point == centroid_hull(s).max_point <==> forall|i: int|
            0 <= i < s.len() ==> (#[trigger] s[i]).centroid == s[0].centroid,
{
    lemma_centroid_hull_is_tight(s, SplitAxis::X);
    lemma_centroid_hull_is_tight(s, SplitAxis::Y);
    lemma_centroid_hull_is_tight(s, SplitAxis::Z);
    let h = centroid_hull(s);
    if h.min_point == h.max_point {
        assert forall|i: int| 0 <= i < s.len() implies (#[trigger] s[i]).centroid == s[0].centroid by {
            assert(SplitAxis::X.of(s[i].centroid) == h.min_point.x);
            assert(SplitAxis::Y.of(s[i].centroid) == h.min_point.y);
            assert(SplitAxis::Z.of(s[i].centroid) == h.min_point.z);
            assert(SplitAxis::X.of(s[0].centroid) == h.min_point.x);
            assert(SplitAxis::Y.of(s[0].centroid) == h.min_point.y);
            assert(SplitAxis::Z.of(s[0].centroid) == h.min_point.z);
        }
    }
    if forall|i: int| 0 <= i < s.len() ==> (#[trigger] s[i]).centroid == s[0].centroid {
        let c = s[0].centroid;
        assert forall|axis: SplitAxis| true implies axis.of(h.min_point) == axis.of(c) && axis.of(
            h.max_point,
        ) == axis.of(c) by {
            lemma_centroid_hull_is_tight(s, axis);
            let lo = choose|j: int|
                0 <= j < s.len() && axis.of(#[trigger] s[j].centroid) == axis.of(h.min_point);
            let hi = choose|j: int|
                0 <= j < s.len() && axis.of(#[trigger] s[j].centroid) == axis.of(h.max_point);
            assert(s[lo].centroid == c && s[hi].centroid == c);
        }
        assert(SplitAxis::X.of(h.min_point) == SplitAxis::X.of(c));
        assert(SplitAxis::Y.of(h.min_point) == SplitAxis::Y.of(c));
        assert(SplitAxis::Z.of(h.min_point) == SplitAxis::Z.of(c));
        assert(SplitAxis::X.of(h.max_point) == SplitAxis::X.of(c));
        assert(SplitAxis::Y.of(h.max_point) == SplitAxis::Y.of(c));
        assert(SplitAxis::Z.of(h.max_point) == SplitAxis::Z.of(c));
    }
}

/// The sum of the centroids lies between the count times any lower bound
/// and the count times any upper bound, and strictly so on the side where
/// some centroid is off the bound.
proof fn lemma_sum_between<P>(s: Seq<BVHPrimitiveInfo<P>>, axis: SplitAxis, lo: int, hi: int)
    requires
        forall|j: int| 0 <= j < s.len() ==> lo <= axis.of(#[trigger] s[j].centroid) <= hi,
    ensures
        lo * s.len() <= centroid_sum(s, axis) <= hi * s.len(),
        (exists|j: int| 0 <= j < s.len() && axis.of(#[trigger] s[j].centroid) > lo) ==> lo * s.len()
            < centroid_sum(s, axis),
        (exists|j: int| 0 <= j < s.len() && axis.of(#[trigger] s[j].centroid) < hi) ==> centroid_sum(
            s,
            axis,
        ) < hi * s.len(),
    decreases s.len(),
{
    if s.len() == 0 {
    } else {
        let rest = s.drop_last();
        let last = s.len() - 1;
        assert forall|j: int| 0 <= j < rest.len() implies lo <= axis.of(#[trigger] rest[j].centroid)
            <= hi by {
            assert(rest[j] == s[j]);
        }
        lemma_sum_between(rest, axis, lo, hi);
        assert(lo * s.len() == lo * rest.len() + lo) by (nonlinear_arith)
            requires
                s.len() == rest.len() + 1,
        ;
        assert(hi * s.len() == hi * rest.len() + hi) by (nonlinear_arith)
            requires
                s.len() == rest.len() + 1,
        ;
        if exists|j: int| 0 <= j < s.len() && axis.of(#[trigger] s[j].centroid) > lo {
            let j = choose|j: int| 0 <= j < s.len() && axis.of(#[trigger] s[j].centroid) > lo;
            if j < last {
                assert(rest[j] == s[j]);
            }
        }
        if exists|j: int| 0 <= j < s.len() && axis.of(#[trigger] s[j].centroid) < hi {
            let j = choose|j: int| 0 <= j < s.len() && axis.of(#[trigger] s[j].centroid) < hi;
            if j < last {
                assert(rest[j] == s[j]);
            }
        }
    }
}

/// Parting items at the mean of their centroids, along the longest axis of a
/// hull that is more than a point, leaves items on both sides.
proof fn lemma_mean_parts_both_sides<P>(
    before: Seq<BVHPrimitiveInfo<P>>,
    after: Seq<BVHPrimitiveInfo<P>>,
    axis: SplitAxis,
    mid: int,
)
    requires
        before.len() > 0,
        centroid_hull(before).min_point != centroid_hull(before).max_point,
        axis == centroid_hull(before).longest_axis(),
        after.to_multiset() == before.to_multiset(),
        0 <= mid <= after.len(),
        forall|i: int|
            0 <= i < mid ==> below_mean(
                #[trigger] after[i].centroid,
                axis,
                centroid_sum(before, axis),
                before.len() as int,
            ),
        forall|i: int|
            mid <= i < after.len() ==> !below_mean(
                #[trigger] after[i].centroid,
                axis,
                centroid_sum(before, axis),
                before.len() as int,
            ),
    ensures
        0 < mid < after.len(),
        after.len() == before.len(),
{
    before.to_multiset_ensures();
    after.to_multiset_ensures();
    lemma_centroid_hull_is_tight(before, SplitAxis::X);
    lemma_centroid_hull_is_tight(before, SplitAxis::Y);
    lemma_centroid_hull_is_tight(before, SplitAxis::Z);
    lemma_centroid_hull_is_tight(before, axis);
    let h = centroid_hull(before);
    let lo = axis.of(h.min_point);
    let hi = axis.of(h.max_point);
    assert(lo < hi);
    let j_lo = choose|j: int| 0 <= j < before.len() && axis.of(#[trigger] before[j].centroid) == lo;
    let j_hi = choose|j: int| 0 <= j < before.len() && axis.of(#[trigger] before[j].centroid) == hi;
    lemma_sum_between(before, axis, lo, hi);
    assert(axis.of(before[j_hi].centroid) > lo);
    assert(axis.of(before[j_lo].centroid) < hi);
    lemma_same_items_contain(before, after, before[j_lo]);
    lemma_same_items_contain(before, after, before[j_hi]);
    let i_lo = choose|i: int| 0 <= i < after.len() && after[i] == before[j_lo];
    let i_hi = choose|i: int| 0 <= i < after.len() && after[i] == before[j_hi];
    assert(below_mean(after[i_lo].centroid, axis, centroid_sum(before, axis), before.len() as int));
    assert(!below_mean(after[i_hi].centroid, axis, centroid_sum(before, axis), before.len() as int));
}

/// Sequences with the same items hold the same primitives.
proof fn lemma_same_items_same_primitives<P>(
    a: Seq<BVHPrimitiveInfo<P>>,
    b: Seq<BVHPrimitiveInfo<P>>,
)
    requires
        a.to_multiset() == b.to_multiset(),
    ensures
        primitives_of(a).to_multiset() == primitives_of(b).to_multiset(),
    decreases a.len(),
{
    a.to_multiset_ensures();
    b.to_multiset_ensures();
    if a.len() == 0 {
        assert(b.len() == 0);
        assert(primitives_of(a) =~= primitives_of(b));
    } else {
        let x = a.last();
        assert(a.contains(x));
        lemma_same_items_contain(a, b, x);
        let j = choose|j: int| 0 <= j < b.len() && b[j] == x;
        assert(a.drop_last() == a.remove(a.len() - 1));
        lemma_same_items_same_primitives(a.drop_last(), b.remove(j));
        primitives_of(a).to_multiset_ensures();
        primitives_of(b).to_multiset_ensures();
        assert(primitives_of(a).remove(a.len() - 1) =~= primitives_of(a.drop_last()));
        assert(primitives_of(b).remove(j) =~= primitives_of(b.remove(j)));
        assert(primitives_of(a).to_multiset() =~= primitives_of(a.drop_last()).to_multiset().insert(
            x.primitive,
        ));
        assert(primitives_of(b).to_multiset() =~= primitives_of(b.remove(j)).to_multiset().insert(
            x.primitive,
        ));
    }
}

/// The hull of the items' boxes encloses the box of each item.
proof fn lemma_hull_encloses<P>(s: Seq<BVHPrimitiveInfo<P>>)
    requires
        s.len() > 0,
    ensures
        forall|j: int| 0 <= j < s.len() ==> hull(s).contains(#[trigger] s[j].bounds),
    decreases s.len(),
{
    if s.len() > 1 {
        let rest = s.drop_last();
        lemma_hull_encloses(rest);
        assert forall|j: int| 0 <= j < s.len() implies hull(s).contains(#[trigger] s[j].bounds) by {
            if j < s.len() - 1 {
                assert(rest[j] == s[j]);
                assert(hull(rest).contains(rest[j].bounds));
            }
        }
    }
}

/// The box of a node encloses the box of every primitive below the node.
/// This holds of every node of a tree, since every node of a well-formed
/// tree is the root of a well-formed tree.
pub proof fn lemma_bounds_enclose<P: Boundable>(node: BVHBuildNode<P>)
    requires
        node.wf(),
    ensures
        forall|i: int|
            0 <= i < node.infos().len() ==> node.bounds.contains(#[trigger] node.infos()[i].bounds),
    decreases node,
{
    match node.data {
        BVHBuildNodeData::PrimInfos(v) => {
            lemma_hull_encloses(v@);
        },
        BVHBuildNodeData::Children(c) => {
            lemma_bounds_enclose(c.0);
            lemma_bounds_enclose(c.1);
            let left = c.0.infos();
            let right = c.1.infos();
            assert forall|i: int| 0 <= i < node.infos().len() implies node.bounds.contains(
                #[trigger] node.infos()[i].bounds,
            ) by {
                if i < left.len() {
                    assert(node.infos()[i] == left[i]);
                    assert(c.0.bounds.contains(left[i].bounds));
                } else {
                    assert(node.infos()[i] == right[i - left.len()]);
                    assert(c.1.bounds.contains(right[i - left.len()].bounds));
                }
            }
        },
    }
}

/// The box of a node is no larger than it must be: along every axis, each
/// of its two faces touches the box of some primitive below the node.
pub proof fn lemma_bounds_are_tight<P: Boundable>(node: BVHBuildNode<P>, axis: SplitAxis)
    requires
        node.wf(),
    ensures
        exists|i: int|
            0 <= i < node.infos().len() && axis.of(node.bounds.min_point) == axis.of(
                (#[trigger] node.infos()[i]).bounds.min_point,
            ),
        exists|i: int|
            0 <= i < node.infos().len() && axis.of(node.bounds.max_point) == axis.of(
                (#[trigger] node.infos()[i]).bounds.max_point,
            ),
    decreases node,
{
    match node.data {
        BVHBuildNodeData::PrimInfos(v) => {
            lemma_hull_is_tight(v@, axis);
            assert(node.infos() == v@);
            let lo = choose|i: int|
                0 <= i < v@.len() && axis.of(hull(v@).min_point) == axis.of(
                    (#[trigger] v@[i]).bounds.min_point,
                );
            let hi = choose|i: int|
                0 <= i < v@.len() && axis.of(hull(v@).max_point) == axis.of(
                    (#[trigger] v@[i]).bounds.max_point,
                );
            assert(axis.of(node.bounds.min_point) == axis.of(node.infos()[lo].bounds.min_point));
            assert(axis.of(node.bounds.max_point) == axis.of(node.infos()[hi].bounds.max_point));
        },
        BVHBuildNodeData::Children(c) => {
            lemma_bounds_are_tight(c.0, axis);
            lemma_bounds_are_tight(c.1, axis);
            let left = c.0.infos();
            let right = c.1.infos();
            let l_lo = choose|i: int|
                0 <= i < left.len() && axis.of(c.0.bounds.min_point) == axis.of(
                    (#[trigger] left[i]).bounds.min_point,
                );
            let l_hi = choose|i: int|
                0 <= i < left.len() && axis.of(c.0.bounds.max_point) == axis.of(
                    (#[trigger] left[i]).bounds.max_point,
                );
            let r_lo = choose|i: int|
                0 <= i < right.len() && axis.of(c.1.bounds.min_point) == axis.of(
                    (#[trigger] right[i]).bounds.min_point,
                );
            let r_hi = choose|i: int|
                0 <= i < right.len() && axis.of(c.1.bounds.max_point) == axis.of(
                    (#[trigger] right[i]).bounds.max_point,
                );
            assert(node.infos()[l_lo] == left[l_lo] && node.infos()[l_hi] == left[l_hi]);
            assert(node.infos()[left.len() + r_lo] == right[r_lo]);
            assert(node.infos()[left.len() + r_hi] == right[r_hi]);
            assert(axis.of(node.bounds.min_point) == crate::bounds::min_int(
                axis.of(c.0.bounds.min_point),
                axis.of(c.1.bounds.min_point),
            ));
            assert(axis.of(node.bounds.max_point) == crate::bounds::max_int(
                axis.of(c.0.bounds.max_point),
                axis.of(c.1.bounds.max_point),
            ));
            if axis.of(c.0.bounds.min_point) <= axis.of(c.1.bounds.min_point) {
                assert(axis.of(node.bounds.min_point) == axis.of(node.infos()[l_lo].bounds.min_point));
            } else {
                assert(axis.of(node.bounds.min_point) == axis.of(
                    node.infos()[left.len() + r_lo].bounds.min_point,
                ));
            }
            if axis.of(c.0.bounds.max_point) >= axis.of(c.1.bounds.max_point) {
                assert(axis.of(node.bounds.max_point) == axis.of(node.infos()[l_hi].bounds.max_point));
            } else {
                assert(axis.of(node.bounds.max_point) == axis.of(
                    node.infos()[left.len() + r_hi].bounds.max_point,
                ));
            }
        },
    }
}

/// Along every axis, each face of the hull touches the box of some item.
proof fn lemma_hull_is_tight<P>(s: Seq<BVHPrimitiveInfo<P>>, axis: SplitAxis)
    requires
        s.len() > 0,
    ensures
        exists|i: int|
            0 <= i < s.len() && axis.of(hull(s).min_point) == axis.of((#[trigger] s[i]).bounds.min_point),
        exists|i: int|
            0 <= i < s.len() && axis.of(hull(s).max_point) == axis.of((#[trigger] s[i]).bounds.max_point),
    decreases s.len(),
{
    if s.len() == 1 {
        assert(axis.of(hull(s).min_point) == axis.of(s[0].bounds.min_point));
        assert(axis.of(hull(s).max_point) == axis.of(s[0].bounds.max_point));
    } else {
        let rest = s.drop_last();
        lemma_hull_is_tight(rest, axis);
        let lo = choose|i: int|
            0 <= i < rest.len() && axis.of(hull(rest).min_point) == axis.of(
                (#[trigger] rest[i]).bounds.min_point,
            );
        let hi = choose|i: int|
            0 <= i < rest.len() && axis.of(hull(rest).max_point) == axis.of(
                (#[trigger] rest[i]).bounds.max_point,
            );
        let last = s.len() - 1;
        assert(rest[lo] == s[lo] && rest[hi] == s[hi]);
        if axis.of(s[last].bounds.min_point) < axis.of(hull(rest).min_point) {
            assert(axis.of(hull(s).min_point) == axis.of(s[last].bounds.min_point));
        } else {
            assert(axis.of(hull(s).min_point) == axis.of(s[lo].bounds.min_point));
        }
        if axis.of(s[last].bounds.max_point) > axis.of(hull(rest).max_point) {
            assert(axis.of(hull(s).max_point) == axis.of(s[last].bounds.max_point));
        } else {
            assert(axis.of(hull(s).max_point) == axis.of(s[hi].bounds.max_point));
        }
    }
}

/// The counts that a node keeps are those of the tree below it: `n_prims`
/// is the number of primitives, which the two children of an interior node
/// share between them, and `n_nodes` is the number of leaves. No path from
/// the node down to a leaf is longer than the number of leaves.
pub proof fn lemma_counts_add_up<P: Boundable>(node: BVHBuildNode<P>)
    requires
        node.wf(),
    ensures
        node.n_prims == node.infos().len(),
        1 <= node.n_nodes <= node.n_prims,
        node.size() == 2 * node.n_nodes - 1,
        node.height() <= node.n_nodes,
        node.data matches BVHBuildNodeData::Children(c) ==> c.0.infos().len() + c.1.infos().len()
            == node.infos().len() && c.0.n_prims + c.1.n_prims == node.n_prims,
    decreases node,
{
    match node.data {
        BVHBuildNodeData::PrimInfos(_) => {},
        BVHBuildNodeData::Children(c) => {
            lemma_counts_add_up(c.0);
            lemma_counts_add_up(c.1);
        },
    }
}

/// In a tree that was split at the mean, over primitives of which no two
/// have one centroid, no leaf holds more primitives than the limit.
pub proof fn lemma_leaves_keep_the_limit<P: Boundable>(node: BVHBuildNode<P>, prims_per_leaf: usize)
    requires
        node.wf(),
        node.split_at_mean(prims_per_leaf),
        prims_per_leaf >= 1,
        centroids_differ(node.infos()),
    ensures
        node.largest_leaf() <= prims_per_leaf,
    decreases node,
{
    match node.data {
        BVHBuildNodeData::PrimInfos(v) => {
            lemma_point_hull_means_one_centroid(v@);
            if v@.len() >= 2 {
                assert(v@[0].centroid != v@[1].centroid);
            }
        },
        BVHBuildNodeData::Children(c) => {
            let left = c.0.infos();
            let right = c.1.infos();
            assert forall|i: int, j: int| 0 <= i < j < left.len() implies left[i].centroid
                != left[j].centroid by {
                assert(node.infos()[i] == left[i] && node.infos()[j] == left[j]);
            }
            assert forall|i: int, j: int| 0 <= i < j < right.len() implies right[i].centroid
                != right[j].centroid by {
                assert(node.infos()[left.len() + i] == right[i]);
                assert(node.infos()[left.len() + j] == right[j]);
            }
            lemma_leaves_keep_the_limit(c.0, prims_per_leaf);
            lemma_leaves_keep_the_limit(c.1, prims_per_leaf);
        },
    }
}

} // verus!
