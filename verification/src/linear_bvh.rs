use std::collections::VecDeque;
use vstd::prelude::*;
use crate::bounded_volume_hierarchy::{
    primitives_of, BVHBuildNode, BVHBuildNodeData, BVHPrimitiveInfo,
};
use crate::bounds::Bounds;
use crate::nearest::{holds_lawful, lemma_tree_finds_nearest, nearest, primitives_below, reached};
use crate::ray::Ray;
use crate::raytracer::Collision;
use crate::traits::{closest_in, intersect_collection, latest, same_hit, shortened, Boundable, Drawable};
use crate::vectors::{SplitAxis, V3};

verus! {

/// What a flattened node holds: the primitives of a leaf, or the places of
/// the two children in the same array.
#[derive(Debug)]
pub enum BVHFlatNodeData<P> {
    Children((usize, usize)),
    Prims(Vec<P>),
}

/// A node of the hierarchy in its flattened form.
#[derive(Debug)]
pub struct BVHFlatNode<P> {
    pub split_axis: SplitAxis,
    pub bounds: Bounds,
    pub data: BVHFlatNodeData<P>,
}

/// The contents of a flattened node, as a mathematical value.
pub enum LinearData<P> {
    Children(int, int),
    Prims(Seq<P>),
}

/// A flattened node, as a mathematical value.
pub struct LinearNode<P> {
    pub split_axis: SplitAxis,
    pub bounds: Bounds,
    pub data: LinearData<P>,
}

impl<P> View for BVHFlatNode<P> {
    type V = LinearNode<P>;

    open spec fn view(&self) -> LinearNode<P> {
        LinearNode {
            split_axis: self.split_axis,
            bounds: self.bounds,
            data: match self.data {
                BVHFlatNodeData::Children(c) => LinearData::Children(c.0 as int, c.1 as int),
                BVHFlatNodeData::Prims(v) => LinearData::Prims(v@),
            },
        }
    }
}

/// The hierarchy as one array of nodes, the root first, each interior node
/// naming the places of its children. It is made once from a tree and only
/// read afterwards.
pub struct BVHFlat<P: Boundable> {
    nodes: Vec<BVHFlatNode<P>>,
    // The tree that the array was made from.
    source: Ghost<BVHBuildNode<P>>,
}

/// The nodes of an array, as mathematical values.
pub open spec fn linear_view<P>(nodes: Seq<BVHFlatNode<P>>) -> Seq<LinearNode<P>> {
    nodes.map_values(|n: BVHFlatNode<P>| n@)
}

/// The number of nodes in all the trees of a queue.
pub open spec fn total_size<P: Boundable>(queue: Seq<BVHBuildNode<P>>) -> nat
    decreases queue.len(),
{
    if queue.len() == 0 {
        0
    } else {
        queue[0].size() + total_size(queue.drop_first())
    }
}

/// The flattened form of a tree node whose children, if it has any, stand at
/// `first_child` and `first_child + 1`.
pub open spec fn flattened_node<P: Boundable>(node: BVHBuildNode<P>, first_child: int) -> LinearNode<
    P,
> {
    LinearNode {
        split_axis: node.split_axis,
        bounds: node.bounds,
        data: match node.data {
            BVHBuildNodeData::PrimInfos(v) => LinearData::Prims(primitives_of(v@)),
            BVHBuildNodeData::Children(_) => LinearData::Children(first_child, first_child + 1),
        },
    }
}

/// The nodes that breadth-first flattening still has to write, when `base`
/// nodes are written and the trees of `queue` wait, in this order.
///
/// The first tree of the queue is written next, at `base`. Its children, if
/// it has any, join the end of the queue, so they will stand right behind
/// everything that waits now: at `base + queue.len()` and the place after.
pub open spec fn breadth_first<P: Boundable>(queue: Seq<BVHBuildNode<P>>, base: int) -> Seq<
    LinearNode<P>,
>
    decreases total_size(queue),
{
    if queue.len() == 0 {
        Seq::empty()
    } else {
        let node = queue[0];
        let rest = queue.drop_first();
        let first_child = base + 1 + rest.len();
        match node.data {
            BVHBuildNodeData::PrimInfos(_) => seq![flattened_node(node, first_child)]
                + breadth_first(rest, base + 1),
            BVHBuildNodeData::Children(c) => {
                proof {
                    lemma_total_size_push(rest, c.0);
                    lemma_total_size_push(rest.push(c.0), c.1);
                }
                seq![flattened_node(node, first_child)] + breadth_first(
                    rest.push(c.0).push(c.1),
                    base + 1,
                )
            },
        }
    }
}

/// Whether every child named in the array stands in the array, behind its
/// parent.
pub open spec fn linked<P>(nodes: Seq<LinearNode<P>>) -> bool {
    &&& nodes.len() > 0
    &&& forall|i: int|
        0 <= i < nodes.len() ==> (#[trigger] nodes[i].data matches LinearData::Children(a, b) ==> i
            < a < nodes.len() && i < b < nodes.len())
}

/// Whether the array holds, from `index` on, the tree below `node`, node
/// for node: the same box and axis, the primitives of a leaf without their
/// wrapping, and for an interior node two places behind it that hold its
/// two children in the same way.
pub open spec fn mirrors<P: Boundable>(nodes: Seq<LinearNode<P>>, index: int, node: BVHBuildNode<P>) -> bool
    decreases node,
{
    &&& 0 <= index < nodes.len()
    &&& nodes[index].bounds == node.bounds
    &&& nodes[index].split_axis == node.split_axis
    &&& match node.data {
        BVHBuildNodeData::PrimInfos(v) => nodes[index].data == LinearData::Prims(primitives_of(v@)),
        BVHBuildNodeData::Children(c) => match nodes[index].data {
            LinearData::Children(a, b) => {
                &&& index < a < nodes.len()
                &&& index < b < nodes.len()
                &&& mirrors(nodes, a, c.0)
                &&& mirrors(nodes, b, c.1)
            },
            LinearData::Prims(_) => false,
        },
    }
}

/// The hit that traversal from the node at `index` reports.
///
/// A node whose box the ray misses reports nothing. A leaf tests its
/// primitives in order. An interior node asks first the child on the side
/// the ray comes from, then the other with the ray shortened by what the
/// first reported.
pub open spec fn linear_hit<P: Drawable>(nodes: Seq<LinearNode<P>>, index: int, ray: Ray) -> Option<
    Collision,
>
    decreases nodes.len() - index,
{
    if 0 <= index < nodes.len() && nodes[index].bounds.meets(ray) {
        match nodes[index].data {
            LinearData::Prims(prims) => closest_in(prims, ray),
            LinearData::Children(a, b) => {
                if index < a < nodes.len() && index < b < nodes.len() {
                    let (near, far) = if ray.heads_down(nodes[index].split_axis) {
                        (b, a)
                    } else {
                        (a, b)
                    };
                    let found = linear_hit(nodes, near, ray);
                    latest(found, linear_hit(nodes, far, shortened(ray, found)))
                } else {
                    None
                }
            },
        }
    } else {
        None
    }
}

pub proof fn lemma_total_size_push<P: Boundable>(queue: Seq<BVHBuildNode<P>>, node: BVHBuildNode<P>)
    ensures
        total_size(queue.push(node)) == total_size(queue) + node.size(),
    decreases queue.len(),
{
    if queue.len() == 0 {
        assert(queue.push(node).drop_first() =~= queue);
    } else {
        lemma_total_size_push(queue.drop_first(), node);
        assert(queue.push(node).drop_first() =~= queue.drop_first().push(node));
    }
}

/// The work that traversal from the node at `index` may take: one step for
/// the node and the work of its children.
pub open spec fn weight<P>(nodes: Seq<LinearNode<P>>, index: int) -> nat
    decreases nodes.len() - index,
{
    if 0 <= index < nodes.len() {
        match nodes[index].data {
            LinearData::Prims(_) => 1,
            LinearData::Children(a, b) => {
                if index < a < nodes.len() && index < b < nodes.len() {
                    1 + weight(nodes, a) + weight(nodes, b)
                } else {
                    1
                }
            },
        }
    } else {
        1
    }
}

/// The work that the nodes on a stack may take.
pub open spec fn stack_weight<P>(nodes: Seq<LinearNode<P>>, stack: Seq<usize>) -> nat
    decreases stack.len(),
{
    if stack.len() == 0 {
        0
    } else {
        stack_weight(nodes, stack.drop_last()) + weight(nodes, stack.last() as int)
    }
}

/// The hit that remains once every node on the stack has been traversed,
/// the top of the stack first, when `found` is the hit so far.
pub open spec fn drained<P: Drawable>(
    nodes: Seq<LinearNode<P>>,
    stack: Seq<usize>,
    ray: Ray,
    found: Option<Collision>,
) -> Option<Collision>
    decreases stack.len(),
{
    if stack.len() == 0 {
        found
    } else {
        drained(
            nodes,
            stack.drop_last(),
            ray,
            latest(found, linear_hit(nodes, stack.last() as int, shortened(ray, found))),
        )
    }
}

impl<P: Boundable> BVHFlat<P> {
    #[verifier::type_invariant]
    spec fn inv(self) -> bool {
        &&& linked(linear_view(self.nodes@))
        &&& linear_view(self.nodes@) == breadth_first(seq![self.source@], 0)
    }

    /// The tree that the array was made from.
    pub closed spec fn tree(self) -> BVHBuildNode<P> {
        self.source@
    }

    /// A node that keeps a place in the array until the real one is written:
    /// an interior node without extent that holds no primitive and names the
    /// root as both its children.
    fn placeholder() -> (node: BVHFlatNode<P>)
        ensures
            node@ == (LinearNode::<P> {
                split_axis: SplitAxis::X,
                bounds: Bounds::point(V3 { x: 0, y: 0, z: 0 }),
                data: LinearData::Children(0, 0),
            }),
    {
        BVHFlatNode {
            split_axis: SplitAxis::X,
            bounds: Bounds { min_point: V3 { x: 0, y: 0, z: 0 }, max_point: V3 { x: 0, y: 0, z: 0 } },
            data: BVHFlatNodeData::Children((0, 0)),
        }
    }

    /// The smallest power of two that is at least `n_nodes`, or the largest
    /// power of two there is where none is large enough. It is the room
    /// that the array is given at the start.
    pub fn capacity_for(n_nodes: usize) -> (capacity: usize)
        ensures
            is_power_of_two(capacity as int),
            capacity >= n_nodes || capacity > usize::MAX / 2,
            capacity == 1 || capacity / 2 < n_nodes,
    {
        let mut capacity: usize = 1;
        while capacity < n_nodes && capacity <= usize::MAX / 2
            invariant
                is_power_of_two(capacity as int),
                capacity == 1 || capacity / 2 < n_nodes,
            decreases usize::MAX - capacity,
        {
            capacity = capacity * 2;
        }
        capacity
    }
}

/// Whether `n` is 1, 2, 4, 8, ...
pub open spec fn is_power_of_two(n: int) -> bool
    decreases n,
{
    n == 1 || (n > 1 && n % 2 == 0 && is_power_of_two(n / 2))
}

impl<P: Boundable> View for BVHFlat<P> {
    type V = Seq<LinearNode<P>>;

    closed spec fn view(&self) -> Seq<LinearNode<P>> {
        linear_view(self.nodes@)
    }
}

impl<P: Boundable> BVHFlat<P> {
    /// Takes the primitives out of their build-time wrapping.
    fn strip(prim_infos: Vec<BVHPrimitiveInfo<P>>) -> (prims: Vec<P>)
        ensures
            prims@ == primitives_of(prim_infos@),
    {
        let ghost given = prim_infos@;
        let mut prims: Vec<P> = Vec::with_capacity(prim_infos.len());
        for info in it: prim_infos
            invariant
                it.seq() == given,
                prims@.len() == it.index(),
                forall|j: int| 0 <= j < it.index() ==> #[trigger] prims@[j] == given[j].primitive,
        {
            prims.push(info.primitive);
        }
        assert(prims@ =~= primitives_of(given));
        prims
    }

    /// The nodes of the array, the root first.
    pub fn nodes(&self) -> (nodes: &Vec<BVHFlatNode<P>>)
        ensures
            linear_view(nodes@) == self@,
            linked(self@),
            self@ == breadth_first(seq![self.tree()], 0),
    {
        proof {
            use_type_invariant(self);
        }
        &self.nodes
    }

    /// Walks the array for one ray and returns the hit that remains.
    ///
    /// The places still to visit are kept on a stack. A leaf's primitives
    /// are tested in order, each hit drawing in the ray's far limit. An
    /// interior node puts its children on the stack so that the one on the
    /// side the ray comes from is visited first.
    fn intersect_stack(&self, ray: Ray) -> (collision: Option<Collision>)
        ensures
            same_hit(collision, linear_hit(self@, 0, ray)),
    {
        proof {
            use_type_invariant(self);
        }
        let ghost nodes = self@;
        let ghost start = ray;
        let ghost mut found: Option<Collision> = None;
        let mut ray = ray;
        let mut collision: Option<Collision> = None;
        let mut offset_stack: Vec<usize> = Vec::with_capacity(128);
        offset_stack.push(0);
        proof {
            assert(offset_stack@.drop_last() =~= Seq::<usize>::empty());
            assert(drained(nodes, offset_stack@.drop_last(), start, linear_hit(nodes, 0, start))
                == linear_hit(nodes, 0, start));
        }
        while offset_stack.len() > 0
            invariant
                nodes == linear_view(self.nodes@),
                linked(nodes),
                forall|k: int| 0 <= k < offset_stack@.len() ==> #[trigger] offset_stack@[k] < nodes.len(),
                same_hit(collision, found),
                ray == shortened(start, found),
                drained(nodes, offset_stack@, start, found) == linear_hit(nodes, 0, start),
            decreases stack_weight(nodes, offset_stack@),
        {
            let ghost stack = offset_stack@;
            let current_offset = offset_stack.pop().unwrap();
            let ghost rest = offset_stack@;
            proof {
                assert(rest =~= stack.drop_last());
                assert(current_offset == stack.last());
                assert(nodes[current_offset as int] == self.nodes@[current_offset as int]@);
            }
            let node = &self.nodes[current_offset];
            proof {
                assert(stack_weight(nodes, stack) == stack_weight(nodes, rest) + weight(
                    nodes,
                    current_offset as int,
                ));
                assert(drained(nodes, stack, start, found) == drained(
                    nodes,
                    rest,
                    start,
                    latest(found, linear_hit(nodes, current_offset as int, ray)),
                ));
            }
            if node.bounds.intersects(&ray) {
                match &node.data {
                    BVHFlatNodeData::Prims(prims) => {
                        assert(linear_hit(nodes, current_offset as int, ray) == closest_in(prims@, ray));
                        if let Some(coll) = intersect_collection(prims.as_slice(), ray) {
                            proof {
                                found = linear_hit(nodes, current_offset as int, ray);
                            }
                            ray.max = coll.t;
                            collision = Some(coll);
                        }
                    },
                    BVHFlatNodeData::Children(child_offsets) => {
                        // The child put on the stack last is visited first.
                        let (near, far) = if ray.points_down(node.split_axis) {
                            (child_offsets.1, child_offsets.0)
                        } else {
                            (child_offsets.0, child_offsets.1)
                        };
                        offset_stack.push(far);
                        offset_stack.push(near);
                        proof {
                            let with_far = rest.push(far);
                            assert(offset_stack@ =~= with_far.push(near));
                            assert(offset_stack@.drop_last() =~= with_far);
                            assert(with_far.drop_last() =~= rest);
                            assert(with_far.last() == far);
                            assert(offset_stack@.last() == near);
                            assert(current_offset < near < nodes.len());
                            assert(current_offset < far < nodes.len());
                            let first = linear_hit(nodes, near as int, ray);
                            let second = linear_hit(nodes, far as int, shortened(ray, first));
                            assert(linear_hit(nodes, current_offset as int, ray) == latest(first, second));
                            assert(shortened(start, latest(found, first)) == shortened(ray, first));
                            assert(latest(latest(found, first), second) == latest(found, latest(first, second)));
                            assert(drained(nodes, offset_stack@, start, found) == drained(
                                nodes,
                                with_far,
                                start,
                                latest(found, first),
                            ));
                            assert(drained(nodes, with_far, start, latest(found, first)) == drained(
                                nodes,
                                rest,
                                start,
                                latest(latest(found, first), second),
                            ));
                            assert(stack_weight(nodes, offset_stack@) == stack_weight(nodes, with_far)
                                + weight(nodes, near as int));
                            assert(stack_weight(nodes, with_far) == stack_weight(nodes, rest) + weight(
                                nodes,
                                far as int,
                            ));
                            assert(weight(nodes, current_offset as int) == 1 + weight(nodes, near as int)
                                + weight(nodes, far as int));
                        }
                    },
                }
            } else {
                assert(linear_hit(nodes, current_offset as int, ray) is None);
            }
        }
        collision
    }
}

impl<P: Boundable> From<BVHBuildNode<P>> for BVHFlat<P> {
    /// Flattens a tree, breadth first.
    ///
    /// The root is written at index 0. Each node is written in the order in
    /// which it was found, and an interior node records where its two
    /// children will be written: side by side, behind every node that was
    /// found before them. The primitives of a leaf are kept without the box
    /// and centroid that the builder had put around them.
    fn from(root: BVHBuildNode<P>) -> (flat: BVHFlat<P>)
        ensures
            flat@ == breadth_first(seq![root], 0),
            flat.tree() == root,
    {
        let ghost given = root;
        let capacity = BVHFlat::<P>::capacity_for(root.n_nodes);
        let mut array: Vec<BVHFlatNode<P>> = Vec::with_capacity(capacity);
        let mut node_queue: VecDeque<BVHBuildNode<P>> = VecDeque::with_capacity(128);
        let ghost whole = breadth_first(seq![root], 0);
        // Every node that waits in the queue has its place in the array
        // already, so each place is an index of the array.
        array.push(BVHFlat::<P>::placeholder());
        node_queue.push_back(root);
        let mut done: usize = 0;
        proof {
            assert(linear_view(array@.take(0)) =~= Seq::empty());
            assert(node_queue@ =~= seq![root]);
        }
        while node_queue.len() > 0
            invariant
                done + node_queue@.len() == array@.len(),
                linear_view(array@.take(done as int)) + breadth_first(node_queue@, done as int)
                    == whole,
            decreases total_size(node_queue@),
        {
            let ghost waiting = node_queue@;
            let ghost written = array@.take(done as int);
            let current_node = node_queue.pop_front().unwrap();
            let ghost rest = node_queue@;
            proof {
                assert(rest =~= waiting.drop_first());
                assert(current_node == waiting[0]);
            }
            let BVHBuildNode { bounds, split_axis, n_prims: _, n_nodes: _, data } = current_node;
            match data {
                BVHBuildNodeData::PrimInfos(prim_infos) => {
                    let prims = BVHFlat::<P>::strip(prim_infos);
                    array[done] = BVHFlatNode {
                        split_axis,
                        bounds,
                        data: BVHFlatNodeData::Prims(prims),
                    };
                },
                BVHBuildNodeData::Children(children) => {
                    let first_child_offset = array.len();
                    array.push(BVHFlat::<P>::placeholder());
                    let second_child_offset = array.len();
                    array.push(BVHFlat::<P>::placeholder());
                    array[done] = BVHFlatNode {
                        split_axis,
                        bounds,
                        data: BVHFlatNodeData::Children((first_child_offset, second_child_offset)),
                    };
                    let (first, second) = *children;
                    proof {
                        lemma_total_size_push(rest, first);
                        lemma_total_size_push(rest.push(first), second);
                    }
                    node_queue.push_back(first);
                    node_queue.push_back(second);
                },
            }
            proof {
                let flattened = flattened_node(current_node, done + 1 + rest.len());
                assert(array@[done as int]@ == flattened);
                assert(array@.take(done + 1) =~= written.push(array@[done as int]));
                assert(linear_view(array@.take(done + 1)) =~= linear_view(written) + seq![flattened]);
                assert(breadth_first(waiting, done as int) == seq![flattened] + breadth_first(
                    node_queue@,
                    done + 1,
                ));
                assert(linear_view(array@.take(done + 1)) + breadth_first(node_queue@, done + 1)
                    =~= linear_view(written) + breadth_first(waiting, done as int));
            }
            assert(done < array.len());
            done += 1;
        }
        proof {
            assert(whole.skip(0) =~= whole);
            assert(array@.take(done as int) =~= array@);
            assert(linear_view(array@) + Seq::<LinearNode<P>>::empty() =~= linear_view(array@));
            lemma_breadth_first_is_linked(whole, seq![root], 0);
            lemma_total_size_push(Seq::<BVHBuildNode<P>>::empty(), root);
            assert(Seq::<BVHBuildNode<P>>::empty().push(root) =~= seq![root]);
            lemma_breadth_first_len(seq![root], 0);
        }
        BVHFlat { nodes: array, source: Ghost(given) }
    }
}

impl<P: Boundable> vstd::std_specs::convert::FromSpecImpl<BVHBuildNode<P>> for BVHFlat<P> {
    /// The contract of `from` is stated over the view of its result.
    open spec fn obeys_from_spec() -> bool {
        false
    }

    open spec fn from_spec(root: BVHBuildNode<P>) -> Self {
        arbitrary()
    }
}

impl<P: Boundable> Drawable for BVHFlat<P> {
    open spec fn hit(&self, ray: Ray) -> Option<Collision> {
        linear_hit(self@, 0, ray)
    }

    /// Walks the array for one ray. What is reported is what the tree that
    /// the array was made from reports, and over lawful primitives it is
    /// the hit nearest along the ray.
    fn intersect(&self, ray: Ray) -> (c: Option<Collision>)
        ensures
            same_hit(c, self.tree().hit(ray)),
            holds_lawful(self.tree()) ==> reached(c) == nearest(primitives_below(self.tree()), ray),
    {
        proof {
            use_type_invariant(self);
            lemma_flat_and_tree_agree(self.tree(), *self, ray);
            if holds_lawful(self.tree()) {
                lemma_tree_finds_nearest(self.tree(), ray);
            }
        }
        self.intersect_stack(ray)
    }
}

/// Flattening writes one node for each node of the trees that wait.
pub proof fn lemma_breadth_first_len<P: Boundable>(queue: Seq<BVHBuildNode<P>>, base: int)
    ensures
        breadth_first(queue, base).len() == total_size(queue),
        total_size(queue) >= queue.len(),
    decreases total_size(queue),
{
    if queue.len() > 0 {
        let node = queue[0];
        let rest = queue.drop_first();
        match node.data {
            BVHBuildNodeData::PrimInfos(_) => {
                lemma_breadth_first_len(rest, base + 1);
            },
            BVHBuildNodeData::Children(c) => {
                lemma_total_size_push(rest, c.0);
                lemma_total_size_push(rest.push(c.0), c.1);
                lemma_breadth_first_len(rest.push(c.0).push(c.1), base + 1);
            },
        }
    }
}

/// In an array whose nodes from `base` on are those that flattening writes
/// for the trees of `queue`, each of these nodes finds its children in the
/// array, behind itself.
proof fn lemma_breadth_first_is_linked<P: Boundable>(
    all: Seq<LinearNode<P>>,
    queue: Seq<BVHBuildNode<P>>,
    base: int,
)
    requires
        0 <= base <= all.len(),
        all.skip(base) == breadth_first(queue, base),
    ensures
        forall|i: int|
            base <= i < all.len() ==> (#[trigger] all[i].data matches LinearData::Children(a, b) ==> i
                < a < all.len() && i < b < all.len()),
    decreases total_size(queue),
{
    lemma_breadth_first_len(queue, base);
    if queue.len() > 0 {
        let node = queue[0];
        let rest = queue.drop_first();
        let next = match node.data {
            BVHBuildNodeData::PrimInfos(_) => rest,
            BVHBuildNodeData::Children(c) => rest.push(c.0).push(c.1),
        };
        if let BVHBuildNodeData::Children(c) = node.data {
            lemma_total_size_push(rest, c.0);
            lemma_total_size_push(rest.push(c.0), c.1);
        }
        assert(all.skip(base)[0] == all[base]);
        assert(all.skip(base + 1) =~= all.skip(base).skip(1));
        assert(all.skip(base).skip(1) =~= breadth_first(next, base + 1));
        lemma_breadth_first_len(next, base + 1);
        lemma_breadth_first_is_linked(all, next, base + 1);
        assert(all.len() == base + 1 + total_size(next));
    }
}

/// Testing the items of a leaf is testing their primitives.
pub proof fn lemma_closest_in_primitives<P: Boundable>(infos: Seq<BVHPrimitiveInfo<P>>, ray: Ray)
    ensures
        closest_in(primitives_of(infos), ray) == closest_in(infos, ray),
    decreases infos.len(),
{
    if infos.len() > 0 {
        lemma_closest_in_primitives(infos.drop_last(), ray);
        assert(primitives_of(infos).drop_last() =~= primitives_of(infos.drop_last()));
        assert(primitives_of(infos).last() == infos.last().primitive);
    }
}

/// In an array whose nodes from `base` on are those that flattening writes
/// for the trees of `queue`, traversal from the place of each of these trees
/// reports what traversal of the tree reports.
proof fn lemma_breadth_first_keeps_hits<P: Boundable>(
    all: Seq<LinearNode<P>>,
    queue: Seq<BVHBuildNode<P>>,
    base: int,
)
    requires
        0 <= base <= all.len(),
        all.skip(base) == breadth_first(queue, base),
    ensures
        forall|j: int, ray: Ray|
            0 <= j < queue.len() ==> linear_hit(all, base + j, ray) == #[trigger] queue[j].closest(ray),
    decreases total_size(queue),
{
    lemma_breadth_first_len(queue, base);
    if queue.len() > 0 {
        let node = queue[0];
        let rest = queue.drop_first();
        let next = match node.data {
            BVHBuildNodeData::PrimInfos(_) => rest,
            BVHBuildNodeData::Children(c) => rest.push(c.0).push(c.1),
        };
        if let BVHBuildNodeData::Children(c) = node.data {
            lemma_total_size_push(rest, c.0);
            lemma_total_size_push(rest.push(c.0), c.1);
        }
        assert(all.skip(base)[0] == all[base]);
        assert(all.skip(base + 1) =~= all.skip(base).skip(1));
        assert(all.skip(base).skip(1) =~= breadth_first(next, base + 1));
        lemma_breadth_first_len(next, base + 1);
        lemma_breadth_first_keeps_hits(all, next, base + 1);
        assert(all.len() == base + 1 + total_size(next));
        assert forall|j: int, ray: Ray| 0 <= j < queue.len() implies linear_hit(all, base + j, ray)
            == #[trigger] queue[j].closest(ray) by {
            if j > 0 {
                assert(queue[j] == next[j - 1]);
                assert(linear_hit(all, base + 1 + (j - 1), ray) == next[j - 1].closest(ray));
            } else {
                match node.data {
                    BVHBuildNodeData::PrimInfos(v) => {
                        lemma_closest_in_primitives(v@, ray);
                    },
                    BVHBuildNodeData::Children(c) => {
                        let a = base + 1 + rest.len();
                        assert(next[rest.len() as int] == c.0);
                        assert(next[rest.len() as int + 1] == c.1);
                        assert(all[base].data == LinearData::<P>::Children(a, a + 1));
                        if node.bounds.meets(ray) {
                            if ray.heads_down(node.split_axis) {
                                let found = c.1.closest(ray);
                                assert(linear_hit(all, base + 1 + (rest.len() + 1), ray) == found);
                                assert(linear_hit(all, base + 1 + rest.len(), shortened(ray, found))
                                    == c.0.closest(shortened(ray, found)));
                            } else {
                                let found = c.0.closest(ray);
                                assert(linear_hit(all, base + 1 + rest.len(), ray) == found);
                                assert(linear_hit(all, base + 1 + (rest.len() + 1), shortened(ray, found))
                                    == c.1.closest(shortened(ray, found)));
                            }
                        }
                    },
                }
            }
        }
    }
}

/// The two forms of a hierarchy answer every ray alike: what the flattened
/// form of a tree reports for a ray is what the tree reports, be it the same
/// hit or none.
pub proof fn lemma_flat_and_tree_agree<P: Boundable>(root: BVHBuildNode<P>, flat: BVHFlat<P>, ray: Ray)
    requires
        flat@ == breadth_first(seq![root], 0),
    ensures
        flat.hit(ray) == root.hit(ray),
{
    let all = breadth_first(seq![root], 0);
    assert(all.skip(0) =~= all);
    lemma_breadth_first_keeps_hits(all, seq![root], 0);
    assert(seq![root][0] == root);
    assert(linear_hit(all, 0int + 0int, ray) == seq![root][0].closest(ray));
}

/// In an array whose nodes from `base` on are those that flattening writes
/// for the trees of `queue`, each of these trees is held node for node from
/// its place on.
proof fn lemma_breadth_first_mirrors<P: Boundable>(
    all: Seq<LinearNode<P>>,
    queue: Seq<BVHBuildNode<P>>,
    base: int,
)
    requires
        0 <= base <= all.len(),
        all.skip(base) == breadth_first(queue, base),
    ensures
        forall|j: int| 0 <= j < queue.len() ==> mirrors(all, base + j, #[trigger] queue[j]),
    decreases total_size(queue),
{
    lemma_breadth_first_len(queue, base);
    if queue.len() > 0 {
        let node = queue[0];
        let rest = queue.drop_first();
        let next = match node.data {
            BVHBuildNodeData::PrimInfos(_) => rest,
            BVHBuildNodeData::Children(c) => rest.push(c.0).push(c.1),
        };
        if let BVHBuildNodeData::Children(c) = node.data {
            lemma_total_size_push(rest, c.0);
            lemma_total_size_push(rest.push(c.0), c.1);
        }
        assert(all.skip(base)[0] == all[base]);
        assert(all.skip(base + 1) =~= all.skip(base).skip(1));
        assert(all.skip(base).skip(1) =~= breadth_first(next, base + 1));
        lemma_breadth_first_len(next, base + 1);
        lemma_breadth_first_mirrors(all, next, base + 1);
        assert(all.len() == base + 1 + total_size(next));
        assert forall|j: int| 0 <= j < queue.len() implies mirrors(all, base + j, #[trigger] queue[j]) by {
            if j > 0 {
                assert(queue[j] == next[j - 1]);
                assert(mirrors(all, base + 1 + (j - 1), next[j - 1]));
            } else {
                match node.data {
                    BVHBuildNodeData::PrimInfos(v) => {},
                    BVHBuildNodeData::Children(c) => {
                        let a = base + 1 + rest.len();
                        assert(next[rest.len() as int] == c.0);
                        assert(next[rest.len() as int + 1] == c.1);
                        assert(all[base].data == LinearData::<P>::Children(a, a + 1));
                        assert(mirrors(all, base + 1 + rest.len(), next[rest.len() as int]));
                        assert(mirrors(all, base + 1 + (rest.len() + 1), next[rest.len() as int + 1]));
                    },
                }
            }
        }
    }
}

/// The flattened form of a tree holds the tree node for node, the root at
/// index 0.
pub proof fn lemma_flat_mirrors_tree<P: Boundable>(root: BVHBuildNode<P>)
    ensures
        mirrors(breadth_first(seq![root], 0), 0, root),
{
    let all = breadth_first(seq![root], 0);
    assert(all.skip(0) =~= all);
    lemma_breadth_first_mirrors(all, seq![root], 0);
    assert(seq![root][0] == root);
    assert(mirrors(all, 0int + 0int, seq![root][0]));
}

} // verus!
