use tracer_r::bounded_volume_hierarchy::{
    BVHBuildNode, BVHBuildNodeData, BVHPrimitiveInfo, BuildError,
};
use tracer_r::bounds::Bounds;
use tracer_r::camera::Camera;
use tracer_r::image_handling::{ImageBuffer, PixelF};
use tracer_r::linear_bvh::{BVHFlat, BVHFlatNodeData};
use tracer_r::partitionable::PScene;
use tracer_r::ray::Ray;
use tracer_r::raytracer::{Collision, Raytracer};
use tracer_r::traits::{intersect_collection, Boundable, Canvas, Drawable, Renderer};
use tracer_r::vectors::{SplitAxis, V3};
use tracer_r::{conditional_render, par_render, render};

/// A sphere on the grid. What scatters from it leaves along the normal, so
/// that every test on it has one outcome.
#[derive(Clone, Debug, PartialEq)]
struct Sphere {
    id: usize,
    center: V3,
    radius: i32,
    color: PixelF,
}

impl Sphere {
    fn new(id: usize, center: V3, radius: i32) -> Self {
        Sphere { id, center, radius, color: PixelF::rgb_u8(200, 120, 30) }
    }

    fn test(&self, ray: Ray) -> Option<Collision> {
        let o = [ray.origin.x as f64, ray.origin.y as f64, ray.origin.z as f64];
        let d = [ray.dir.x as f64, ray.dir.y as f64, ray.dir.z as f64];
        let c = [self.center.x as f64, self.center.y as f64, self.center.z as f64];
        let oc = [o[0] - c[0], o[1] - c[1], o[2] - c[2]];
        let a = d[0] * d[0] + d[1] * d[1] + d[2] * d[2];
        let half_b = d[0] * oc[0] + d[1] * oc[1] + d[2] * oc[2];
        let r = self.radius as f64;
        let cc = oc[0] * oc[0] + oc[1] * oc[1] + oc[2] * oc[2] - r * r;
        let discriminant = half_b * half_b - a * cc;
        if a == 0.0 || discriminant < 0.0 {
            return None;
        }
        let sqrtd = discriminant.sqrt();
        let (min, max) = (ray.min as f64, ray.max as f64);
        let mut root = (-half_b - sqrtd) / a;
        if root < min || root > max {
            root = (-half_b + sqrtd) / a;
            if root < min || root > max {
                return None;
            }
        }
        let t = (root.round() as i64).clamp(ray.min, ray.max);
        let at = |k: usize| (o[k] + d[k] * root).round() as i32;
        let point = V3::new(at(0), at(1), at(2));
        let normal = V3::new(
            point.x - self.center.x,
            point.y - self.center.y,
            point.z - self.center.z,
        );
        let faced = ray.get_faced_normal(normal);
        Some(Collision::new(ray, normal, t, Ray::new(point, faced), self.color))
    }

    fn enclosure(&self) -> Bounds {
        let r = self.radius;
        Bounds {
            min_point: V3::new(self.center.x - r, self.center.y - r, self.center.z - r),
            max_point: V3::new(self.center.x + r, self.center.y + r, self.center.z + r),
        }
    }
}

impl Drawable for Sphere {
    fn hit(&self, ray: Ray) -> Option<Collision> {
        self.test(ray)
    }

    fn intersect(&self, ray: Ray) -> Option<Collision> {
        self.test(ray)
    }
}

impl Boundable for Sphere {
    fn extent(&self) -> Bounds {
        self.enclosure()
    }

    fn bounds(&self) -> Bounds {
        self.enclosure()
    }
}

/// A small generator of numbers that look random and are the same in every
/// run.
struct Lcg(u64);

impl Lcg {
    fn next(&mut self) -> u64 {
        self.0 = self.0.wrapping_mul(6364136223846793005).wrapping_add(1442695040888963407);
        self.0 >> 33
    }

    fn between(&mut self, low: i32, high: i32) -> i32 {
        low + (self.next() % (high - low) as u64) as i32
    }
}

fn scattered_spheres(n: usize, seed: u64) -> Vec<Sphere> {
    let mut rng = Lcg(seed);
    (0..n)
        .map(|id| {
            let center = V3::new(
                rng.between(-10_000, 10_000),
                rng.between(-10_000, 10_000),
                rng.between(10_000, 24_000),
            );
            Sphere::new(id, center, 1_000)
        })
        .collect()
}

fn leaves<'a>(node: &'a BVHBuildNode<Sphere>, depth: usize, out: &mut Vec<(usize, &'a Vec<BVHPrimitiveInfo<Sphere>>)>) {
    match &node.data {
        BVHBuildNodeData::PrimInfos(infos) => out.push((depth, infos)),
        BVHBuildNodeData::Children(children) => {
            leaves(&children.0, depth + 1, out);
            leaves(&children.1, depth + 1, out);
        }
    }
}

fn encloses(outer: &Bounds, inner: &Bounds) -> bool {
    outer.min_point.x <= inner.min_point.x
        && outer.min_point.y <= inner.min_point.y
        && outer.min_point.z <= inner.min_point.z
        && inner.max_point.x <= outer.max_point.x
        && inner.max_point.y <= outer.max_point.y
        && inner.max_point.z <= outer.max_point.z
}

/// Checks the invariants below a node and returns the number of primitives
/// and of leaves found there.
fn check_node(node: &BVHBuildNode<Sphere>, prims_per_leaf: usize) -> (usize, usize) {
    let mut below = Vec::new();
    leaves(node, 0, &mut below);
    for (_, infos) in &below {
        for info in infos.iter() {
            assert!(encloses(&node.bounds, &info.bounds));
            assert_eq!(info.bounds, info.primitive.enclosure());
            assert_eq!(info.centroid, info.primitive.center);
        }
    }
    match &node.data {
        BVHBuildNodeData::PrimInfos(infos) => {
            assert!(!infos.is_empty());
            assert!(node.is_leaf());
            let same = infos.iter().all(|i| i.centroid == infos[0].centroid);
            assert!(infos.len() <= prims_per_leaf || same);
            let hull = infos.iter().map(|i| i.bounds).reduce(Bounds::union).unwrap();
            assert_eq!(node.bounds, hull);
            assert_eq!(node.split_axis, hull.maximum_length_axis());
            assert_eq!(node.n_prims, infos.len());
            assert_eq!(node.n_nodes, 1);
            (infos.len(), 1)
        }
        BVHBuildNodeData::Children(children) => {
            assert!(!node.is_leaf());
            let (left, right) = (&children.0, &children.1);
            let (lp, ll) = check_node(left, prims_per_leaf);
            let (rp, rl) = check_node(right, prims_per_leaf);
            assert_eq!(node.bounds, Bounds::union(left.bounds, right.bounds));
            assert_eq!(node.n_prims, left.n_prims + right.n_prims);
            assert_eq!(node.n_nodes, left.n_nodes + right.n_nodes);
            assert_eq!(node.n_prims, lp + rp);
            assert_eq!(node.n_nodes, ll + rl);
            // The split: everything on the left lies below the mean, nothing
            // on the right does.
            let centroids: Vec<V3> = below.iter().flat_map(|(_, l)| l.iter().map(|i| i.centroid)).collect();
            let hull = centroids.iter().fold(Bounds::around(centroids[0]), |b, c| Bounds::union_v3(b, *c));
            assert!(!hull.is_singularity());
            assert_eq!(node.split_axis, hull.maximum_length_axis());
            let axis = node.split_axis;
            let sum: i128 = centroids.iter().map(|c| axis.proj(*c) as i128).sum();
            let n = centroids.len() as i128;
            let mut l = Vec::new();
            leaves(left, 0, &mut l);
            let mut r = Vec::new();
            leaves(right, 0, &mut r);
            for info in l.iter().flat_map(|(_, infos)| infos.iter()) {
                assert!((axis.proj(info.centroid) as i128) * n < sum);
                assert!(info.is_below_mean(axis, sum, n));
            }
            for info in r.iter().flat_map(|(_, infos)| infos.iter()) {
                assert!((axis.proj(info.centroid) as i128) * n >= sum);
                assert!(!info.is_below_mean(axis, sum, n));
            }
            (lp + rp, ll + rl)
        }
    }
}

fn rays_at(seed: u64, n: usize) -> Vec<Ray> {
    let mut rng = Lcg(seed);
    (0..n)
        .map(|_| {
            let origin = V3::new(rng.between(-12_000, 12_000), rng.between(-12_000, 12_000), rng.between(-5_000, 30_000));
            let dir = V3::new(rng.between(-40, 40), rng.between(-40, 40), rng.between(-40, 40));
            let mut ray = Ray::new(origin, dir);
            ray.max = rng.between(1, 3_000) as i64;
            ray
        })
        .collect()
}

fn same_hit(a: &Option<Collision>, b: &Option<Collision>) -> bool {
    match (a, b) {
        (None, None) => true,
        (Some(x), Some(y)) => x == y,
        _ => false,
    }
}

#[test]
fn building_needs_primitives() {
    let built = BVHBuildNode::<Sphere>::new(vec![], 4);
    assert!(matches!(built, Err(BuildError::NoPrimitives)));
    let built = BVHBuildNode::<Sphere>::new(vec![], 0);
    assert!(matches!(built, Err(BuildError::NoPrimitives)));
}

#[test]
fn building_needs_room_in_leaves() {
    let built = BVHBuildNode::new(scattered_spheres(3, 1), 0);
    assert!(matches!(built, Err(BuildError::ZeroLeafSize)));
}

#[test]
fn build_errors_say_what_is_wrong() {
    assert!(BuildError::NoPrimitives.message().contains("empty"));
    assert!(BuildError::ZeroLeafSize.message().contains("at least one"));
    assert_ne!(BuildError::NoPrimitives.message(), BuildError::ZeroLeafSize.message());
}

#[test]
fn few_primitives_make_one_leaf_in_the_order_given() {
    let spheres = scattered_spheres(4, 7);
    let root = BVHBuildNode::new(spheres.clone(), 4).unwrap();
    assert!(root.is_leaf());
    assert_eq!(root.n_prims, 4);
    assert_eq!(root.n_nodes, 1);
    match &root.data {
        BVHBuildNodeData::PrimInfos(infos) => {
            let kept: Vec<Sphere> = infos.iter().map(|i| i.primitive.clone()).collect();
            assert_eq!(kept, spheres);
        }
        _ => panic!("expected a leaf"),
    }
}

#[test]
fn primitive_info_holds_box_and_centre() {
    let sphere = Sphere::new(0, V3::new(10, -20, 30), 5);
    let info = BVHPrimitiveInfo::new(sphere.clone());
    assert_eq!(info.primitive, sphere);
    assert_eq!(info.bounds.min_point, V3::new(5, -25, 25));
    assert_eq!(info.bounds.max_point, V3::new(15, -15, 35));
    assert_eq!(info.centroid, V3::new(10, -20, 30));
    assert!(info.is_below_mean(SplitAxis::X, 21, 2));
    assert!(!info.is_below_mean(SplitAxis::X, 20, 2));
    assert!(info.is_below_mean(SplitAxis::Y, -39, 2));
    assert!(!info.is_below_mean(SplitAxis::Z, 60, 2));
}

#[test]
fn two_spheres_split_along_the_axis_that_parts_them() {
    let spheres = vec![Sphere::new(0, V3::new(3000, 0, 0), 1000), Sphere::new(1, V3::new(0, 0, 0), 1000)];
    let root = BVHBuildNode::new(spheres, 1).unwrap();
    assert!(!root.is_leaf());
    assert_eq!(root.split_axis, SplitAxis::X);
    assert_eq!(root.n_prims, 2);
    assert_eq!(root.n_nodes, 2);
    assert_eq!(root.bounds.min_point, V3::new(-1000, -1000, -1000));
    assert_eq!(root.bounds.max_point, V3::new(4000, 1000, 1000));
    match &root.data {
        BVHBuildNodeData::Children(children) => {
            // The mean of the centroids is 1500: the sphere at 0 goes left.
            match (&children.0.data, &children.1.data) {
                (BVHBuildNodeData::PrimInfos(l), BVHBuildNodeData::PrimInfos(r)) => {
                    assert_eq!(l.len(), 1);
                    assert_eq!(r.len(), 1);
                    assert_eq!(l[0].primitive.id, 1);
                    assert_eq!(r[0].primitive.id, 0);
                }
                _ => panic!("expected two leaves"),
            }
        }
        _ => panic!("expected an interior node"),
    }
}

#[test]
fn centroids_that_spread_alike_along_two_axes_split_along_the_earlier() {
    // The centroids spread by 10 along x and along y, and by 4 along z.
    let along_x_and_y = vec![
        Sphere::new(0, V3::new(0, 10, 0), 1),
        Sphere::new(1, V3::new(10, 0, 4), 1),
    ];
    assert_eq!(BVHBuildNode::new(along_x_and_y, 1).unwrap().split_axis, SplitAxis::X);
    // By 3 along x, and by 10 along y and along z.
    let along_y_and_z = vec![
        Sphere::new(0, V3::new(0, 0, 10), 1),
        Sphere::new(1, V3::new(3, 10, 0), 1),
    ];
    let root = BVHBuildNode::new(along_y_and_z, 1).unwrap();
    assert_eq!(root.split_axis, SplitAxis::Y);
    match &root.data {
        BVHBuildNodeData::Children(children) => match (&children.0.data, &children.1.data) {
            (BVHBuildNodeData::PrimInfos(l), BVHBuildNodeData::PrimInfos(r)) => {
                assert_eq!(l[0].primitive.id, 0);
                assert_eq!(r[0].primitive.id, 1);
                // A leaf of one sphere is a cube: its axis is the first.
                assert_eq!(children.0.split_axis, SplitAxis::X);
            }
            _ => panic!("expected two leaves"),
        },
        _ => panic!("expected an interior node"),
    }
}

#[test]
fn mean_split_is_not_a_median_split() {
    // Centroids 0, 1, 2 and 97 along x: the mean is 25, so three go left.
    let xs = [0, 97, 1, 2];
    let spheres: Vec<Sphere> = xs.iter().enumerate().map(|(i, x)| Sphere::new(i, V3::new(*x, 0, 0), 1)).collect();
    let root = BVHBuildNode::new(spheres, 3).unwrap();
    match &root.data {
        BVHBuildNodeData::Children(children) => {
            assert_eq!(children.0.n_prims, 3);
            assert_eq!(children.1.n_prims, 1);
            assert!(children.0.is_leaf());
            assert!(children.1.is_leaf());
        }
        _ => panic!("expected an interior node"),
    }
    check_node(&root, 3);
}

#[test]
fn centroid_on_the_mean_goes_right() {
    // Centroids -3, 0 and 3: the mean is 0 and the middle one is not below it.
    let spheres = vec![
        Sphere::new(0, V3::new(0, 0, 0), 1),
        Sphere::new(1, V3::new(-3, 0, 0), 1),
        Sphere::new(2, V3::new(3, 0, 0), 1),
    ];
    let root = BVHBuildNode::new(spheres, 2).unwrap();
    match &root.data {
        BVHBuildNodeData::Children(children) => {
            assert_eq!(children.0.n_prims, 1);
            assert_eq!(children.1.n_prims, 2);
            match &children.0.data {
                BVHBuildNodeData::PrimInfos(l) => assert_eq!(l[0].primitive.id, 1),
                _ => panic!("expected a leaf"),
            }
        }
        _ => panic!("expected an interior node"),
    }
}

#[test]
fn mean_between_grid_points_is_not_rounded() {
    // Centroids 0 and 1: the mean is one half, which parts them.
    let spheres = vec![Sphere::new(0, V3::new(1, 0, 0), 1), Sphere::new(1, V3::new(0, 0, 0), 1)];
    let root = BVHBuildNode::new(spheres, 1).unwrap();
    assert!(!root.is_leaf());
    assert_eq!(root.n_nodes, 2);
    check_node(&root, 1);
}

#[test]
fn identical_centroids_make_a_single_leaf() {
    for n in [2usize, 5, 64] {
        let spheres: Vec<Sphere> = (0..n).map(|i| Sphere::new(i, V3::new(7, 7, 7), 1 + i as i32)).collect();
        let root = BVHBuildNode::new(spheres.clone(), 1).unwrap();
        assert!(root.is_leaf());
        assert_eq!(root.n_prims, n);
        assert_eq!(root.n_nodes, 1);
        match &root.data {
            BVHBuildNodeData::PrimInfos(infos) => {
                let kept: Vec<Sphere> = infos.iter().map(|i| i.primitive.clone()).collect();
                assert_eq!(kept, spheres);
            }
            _ => panic!("expected a leaf"),
        }
    }
}

#[test]
fn clusters_of_identical_centroids_end_in_leaves() {
    let mut spheres = Vec::new();
    for i in 0..10 {
        spheres.push(Sphere::new(i, V3::new(0, 0, 0), 1));
        spheres.push(Sphere::new(100 + i, V3::new(50, 0, 0), 1));
        spheres.push(Sphere::new(200 + i, V3::new(50, 1, 0), 1));
    }
    let root = BVHBuildNode::new(spheres, 2).unwrap();
    let (prims, leaf_count) = check_node(&root, 2);
    assert_eq!(prims, 30);
    assert_eq!(leaf_count, 3);
}

#[test]
fn every_primitive_is_in_exactly_one_leaf() {
    for (n, per_leaf) in [(1usize, 1usize), (2, 1), (17, 1), (100, 4), (257, 3)] {
        let spheres = scattered_spheres(n, n as u64);
        let root = BVHBuildNode::new(spheres, per_leaf).unwrap();
        let (prims, leaf_count) = check_node(&root, per_leaf);
        assert_eq!(prims, n);
        assert_eq!(root.n_prims, n);
        assert_eq!(root.n_nodes, leaf_count);
        let mut found = Vec::new();
        leaves(&root, 0, &mut found);
        let mut ids: Vec<usize> = found.iter().flat_map(|(_, l)| l.iter().map(|i| i.primitive.id)).collect();
        ids.sort();
        assert_eq!(ids, (0..n).collect::<Vec<usize>>());
    }
}

#[test]
fn a_thousand_spheres_make_a_shallow_tree_of_small_leaves() {
    let n = 1000;
    let root = BVHBuildNode::new(scattered_spheres(n, 42), 4).unwrap();
    check_node(&root, 4);
    let mut found = Vec::new();
    leaves(&root, 1, &mut found);
    assert!(found.iter().all(|(_, l)| l.len() <= 4));
    let depth = found.iter().map(|(d, _)| *d).max().unwrap();
    // A perfectly balanced tree over 250 leaves would be 9 nodes deep. The
    // mean split is allowed three times that.
    assert!(depth >= 9);
    assert!(depth <= 27, "depth {}", depth);
}

#[test]
fn flattening_lays_the_tree_out_breadth_first() {
    // Centroids along x: the root splits {0, 10} from {100, 110}, and each
    // side splits once more.
    let xs = [0, 110, 10, 100];
    let spheres: Vec<Sphere> = xs.iter().enumerate().map(|(i, x)| Sphere::new(i, V3::new(*x, 0, 0), 1)).collect();
    let root = BVHBuildNode::new(spheres, 1).unwrap();
    let root_bounds = root.bounds;
    let flat = BVHFlat::from(root);
    let nodes = flat.nodes();
    assert_eq!(nodes.len(), 7);
    assert_eq!(nodes[0].bounds, root_bounds);
    assert_eq!(nodes[0].split_axis, SplitAxis::X);
    let children = |i: usize| match &nodes[i].data {
        BVHFlatNodeData::Children(c) => *c,
        _ => panic!("expected an interior node at {}", i),
    };
    let prims = |i: usize| match &nodes[i].data {
        BVHFlatNodeData::Prims(p) => p.iter().map(|s| s.id).collect::<Vec<usize>>(),
        _ => panic!("expected a leaf at {}", i),
    };
    assert_eq!(children(0), (1, 2));
    assert_eq!(children(1), (3, 4));
    assert_eq!(children(2), (5, 6));
    assert_eq!(prims(3), vec![0]);
    assert_eq!(prims(4), vec![2]);
    assert_eq!(prims(5), vec![3]);
    assert_eq!(prims(6), vec![1]);
}

#[test]
fn flattening_names_children_that_are_not_at_twice_the_index() {
    // The left child of the root is a leaf, the right one splits twice, so
    // the children of the node at 2 stand at 3 and 4 and those of the node
    // at 3 at 5 and 6.
    let xs = [0, 100, 110, 130];
    let spheres: Vec<Sphere> = xs.iter().enumerate().map(|(i, x)| Sphere::new(i, V3::new(*x, 0, 0), 1)).collect();
    let root = BVHBuildNode::new(spheres, 1).unwrap();
    let flat = BVHFlat::from(root);
    let nodes = flat.nodes();
    assert_eq!(nodes.len(), 7);
    let shape: Vec<Option<(usize, usize)>> = nodes
        .iter()
        .map(|n| match &n.data {
            BVHFlatNodeData::Children(c) => Some(*c),
            BVHFlatNodeData::Prims(_) => None,
        })
        .collect();
    assert_eq!(shape, vec![Some((1, 2)), None, Some((3, 4)), Some((5, 6)), None, None, None]);
}

#[test]
fn flattening_a_leaf_keeps_the_primitives() {
    let spheres = scattered_spheres(3, 5);
    let root = BVHBuildNode::new(spheres.clone(), 8).unwrap();
    let flat = BVHFlat::from(root);
    assert_eq!(flat.nodes().len(), 1);
    match &flat.nodes()[0].data {
        BVHFlatNodeData::Prims(p) => assert_eq!(p, &spheres),
        _ => panic!("expected a leaf"),
    }
}

#[test]
fn flattened_children_stand_behind_their_parents() {
    let root = BVHBuildNode::new(scattered_spheres(300, 9), 2).unwrap();
    let node_count = 2 * root.n_nodes - 1;
    let flat = BVHFlat::from(root);
    let nodes = flat.nodes();
    assert_eq!(nodes.len(), node_count);
    let mut named = vec![0usize; nodes.len()];
    for (i, node) in nodes.iter().enumerate() {
        if let BVHFlatNodeData::Children((a, b)) = node.data {
            assert!(i < a && a < nodes.len());
            assert_eq!(b, a + 1);
            named[a] += 1;
            named[b] += 1;
        }
    }
    assert_eq!(named[0], 0);
    assert!(named[1..].iter().all(|n| *n == 1));
}

#[test]
fn a_tree_turns_into_its_flat_form() {
    let spheres = scattered_spheres(20, 8);
    let flat: BVHFlat<Sphere> = BVHBuildNode::new(spheres.clone(), 2).unwrap().into();
    let again = BVHFlat::from(BVHBuildNode::new(spheres, 2).unwrap());
    assert_eq!(flat.nodes().len(), again.nodes().len());
    for (a, b) in flat.nodes().iter().zip(again.nodes().iter()) {
        assert_eq!(a.bounds, b.bounds);
        assert_eq!(a.split_axis, b.split_axis);
        match (&a.data, &b.data) {
            (BVHFlatNodeData::Children(x), BVHFlatNodeData::Children(y)) => assert_eq!(x, y),
            (BVHFlatNodeData::Prims(x), BVHFlatNodeData::Prims(y)) => assert_eq!(x, y),
            _ => panic!("the two forms differ"),
        }
    }
}

#[test]
fn capacity_is_the_next_power_of_two() {
    assert_eq!(BVHFlat::<Sphere>::capacity_for(0), 1);
    assert_eq!(BVHFlat::<Sphere>::capacity_for(1), 1);
    assert_eq!(BVHFlat::<Sphere>::capacity_for(2), 2);
    assert_eq!(BVHFlat::<Sphere>::capacity_for(3), 4);
    assert_eq!(BVHFlat::<Sphere>::capacity_for(1000), 1024);
    assert_eq!(BVHFlat::<Sphere>::capacity_for(1024), 1024);
    assert_eq!(BVHFlat::<Sphere>::capacity_for(usize::MAX), 1 << (usize::BITS - 1));
}

#[test]
fn tree_and_flat_form_report_the_same_hits() {
    for (n, per_leaf, seed) in [(1usize, 1usize, 3u64), (50, 1, 4), (200, 4, 5), (200, 64, 6)] {
        let spheres = scattered_spheres(n, seed);
        let tree = BVHBuildNode::new(spheres.clone(), per_leaf).unwrap();
        let flat = BVHFlat::from(BVHBuildNode::new(spheres.clone(), per_leaf).unwrap());
        let mut hits = 0;
        for ray in rays_at(seed + 100, 400) {
            let from_tree = tree.intersect(ray);
            let from_flat = flat.intersect(ray);
            assert!(same_hit(&from_tree, &from_flat));
            if from_tree.is_some() {
                hits += 1;
            }
        }
        assert!(hits > 0);
    }
}

#[test]
fn hierarchy_finds_the_closest_hit_of_a_plain_scan() {
    let spheres = scattered_spheres(150, 11);
    let tree = BVHBuildNode::new(spheres.clone(), 2).unwrap();
    let mut hits = 0;
    for ray in rays_at(77, 400) {
        let scanned = spheres.intersect(ray);
        let found = tree.intersect(ray);
        assert_eq!(scanned.is_some(), found.is_some());
        if let (Some(s), Some(f)) = (scanned, found) {
            assert_eq!(s.t, f.t);
            hits += 1;
        }
    }
    assert!(hits > 0);
}

#[test]
fn scan_keeps_the_hit_that_remains() {
    let near = Sphere::new(0, V3::new(0, 0, 0), 1000);
    let far = Sphere::new(1, V3::new(3000, 0, 0), 1000);
    let ray = Ray::new(V3::new(-5000, 0, 0), V3::new(1, 0, 0));
    let far_first = vec![far.clone(), near.clone()];
    let hit = intersect_collection(&far_first, ray).unwrap();
    assert_eq!(hit.t, 4000);
    let near_first = vec![near.clone(), far.clone()];
    let hit = near_first.intersect(ray).unwrap();
    assert_eq!(hit.t, 4000);
    assert_eq!(hit.ray_in.max, tracer_r::ray::RAY_MAX);
    let scene = PScene::new(far_first);
    assert_eq!(scene.intersect(ray).unwrap().t, 4000);
    let nothing: Vec<Sphere> = Vec::new();
    assert!(intersect_collection(&nothing, ray).is_none());
}

#[test]
fn later_hit_is_tested_against_the_shortened_ray() {
    let near = Sphere::new(0, V3::new(0, 0, 0), 1000);
    let far = Sphere::new(1, V3::new(3000, 0, 0), 1000);
    let ray = Ray::new(V3::new(-5000, 0, 0), V3::new(1, 0, 0));
    let hit = intersect_collection(&[far, near], ray).unwrap();
    // The far sphere was hit first, at 7000, and the near one with the ray
    // drawn in to that.
    assert_eq!(hit.ray_in.max, 7000);
    assert_eq!(hit.t, 4000);
}

#[test]
fn ray_along_x_hits_the_first_of_two_spheres() {
    let spheres = vec![Sphere::new(0, V3::new(0, 0, 0), 1000), Sphere::new(1, V3::new(3000, 0, 0), 1000)];
    let ray = Ray::new(V3::new(-5000, 0, 0), V3::new(1, 0, 0));
    let tree = BVHBuildNode::new(spheres.clone(), 1).unwrap();
    let flat = BVHFlat::from(BVHBuildNode::new(spheres.clone(), 1).unwrap());
    for hit in [spheres.intersect(ray), tree.intersect(ray), flat.intersect(ray)] {
        let hit = hit.unwrap();
        assert_eq!(hit.t, 4000);
        assert_eq!(hit.color, PixelF::rgb_u8(200, 120, 30));
        assert_eq!(hit.normal, V3::new(-1000, 0, 0));
        assert!(hit.front_facing);
    }
    // From the other side the far sphere is the first.
    let back = Ray::new(V3::new(9000, 0, 0), V3::new(-1, 0, 0));
    for hit in [spheres.intersect(back), tree.intersect(back), flat.intersect(back)] {
        assert_eq!(hit.unwrap().t, 5000);
    }
}

#[test]
fn ray_beside_both_spheres_sees_the_sky() {
    let spheres = vec![Sphere::new(0, V3::new(0, 0, 0), 1000), Sphere::new(1, V3::new(3000, 0, 0), 1000)];
    let tree = BVHBuildNode::new(spheres.clone(), 1).unwrap();
    let flat = BVHFlat::from(BVHBuildNode::new(spheres.clone(), 1).unwrap());
    // Straight down, between the two spheres and beyond the radius of both.
    let ray = Ray::new(V3::new(1500, 5000, 0), V3::new(0, -1, 0));
    assert!(spheres.intersect(ray).is_none());
    assert!(tree.intersect(ray).is_none());
    assert!(flat.intersect(ray).is_none());
    let rt = Raytracer::default();
    let white = PixelF::rgb_u8(255, 255, 255);
    assert_eq!(Raytracer::get_sky_color(ray), white);
    assert_eq!(rt.get_color(ray, &tree), white);
    assert_eq!(rt.get_color(ray, &flat), white);
    // Straight down onto the first sphere, the ray hits it at its top.
    let onto = Ray::new(V3::new(0, 5000, 0), V3::new(0, -1, 0));
    assert_eq!(tree.intersect(onto).unwrap().t, 4000);
}

#[test]
fn sky_runs_from_white_below_to_blue_above() {
    let up = Ray::new(V3::zero(), V3::new(0, 10, 0));
    assert_eq!(Raytracer::get_sky_color(up), PixelF::rgb_u8(120, 200, 255));
    let down = Ray::new(V3::zero(), V3::new(0, -10, 0));
    assert_eq!(Raytracer::get_sky_color(down), PixelF::rgb_u8(255, 255, 255));
    let level = Ray::new(V3::zero(), V3::new(3, 0, 4));
    // Half way: (255 + 120) / 2 and (255 + 200) / 2, rounded down.
    assert_eq!(Raytracer::get_sky_color(level), PixelF::rgb_u8(187, 227, 255));
    // Direction (3, 4, 0) has length 5 and height 4: nine tenths of the way.
    let steep = Ray::new(V3::zero(), V3::new(3, 4, 0));
    assert_eq!(Raytracer::get_sky_color(steep), PixelF::rgb_u8(133, 205, 255));
    // The length of (1, 1, 0) is rounded down to 1.
    let diagonal = Ray::new(V3::zero(), V3::new(1, 1, 0));
    assert_eq!(Raytracer::get_sky_color(diagonal), PixelF::rgb_u8(120, 200, 255));
    let nowhere = Ray::new(V3::zero(), V3::zero());
    assert_eq!(Raytracer::get_sky_color(nowhere), PixelF::rgb_u8(0, 0, 255));
    let longest = Ray::new(V3::zero(), V3::new(i32::MIN, i32::MIN, i32::MIN));
    // The height is the length divided by the root of three, downwards.
    assert_eq!(Raytracer::get_sky_color(longest), PixelF::rgb_u8(226, 243, 255));
}

#[test]
fn a_hit_attenuates_what_the_scattered_ray_brings() {
    let sphere = Sphere::new(0, V3::new(0, 0, 0), 1000);
    let scene = vec![sphere.clone()];
    let ray = Ray::new(V3::new(0, 5000, 0), V3::new(0, -1, 0));
    // The ray hits the top and is scattered straight up, into the blue.
    let rt = Raytracer::default();
    let expected = PixelF::rgb_u8(120, 200, 255).attenuate(sphere.color);
    assert_eq!(rt.get_color(ray, &scene), expected);
}

#[test]
fn light_is_absorbed_beyond_the_depth_bound() {
    let sphere = Sphere::new(0, V3::new(0, 0, 0), 1000);
    let scene = vec![sphere.clone()];
    let ray = Ray::new(V3::new(0, 5000, 0), V3::new(0, -1, 0));
    // With no bounce allowed the first hit is still tested, and what comes
    // after it is black.
    let rt = Raytracer::default().max_depth(0);
    assert_eq!(rt.get_color(ray, &scene), PixelF::black());
    let rt = Raytracer::default().max_depth(1);
    assert_eq!(rt.get_color(ray, &scene), PixelF::rgb_u8(120, 200, 255).attenuate(sphere.color));
    // A miss is the sky whatever the bound.
    let miss = Ray::new(V3::new(5000, 5000, 0), V3::new(0, -1, 0));
    assert_eq!(Raytracer::default().max_depth(0).get_color(miss, &scene), PixelF::rgb_u8(255, 255, 255));
    assert_eq!(Raytracer::default().max_depth(usize::MAX).get_color(miss, &scene), PixelF::rgb_u8(255, 255, 255));
}

/// A camera whose rays through one pixel are all the same, wherever in the
/// pixel they start: each pixel is as wide as one grid step.
fn steady_camera(bounds: (usize, usize)) -> Camera {
    Camera::new(
        V3::new(0, 0, -50),
        V3::new(-(bounds.0 as i32) / 2, bounds.1 as i32 / 2, 0),
        V3::new(bounds.0 as i32, 0, 0),
        V3::new(0, bounds.1 as i32, 0),
        bounds,
    )
    .unwrap()
}

#[test]
fn camera_needs_a_picture_with_width_and_height() {
    let v = V3::new(1, 1, 1);
    assert!(Camera::new(v, v, v, v, (0, 10)).is_none());
    assert!(Camera::new(v, v, v, v, (10, 0)).is_none());
    assert!(Camera::new(v, v, v, v, (1, 1)).is_some());
}

#[test]
fn camera_rays_sweep_the_viewport() {
    let camera = Camera::new(
        V3::new(0, 0, -5),
        V3::new(-100, 50, 0),
        V3::new(200, 0, 0),
        V3::new(0, 100, 0),
        (4, 2),
    )
    .unwrap();
    let ray = camera.get_ray(0, 0);
    assert_eq!(ray.origin, V3::new(0, 0, -5));
    assert_eq!(ray.dir, V3::new(-100, 50, 5));
    assert_eq!(ray.min, tracer_r::ray::RAY_MIN);
    assert_eq!(ray.max, tracer_r::ray::RAY_MAX);
    assert_eq!(camera.get_ray(1, 1).dir, V3::new(-50, 0, 5));
    assert_eq!(camera.get_ray(4, 2).dir, V3::new(100, -50, 5));
    assert_eq!(camera.get_ray_from_fraction((1, 3), (2, 3)).dir, V3::new(-34, -16, 5));
    assert_eq!(camera.get_ray_from_fraction((0, 1), (0, 1)).dir, V3::new(-100, 50, 5));
}

#[test]
fn camera_rounds_each_step_down() {
    let camera = Camera::new(V3::zero(), V3::zero(), V3::new(-10, 10, 0), V3::new(10, -10, 0), (3, 3)).unwrap();
    // Across: -10/3 and 10/3 rounded down are -4 and 3. Down: 10/3 and -10/3
    // rounded down are 3 and -4, and are taken away.
    assert_eq!(camera.get_ray(1, 1).dir, V3::new(-4 - 3, 3 + 4, 0));
}

#[test]
fn camera_keeps_directions_on_the_grid() {
    let camera = Camera::new(
        V3::new(i32::MIN, i32::MAX, 0),
        V3::new(i32::MAX, i32::MIN, 0),
        V3::new(i32::MAX, i32::MIN, 0),
        V3::new(i32::MIN, i32::MAX, 0),
        (1, 1),
    )
    .unwrap();
    assert_eq!(camera.get_ray(1, 1).dir, V3::new(i32::MAX, i32::MIN, 0));
    assert_eq!(camera.get_ray(usize::MAX, usize::MAX).dir, V3::new(i32::MAX, i32::MIN, 0));
}

#[test]
fn perturbed_ray_stays_within_its_pixel() {
    let camera = Camera::new(
        V3::new(0, 0, -5),
        V3::new(0, 0, 0),
        V3::new(4000, 0, 0),
        V3::new(0, 2000, 0),
        (4, 2),
    )
    .unwrap();
    let mut rng = rand::thread_rng();
    let mut seen = std::collections::HashSet::new();
    for _ in 0..200 {
        let ray = camera.get_ray_perturbed(1, 1, &mut rng);
        assert_eq!(ray.origin, V3::new(0, 0, -5));
        assert!(1000 <= ray.dir.x && ray.dir.x < 2000);
        assert!(-2000 < ray.dir.y && ray.dir.y <= -1000);
        assert_eq!(ray.dir.z, 5);
        seen.insert((ray.dir.x, ray.dir.y));
    }
    assert!(seen.len() > 1);
}

#[test]
fn rendering_fills_every_pixel() {
    let bounds = (8, 6);
    let camera = steady_camera(bounds);
    let scene = vec![Sphere::new(0, V3::new(0, 0, 100), 3)];
    let rt = Raytracer::default().ss_amt(4);
    let image = render(&rt, &camera, &scene, bounds);
    assert_eq!(image.bounds, bounds);
    assert_eq!(image.offset, (0, 0));
    assert_eq!(image.pixels.len(), 48);
    let one = |x: usize, y: usize| {
        let sample = rt.get_color(camera.get_ray(x, y), &scene).scale(1, 4);
        sample + sample + sample + sample
    };
    for y in 0..6 {
        for x in 0..8 {
            assert_eq!(image.pixels[y * 8 + x], one(x, y), "pixel {} {}", x, y);
        }
    }
    // Some pixels show the sphere and some the sky.
    let hit = camera.get_ray(4, 3);
    assert!(scene.intersect(hit).is_some());
    let miss = camera.get_ray(0, 0);
    assert!(scene.intersect(miss).is_none());
    assert_ne!(image.pixels[3 * 8 + 4], image.pixels[0]);
}

#[test]
fn rendering_without_samples_leaves_black() {
    let bounds = (3, 2);
    let camera = steady_camera(bounds);
    let scene: Vec<Sphere> = Vec::new();
    let rt = Raytracer::default().ss_amt(0);
    let image = render(&rt, &camera, &scene, bounds);
    assert!(image.pixels.iter().all(|p| *p == PixelF::black()));
}

#[test]
fn rendering_a_band_draws_its_place_in_the_picture() {
    let bounds = (5, 40);
    let camera = steady_camera(bounds);
    let scene = vec![Sphere::new(0, V3::new(0, 0, 100), 10)];
    let rt = Raytracer::default().ss_amt(1);
    let whole = render(&rt, &camera, &scene, bounds);
    let mut bands = ImageBuffer::bands(bounds, 16);
    let band = &mut bands[1];
    assert!(rt.render(&scene, band, &camera).is_ok());
    assert_eq!(band.bounds, (5, 16));
    assert_eq!(band.offset, (0, 16));
    assert_eq!(band.pixels[..], whole.pixels[16 * 5..32 * 5]);
    assert!(band.pixels.iter().any(|p| *p != band.pixels[0]));
}

#[test]
fn rendering_on_bands_in_place_draws_the_picture() {
    let bounds = (6, 20);
    let camera = steady_camera(bounds);
    let scene = vec![Sphere::new(0, V3::new(0, 0, 100), 6)];
    let rt = Raytracer::default().ss_amt(2);
    let whole = render(&rt, &camera, &scene, bounds);
    let mut image = ImageBuffer::new(bounds.0, bounds.1);
    for band in image.bands_in_place(8).iter_mut() {
        assert!(rt.render(&scene, band, &camera).is_ok());
    }
    assert_eq!(image.pixels, whole.pixels);
    assert!(image.pixels.iter().any(|p| *p != image.pixels[0]));
}

#[test]
fn bands_put_together_are_the_whole_picture() {
    for bounds in [(7usize, 40usize), (3, 16), (5, 1), (4, 33), (6, 0), (0, 5)] {
        let camera = steady_camera((bounds.0.max(1), bounds.1.max(1)));
        let spheres = vec![
            Sphere::new(0, V3::new(0, 0, 100), 8),
            Sphere::new(1, V3::new(2, -10, 80), 4),
        ];
        let scene = BVHFlat::from(BVHBuildNode::new(spheres, 1).unwrap());
        let rt = Raytracer::default().ss_amt(3).max_depth(4);
        let whole = render(&rt, &camera, &scene, bounds);
        let banded = par_render(&rt, &camera, &scene, bounds);
        assert_eq!(banded.bounds, bounds);
        assert_eq!(banded.offset, (0, 0));
        assert_eq!(banded.pixels, whole.pixels);
        assert_eq!(conditional_render(&rt, &camera, &scene, bounds, true).pixels, whole.pixels);
        assert_eq!(conditional_render(&rt, &camera, &scene, bounds, false).pixels, whole.pixels);
        if bounds.0 * bounds.1 > 30 {
            assert!(whole.pixels.iter().any(|p| *p != whole.pixels[0]));
        }
    }
}

#[test]
fn collision_faces_the_incoming_ray() {
    let ray = Ray::new(V3::new(-5, 0, 0), V3::new(1, 0, 0));
    let out = Ray::new(V3::new(-1, 0, 0), V3::new(-1, 0, 0));
    let color = PixelF::rgb_u8(1, 2, 3);
    let front = Collision::new(ray, V3::new(-1, 0, 0), 4, out, color);
    assert!(front.front_facing);
    assert_eq!(front.normal, V3::new(-1, 0, 0));
    assert_eq!(front.t, 4);
    assert_eq!(front.ray_in, ray);
    assert_eq!(front.ray_out, out);
    assert_eq!(front.color, color);
    let back = Collision::new(ray, V3::new(1, 0, 0), 6, out, color);
    assert!(!back.front_facing);
    assert_eq!(back.normal, V3::new(-1, 0, 0));
    let grazing = Collision::new(ray, V3::new(0, 1, 0), 5, out, color);
    assert!(!grazing.front_facing);
    assert_eq!(grazing.normal, V3::new(0, -1, 0));
}

#[test]
fn canvas_reports_what_the_image_holds() {
    let mut image = ImageBuffer::new(3, 2);
    image.offset = (4, 5);
    assert_eq!(Canvas::bounds(&image), (3, 2));
    assert_eq!(Canvas::offset(&image), (4, 5));
    let red = PixelF::rgb_u8(255, 0, 0);
    image.put_pixel(2, 1, red);
    assert_eq!(image.pixels[5], red);
    assert_eq!(image.pixels.iter().filter(|p| **p == red).count(), 1);
}
