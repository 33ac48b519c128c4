pub use crate::{
    bounded_volume_hierarchy::{BVHBuildNode, Bounds},
    camera::Camera,
    image_handling::{ImageBuffer, PixelF},
    linear_bvh::BVHFlat,
    raytracer::Raytracer,
    traits::{intersect_collection, Boundable, Canvas, Drawable, Renderer},
    utils::parse_pair,
    vectors::V3,
};
