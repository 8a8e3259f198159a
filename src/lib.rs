//! Core of a Monte Carlo path tracer: the parts of the renderer whose
//! decisions are made on integers and orderings rather than on real
//! arithmetic. Bounding boxes are held with order-preserving integer
//! coordinates, so that merging them and building the bounding volume
//! hierarchy over them are exact. Ray distances are held the same way, so the
//! nearest-hit searches over a list and over the hierarchy are verified
//! against the object and box tests they are given. The permutation tables
//! of the Perlin noise and the texel lookup of image textures are integer
//! logic as well.

pub mod aabb;
pub mod bvh;
pub mod closest;
mod perm;
pub mod perlin;
pub mod random;
pub mod texture;
