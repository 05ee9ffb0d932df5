pub mod fixed;
pub mod vec3;
pub mod ray;
pub mod aabb;
pub mod material;
pub mod hit;
pub mod random;
pub mod bvh;
pub mod traversal;
pub mod camera;
pub mod render;
pub mod scenes;
pub mod aspect;
pub mod util;
