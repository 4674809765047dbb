//! A recursive ray tracer over fixed-point arithmetic: spheres and an infinite
//! checkerboard plane, point lights with shadows, diffuse and specular shading,
//! fuzzy mirror reflection, and jittered antialiasing.
pub mod color;
pub mod fixed;
pub mod objects;
pub mod raster;
pub mod sampling;
pub mod scene;
pub mod vec3;

pub use color::Color;
pub use scene::Scene;
pub use vec3::{reflect, scalar, Vec3};
