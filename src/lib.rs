//! A Monte Carlo ray tracer over fixed-point arithmetic: spheres with diffuse,
//! metal and glass surfaces, a thin-lens camera, and a path integrator that
//! turns a scene into RGBA bytes.
pub mod fixed;
pub mod vec3;
pub mod ray;
pub mod material;
pub mod hit;
pub mod random;
pub mod camera;
pub mod render;

pub use camera::Camera;
pub use hit::{Hit, HitList, Sphere};
pub use material::{Dielectric, Lambertian, Material, Metal, Scatter};
pub use random::{unit_vec3, vec3_in_unit_disc, vec3_in_unit_sphere};
pub use ray::Ray3;
pub use render::{render, Settings};
pub use vec3::Vec3;
