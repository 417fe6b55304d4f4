//! A Monte Carlo ray tracer over saturating fixed-point arithmetic.
//!
//! Scalars are `fixed::Fixed` values: integers counting billionths, where
//! every operation rounds toward zero and saturates instead of overflowing,
//! so each result is stated exactly in the contracts. On top of them:
//! vectors (`vec3`), rays (`ray`), random sampling (`random`), materials and
//! their scattering (`material`), the hit capability (`hitable`) of spheres
//! (`sphere`) and of the scene list (`hitable_list`), the thin-lens camera
//! (`camera`), and the path tracer with pixel sampling and byte output
//! (`render`).
pub mod fixed;
pub mod vec3;
pub mod ray;
pub mod random;
pub mod material;
pub mod hitable;
pub mod sphere;
pub mod hitable_list;
pub mod camera;
pub mod render;
