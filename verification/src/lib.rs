//! Casting light rays in the plane.
//!
//! A circular emitter sends rays towards circular obstacles. For each ray
//! the library finds where it first strikes an obstacle and, where
//! reflection is on, how it is mirrored there, for up to ten legs. All of
//! it is exact integer arithmetic on a fixed-point grid, and every function
//! is verified against a contract over mathematical integers.
//!
//! - [`geometry`]: points, circles and lines.
//! - [`solver`]: where a line meets a circle.
//! - [`selector`]: which circle a leg strikes first.
//! - [`reflection`]: the mirror law.
//! - [`tracer`]: the path of one ray.
//! - [`caster`]: the rays of a pass.
//! - [`scene`]: what the rays are cast into.
//! - [`ids`]: identities for obstacles.
//! - [`arith`]: rounding division and the integer square root.

pub mod arith;
pub mod caster;
pub mod geometry;
pub mod ids;
pub mod reflection;
pub mod scene;
pub mod selector;
pub mod solver;
pub mod tracer;
