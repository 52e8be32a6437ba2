//! A small orthographic ray caster over integer fixed-point geometry.
//!
//! Every coordinate is an integer count of `vector::UNIT`-ths of a scene
//! unit, which keeps sums, dot and cross products, and the ray-sphere test's
//! decisions exact. Square roots, fixed-point scaling (`Vector::mult`,
//! `Vector::normalise`) and the division that places a hit point round down,
//! as the contracts state. Directions such as the camera's basis vectors are
//! fixed-point vectors of length `UNIT`.
//!
//! Rendering rules, as `render::Camera::pixel_value` states them:
//! - the primary ray of a pixel hits the first sphere, in the order they were
//!   added, that it meets at all, at that sphere's nearest hit;
//! - of several lights, the last one alone decides the pixel's brightness;
//! - the camera's stored `pos` offset does not move the rays;
//! - a shadow ray runs from the hit point along `light - point` itself: the
//!   hit test needs no unit direction.
pub mod canvas;
pub mod geometry;
pub mod render;
pub mod vector;
