//! An offline Monte Carlo path tracer over exact fixed-point arithmetic.
//!
//! Every scalar is a signed 16.16 fixed-point number: an `i64` holding
//! `value * 65536`.  All arithmetic on these scalars is specified exactly
//! over mathematical integers, so every geometric computation in the
//! renderer has a precise functional contract.

pub mod fixed;

pub mod rng;

pub mod vec3;

pub mod ray;

pub mod hittable;

pub mod sphere;

pub mod material;

pub mod hittable_list;

pub mod camera;

pub mod color;

pub mod render;
