//! Kinematic core of a robot-arm visualiser.
//!
//! A robot is described by named links joined by named joints. This crate
//! reads such a description, checks that it forms a single rooted tree,
//! keeps one scalar per movable joint, and lays out, link by link, how each
//! link's pose in the world is composed from its parent's. Every function is
//! verified against a contract over the mathematical model of its data.
//!
//! Real numbers are held in fixed point (see `scalar`), so that they can be
//! read from text, ordered and stored exactly; the arithmetic of poses is
//! left to the caller, who is told which factors to multiply and in which
//! order.

pub mod description;
pub mod input;
pub mod kinematics;
pub mod markup;
pub mod model;
pub mod names;
pub mod numbers;
pub mod query;
pub mod robot;
pub mod scalar;
pub mod state;
pub mod tree;
