//! Integer and control core of a stochastic path tracer: the depth-capped
//! path state machine that drives shading, the per-scanline work plan with
//! its deterministic seeding, and the assembly of finished rows into a frame.
pub mod frame;
pub mod integrator;
pub mod schedule;
