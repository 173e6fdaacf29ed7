//! Core of a breakout-style arcade simulation.
//!
//! A paddle driven by discrete input, one ball bouncing among fixed walls,
//! and a destructible grid of bricks live in a generation-checked entity
//! store.  A fixed-timestep tick moves the paddle, integrates the ball,
//! reports contact-begin and contact-end transitions, drains brick health
//! on separation, and sweeps zero-health bricks — all on integer
//! coordinates, so every step of the loop carries a proved contract.

pub mod geom;
pub mod store;
pub mod input;
pub mod events;
pub mod resolver;
pub mod sim;
pub mod setup;
