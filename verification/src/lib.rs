//! A falling-sand particle simulation on a rectangular grid.
//!
//! Every cell of the grid holds one particle: emptiness, a granular solid, a
//! liquid, a gas or an inert block. A tick updates every cell once by the
//! rule of the particle it holds. The rules and the order of the updates are
//! stated as functions on a model of the grid, and every function of the
//! library is proved to do what those say, for every outcome of the random
//! draws it makes.
//!
//! Fractions are counted in thousandths: a probability of 1000 is certainty,
//! and a velocity of 1000 is one cell per tick.
//!
//! - [`particles`]: the species and the particle of a cell
//! - [`particle_params`]: the physical constants of each species
//! - [`sandbox`]: the grid and the cursor of one cell's update
//! - [`particle_updates`]: the rules of solids, liquids, gases and free fall
//! - [`chunks`]: the split of the grid into column bands
//! - [`orders`]: the orders in which the cells of a band are visited
//! - [`scheduler`]: the scans of a band and the tick
//! - [`matter`]: what a tick conserves
//! - [`helpers`]: line tracing, colours and common divisors
//! - [`random`]: the random draws

pub mod chunks;
pub mod helpers;
pub mod matter;
pub mod orders;
pub mod particle_params;
pub mod particle_updates;
pub mod particles;
pub mod random;
pub mod sandbox;
pub mod scheduler;
