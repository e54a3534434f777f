//! A tick-driven logistics simulation. An operator lays track between
//! points, factories turn resources into other resources, and trains carry
//! cargo between the factories along the track.
//!
//! # Units
//!
//! Every quantity is a whole number. Positions are points of an integer
//! plane; lengths, amounts of cargo and spans of time count steps, and the
//! caller picks how large a step is. A rate is an amount per unit of time and
//! a speed a length per unit of time, so that `rate * time` is an amount and
//! `speed * time` a length. The length of a segment of track is its
//! Euclidean length rounded up to the next step.
//!
//! # Chance
//!
//! Trains pick their targets by chance. Every function that draws numbers has
//! a twin that takes the numbers from its caller, and says exactly what the
//! world is after the call. From the same world, the same calls with the
//! same numbers lead to the same world.
//!
//! # The invariant
//!
//! The functions of a [`world::World`] ask for a well-formed world and leave
//! one behind. A world that was made by [`world::World::new`] and changed by
//! these functions alone is well-formed; [`world::World::is_wf`] tells of any
//! other.

pub mod audit;
pub mod chance;
pub mod clock;
pub mod editor;
pub mod factory;
pub mod geometry;
pub mod ids;
pub mod resources;
pub mod router;
pub mod schedule;
pub mod spawn;
pub mod tracks;
pub mod train;
pub mod world;
