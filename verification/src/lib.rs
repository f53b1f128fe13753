//! An artificial-life sandbox: square organisms, each steered by a small
//! spiking neural network that evolves, move about an arena, eat smaller
//! neighbours, split, mutate and die.
//!
//! The crate holds the two halves of the simulation, both verified:
//!
//! * the neural engine: [`structs::Brain`] with its propagation pass
//!   ([`brain`]) and its mutation operator ([`neuron`], [`mutation`]);
//! * the ecosystem: the life cycle of an agent ([`agent`], [`body`]),
//!   sensing ([`input`], [`output`], [`ai`]) and the world's tick
//!   ([`game`]).
//!
//! Real-valued quantities are fixed-point numbers ([`fixed`]); angles are
//! measured in half turns.  What only floating point offers (sine, cosine,
//! arc tangent, fractional powers) is left to the caller, who hands the
//! values in.  Randomness comes from one function,
//! [`helpers::rand_range`], the only part of the crate that is trusted
//! rather than proved.

pub mod agent;
pub mod ai;
pub mod body;
pub mod brain;
pub mod describe;
pub mod fixed;
pub mod game;
pub mod helpers;
pub mod input;
pub mod mutation;
pub mod neuron;
pub mod output;
pub mod structs;
