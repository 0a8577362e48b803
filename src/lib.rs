//! Simulation of the "prisoners and a light switch" puzzle: prisoners are
//! interrogated one per day at random, and through one shared light they must
//! come to know that every prisoner has been interrogated.

pub mod prisoner;
pub mod world;
pub mod experiment;
