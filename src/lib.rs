//! Interactive evolution of neural cellular automaton rules: a resumable,
//! comparison-driven ranking of a population, followed by regeneration through
//! elitism, uniform crossover and fresh random rules.

pub mod ranking;
pub mod rule;
pub mod evolve;
pub mod config;
pub mod sorting;
