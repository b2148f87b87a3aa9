//! A single agent on a terrain grid that collects tools and delivers them to
//! factories, planning routes with a best-first search and wandering at random
//! when it knows of nothing to do.

pub mod agent;
pub mod board;
pub mod cell;
pub mod engine;
pub mod explore;
pub mod factory;
pub mod frontier;
pub mod input;
pub mod params;
pub mod planner;
pub mod path;
pub mod terrain;
pub mod tool;
