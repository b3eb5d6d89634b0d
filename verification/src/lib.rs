//! Population bookkeeping for a simulation of religions that split, survive
//! and die out over many generations.

pub mod adherent;
pub mod api;
pub mod config;
pub mod environment;
pub mod histogram;
pub mod output;
pub mod probability;
pub mod religion;
pub mod simulation;
