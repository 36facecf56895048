//! Evolution of grid rewriting systems towards a goal pattern.

pub mod files;
pub mod genetic_algorithm;
pub mod l_system;
pub mod ls_evolve;
pub mod random;
