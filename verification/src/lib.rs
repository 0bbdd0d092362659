pub mod error;
pub mod geometry;
pub mod streets;
pub mod coverage;
pub mod layers;
pub mod population;
pub mod station;
