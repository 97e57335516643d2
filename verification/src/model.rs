pub mod generator;
pub mod model;
pub mod params;
pub mod transitions;
