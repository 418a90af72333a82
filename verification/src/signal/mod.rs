pub mod factors;
pub mod ewma;
pub mod model;
pub mod engine;
