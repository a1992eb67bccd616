//! Neural-network building blocks: layer descriptions and the shape logic
//! their forward passes rely on.
pub mod activate;
pub mod flatten;
pub mod loss;
pub mod module;
pub mod pool;
pub mod sequential;
