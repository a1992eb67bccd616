pub mod shape;
pub mod broadcast;
pub mod math;
pub mod dims;
pub mod reduce;
pub mod pool;
pub mod conv;
pub mod parallel;
