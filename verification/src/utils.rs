pub mod conversion;
pub mod fixed;
pub mod math;
pub mod vector;
