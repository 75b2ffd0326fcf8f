pub mod clearance;
pub mod connectivity;
pub mod dot;
pub mod incomplete_polygon;
pub mod interaction;
pub mod parity;
pub mod polygon;
pub mod segment;
pub mod slanted;
pub mod soft_body;
