pub mod surface;
pub mod term;
