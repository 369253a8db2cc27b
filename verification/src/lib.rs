pub mod colour;
pub mod palette;
