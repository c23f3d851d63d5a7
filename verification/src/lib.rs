pub mod geometry;
pub mod framebuffer;
pub mod line;
pub mod fill;
