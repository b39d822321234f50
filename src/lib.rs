pub mod color;
pub mod line;
pub mod pipeline;
