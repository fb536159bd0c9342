pub mod sort;
pub mod sample;
pub mod colors;
pub mod raster;
pub mod curve;
pub mod builder;
pub mod quality;
pub mod gosper;
pub mod border;
