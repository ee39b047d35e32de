//! Verified core of a Monte Carlo path tracer: how the image is laid out and
//! handed out to workers, how their results are put back in a fixed order, how
//! the radiance estimator spends its depth budget, and how the finished image is
//! written as plain-text PPM. The floating-point rendering itself, vectors,
//! spheres, materials and the camera, lives in the program around this library.
pub mod assembly;
pub mod estimator;
pub mod image;
pub mod ppm;
