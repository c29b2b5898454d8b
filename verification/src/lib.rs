//! Post-processing pipeline for a YOLOv2-style single-shot object detector.
//!
//! The crate turns the raw grid/anchor output of a detection network into a
//! clean list of labeled, scored bounding boxes: letterbox preprocessing,
//! grid/anchor decoding, greedy non-maximum suppression, and the inverse
//! mapping back to original image coordinates.
//!
//! All quantities are carried in a fixed-point representation with six
//! decimal places (see [`fixed::SCALE`]); the caller applies the network's
//! transcendental activations (sigmoid, exp) and hands the results over in
//! that representation.

pub mod bbox;
pub mod decode;
pub mod detect;
pub mod fixed;
pub mod geom;
pub mod nms;
pub mod preprocess;
