//! Refinement of per-pixel confidence masks into a stable mask of one
//! selected object: a bounded frame history, disk-kernel erosion and
//! dilation, seeded region isolation and confidence re-application.
//!
//! The library is generic in the type of a sample and decides nothing by
//! arithmetic on samples. Its caller smooths the frames of the history,
//! compares samples with the thresholds and maps the click to a pixel; the
//! library keeps the history and computes the region and the refined mask
//! from the resulting flags.

pub mod grid;
pub mod morphology;
pub mod refiner;
pub mod region;
