//! Procedural morphology of articulated creatures: a genotype stored as an
//! array-backed quad-tree, its random generation and validity check, and a
//! cursor-driven assembler that turns a genotype into a plan of rigid segments
//! joined by hinges.
//!
//! Lengths are integers in world units and angles are integers in
//! milliradians.
pub mod assembler;
pub mod blob_info;
pub mod geno_builder;
pub mod genotype;
pub mod quad_tree;
mod random;
