//! Finds visually duplicate images under a directory tree.
//!
//! The verified part of the scan lives here: which walked entries are
//! candidates, how perceptual hashes are grouped into duplicate sets, how
//! faults are collected, how cancellation empties the result, and how the
//! user's settings are parsed into a scan request. Reading the disk, walking
//! directories, decoding and hashing pictures (behind a barrier that turns a
//! decoder's panic into a fault), threads and the cancellation flag itself are
//! driven from outside through the plain values these modules take and
//! return.

pub mod config;
pub mod fault;
pub mod filter;
pub mod group;
pub mod image;
pub mod lifecycle;
pub mod scan;
pub mod ui;
