//! Copy files and directory trees while reporting progress.
pub mod avgspeed;
pub mod track;
pub mod copy;
pub mod stats;
