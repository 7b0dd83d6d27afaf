//! A group of sorting algorithms of varying efficiency — merge sort, bubble
//! sort, gnome sort and bogo sort — each one proved to leave its caller's
//! vector in non-decreasing order while keeping exactly the values it held.
//! Bogo sort shuffles at random and may spend any number of rounds, so it
//! takes a bound on how many to attempt; do not point it at long vectors.

pub mod sorting;
