//! Counting and unranking walks through a network of linked staircases.
//!
//! A network is a list of staircases, each a span of step ranks, linked by
//! feed links (a zero-cost branch onto a staircase at its first rank) and
//! return links (a hand-off at a staircase's last rank). A walker moves by
//! one of a set of allowed step counts; the library counts the walks from the
//! bottom of the primary corridor to its top, and picks the walk of a given
//! rank in a canonical order without listing the others.

pub mod network;
pub mod corridor;
pub mod topology;
pub mod frontier;
pub mod successors;
pub mod counting;
pub mod ranking;
pub mod table;
pub mod text;
pub mod puzzle;
