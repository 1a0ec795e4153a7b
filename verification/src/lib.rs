//! A lazy pseudo-random shuffle over a borrowed slice, built on a
//! seed-parameterized bijective index permutation, together with two
//! independent iteration utilities: a Cartesian product over two
//! sequences and a textual month-calendar generator.

pub mod calendar;
pub mod cartesian;
pub mod permute;
pub mod shuffle;
