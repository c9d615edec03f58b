//! Lazy enumeration of index tuples drawn from `0..n`.
//!
//! Four enumerators walk, in lexicographic order, the tuples of `dim`
//! indices below `n` that obey one of four rules:
//!
//! - `Sequence`: any value at any position;
//! - `Permutation`: no value twice;
//! - `Combination`: strictly increasing values;
//! - `Multichoose`: non-decreasing values.
//!
//! Each enumerator keeps `advance` and `get` apart, so a caller decides
//! whether to borrow the current tuple or to copy it (`next`).
pub mod lex;
pub mod phase;
pub mod odometer;
pub mod binomial;
pub mod sequence;
pub mod permutation;
pub mod lehmer;
pub mod multichoose;
pub mod combination;

pub use crate::phase::Phase;
pub use crate::sequence::Sequence;
pub use crate::permutation::Permutation;
pub use crate::multichoose::Multichoose;
pub use crate::combination::Combination;
