//! A weighted text chain: validation of the model and random walks over it.
//!
//! Weights are fixed-point numbers: `SCALE` stands for a probability of one.

mod model;
mod validate;
mod walk;

pub use model::{name_less, Chain, Link, Node, EPSILON, SCALE};
pub use validate::{Error, Violation};
pub use walk::{ChainIter, Step};
