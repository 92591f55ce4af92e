//! Arithmetic coding: a lossless entropy coder that narrows an integer
//! interval once for each symbol, driven by a probability model.
use vstd::prelude::*;

pub mod bitstore;
pub mod common;
pub mod decoder;
pub mod encoder;
pub mod fenwick;
pub mod fixed_length;
pub mod inverse;
pub mod max_length;
pub mod model;
pub mod one_shot;
pub mod probability;
pub mod uniform;
pub mod util;

pub use bitstore::BitStore;
pub use decoder::Decoder;
pub use encoder::Encoder;
pub use model::Model;
pub use probability::Probability;
pub use util::precision;

verus! {

/// The errors that encoding can meet.
pub enum Error<E> {
    /// The model rejected a symbol.
    ValueError(E),
}

} // verus!
