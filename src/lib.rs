//! Order-preserving tuple encoding: typed values to byte strings whose
//! byte-wise order is the order of the values, and back.
pub mod error;
pub mod spec;
pub mod item;
pub mod integer;
pub mod field;
pub mod tuple;
pub mod round_trip;
pub mod order;
pub mod laws;

pub use error::Error;
pub use field::Field;
pub use item::Item;
pub use tuple::{Decode, Encode, Value};
