use vstd::prelude::*;

pub mod bits;
pub mod model;
pub mod doc;
pub mod lex;
pub mod parse;
pub mod compose;

pub use compose::{fields, peripheral};
pub use model::{Device, Field, Fields, FieldsIter, Peripheral, Register};

verus! {

} // verus!
