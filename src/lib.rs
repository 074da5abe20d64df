use vstd::prelude::*;

pub mod buffer;
pub mod cursor;
pub mod editor;
pub mod terminal;
pub mod text;

verus! {

} // verus!
