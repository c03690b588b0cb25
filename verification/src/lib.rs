//! Case splitting on match arms: an arm with a binding of an enum or of `bool` becomes one arm
//! for each of the type's values.

pub mod arms;
pub mod expand;
pub mod laws;
pub mod matching;
pub mod pat;
pub mod reaching;
pub mod replace;
pub mod semantics;
pub mod split;
pub mod text;
pub mod tree;
