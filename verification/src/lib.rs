//! Maps the fields of one structured document onto the shape of another by
//! the similarity of their field names.
//!
//! A source and a target are flattened into their leaves, each under a
//! dotted key. Every target key is given the source key it is most similar
//! to, if the similarity reaches a threshold and no earlier target key took
//! that source key; the target's shape is then built again from the values
//! of the source keys that were given, with null where none was.
//!
//! The similarities come from outside, as integers: the library compares
//! them and does no arithmetic on them.

pub mod engine;
pub mod entries;
pub mod exactness;
pub mod flat;
pub mod laws;
pub mod matching;
pub mod path;
pub mod roundtrip;
pub mod shape;
pub mod transform;
pub mod tree;
pub mod value;
pub mod wellformed;
