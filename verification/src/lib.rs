//! Structural difference between two JSON-like tree values.
//!
//! Two trees are walked in lock-step; every divergent location is classified
//! and reported, unless an exemption configured for that location suppresses
//! it.  Locations are addressed by [`Path`] values, written in a small textual
//! syntax (`"a.[_].c"`), where `[_]` stands for any array index.  Scalar
//! comparisons can be relaxed by a numeric epsilon and by a timestamp
//! tolerance.  Build a [`Diff`] with [`DiffBuilder`] and run [`Diff::compare`].

pub mod path;
pub mod element_path_parser;
pub mod value;
pub mod diffmodel;
pub mod engine;
pub mod laws;
pub mod ext;

pub use path::{ArrayIndex, PathElement, Path};
pub use element_path_parser::{parse_element_path, ParseError};
pub use value::{Number, Value, Type, value_by_path, value_eq, number_is_valid};
pub use diffmodel::{Pairs, EntryDifference, ScalarDifference, ArrayDifference, Difference};
pub use engine::{Diff, DiffBuilder, DiffBuilderError, IgnorePath, Condition, TreeSide};
