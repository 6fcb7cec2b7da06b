//! First-match rule dispatch with a verified low-cardinality tree index.
//!
//! An ordered list of [`Rule`]s constrains named attributes to exact values;
//! a query supplies a full attribute assignment (a [`Bag`]) and asks for the
//! lowest index of a rule whose every constraint the assignment satisfies.
//! Two strategies implement the [`Matcher`] contract: a linear scan over the
//! rules, and a tree index keyed by the distinct attribute names. Both are
//! proved to return exactly the first matching rule index.

pub mod bag;
pub mod laws;
pub mod linear;
pub mod matching;
pub mod tree;

pub use bag::Bag;
pub use bag::Rule;
pub use linear::LinearScan;
pub use matching::Matcher;
pub use tree::LowCardinalityTree;
pub use tree::Node;
pub use tree::min_some;
