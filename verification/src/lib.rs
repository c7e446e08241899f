//! Structural pseudo-selector matching over a document tree.
//!
//! The library evaluates positional predicates ("nth child", "nth of
//! tag-type", "only child", "only of tag-type", "empty") against a tree of
//! nodes, either testing one candidate element or filtering an entire
//! document-order-sorted candidate sequence, and registers the rule
//! definitions the outer query engine dispatches on.

pub mod group;

pub mod matcher;

pub mod nth;

pub mod nth_child;

pub mod of_type;

pub mod only;

pub mod rules;

pub mod tree;
