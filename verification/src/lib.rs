//! Merging of equivalent rules in a CSS rule list.
//!
//! [`merge::merge_rule_list`] inserts the rules of a list into a tree whose
//! nodes stand for at-rules and selectors, and prints the tree as a list again.
//! A rule goes into the node of the one right in front of it where the two have
//! the same key. Declarations make no node: they are held in an arena, and a run
//! of them in a node is a list of indexes into it. Where that is safe, a
//! declaration takes the place of an earlier one of the same property, and a run
//! joins an earlier one of its node.
//!
//! [`model`] says what the result is, [`arena`] what is held at which index on
//! the way to it, [`cascade`] what a list of rules says to the cascade, and
//! [`laws`] that merging keeps it. [`operations`] says what each step is for,
//! [`origins`] where the declarations of a merged list come from, [`heads`] where
//! its rules do, and [`output`] what it looks like; [`terms`] has the words for
//! that.

pub mod arena;
pub mod cascade;
pub mod context;
pub mod declaration;
mod declaration_set;
pub mod heads;
pub mod laws;
pub mod merge;
pub mod mergeable;
pub mod model;
pub mod names;
pub mod operations;
pub mod origins;
pub mod output;
mod preservation;
mod reduction;
pub mod rules;
pub mod run_laws;
pub mod settled;
pub mod soundness;
pub mod terms;
mod trie;
pub mod values;
