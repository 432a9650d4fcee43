//! A lexical categorization and generation engine.
//!
//! The engine learns word-usage patterns incrementally from ingested text and
//! generates replies by recombining previously seen material.  The whole graph
//! of words, word occurrences, messages and dynamically merged categories is
//! kept in typed arenas inside the `Lexicon`; every cross-reference is an
//! index into one of those arenas.
//!
//! The lexical store and the learning loop live in [`lexicon`], the category
//! graph operations in [`category`] and [`merge`], the coincidence evaluator
//! in [`word_instance`], message comparison and rendering in [`message`], the
//! generator in [`respond`], introspection in [`report`], the text splitters
//! and the command surface in [`tokens`] and [`command`], the snapshot form
//! in [`serial`], and the globally proved laws of the graph in [`laws`].

use vstd::prelude::*;

pub mod category;
pub mod command;
pub mod laws;
pub mod lexicon;
pub mod merge;
pub mod message;
pub mod report;
pub mod respond;
pub mod rng;
pub mod serial;
pub mod tokens;
pub mod types;
pub mod word_instance;

verus! {

} // verus!
