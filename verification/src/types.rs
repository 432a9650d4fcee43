//! The entities of the lexical graph.
//!
//! Every entity lives in a typed arena inside the `Lexicon`; a field such as
//! `WordInstance::category` is an index into the corresponding arena.  Index
//! identity plays the role that node identity plays in a pointer-based graph.

use vstd::prelude::*;

verus! {

/// A unique literal string together with every occurrence of it in the corpus.
pub struct Word {
    /// The literal, unique across the word arena.
    pub name: String,
    /// Every instance of this word anywhere in the corpus.
    pub instances: Vec<usize>,
}

/// A conversation venue, keyed by name.
pub struct Source {
    /// The venue's unique name.
    pub name: String,
    /// Running count of messages told at this source.
    pub messages: u64,
    /// The authors known at this source.
    pub authors: Vec<usize>,
    /// The conversation currently receiving messages, if any.
    pub active_conversation: Option<usize>,
}

/// An identity scoped to one source.
pub struct Author {
    /// The source this author belongs to.
    pub source: usize,
    /// The author's name, unique within its source.
    pub name: String,
}

/// An ordered run of messages belonging to one source.
pub struct Conversation {
    /// The source this conversation belongs to.
    pub source: usize,
    /// The messages of the conversation, in arrival order.
    pub messages: Vec<usize>,
}

/// An ordered sequence of word instances told by one author.
pub struct Message {
    /// The author who told the message.
    pub author: usize,
    /// The conversation the message belongs to.
    pub conversation: usize,
    /// The message's position within its conversation.
    pub index: usize,
    /// The word instances of the message, in textual order.
    pub instances: Vec<usize>,
    /// The corpus size at the time the message was last learned; guards
    /// against re-learning the same message twice in the same step.
    pub last_checked_at: usize,
}

/// One occurrence of a word at a given position of a given message.
#[derive(Clone, Copy)]
pub struct WordInstance {
    /// The word that occurs here.
    pub word: usize,
    /// The category the occurrence currently belongs to.
    pub category: usize,
    /// The message the occurrence stands in.
    pub message: usize,
    /// The occurrence's position within its message.
    pub index: usize,
}

/// An equivalence class of word instances believed to be substitutable.
pub struct Category {
    /// The member instances.
    pub instances: Vec<usize>,
    /// Categories substitutable at the position immediately before a shared
    /// context; symmetric and self-free.
    pub precocategories: Vec<usize>,
    /// Categories substitutable at the position immediately after a shared
    /// context; symmetric and self-free.
    pub postcocategories: Vec<usize>,
}

/// An exact fraction; the cocategorization ratio is held this way so that the
/// threshold arithmetic stays exact.
#[derive(Clone, Copy, PartialEq, Eq, Structural)]
pub struct Ratio {
    /// Numerator.
    pub num: u64,
    /// Denominator; always at least one.
    pub den: u64,
}

/// The outcome of comparing two messages position by position.
pub enum Mismatch<T> {
    /// Incomparable messages, or no mismatching position at all.
    Nothing,
    /// Exactly one mismatching position.
    One(T),
    /// More than one mismatching position.
    Multiple,
}

/// A message as it arrives from a chat transport.
pub struct ChatMessage {
    /// The venue the message arrived at.
    pub source: String,
    /// Who sent it.
    pub author: String,
    /// Its text.
    pub message: String,
}

/// True when the elements of `s` are pairwise distinct.
pub open spec fn seq_distinct(s: Seq<usize>) -> bool {
    forall|i: int, j: int| 0 <= i < j < s.len() ==> s[i] != s[j]
}

} // verus!
