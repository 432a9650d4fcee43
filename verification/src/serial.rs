//! The serializable snapshot form of the whole graph.
//!
//! Every in-memory cross-reference is already an arena index, so the
//! snapshot is a faithful projection: the same arenas with integer
//! surrogate identifiers widened to a fixed size.  The projection is
//! verified lossless — every entity and every relation of the graph is
//! carried over unchanged, so the graph can be reconstructed from it.

use crate::lexicon::Lexicon;
use vstd::prelude::*;

verus! {

/// A word in snapshot form.
pub struct SerialWord {
    /// The literal.
    pub name: String,
    /// The instances of this word, as surrogate identifiers.
    pub instances: Vec<u64>,
}

/// A source in snapshot form.
pub struct SerialSource {
    /// The venue's name.
    pub name: String,
    /// The running message count.
    pub messages: u64,
    /// The authors known here.
    pub authors: Vec<u64>,
    /// The active conversation, if any.
    pub active_conversation: Option<u64>,
}

/// An author in snapshot form.
pub struct SerialAuthor {
    /// The owning source.
    pub source: u64,
    /// The author's name.
    pub name: String,
}

/// A conversation in snapshot form.
pub struct SerialConversation {
    /// The owning source.
    pub source: u64,
    /// The messages, in order.
    pub messages: Vec<u64>,
}

/// A message in snapshot form.
pub struct SerialMessage {
    /// The telling author.
    pub author: u64,
    /// The owning conversation.
    pub conversation: u64,
    /// The position within the conversation.
    pub index: u64,
    /// The word instances, in order.
    pub instances: Vec<u64>,
}

/// A word instance in snapshot form.
pub struct SerialWordInstance {
    /// The word occurring here.
    pub word: u64,
    /// The current category.
    pub category: u64,
    /// The owning message.
    pub message: u64,
    /// The position within the message.
    pub index: u64,
}

/// A category in snapshot form.
pub struct SerialCategory {
    /// The member instances.
    pub instances: Vec<u64>,
    /// The precocategory neighbors.
    pub precocategories: Vec<u64>,
    /// The postcocategory neighbors.
    pub postcocategories: Vec<u64>,
}

/// The whole graph in snapshot form, together with the tuning parameters.
pub struct SerialLexicon {
    /// Numerator of the cocategorization ratio.
    pub cocategorization_ratio_num: u64,
    /// Denominator of the cocategorization ratio.
    pub cocategorization_ratio_den: u64,
    /// The drift travel distance.
    pub cocategory_travel_distance: u64,
    /// Cocategorization attempts per learning step.
    pub cocategorize_magnitude: u64,
    /// Edge-distance budget for preceding contexts.
    pub forward_edge_distance: u64,
    /// Edge-distance budget for following contexts.
    pub backward_edge_distance: u64,
    /// Word-distance budget for preceding contexts.
    pub forward_word_distance: u64,
    /// Word-distance budget for following contexts.
    pub backward_word_distance: u64,
    /// The word arena.
    pub words: Vec<SerialWord>,
    /// The source arena.
    pub sources: Vec<SerialSource>,
    /// The author arena.
    pub authors: Vec<SerialAuthor>,
    /// The conversation arena.
    pub conversations: Vec<SerialConversation>,
    /// The message arena.
    pub messages: Vec<SerialMessage>,
    /// The instance arena.
    pub instances: Vec<SerialWordInstance>,
    /// The category arena.
    pub categories: Vec<SerialCategory>,
}

/// The identifier list `a` is the widening of `b`.
pub open spec fn ids_match(a: Seq<u64>, b: Seq<usize>) -> bool {
    a.len() == b.len() && forall|j: int| 0 <= j < a.len() ==> #[trigger] a[j] == b[j] as u64
}

/// Widen an identifier list for the snapshot.
fn widen_ids(v: &Vec<usize>) -> (r: Vec<u64>)
    ensures
        ids_match(r@, v@),
{
    let n = v.len();
    let mut r: Vec<u64> = Vec::new();
    let mut i: usize = 0;
    while i < n
        invariant
            i <= n,
            n == v@.len(),
            r@.len() == i,
            forall|j: int| 0 <= j < i ==> #[trigger] r@[j] == v@[j] as u64,
        decreases n - i,
    {
        r.push(v[i] as u64);
        i += 1;
    }
    r
}

impl Lexicon {
    /// Project the whole graph into its snapshot form.  Every arena keeps
    /// its length and order, every name its characters, and every
    /// cross-reference its index, so nothing is lost.
    pub fn to_serial(&self) -> (r: SerialLexicon)
        requires
            self.wf(),
        ensures
            r.cocategorization_ratio_num == self.cocategorization_ratio.num,
            r.cocategorization_ratio_den == self.cocategorization_ratio.den,
            r.cocategory_travel_distance == self.cocategory_travel_distance as u64,
            r.cocategorize_magnitude == self.cocategorize_magnitude as u64,
            r.forward_edge_distance == self.forward_edge_distance as u64,
            r.backward_edge_distance == self.backward_edge_distance as u64,
            r.forward_word_distance == self.forward_word_distance as u64,
            r.backward_word_distance == self.backward_word_distance as u64,
            r.words@.len() == self.words@.len(),
            forall|i: int|
                0 <= i < self.words@.len() ==> {
                    &&& (#[trigger] r.words@[i]).name@ == self.words@[i].name@
                    &&& ids_match(r.words@[i].instances@, self.words@[i].instances@)
                },
            r.sources@.len() == self.sources@.len(),
            forall|i: int|
                0 <= i < self.sources@.len() ==> {
                    &&& (#[trigger] r.sources@[i]).name@ == self.sources@[i].name@
                    &&& r.sources@[i].messages == self.sources@[i].messages
                    &&& ids_match(r.sources@[i].authors@, self.sources@[i].authors@)
                    &&& r.sources@[i].active_conversation == match self.sources@[i]
                        .active_conversation {
                        Some(c) => Some(c as u64),
                        None => None,
                    }
                },
            r.authors@.len() == self.authors@.len(),
            forall|i: int|
                0 <= i < self.authors@.len() ==> {
                    &&& (#[trigger] r.authors@[i]).source == self.authors@[i].source as u64
                    &&& r.authors@[i].name@ == self.authors@[i].name@
                },
            r.conversations@.len() == self.conversations@.len(),
            forall|i: int|
                0 <= i < self.conversations@.len() ==> {
                    &&& (#[trigger] r.conversations@[i]).source == self.conversations@[i].source
                        as u64
                    &&& ids_match(r.conversations@[i].messages@, self.conversations@[i].messages@)
                },
            r.messages@.len() == self.messages@.len(),
            forall|i: int|
                0 <= i < self.messages@.len() ==> {
                    &&& (#[trigger] r.messages@[i]).author == self.messages@[i].author as u64
                    &&& r.messages@[i].conversation == self.messages@[i].conversation as u64
                    &&& r.messages@[i].index == self.messages@[i].index as u64
                    &&& ids_match(r.messages@[i].instances@, self.messages@[i].instances@)
                },
            r.instances@.len() == self.instances@.len(),
            forall|i: int|
                0 <= i < self.instances@.len() ==> {
                    &&& (#[trigger] r.instances@[i]).word == self.instances@[i].word as u64
                    &&& r.instances@[i].category == self.instances@[i].category as u64
                    &&& r.instances@[i].message == self.instances@[i].message as u64
                    &&& r.instances@[i].index == self.instances@[i].index as u64
                },
            r.categories@.len() == self.categories@.len(),
            forall|i: int|
                0 <= i < self.categories@.len() ==> {
                    &&& ids_match(
                        (#[trigger] r.categories@[i]).instances@,
                        self.categories@[i].instances@,
                    )
                    &&& ids_match(
                        r.categories@[i].precocategories@,
                        self.categories@[i].precocategories@,
                    )
                    &&& ids_match(
                        r.categories@[i].postcocategories@,
                        self.categories@[i].postcocategories@,
                    )
                },
    {
        let mut words: Vec<SerialWord> = Vec::new();
        let mut i: usize = 0;
        let n_words = self.words.len();
        while i < n_words
            invariant
                i <= n_words,
                n_words == self.words@.len(),
                words@.len() == i,
                forall|t: int|
                    0 <= t < i ==> {
                        &&& (#[trigger] words@[t]).name@ == self.words@[t].name@
                        &&& ids_match(words@[t].instances@, self.words@[t].instances@)
                    },
            decreases n_words - i,
        {
            words.push(
                SerialWord {
                    name: self.words[i].name.clone(),
                    instances: widen_ids(&self.words[i].instances),
                },
            );
            i += 1;
        }
        let mut sources: Vec<SerialSource> = Vec::new();
        let mut i2: usize = 0;
        let n_sources = self.sources.len();
        while i2 < n_sources
            invariant
                i2 <= n_sources,
                n_sources == self.sources@.len(),
                sources@.len() == i2,
                forall|t: int|
                    0 <= t < i2 ==> {
                        &&& (#[trigger] sources@[t]).name@ == self.sources@[t].name@
                        &&& sources@[t].messages == self.sources@[t].messages
                        &&& ids_match(sources@[t].authors@, self.sources@[t].authors@)
                        &&& sources@[t].active_conversation == match self.sources@[t]
                            .active_conversation {
                            Some(c) => Some(c as u64),
                            None => None,
                        }
                    },
            decreases n_sources - i2,
        {
            let active: Option<u64> = match self.sources[i2].active_conversation {
                Some(c) => Some(c as u64),
                None => None,
            };
            sources.push(
                SerialSource {
                    name: self.sources[i2].name.clone(),
                    messages: self.sources[i2].messages,
                    authors: widen_ids(&self.sources[i2].authors),
                    active_conversation: active,
                },
            );
            i2 += 1;
        }
        let mut authors: Vec<SerialAuthor> = Vec::new();
        let mut i3: usize = 0;
        let n_authors = self.authors.len();
        while i3 < n_authors
            invariant
                i3 <= n_authors,
                n_authors == self.authors@.len(),
                authors@.len() == i3,
                forall|t: int|
                    0 <= t < i3 ==> {
                        &&& (#[trigger] authors@[t]).source == self.authors@[t].source as u64
                        &&& authors@[t].name@ == self.authors@[t].name@
                    },
            decreases n_authors - i3,
        {
            authors.push(
                SerialAuthor {
                    source: self.authors[i3].source as u64,
                    name: self.authors[i3].name.clone(),
                },
            );
            i3 += 1;
        }
        let mut conversations: Vec<SerialConversation> = Vec::new();
        let mut i4: usize = 0;
        let n_convs = self.conversations.len();
        while i4 < n_convs
            invariant
                i4 <= n_convs,
                n_convs == self.conversations@.len(),
                conversations@.len() == i4,
                forall|t: int|
                    0 <= t < i4 ==> {
                        &&& (#[trigger] conversations@[t]).source == self.conversations@[t].source
                            as u64
                        &&& ids_match(
                            conversations@[t].messages@,
                            self.conversations@[t].messages@,
                        )
                    },
            decreases n_convs - i4,
        {
            conversations.push(
                SerialConversation {
                    source: self.conversations[i4].source as u64,
                    messages: widen_ids(&self.conversations[i4].messages),
                },
            );
            i4 += 1;
        }
        let mut messages: Vec<SerialMessage> = Vec::new();
        let mut i5: usize = 0;
        let n_msgs = self.messages.len();
        while i5 < n_msgs
            invariant
                i5 <= n_msgs,
                n_msgs == self.messages@.len(),
                messages@.len() == i5,
                forall|t: int|
                    0 <= t < i5 ==> {
                        &&& (#[trigger] messages@[t]).author == self.messages@[t].author as u64
                        &&& messages@[t].conversation == self.messages@[t].conversation as u64
                        &&& messages@[t].index == self.messages@[t].index as u64
                        &&& ids_match(messages@[t].instances@, self.messages@[t].instances@)
                    },
            decreases n_msgs - i5,
        {
            messages.push(
                SerialMessage {
                    author: self.messages[i5].author as u64,
                    conversation: self.messages[i5].conversation as u64,
                    index: self.messages[i5].index as u64,
                    instances: widen_ids(&self.messages[i5].instances),
                },
            );
            i5 += 1;
        }
        let mut instances: Vec<SerialWordInstance> = Vec::new();
        let mut i6: usize = 0;
        let n_inst = self.instances.len();
        while i6 < n_inst
            invariant
                i6 <= n_inst,
                n_inst == self.instances@.len(),
                instances@.len() == i6,
                forall|t: int|
                    0 <= t < i6 ==> {
                        &&& (#[trigger] instances@[t]).word == self.instances@[t].word as u64
                        &&& instances@[t].category == self.instances@[t].category as u64
                        &&& instances@[t].message == self.instances@[t].message as u64
                        &&& instances@[t].index == self.instances@[t].index as u64
                    },
            decreases n_inst - i6,
        {
            instances.push(
                SerialWordInstance {
                    word: self.instances[i6].word as u64,
                    category: self.instances[i6].category as u64,
                    message: self.instances[i6].message as u64,
                    index: self.instances[i6].index as u64,
                },
            );
            i6 += 1;
        }
        let mut categories: Vec<SerialCategory> = Vec::new();
        let mut i7: usize = 0;
        let n_cats = self.categories.len();
        while i7 < n_cats
            invariant
                i7 <= n_cats,
                n_cats == self.categories@.len(),
                categories@.len() == i7,
                forall|t: int|
                    0 <= t < i7 ==> {
                        &&& ids_match(
                            (#[trigger] categories@[t]).instances@,
                            self.categories@[t].instances@,
                        )
                        &&& ids_match(
                            categories@[t].precocategories@,
                            self.categories@[t].precocategories@,
                        )
                        &&& ids_match(
                            categories@[t].postcocategories@,
                            self.categories@[t].postcocategories@,
                        )
                    },
            decreases n_cats - i7,
        {
            categories.push(
                SerialCategory {
                    instances: widen_ids(&self.categories[i7].instances),
                    precocategories: widen_ids(&self.categories[i7].precocategories),
                    postcocategories: widen_ids(&self.categories[i7].postcocategories),
                },
            );
            i7 += 1;
        }
        SerialLexicon {
            cocategorization_ratio_num: self.cocategorization_ratio.num,
            cocategorization_ratio_den: self.cocategorization_ratio.den,
            cocategory_travel_distance: self.cocategory_travel_distance as u64,
            cocategorize_magnitude: self.cocategorize_magnitude as u64,
            forward_edge_distance: self.forward_edge_distance as u64,
            backward_edge_distance: self.backward_edge_distance as u64,
            forward_word_distance: self.forward_word_distance as u64,
            backward_word_distance: self.backward_word_distance as u64,
            words,
            sources,
            authors,
            conversations,
            messages,
            instances,
            categories,
        }
    }
}

} // verus!
