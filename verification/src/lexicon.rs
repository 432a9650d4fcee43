//! The `Lexicon`: the arena-backed graph of everything the engine has seen,
//! together with its well-formedness invariant and the lexical store
//! operations (venue, author and conversation management).

use crate::rng::LexRng;
use crate::types::{Author, Category, Conversation, Message, Ratio, Source, Word, WordInstance};
use crate::types::seq_distinct;
use crate::types::Mismatch;
use crate::tokens::{is_word_literal, lemma_tokens_are_word_literals, tokenize, tokens_of};
use vstd::prelude::*;

verus! {

/// The whole state of the engine: typed arenas for every entity kind, the
/// tuning parameters, and the random number generator used by learning and
/// generation.
pub struct Lexicon {
    /// The generator driving every random choice the engine makes.
    pub rng: LexRng,
    /// Fraction of instance pairs that must coincide before two categories
    /// are linked as cocategories.
    pub cocategorization_ratio: Ratio,
    /// Number of extra random cocategory hops applied when rendering the
    /// drifted variant of a generated utterance.
    pub cocategory_travel_distance: u32,
    /// Number of cocategorization attempts per learning step.
    pub cocategorize_magnitude: u32,
    /// Edge-distance budget when comparing preceding contexts.
    pub forward_edge_distance: usize,
    /// Edge-distance budget when comparing following contexts.
    pub backward_edge_distance: usize,
    /// Word-distance budget when comparing preceding contexts.
    pub forward_word_distance: usize,
    /// Word-distance budget when comparing following contexts.
    pub backward_word_distance: usize,
    /// Every distinct literal seen so far.
    pub words: Vec<Word>,
    /// Every venue seen so far.
    pub sources: Vec<Source>,
    /// Every author seen so far.
    pub authors: Vec<Author>,
    /// Every conversation started so far.
    pub conversations: Vec<Conversation>,
    /// Every message told so far.
    pub messages: Vec<Message>,
    /// Every word occurrence so far.
    pub instances: Vec<WordInstance>,
    /// Every category ever created; a merge retires its two inputs in place,
    /// leaving them empty and unreferenced.
    pub categories: Vec<Category>,
}

impl Lexicon {
    /// The instance at `k` points at valid arena entries, sits where its
    /// message says it does, and is registered with its word and category.
    pub open spec fn inst_wf(self, k: int) -> bool {
        let ins = self.instances@[k];
        &&& ins.word < self.words@.len()
        &&& ins.category < self.categories@.len()
        &&& ins.message < self.messages@.len()
        &&& ins.index < self.messages@[ins.message as int].instances@.len()
        &&& self.messages@[ins.message as int].instances@[ins.index as int] == k
        &&& self.words@[ins.word as int].instances@.contains(k as usize)
        &&& self.categories@[ins.category as int].instances@.contains(k as usize)
    }

    /// The message at `m` points at valid arena entries, sits where its
    /// conversation says it does, and owns exactly the instances that point
    /// back at it.
    pub open spec fn message_wf(self, m: int) -> bool {
        let msg = self.messages@[m];
        &&& msg.author < self.authors@.len()
        &&& msg.conversation < self.conversations@.len()
        &&& msg.index < self.conversations@[msg.conversation as int].messages@.len()
        &&& self.conversations@[msg.conversation as int].messages@[msg.index as int] == m
        &&& forall|j: int|
            0 <= j < msg.instances@.len() ==> {
                let id = #[trigger] msg.instances@[j];
                &&& id < self.instances@.len()
                &&& self.instances@[id as int].message == m
                &&& self.instances@[id as int].index == j
            }
    }

    /// Every occurrence listed under the word at `w` is a valid instance of
    /// that word, listed once; the literal itself is nonempty and free of
    /// spaces, so rendered text re-splits into corpus words.
    pub open spec fn word_wf(self, w: int) -> bool {
        let wd = self.words@[w];
        &&& is_word_literal(wd.name@)
        &&& forall|j: int|
            0 <= j < wd.instances@.len() ==> {
                let id = #[trigger] wd.instances@[j];
                &&& id < self.instances@.len()
                &&& self.instances@[id as int].word == w
            }
        &&& seq_distinct(wd.instances@)
    }

    /// The members of the category at `c` are valid instances that point back
    /// at it, and its adjacency lists are valid, self-free, duplicate-free
    /// and symmetric.
    pub open spec fn category_wf(self, c: int) -> bool {
        let cat = self.categories@[c];
        &&& forall|j: int|
            0 <= j < cat.instances@.len() ==> {
                let id = #[trigger] cat.instances@[j];
                &&& id < self.instances@.len()
                &&& self.instances@[id as int].category == c
            }
        &&& seq_distinct(cat.instances@)
        &&& forall|j: int|
            0 <= j < cat.precocategories@.len() ==> {
                let d = #[trigger] cat.precocategories@[j];
                &&& d < self.categories@.len()
                &&& d != c
                &&& self.categories@[d as int].precocategories@.contains(c as usize)
            }
        &&& seq_distinct(cat.precocategories@)
        &&& forall|j: int|
            0 <= j < cat.postcocategories@.len() ==> {
                let d = #[trigger] cat.postcocategories@[j];
                &&& d < self.categories@.len()
                &&& d != c
                &&& self.categories@[d as int].postcocategories@.contains(c as usize)
            }
        &&& seq_distinct(cat.postcocategories@)
    }

    /// The conversation at `c` belongs to a valid source and owns exactly the
    /// messages that point back at it.
    pub open spec fn conversation_wf(self, c: int) -> bool {
        let conv = self.conversations@[c];
        &&& conv.source < self.sources@.len()
        &&& forall|j: int|
            0 <= j < conv.messages@.len() ==> {
                let id = #[trigger] conv.messages@[j];
                &&& id < self.messages@.len()
                &&& self.messages@[id as int].conversation == c
                &&& self.messages@[id as int].index == j
            }
    }

    /// The source at `s` lists valid authors with distinct names, and its
    /// active conversation, if any, belongs to it.
    pub open spec fn source_wf(self, s: int) -> bool {
        let src = self.sources@[s];
        &&& forall|j: int|
            0 <= j < src.authors@.len() ==> {
                let id = #[trigger] src.authors@[j];
                &&& id < self.authors@.len()
                &&& self.authors@[id as int].source == s
            }
        &&& seq_distinct(src.authors@)
        &&& forall|j1: int, j2: int|
            #![trigger src.authors@[j1], src.authors@[j2]]
            0 <= j1 < j2 < src.authors@.len()
                ==> self.authors@[src.authors@[j1] as int].name@
                    != self.authors@[src.authors@[j2] as int].name@
        &&& match src.active_conversation {
            Some(c) => c < self.conversations@.len() && self.conversations@[c as int].source == s,
            None => true,
        }
    }

    /// The author at `a` belongs to a valid source that lists it.
    pub open spec fn author_wf(self, a: int) -> bool {
        let au = self.authors@[a];
        &&& au.source < self.sources@.len()
        &&& self.sources@[au.source as int].authors@.contains(a as usize)
    }

    /// No two words share a literal.
    pub open spec fn word_names_distinct(self) -> bool {
        forall|w1: int, w2: int|
            #![trigger self.words@[w1], self.words@[w2]]
            0 <= w1 < w2 < self.words@.len() ==> self.words@[w1].name@ != self.words@[w2].name@
    }

    /// No two sources share a name.
    pub open spec fn source_names_distinct(self) -> bool {
        forall|s1: int, s2: int|
            #![trigger self.sources@[s1], self.sources@[s2]]
            0 <= s1 < s2 < self.sources@.len()
                ==> self.sources@[s1].name@ != self.sources@[s2].name@
    }

    /// Well-formedness of the whole graph: every arena entry is internally
    /// consistent, every cross-reference is valid and properly mirrored, and
    /// the tuning ratio has a positive denominator.
    pub open spec fn wf(self) -> bool {
        &&& self.cocategorization_ratio.den >= 1
        &&& forall|k: int| 0 <= k < self.instances@.len() ==> #[trigger] self.inst_wf(k)
        &&& forall|m: int| 0 <= m < self.messages@.len() ==> #[trigger] self.message_wf(m)
        &&& forall|w: int| 0 <= w < self.words@.len() ==> #[trigger] self.word_wf(w)
        &&& forall|c: int| 0 <= c < self.categories@.len() ==> #[trigger] self.category_wf(c)
        &&& forall|c: int|
            0 <= c < self.conversations@.len() ==> #[trigger] self.conversation_wf(c)
        &&& forall|s: int| 0 <= s < self.sources@.len() ==> #[trigger] self.source_wf(s)
        &&& forall|a: int| 0 <= a < self.authors@.len() ==> #[trigger] self.author_wf(a)
        &&& self.word_names_distinct()
        &&& self.source_names_distinct()
    }

    /// The word, source, author, conversation, message and instance arenas
    /// are the same in `self` and `other`; only categories (and the category
    /// labels of instances) may differ.
    pub open spec fn same_store_except_categories(self, other: Lexicon) -> bool {
        &&& self.words@.len() == other.words@.len()
        &&& forall|w: int|
            #![trigger self.words@[w], other.words@[w]]
            0 <= w < self.words@.len() ==> {
                &&& self.words@[w].name@ == other.words@[w].name@
                &&& self.words@[w].instances@ == other.words@[w].instances@
            }
        &&& self.sources@ == other.sources@
        &&& self.authors@ == other.authors@
        &&& self.conversations@ == other.conversations@
        &&& self.messages@ == other.messages@
        &&& self.instances@.len() == other.instances@.len()
        &&& forall|k: int|
            #![trigger self.instances@[k], other.instances@[k]]
            0 <= k < self.instances@.len() ==> {
                &&& self.instances@[k].word == other.instances@[k].word
                &&& self.instances@[k].message == other.instances@[k].message
                &&& self.instances@[k].index == other.instances@[k].index
            }
    }

    /// The tuning parameters are the same in `self` and `other`.
    pub open spec fn same_tunables(self, other: Lexicon) -> bool {
        &&& self.cocategorization_ratio == other.cocategorization_ratio
        &&& self.cocategory_travel_distance == other.cocategory_travel_distance
        &&& self.cocategorize_magnitude == other.cocategorize_magnitude
        &&& self.forward_edge_distance == other.forward_edge_distance
        &&& self.backward_edge_distance == other.backward_edge_distance
        &&& self.forward_word_distance == other.forward_word_distance
        &&& self.backward_word_distance == other.backward_word_distance
    }

    /// True when some source already carries `name`.
    pub open spec fn has_source_named(self, name: Seq<char>) -> bool {
        exists|t: int| 0 <= t < self.sources@.len() && self.sources@[t].name@ == name
    }

    /// True when the source at `s` already knows an author called `name`.
    pub open spec fn has_author_named(self, s: int, name: Seq<char>) -> bool {
        exists|j: int|
            0 <= j < self.sources@[s].authors@.len()
                && self.authors@[self.sources@[s].authors@[j] as int].name@ == name
    }

    /// Make a new, empty lexicon around `rng`, with the default tuning.
    pub fn new(rng: LexRng) -> (lex: Lexicon)
        ensures
            lex.wf(),
            lex.words@.len() == 0,
            lex.sources@.len() == 0,
            lex.authors@.len() == 0,
            lex.conversations@.len() == 0,
            lex.messages@.len() == 0,
            lex.instances@.len() == 0,
            lex.categories@.len() == 0,
            lex.cocategorization_ratio == (Ratio { num: 2, den: 5 }),
            lex.cocategory_travel_distance == 0,
            lex.cocategorize_magnitude == 65536,
            lex.forward_edge_distance == 1,
            lex.backward_edge_distance == 1,
            lex.forward_word_distance == 1,
            lex.backward_word_distance == 1,
    {
        Lexicon {
            rng,
            cocategorization_ratio: Ratio { num: 2, den: 5 },
            cocategory_travel_distance: 0,
            cocategorize_magnitude: 65536,
            forward_edge_distance: 1,
            backward_edge_distance: 1,
            forward_word_distance: 1,
            backward_word_distance: 1,
            words: Vec::new(),
            sources: Vec::new(),
            authors: Vec::new(),
            conversations: Vec::new(),
            messages: Vec::new(),
            instances: Vec::new(),
            categories: Vec::new(),
        }
    }

    /// Get the source named `name`, creating it if it does not exist yet.
    /// Idempotent: telling the same name twice yields the same index.
    pub fn source(&mut self, name: String) -> (s: usize)
        requires
            old(self).wf(),
        ensures
            final(self).wf(),
            s < final(self).sources@.len(),
            final(self).sources@[s as int].name@ == name@,
            old(self).has_source_named(name@) ==> *final(self) == *old(self),
            !old(self).has_source_named(name@) ==> {
                &&& s == old(self).sources@.len()
                &&& final(self).sources@.len() == old(self).sources@.len() + 1
                &&& forall|t: int|
                    #![trigger final(self).sources@[t]]
                    0 <= t < old(self).sources@.len() ==> final(self).sources@[t] == old(self).sources@[t]
                &&& final(self).sources@[s as int].messages == 0
                &&& final(self).sources@[s as int].authors@.len() == 0
                &&& final(self).sources@[s as int].active_conversation is None
                &&& final(self).words@ == old(self).words@
                &&& final(self).authors@ == old(self).authors@
                &&& final(self).conversations@ == old(self).conversations@
                &&& final(self).messages@ == old(self).messages@
                &&& final(self).instances@ == old(self).instances@
                &&& final(self).categories@ == old(self).categories@
                &&& final(self).rng == old(self).rng
                &&& final(self).same_tunables(*old(self))
            },
    {
        let n = self.sources.len();
        let mut i: usize = 0;
        while i < n
            invariant
                self.wf(),
                n == self.sources@.len(),
                *self == *old(self),
                forall|t: int| 0 <= t < i ==> self.sources@[t].name@ != name@,
            decreases n - i,
        {
            if self.sources[i].name == name {
                return i;
            }
            i += 1;
        }
        let s = self.sources.len();
        self.sources.push(Source {
            name,
            messages: 0,
            authors: Vec::new(),
            active_conversation: None,
        });
        proof {
            assert forall|k: int| 0 <= k < self.instances@.len() implies #[trigger] self.inst_wf(
                k,
            ) by {
                assert(old(self).inst_wf(k));
            }
            assert forall|m: int| 0 <= m < self.messages@.len() implies #[trigger] self.message_wf(
                m,
            ) by {
                assert(old(self).message_wf(m));
            }
            assert forall|w: int| 0 <= w < self.words@.len() implies #[trigger] self.word_wf(
                w,
            ) by {
                assert(old(self).word_wf(w));
            }
            assert forall|c: int| 0 <= c < self.categories@.len() implies #[trigger] self
                .category_wf(c) by {
                assert(old(self).category_wf(c));
            }
            assert forall|c: int| 0 <= c < self.conversations@.len() implies #[trigger] self
                .conversation_wf(c) by {
                assert(old(self).conversation_wf(c));
            }
            assert forall|t: int| 0 <= t < self.sources@.len() implies #[trigger] self.source_wf(
                t,
            ) by {
                if t < s {
                    assert(old(self).source_wf(t));
                }
            }
            assert forall|a: int| 0 <= a < self.authors@.len() implies #[trigger] self.author_wf(
                a,
            ) by {
                assert(old(self).author_wf(a));
            }
        }
        s
    }

    /// Get the author called `name` at the source `source`, creating it if it
    /// does not exist yet.  Idempotent per source.
    pub fn author(&mut self, source: usize, name: String) -> (a: usize)
        requires
            old(self).wf(),
            source < old(self).sources@.len(),
        ensures
            final(self).wf(),
            a < final(self).authors@.len(),
            final(self).authors@[a as int].name@ == name@,
            final(self).authors@[a as int].source == source,
            final(self).sources@[source as int].authors@.contains(a),
            old(self).has_author_named(source as int, name@) ==> *final(self) == *old(self),
            !old(self).has_author_named(source as int, name@) ==> {
                &&& a == old(self).authors@.len()
                &&& final(self).authors@.len() == old(self).authors@.len() + 1
                &&& forall|t: int|
                    #![trigger final(self).authors@[t]]
                    0 <= t < old(self).authors@.len() ==> final(self).authors@[t] == old(self).authors@[t]
                &&& final(self).words@ == old(self).words@
                &&& final(self).conversations@ == old(self).conversations@
                &&& final(self).messages@ == old(self).messages@
                &&& final(self).instances@ == old(self).instances@
                &&& final(self).categories@ == old(self).categories@
                &&& final(self).rng == old(self).rng
                &&& final(self).same_tunables(*old(self))
                &&& final(self).sources@.len() == old(self).sources@.len()
                &&& forall|t: int|
                    #![trigger final(self).sources@[t]]
                    0 <= t < final(self).sources@.len() && t != source ==> final(self).sources@[t] == old(
                        self,
                    ).sources@[t]
                &&& final(self).sources@[source as int].name@ == old(self).sources@[source as
                    int].name@
                &&& final(self).sources@[source as int].messages == old(self).sources@[source as
                    int].messages
                &&& final(self).sources@[source as int].active_conversation == old(
                    self,
                ).sources@[source as int].active_conversation
                &&& final(self).sources@[source as int].authors@ == old(self).sources@[source as
                    int].authors@.push(a)
            },
    {
        proof {
            assert(self.source_wf(source as int));
        }
        let n = self.sources[source].authors.len();
        let mut i: usize = 0;
        while i < n
            invariant
                self.wf(),
                *self == *old(self),
                source < self.sources@.len(),
                n == self.sources@[source as int].authors@.len(),
                forall|j: int|
                    0 <= j < i ==> self.authors@[self.sources@[source as int].authors@[j] as int]
                        .name@ != name@,
            decreases n - i,
        {
            proof {
                assert(self.source_wf(source as int));
            }
            let id = self.sources[source].authors[i];
            if self.authors[id].name == name {
                return id;
            }
            i += 1;
        }
        let a = self.authors.len();
        self.authors.push(Author { source, name });
        self.sources[source].authors.push(a);
        proof {
            let ghost snew = self.sources@[source as int];
            let ghost sold = old(self).sources@[source as int];
            assert(snew.authors@ == sold.authors@.push(a));
            assert(snew.authors@[snew.authors@.len() - 1] == a);
            assert forall|k: int| 0 <= k < self.instances@.len() implies #[trigger] self.inst_wf(
                k,
            ) by {
                assert(old(self).inst_wf(k));
            }
            assert forall|m: int| 0 <= m < self.messages@.len() implies #[trigger] self.message_wf(
                m,
            ) by {
                assert(old(self).message_wf(m));
            }
            assert forall|w: int| 0 <= w < self.words@.len() implies #[trigger] self.word_wf(
                w,
            ) by {
                assert(old(self).word_wf(w));
            }
            assert forall|c: int| 0 <= c < self.categories@.len() implies #[trigger] self
                .category_wf(c) by {
                assert(old(self).category_wf(c));
            }
            assert forall|c: int| 0 <= c < self.conversations@.len() implies #[trigger] self
                .conversation_wf(c) by {
                assert(old(self).conversation_wf(c));
            }
            assert forall|t: int| 0 <= t < self.sources@.len() implies #[trigger] self.source_wf(
                t,
            ) by {
                assert(old(self).source_wf(t));
                if t == source {
                    assert forall|j1: int, j2: int|
                        #![trigger snew.authors@[j1], snew.authors@[j2]]
                        0 <= j1 < j2 < snew.authors@.len() implies self.authors@[snew.authors@[j1]
                        as int].name@ != self.authors@[snew.authors@[j2] as int].name@ by {
                        if j2 == snew.authors@.len() - 1 {
                            assert(self.authors@[snew.authors@[j2] as int].name@ == name@);
                            assert(sold.authors@[j1] == snew.authors@[j1]);
                        }
                    }
                }
            }
            assert forall|t: int| 0 <= t < self.authors@.len() implies #[trigger] self.author_wf(
                t,
            ) by {
                if t < a {
                    assert(old(self).author_wf(t));
                    if old(self).authors@[t].source == source {
                        assert(sold.authors@.contains(t as usize));
                        let j = choose|j: int|
                            0 <= j < sold.authors@.len() && sold.authors@[j] == t as usize;
                        assert(snew.authors@[j] == t as usize);
                    }
                } else {
                    assert(snew.authors@[snew.authors@.len() - 1] == a);
                }
            }
        }
        a
    }

    /// Start a new, empty conversation at `source` and make it the active
    /// one; the previous active conversation, if any, is retired but kept.
    pub fn switch(&mut self, source: usize)
        requires
            old(self).wf(),
            source < old(self).sources@.len(),
        ensures
            final(self).wf(),
            final(self).conversations@.len() == old(self).conversations@.len() + 1,
            forall|t: int|
                #![trigger final(self).conversations@[t]]
                0 <= t < old(self).conversations@.len() ==> final(self).conversations@[t] == old(
                    self,
                ).conversations@[t],
            final(self).conversations@[old(self).conversations@.len() as int].source == source,
            final(self).conversations@[old(self).conversations@.len() as int].messages@.len() == 0,
            final(self).sources@[source as int].active_conversation == Some(
                old(self).conversations@.len() as usize,
            ),
            final(self).sources@.len() == old(self).sources@.len(),
            forall|t: int|
                #![trigger final(self).sources@[t]]
                0 <= t < final(self).sources@.len() && t != source ==> final(self).sources@[t] == old(
                    self,
                ).sources@[t],
            final(self).sources@[source as int].name@ == old(self).sources@[source as int].name@,
            final(self).sources@[source as int].messages == old(self).sources@[source as int].messages,
            final(self).sources@[source as int].authors@ == old(self).sources@[source as int].authors@,
            final(self).words@ == old(self).words@,
            final(self).authors@ == old(self).authors@,
            final(self).messages@ == old(self).messages@,
            final(self).instances@ == old(self).instances@,
            final(self).categories@ == old(self).categories@,
            final(self).rng == old(self).rng,
            final(self).same_tunables(*old(self)),
    {
        let c = self.conversations.len();
        self.conversations.push(Conversation { source, messages: Vec::new() });
        self.sources[source].active_conversation = Some(c);
        proof {
            assert forall|k: int| 0 <= k < self.instances@.len() implies #[trigger] self.inst_wf(
                k,
            ) by {
                assert(old(self).inst_wf(k));
            }
            assert forall|m: int| 0 <= m < self.messages@.len() implies #[trigger] self.message_wf(
                m,
            ) by {
                assert(old(self).message_wf(m));
            }
            assert forall|w: int| 0 <= w < self.words@.len() implies #[trigger] self.word_wf(
                w,
            ) by {
                assert(old(self).word_wf(w));
            }
            assert forall|cc: int| 0 <= cc < self.categories@.len() implies #[trigger] self
                .category_wf(cc) by {
                assert(old(self).category_wf(cc));
            }
            assert forall|cc: int| 0 <= cc < self.conversations@.len() implies #[trigger] self
                .conversation_wf(cc) by {
                if cc < c {
                    assert(old(self).conversation_wf(cc));
                }
            }
            assert forall|t: int| 0 <= t < self.sources@.len() implies #[trigger] self.source_wf(
                t,
            ) by {
                assert(old(self).source_wf(t));
            }
            assert forall|t: int| 0 <= t < self.authors@.len() implies #[trigger] self.author_wf(
                t,
            ) by {
                assert(old(self).author_wf(t));
            }
        }
    }

    /// True when some word already carries the literal `name`.
    pub open spec fn has_word_named(self, name: Seq<char>) -> bool {
        exists|t: int| 0 <= t < self.words@.len() && self.words@[t].name@ == name
    }

    /// Get the word with literal `name`, creating it if it does not exist.
    fn find_or_create_word(&mut self, name: String) -> (w: usize)
        requires
            old(self).wf(),
            is_word_literal(name@),
        ensures
            final(self).wf(),
            w < final(self).words@.len(),
            final(self).words@[w as int].name@ == name@,
            old(self).has_word_named(name@) ==> *final(self) == *old(self),
            !old(self).has_word_named(name@) ==> {
                &&& w == old(self).words@.len()
                &&& final(self).words@.len() == old(self).words@.len() + 1
                &&& forall|t: int|
                    #![trigger final(self).words@[t]]
                    0 <= t < old(self).words@.len() ==> final(self).words@[t] == old(self).words@[t]
                &&& final(self).words@[w as int].instances@.len() == 0
                &&& final(self).sources@ == old(self).sources@
                &&& final(self).authors@ == old(self).authors@
                &&& final(self).conversations@ == old(self).conversations@
                &&& final(self).messages@ == old(self).messages@
                &&& final(self).instances@ == old(self).instances@
                &&& final(self).categories@ == old(self).categories@
                &&& final(self).rng == old(self).rng
                &&& final(self).same_tunables(*old(self))
            },
    {
        let n = self.words.len();
        let mut i: usize = 0;
        while i < n
            invariant
                self.wf(),
                n == self.words@.len(),
                *self == *old(self),
                forall|t: int| 0 <= t < i ==> self.words@[t].name@ != name@,
            decreases n - i,
        {
            if self.words[i].name == name {
                return i;
            }
            i += 1;
        }
        let w = self.words.len();
        self.words.push(Word { name, instances: Vec::new() });
        proof {
            assert forall|k: int| 0 <= k < self.instances@.len() implies #[trigger] self.inst_wf(
                k,
            ) by {
                assert(old(self).inst_wf(k));
            }
            assert forall|m: int| 0 <= m < self.messages@.len() implies #[trigger] self.message_wf(
                m,
            ) by {
                assert(old(self).message_wf(m));
            }
            assert forall|t: int| 0 <= t < self.words@.len() implies #[trigger] self.word_wf(
                t,
            ) by {
                if t < w {
                    assert(old(self).word_wf(t));
                }
            }
            assert forall|c: int| 0 <= c < self.categories@.len() implies #[trigger] self
                .category_wf(c) by {
                assert(old(self).category_wf(c));
            }
            assert forall|c: int| 0 <= c < self.conversations@.len() implies #[trigger] self
                .conversation_wf(c) by {
                assert(old(self).conversation_wf(c));
            }
            assert forall|t: int| 0 <= t < self.sources@.len() implies #[trigger] self.source_wf(
                t,
            ) by {
                assert(old(self).source_wf(t));
            }
            assert forall|a: int| 0 <= a < self.authors@.len() implies #[trigger] self.author_wf(
                a,
            ) by {
                assert(old(self).author_wf(a));
            }
        }
        w
    }

    /// The post-ingestion state `mid` that telling learns from: the new
    /// message's tokens stand wired in fresh singleton categories, the
    /// pre-existing arenas are untouched, and the re-learn tick is clear.
    pub open spec fn freshly_ingested(pre: Lexicon, mid: Lexicon, m: int, toks: Seq<Seq<char>>) -> bool {
        &&& mid.wf()
        &&& m == pre.messages@.len()
        &&& mid.messages@.len() == pre.messages@.len() + 1
        &&& mid.message_words(m) == toks
        &&& mid.messages@[m].last_checked_at == 0
        &&& mid.messages@[m].instances@.len() == toks.len()
        &&& mid.instances@.len() == pre.instances@.len() + toks.len()
        &&& forall|j: int|
            #![trigger mid.messages@[m].instances@[j]]
            0 <= j < toks.len() ==> mid.messages@[m].instances@[j] == pre.instances@.len() + j
        &&& forall|m2: int|
            #![trigger mid.messages@[m2]]
            0 <= m2 < pre.messages@.len() ==> mid.messages@[m2].instances@
                == pre.messages@[m2].instances@
        &&& forall|k: int|
            #![trigger mid.instances@[k]]
            0 <= k < pre.instances@.len() ==> mid.instances@[k] == pre.instances@[k]
        &&& forall|j: int|
            #![trigger mid.messages@[m].instances@[j]]
            0 <= j < toks.len() ==> {
                let id = mid.messages@[m].instances@[j];
                let c = mid.instances@[id as int].category;
                &&& id < mid.instances@.len()
                &&& c < mid.categories@.len()
                &&& mid.categories@[c as int].instances@.len() == 1
                &&& mid.categories@[c as int].instances@[0] == id
            }
    }

    /// Tell a message to the lexicon: the text is split into tokens, each
    /// token becomes a word instance in a fresh singleton category, the
    /// message joins the source's active conversation (one is started if
    /// none is active), the source's message counter is bumped, and the new
    /// message is immediately learned from.
    pub fn tell(&mut self, source: usize, author: usize, content: String)
        requires
            old(self).wf(),
            source < old(self).sources@.len(),
            author < old(self).authors@.len(),
        ensures
            final(self).wf(),
            final(self).messages@.len() == old(self).messages@.len() + 1,
            final(self).message_words(old(self).messages@.len() as int) == tokens_of(content@),
            final(self).messages@[old(self).messages@.len() as int].instances@.len() == tokens_of(
                content@,
            ).len(),
            final(self).messages@[old(self).messages@.len() as int].author == author,
            final(self).sources@.len() == old(self).sources@.len(),
            final(self).authors@ == old(self).authors@,
            forall|t: int|
                #![trigger final(self).sources@[t]]
                0 <= t < old(self).sources@.len() && t != source ==> final(self).sources@[t] == old(
                    self,
                ).sources@[t],
            final(self).sources@[source as int].name@ == old(self).sources@[source as int].name@,
            final(self).sources@[source as int].messages == (if old(
                self,
            ).sources@[source as int].messages == u64::MAX {
                u64::MAX
            } else {
                (old(self).sources@[source as int].messages + 1) as u64
            }),
            ({
                let m = old(self).messages@.len() as int;
                let conv = final(self).messages@[m].conversation;
                &&& conv < final(self).conversations@.len()
                &&& final(self).conversations@[conv as int].source == source
                &&& final(self).sources@[source as int].active_conversation == Some(conv)
                &&& final(self).conversations@[conv as int].messages@.len() >= 1
                &&& final(self).conversations@[conv as int].messages@.last() == old(
                    self,
                ).messages@.len()
            }),
            forall|m: int|
                #![trigger final(self).messages@[m]]
                0 <= m < old(self).messages@.len() ==> {
                    &&& final(self).messages@[m].instances@ == old(self).messages@[m].instances@
                    &&& final(self).messages@[m].author == old(self).messages@[m].author
                    &&& final(self).messages@[m].conversation == old(self).messages@[m].conversation
                    &&& final(self).messages@[m].index == old(self).messages@[m].index
                },
            final(self).words@.len() >= old(self).words@.len(),
            forall|w: int|
                #![trigger final(self).words@[w]]
                0 <= w < old(self).words@.len() ==> final(self).words@[w].name@ == old(
                    self,
                ).words@[w].name@,
            // each token adds exactly one fresh instance, in order
            final(self).instances@.len() == old(self).instances@.len() + tokens_of(
                content@,
            ).len(),
            forall|j: int|
                #![trigger final(self).messages@[old(self).messages@.len() as int].instances@[j]]
                0 <= j < tokens_of(content@).len() ==> final(self).messages@[old(
                    self,
                ).messages@.len() as int].instances@[j] == old(self).instances@.len() + j,
            forall|k: int|
                #![trigger final(self).instances@[k]]
                0 <= k < old(self).instances@.len() ==> {
                    &&& final(self).instances@[k].word == old(self).instances@[k].word
                    &&& final(self).instances@[k].message == old(self).instances@[k].message
                    &&& final(self).instances@[k].index == old(self).instances@[k].index
                },
            // every occurrence of a pre-existing word only appends to that
            // word's instance list
            forall|w: int|
                #![trigger final(self).words@[w].instances@]
                0 <= w < old(self).words@.len() ==> old(self).words@[w].instances@.is_prefix_of(
                    final(self).words@[w].instances@,
                ),
            // ingestion is followed by one learning pass over the new message
            exists|mid2: Lexicon|
                #![trigger Lexicon::freshly_ingested(*old(self), mid2, old(self).messages@.len() as int, tokens_of(content@))]
                {
                    &&& Lexicon::freshly_ingested(
                        *old(self),
                        mid2,
                        old(self).messages@.len() as int,
                        tokens_of(content@),
                    )
                    &&& final(self).learn_frame(mid2)
                    &&& Lexicon::learned_from(mid2, *final(self), old(self).messages@.len() as int)
                },
    {
        // resolve or start the active conversation
        let conv: usize = match self.sources[source].active_conversation {
            Some(cv) => cv,
            None => {
                let cv = self.conversations.len();
                self.conversations.push(Conversation { source, messages: Vec::new() });
                self.sources[source].active_conversation = Some(cv);
                cv
            },
        };
        proof {
            assert(old(self).source_wf(source as int));
        }
        // append the new message to the conversation
        let m = self.messages.len();
        let conv_pos = self.conversations[conv].messages.len();
        self.messages.push(
            Message {
                author,
                conversation: conv,
                index: conv_pos,
                instances: Vec::new(),
                last_checked_at: 0,
            },
        );
        self.conversations[conv].messages.push(m);
        // count the message at its source
        let sm = self.sources[source].messages;
        if sm < u64::MAX {
            self.sources[source].messages = sm + 1;
        }
        proof {
            assert forall|k: int| 0 <= k < self.instances@.len() implies #[trigger] self.inst_wf(
                k,
            ) by {
                assert(old(self).inst_wf(k));
            }
            assert forall|m2: int| 0 <= m2 < self.messages@.len() implies #[trigger] self
                .message_wf(m2) by {
                if m2 < m {
                    assert(old(self).message_wf(m2));
                    assert(self.messages@[m2] == old(self).messages@[m2]);
                    if old(self).messages@[m2].conversation == conv {
                        assert(self.conversations@[conv as int].messages@[old(
                            self,
                        ).messages@[m2].index as int] == old(
                            self,
                        ).conversations@[conv as int].messages@[old(self).messages@[m2].index as int]);
                    }
                } else {
                    assert(self.conversations@[conv as int].messages@[conv_pos as int] == m);
                }
            }
            assert forall|w: int| 0 <= w < self.words@.len() implies #[trigger] self.word_wf(
                w,
            ) by {
                assert(old(self).word_wf(w));
            }
            assert forall|c: int| 0 <= c < self.categories@.len() implies #[trigger] self
                .category_wf(c) by {
                assert(old(self).category_wf(c));
            }
            assert forall|c: int| 0 <= c < self.conversations@.len() implies #[trigger] self
                .conversation_wf(c) by {
                if c < self.conversations@.len() && old(self).conversations@.len() > c {
                    assert(old(self).conversation_wf(c));
                }
            }
            assert forall|t: int| 0 <= t < self.sources@.len() implies #[trigger] self.source_wf(
                t,
            ) by {
                assert(old(self).source_wf(t));
            }
            assert forall|a: int| 0 <= a < self.authors@.len() implies #[trigger] self.author_wf(
                a,
            ) by {
                assert(old(self).author_wf(a));
            }
            assert(self.wf());
        }
        let ghost mid = *self;
        let toks = tokenize(content.as_str());
        let tn = toks.len();
        let mut j: usize = 0;
        while j < tn
            invariant
                self.wf(),
                tn == toks@.len(),
                tn == tokens_of(content@).len(),
                forall|t: int| 0 <= t < tn ==> #[trigger] toks@[t]@ == tokens_of(content@)[t],
                j <= tn,
                m < self.messages@.len(),
                m == mid.messages@.len() - 1,
                self.messages@.len() == mid.messages@.len(),
                self.messages@[m as int].instances@.len() == j,
                self.message_words(m as int) =~= tokens_of(content@).take(j as int),
                self.messages@[m as int].author == mid.messages@[m as int].author,
                self.messages@[m as int].conversation == mid.messages@[m as int].conversation,
                self.messages@[m as int].index == mid.messages@[m as int].index,
                self.messages@[m as int].last_checked_at == mid.messages@[m as
                    int].last_checked_at,
                self.instances@.len() == mid.instances@.len() + j,
                forall|t: int|
                    #![trigger self.messages@[m as int].instances@[t]]
                    0 <= t < j ==> self.messages@[m as int].instances@[t] == mid.instances@.len()
                        + t,
                forall|k: int|
                    #![trigger self.instances@[k]]
                    0 <= k < mid.instances@.len() ==> self.instances@[k] == mid.instances@[k],
                forall|t: int|
                    #![trigger self.messages@[m as int].instances@[t]]
                    0 <= t < j ==> {
                        let id = self.messages@[m as int].instances@[t];
                        let c = self.instances@[id as int].category;
                        &&& id < self.instances@.len()
                        &&& c < self.categories@.len()
                        &&& self.categories@[c as int].instances@.len() == 1
                        &&& self.categories@[c as int].instances@[0] == id
                    },
                forall|w2: int|
                    #![trigger self.words@[w2].instances@]
                    0 <= w2 < mid.words@.len() ==> mid.words@[w2].instances@.is_prefix_of(
                        self.words@[w2].instances@,
                    ),
                forall|m2: int|
                    #![trigger self.messages@[m2]]
                    0 <= m2 < self.messages@.len() && m2 != m ==> self.messages@[m2]
                        == mid.messages@[m2],
                self.sources@ == mid.sources@,
                self.authors@ == mid.authors@,
                self.conversations@ == mid.conversations@,
                self.words@.len() >= mid.words@.len(),
                forall|w: int|
                    #![trigger self.words@[w]]
                    0 <= w < mid.words@.len() ==> self.words@[w].name@ == mid.words@[w].name@,
            decreases tn - j,
        {
            let ghost s0 = *self;
            let name = toks[j].clone();
            proof {
                assert(name@ == toks@[j as int]@);
                lemma_tokens_are_word_literals(content@, 0);
                assert(is_word_literal(tokens_of(content@)[j as int]));
            }
            let w = self.find_or_create_word(name);
            let ghost s1 = *self;
            let cat = self.categories.len();
            self.categories.push(
                Category {
                    instances: Vec::new(),
                    precocategories: Vec::new(),
                    postcocategories: Vec::new(),
                },
            );
            let ins = self.instances.len();
            let pos = self.messages[m].instances.len();
            self.instances.push(WordInstance { word: w, category: cat, message: m, index: pos });
            self.messages[m].instances.push(ins);
            self.categories[cat].instances.push(ins);
            self.words[w].instances.push(ins);
            proof {
                assert(s1.wf());
                assert(pos == j);
                assert(self.messages@[m as int].instances@ == s1.messages@[m as
                    int].instances@.push(ins));
                assert(self.words@[w as int].instances@ == s1.words@[w as int].instances@.push(
                    ins,
                ));
                assert(self.instances@ == s1.instances@.push(
                    WordInstance { word: w, category: cat, message: m, index: pos },
                ));
                assert(self.messages@[m as int].instances@[pos as int] == ins);
                assert(self.categories@[cat as int].instances@ =~= Seq::empty().push(ins));
                assert(self.categories@[cat as int].instances@[0] == ins);
                assert(self.words@[w as int].instances@.last() == ins);
                assert(self.words@[w as int].instances@.contains(ins));
                assert(self.categories@[cat as int].instances@.contains(ins));
                assert forall|k: int| 0 <= k < self.instances@.len() implies #[trigger] self
                    .inst_wf(k) by {
                    if k < ins {
                        assert(s1.inst_wf(k));
                        let ki = s1.instances@[k];
                        assert(self.instances@[k] == ki);
                        if ki.word == w {
                            assert(s1.words@[w as int].instances@.contains(k as usize));
                            let u = choose|u: int|
                                0 <= u < s1.words@[w as int].instances@.len() && s1.words@[w as
                                    int].instances@[u] == k as usize;
                            assert(self.words@[w as int].instances@[u] == k as usize);
                        }
                        if ki.message == m {
                            assert(self.messages@[m as int].instances@[ki.index as int] == k);
                        }
                        assert(ki.category < cat);
                        assert(self.categories@[ki.category as int] == s1.categories@[ki.category
                            as int]);
                    } else {
                        assert(self.instances@[k].word == w);
                    }
                }
                assert forall|m2: int| 0 <= m2 < self.messages@.len() implies #[trigger] self
                    .message_wf(m2) by {
                    assert(s1.message_wf(m2));
                    if m2 == m {
                        assert forall|j2: int|
                            0 <= j2 < self.messages@[m2].instances@.len() implies {
                            let id = #[trigger] self.messages@[m2].instances@[j2];
                            &&& id < self.instances@.len()
                            &&& self.instances@[id as int].message == m2
                            &&& self.instances@[id as int].index == j2
                        } by {
                            if j2 < pos {
                                assert(self.messages@[m2].instances@[j2] == s1.messages@[m2].instances@[j2]);
                            } else {
                                assert(self.messages@[m2].instances@[j2] == ins);
                            }
                        }
                    }
                }
                assert forall|w2: int| 0 <= w2 < self.words@.len() implies #[trigger] self.word_wf(
                    w2,
                ) by {
                    assert(s1.word_wf(w2));
                    if w2 == w {
                        assert forall|j2: int|
                            0 <= j2 < self.words@[w2].instances@.len() implies {
                            let id = #[trigger] self.words@[w2].instances@[j2];
                            &&& id < self.instances@.len()
                            &&& self.instances@[id as int].word == w2
                        } by {
                            if j2 < s1.words@[w2].instances@.len() {
                                assert(self.words@[w2].instances@[j2] == s1.words@[w2].instances@[j2]);
                            } else {
                                assert(self.words@[w2].instances@[j2] == ins);
                            }
                        }
                        assert(seq_distinct(self.words@[w2].instances@)) by {
                            assert forall|i1: int, i2: int|
                                0 <= i1 < i2 < self.words@[w2].instances@.len() implies self
                                .words@[w2].instances@[i1] != self.words@[w2].instances@[i2] by {
                                if i2 == self.words@[w2].instances@.len() - 1 {
                                    assert(self.words@[w2].instances@[i1] == s1.words@[w2].instances@[i1]);
                                    assert(s1.words@[w2].instances@[i1] < ins);
                                }
                            }
                        }
                    }
                }
                assert forall|c: int| 0 <= c < self.categories@.len() implies #[trigger] self
                    .category_wf(c) by {
                    if c < cat {
                        assert(s1.category_wf(c));
                        assert(self.categories@[c] == s1.categories@[c]);
                    }
                }
                assert forall|c: int| 0 <= c < self.conversations@.len() implies #[trigger] self
                    .conversation_wf(c) by {
                    assert(s1.conversation_wf(c));
                    assert forall|j2: int|
                        0 <= j2 < self.conversations@[c].messages@.len() implies {
                        let id = #[trigger] self.conversations@[c].messages@[j2];
                        &&& id < self.messages@.len()
                        &&& self.messages@[id as int].conversation == c
                        &&& self.messages@[id as int].index == j2
                    } by {
                        let id = s1.conversations@[c].messages@[j2];
                        if id == m {
                            assert(self.messages@[id as int].conversation == s1.messages@[id as
                                int].conversation);
                        } else {
                            assert(self.messages@[id as int] == s1.messages@[id as int]);
                        }
                    }
                }
                assert forall|t: int| 0 <= t < self.sources@.len() implies #[trigger] self
                    .source_wf(t) by {
                    assert(s1.source_wf(t));
                }
                assert forall|a2: int| 0 <= a2 < self.authors@.len() implies #[trigger] self
                    .author_wf(a2) by {
                    assert(s1.author_wf(a2));
                }
                assert(self.wf());
                // the rendered words extend by this token
                let full = tokens_of(content@);
                assert(self.message_words(m as int) =~= full.take((j + 1) as int)) by {
                    let mw = self.message_words(m as int);
                    assert(mw.len() == j + 1);
                    assert forall|t: int| 0 <= t < j + 1 implies mw[t] == full.take(
                        (j + 1) as int,
                    )[t] by {
                        if t < j {
                            assert(s0.message_wf(m as int));
                            let id = s0.messages@[m as int].instances@[t];
                            assert(s0.inst_wf(id as int));
                            assert(self.messages@[m as int].instances@[t] == id);
                            assert(self.instances@[id as int] == s0.instances@[id as int]);
                            let wid = s0.instances@[id as int].word;
                            assert(wid < s0.words@.len());
                            assert(s1.words@[wid as int].name@ == s0.words@[wid as int].name@) by {
                                if !s0.has_word_named(name@) {
                                    assert(s1.words@[wid as int] == s0.words@[wid as int]);
                                }
                            }
                            assert(self.words@[wid as int].name@ == s1.words@[wid as int].name@);
                            assert(s0.message_words(m as int)[t] == full.take(j as int)[t]);
                        } else {
                            assert(self.messages@[m as int].instances@[t] == ins);
                            assert(self.instances@[ins as int].word == w);
                            assert(self.words@[w as int].name@ == toks@[j as int]@);
                        }
                    }
                }
                // names of the words known at the start are untouched
                assert forall|w2: int| 0 <= w2 < mid.words@.len() implies #[trigger] self
                    .words@[w2].name@ == mid.words@[w2].name@ by {
                    assert(s0.words@[w2].name@ == mid.words@[w2].name@);
                    if !s0.has_word_named(name@) {
                        if w2 < s0.words@.len() {
                            assert(s1.words@[w2] == s0.words@[w2]);
                        }
                    }
                }
                // each token so far sits in its own fresh singleton category
                assert forall|t: int| 0 <= t < j + 1 implies {
                    let id = #[trigger] self.messages@[m as int].instances@[t];
                    let c = self.instances@[id as int].category;
                    &&& id < self.instances@.len()
                    &&& c < self.categories@.len()
                    &&& self.categories@[c as int].instances@.len() == 1
                    &&& self.categories@[c as int].instances@[0] == id
                } by {
                    if t < j {
                        let id = s0.messages@[m as int].instances@[t];
                        assert(self.messages@[m as int].instances@[t] == id);
                        assert(id < s0.instances@.len());
                        assert(self.instances@[id as int] == s0.instances@[id as int]);
                        let c = s0.instances@[id as int].category;
                        assert(c < s0.categories@.len());
                        assert(s1.categories@ == s0.categories@);
                        assert(self.categories@[c as int] == s1.categories@[c as int]);
                    }
                }
                // word instance lists only grow
                assert forall|w2: int| 0 <= w2 < mid.words@.len() implies mid.words@[w2].instances@
                    .is_prefix_of(#[trigger] self.words@[w2].instances@) by {
                    assert(mid.words@[w2].instances@.is_prefix_of(s0.words@[w2].instances@));
                    assert(s1.words@[w2] == s0.words@[w2]) by {
                        if !s0.has_word_named(name@) {
                            assert(w2 < s0.words@.len());
                        }
                    }
                    let pre = mid.words@[w2].instances@;
                    if w2 == w {
                        assert(self.words@[w2].instances@ == s1.words@[w2].instances@.push(ins));
                        assert(pre =~= s1.words@[w2].instances@.subrange(0, pre.len() as int));
                        assert(self.words@[w2].instances@.subrange(0, pre.len() as int) =~= s1
                            .words@[w2].instances@.subrange(0, pre.len() as int));
                    } else {
                        assert(self.words@[w2].instances@ == s1.words@[w2].instances@);
                    }
                }
            }
            j += 1;
        }
        proof {
            assert(tokens_of(content@).take(tn as int) =~= tokens_of(content@));
            assert(self.message_words(m as int) =~= tokens_of(content@));
        }
        let ghost pl = *self;
        proof {
            assert(Lexicon::freshly_ingested(*old(self), pl, m as int, tokens_of(content@))) by {
                assert(mid.instances@ == old(self).instances@);
                assert forall|m2: int| 0 <= m2 < old(self).messages@.len() implies #[trigger] pl
                    .messages@[m2].instances@ == old(self).messages@[m2].instances@ by {
                    assert(mid.messages@[m2] == old(self).messages@[m2]);
                    assert(pl.messages@[m2] == mid.messages@[m2]);
                }
            }
        }
        self.learn(m);
        proof {
            assert(Lexicon::learned_from(pl, *self, m as int));
            assert(self.learn_frame(pl));
            // the count, placement and word lists carry over from ingestion
            assert(self.instances@.len() == old(self).instances@.len() + tokens_of(
                content@,
            ).len());
            assert forall|j2: int| 0 <= j2 < tokens_of(content@).len() implies #[trigger] self
                .messages@[m as int].instances@[j2] == old(self).instances@.len() + j2 by {
                assert(self.messages@[m as int].instances@ == pl.messages@[m as int].instances@);
            }
            assert forall|k: int| 0 <= k < old(self).instances@.len() implies {
                &&& (#[trigger] self.instances@[k]).word == old(self).instances@[k].word
                &&& self.instances@[k].message == old(self).instances@[k].message
                &&& self.instances@[k].index == old(self).instances@[k].index
            } by {
                assert(pl.instances@[k] == mid.instances@[k]);
                assert(mid.instances@[k] == old(self).instances@[k]);
            }
            assert forall|w2: int| 0 <= w2 < old(self).words@.len() implies old(
                self,
            ).words@[w2].instances@.is_prefix_of(#[trigger] self.words@[w2].instances@) by {
                assert(mid.words@[w2].instances@.is_prefix_of(pl.words@[w2].instances@));
                assert(mid.words@[w2] == old(self).words@[w2]);
                assert(self.words@[w2].instances@ == pl.words@[w2].instances@);
            }
            assert(self.message_words(m as int) =~= tokens_of(content@)) by {
                assert(pl.message_words(m as int) =~= tokens_of(content@));
                assert(self.messages@[m as int].instances@ == pl.messages@[m as
                    int].instances@);
                assert forall|t: int|
                    0 <= t < self.message_words(m as int).len() implies self.message_words(
                    m as int,
                )[t] == pl.message_words(m as int)[t] by {
                    assert(pl.message_wf(m as int));
                    let id = pl.messages@[m as int].instances@[t];
                    assert(pl.inst_wf(id as int));
                    assert(self.instances@[id as int].word == pl.instances@[id as int].word);
                    let wid = pl.instances@[id as int].word;
                    assert(self.words@[wid as int].name@ == pl.words@[wid as int].name@);
                }
            }
        }
    }

    /// What learning never changes: everything except the random state, the
    /// category labels of instances, the category arena and the re-learning
    /// tick of messages.
    pub open spec fn learn_frame(self, o: Lexicon) -> bool {
        &&& self.messages@.len() == o.messages@.len()
        &&& forall|m: int|
            #![trigger self.messages@[m]]
            0 <= m < o.messages@.len() ==> {
                &&& self.messages@[m].instances@ == o.messages@[m].instances@
                &&& self.messages@[m].author == o.messages@[m].author
                &&& self.messages@[m].conversation == o.messages@[m].conversation
                &&& self.messages@[m].index == o.messages@[m].index
            }
        &&& self.sources@ == o.sources@
        &&& self.authors@ == o.authors@
        &&& self.conversations@ == o.conversations@
        &&& self.words@.len() == o.words@.len()
        &&& forall|w: int|
            #![trigger self.words@[w]]
            0 <= w < o.words@.len() ==> {
                &&& self.words@[w].name@ == o.words@[w].name@
                &&& self.words@[w].instances@ == o.words@[w].instances@
            }
        &&& self.instances@.len() == o.instances@.len()
        &&& forall|k: int|
            #![trigger self.instances@[k]]
            0 <= k < o.instances@.len() ==> {
                &&& self.instances@[k].word == o.instances@[k].word
                &&& self.instances@[k].message == o.instances@[k].message
                &&& self.instances@[k].index == o.instances@[k].index
            }
        &&& self.same_tunables(o)
    }

    /// The learn frame is transitive.
    pub proof fn lemma_learn_frame_trans(a: Lexicon, b: Lexicon, c: Lexicon)
        requires
            b.learn_frame(a),
            c.learn_frame(b),
        ensures
            c.learn_frame(a),
    {
    }

    /// Everything except the random state is the same in `self` and `o`.
    pub open spec fn same_graph(self, o: Lexicon) -> bool {
        &&& self.words@ == o.words@
        &&& self.sources@ == o.sources@
        &&& self.authors@ == o.authors@
        &&& self.conversations@ == o.conversations@
        &&& self.messages@ == o.messages@
        &&& self.instances@ == o.instances@
        &&& self.categories@ == o.categories@
        &&& self.same_tunables(o)
    }

    /// Well-formedness does not depend on the random state.
    pub proof fn lemma_wf_same_graph(a: Lexicon, b: Lexicon)
        requires
            a.wf(),
            b.same_graph(a),
        ensures
            b.wf(),
    {
        assert forall|k: int| 0 <= k < b.instances@.len() implies #[trigger] b.inst_wf(k) by {
            assert(a.inst_wf(k));
        }
        assert forall|m: int| 0 <= m < b.messages@.len() implies #[trigger] b.message_wf(m) by {
            assert(a.message_wf(m));
        }
        assert forall|w: int| 0 <= w < b.words@.len() implies #[trigger] b.word_wf(w) by {
            assert(a.word_wf(w));
        }
        assert forall|c: int| 0 <= c < b.categories@.len() implies #[trigger] b.category_wf(c) by {
            assert(a.category_wf(c));
        }
        assert forall|c: int| 0 <= c < b.conversations@.len() implies #[trigger] b.conversation_wf(
            c,
        ) by {
            assert(a.conversation_wf(c));
        }
        assert forall|t: int| 0 <= t < b.sources@.len() implies #[trigger] b.source_wf(t) by {
            assert(a.source_wf(t));
        }
        assert forall|t: int| 0 <= t < b.authors@.len() implies #[trigger] b.author_wf(t) by {
            assert(a.author_wf(t));
        }
    }

    /// Draw a random index below `n`; only the random state changes.
    pub(crate) fn draw_below(&mut self, n: usize) -> (r: usize)
        requires
            old(self).wf(),
            n >= 1,
        ensures
            r < n,
            final(self).wf(),
            final(self).same_graph(*old(self)),
            final(self).learn_frame(*old(self)),
    {
        let r = self.rng.below(n);
        proof {
            Lexicon::lemma_wf_same_graph(*old(self), *self);
        }
        r
    }


    /// The messages `m0` and `m1` are distinct, equally long, and disagree
    /// at exactly the one position `p`, in both word and category.
    pub open spec fn single_diff_at(self, m0: int, m1: int, p: int) -> bool {
        &&& m0 != m1
        &&& self.messages@[m0].instances@.len() == self.messages@[m1].instances@.len()
        &&& 0 <= p < self.messages@[m0].instances@.len()
        &&& self.pos_diff(m0, m1, p)
        &&& self.total_diffs(m0, m1) == 1
    }

    /// Some word occurs in both messages.
    pub open spec fn shares_word(self, m0: int, m1: int) -> bool {
        exists|i: int, j: int|
            #![trigger self.messages@[m0].instances@[i], self.messages@[m1].instances@[j]]
            0 <= i < self.messages@[m0].instances@.len() && 0 <= j
                < self.messages@[m1].instances@.len() && self.instances@[self.messages@[m0].instances@[i] as int].word
                == self.instances@[self.messages@[m1].instances@[j] as int].word
    }

    /// The word `w` occurs somewhere in the message at `n`.
    pub open spec fn message_has_word(self, n: int, w: usize) -> bool {
        exists|q: int|
            #![trigger self.messages@[n].instances@[q]]
            0 <= q < self.messages@[n].instances@.len()
                && self.instances@[self.messages@[n].instances@[q] as int].word == w
    }

    /// What one learning pass owes.  The re-learn tick of the learned
    /// message ends at the corpus size.  A tick-current message (already
    /// learned at this corpus size) triggers no merges: category labels and
    /// member lists are untouched.  For a tick-stale message, every corpus
    /// message that shares a word with it and disagrees with it in exactly
    /// one position — in both word and category, judged on the pre state —
    /// ends with the two instances at that position in one category.
    pub open spec fn learned_from(pre: Lexicon, post: Lexicon, message: int) -> bool {
        &&& post.messages@[message].last_checked_at == post.messages@.len()
        &&& (pre.messages@[message].last_checked_at == pre.messages@.len() ==> {
            &&& post.categories@.len() == pre.categories@.len()
            &&& forall|k: int|
                #![trigger post.instances@[k]]
                0 <= k < pre.instances@.len() ==> post.instances@[k].category
                    == pre.instances@[k].category
            &&& forall|d: int|
                #![trigger post.categories@[d]]
                0 <= d < pre.categories@.len() ==> post.categories@[d].instances@
                    == pre.categories@[d].instances@
        })
        &&& (pre.messages@[message].last_checked_at != pre.messages@.len() ==> forall|n: int, p: int|
            #![trigger pre.single_diff_at(message, n, p)]
            0 <= n < pre.messages@.len() && pre.shares_word(message, n) && pre.single_diff_at(
                message,
                n,
                p,
            ) ==> post.instances@[pre.messages@[message].instances@[p] as int].category
                == post.instances@[pre.messages@[n].instances@[p] as int].category)
    }

    /// The learning relation reads nothing of the pre state's random
    /// generator.
    pub proof fn lemma_learned_from_same_graph(a: Lexicon, b: Lexicon, post: Lexicon, m: int)
        requires
            a.messages@ == b.messages@,
            a.instances@ == b.instances@,
            a.categories@ == b.categories@,
            Lexicon::learned_from(a, post, m),
        ensures
            Lexicon::learned_from(b, post, m),
    {
        if b.messages@[m].last_checked_at != b.messages@.len() {
            assert forall|n: int, p: int|
                0 <= n < b.messages@.len() && b.shares_word(m, n) && #[trigger] b.single_diff_at(
                    m,
                    n,
                    p,
                ) implies post.instances@[b.messages@[m].instances@[p] as int].category
                == post.instances@[b.messages@[n].instances@[p] as int].category by {
                assert(a.shares_word(m, n)) by {
                    let (i, j) = choose|i: int, j: int|
                        #![trigger b.messages@[m].instances@[i], b.messages@[n].instances@[j]]
                        0 <= i < b.messages@[m].instances@.len() && 0 <= j
                            < b.messages@[n].instances@.len()
                            && b.instances@[b.messages@[m].instances@[i] as int].word
                            == b.instances@[b.messages@[n].instances@[j] as int].word;
                    assert(a.instances@[a.messages@[m].instances@[i] as int].word
                        == a.instances@[a.messages@[n].instances@[j] as int].word);
                }
                assert(a.single_diff_at(m, n, p)) by {
                    Lexicon::lemma_diff_count_congruent(
                        a,
                        b,
                        m,
                        n,
                        b.messages@[m].instances@.len() as int,
                    );
                }
            }
        }
    }

    /// The single-mismatch pair of position `p` of `m0` and `n` stands in
    /// the merge worklists.
    spec fn pair_recorded(self, vx: Seq<usize>, vy: Seq<usize>, m0: int, n: int, p: int) -> bool {
        exists|t: int|
            #![trigger vx[t]]
            0 <= t < vx.len() && vx[t] == self.messages@[m0].instances@[p] && vy[t]
                == self.messages@[n].instances@[p]
    }

    /// Learn from the message at `message`: every instance of each of its
    /// words is sought elsewhere in the corpus, and wherever the two owning
    /// messages disagree in exactly one position (word and category both),
    /// the two categories at that position are merged.  A per-message tick
    /// avoids re-learning the same message twice at the same corpus size.
    /// Afterwards the cocategory relation is re-evaluated a configured
    /// number of times on randomly drawn category pairs.
    pub fn learn(&mut self, message: usize)
        requires
            old(self).wf(),
            message < old(self).messages@.len(),
        ensures
            final(self).wf(),
            final(self).learn_frame(*old(self)),
            Lexicon::learned_from(*old(self), *final(self), message as int),
    {
        let n_msgs = self.messages.len();
        let mut vx: Vec<usize> = Vec::new();
        let mut vy: Vec<usize> = Vec::new();
        if self.messages[message].last_checked_at != n_msgs {
            proof {
                assert(self.message_wf(message as int));
            }
            let mlen = self.messages[message].instances.len();
            let mut i: usize = 0;
            while i < mlen
                invariant
                    self.wf(),
                    *self == *old(self),
                    message < self.messages@.len(),
                    mlen == self.messages@[message as int].instances@.len(),
                    i <= mlen,
                    vx@.len() == vy@.len(),
                    forall|t: int| 0 <= t < vx@.len() ==> #[trigger] vx@[t] < self.instances@.len(),
                    forall|t: int| 0 <= t < vy@.len() ==> #[trigger] vy@[t] < self.instances@.len(),
                    forall|n: int, p: int|
                        #![trigger self.single_diff_at(message as int, n, p)]
                        0 <= n < self.messages@.len() && self.single_diff_at(message as int, n, p)
                            && (exists|j: int|
                            #![trigger self.messages@[message as int].instances@[j]]
                            0 <= j < i && self.message_has_word(
                                n,
                                self.instances@[self.messages@[message as int].instances@[j] as int].word,
                            )) ==> self.pair_recorded(vx@, vy@, message as int, n, p),
                decreases mlen - i,
            {
                proof {
                    assert(self.message_wf(message as int));
                    assert(self.inst_wf(
                        self.messages@[message as int].instances@[i as int] as int,
                    ));
                }
                let ins_id = self.messages[message].instances[i];
                let w = self.instances[ins_id].word;
                proof {
                    assert(self.word_wf(w as int));
                }
                let wl = self.words[w].instances.len();
                let mut k: usize = 0;
                while k < wl
                    invariant
                        self.wf(),
                        *self == *old(self),
                        message < self.messages@.len(),
                        i < mlen,
                        mlen == self.messages@[message as int].instances@.len(),
                        w < self.words@.len(),
                        wl == self.words@[w as int].instances@.len(),
                        k <= wl,
                        vx@.len() == vy@.len(),
                        forall|t: int|
                            0 <= t < vx@.len() ==> #[trigger] vx@[t] < self.instances@.len(),
                        forall|t: int|
                            0 <= t < vy@.len() ==> #[trigger] vy@[t] < self.instances@.len(),
                        forall|n: int, p: int|
                            #![trigger self.single_diff_at(message as int, n, p)]
                            0 <= n < self.messages@.len() && self.single_diff_at(
                                message as int,
                                n,
                                p,
                            ) && ((exists|j: int|
                                #![trigger self.messages@[message as int].instances@[j]]
                                0 <= j < i && self.message_has_word(
                                    n,
                                    self.instances@[self.messages@[message as int].instances@[j] as int].word,
                                )) || (exists|k2: int|
                                #![trigger self.words@[w as int].instances@[k2]]
                                0 <= k2 < k && self.instances@[self.words@[w as int].instances@[k2] as int].message
                                    == n)) ==> self.pair_recorded(vx@, vy@, message as int, n, p),
                    decreases wl - k,
                {
                    proof {
                        assert(self.word_wf(w as int));
                        assert(self.inst_wf(self.words@[w as int].instances@[k as int] as int));
                    }
                    let other = self.words[w].instances[k];
                    let m2 = self.instances[other].message;
                    let verdict = self.category_and_word_mismatch(message, m2);
                    let ghost vxp = vx@;
                    let ghost vyp = vy@;
                    match verdict {
                        Mismatch::One(pair) => {
                            proof {
                                let p = choose|p: int|
                                    0 <= p < self.messages@[message as int].instances@.len()
                                        && #[trigger] self.pos_diff(message as int, m2 as int, p)
                                        && pair.0 == self.messages@[message as int].instances@[p]
                                        && pair.1 == self.messages@[m2 as int].instances@[p];
                                assert(self.message_wf(message as int));
                                assert(self.message_wf(m2 as int));
                                assert(pair.0 == self.messages@[message as int].instances@[p]);
                                assert(pair.0 < self.instances@.len());
                                assert(pair.1 < self.instances@.len());
                            }
                            vx.push(pair.0);
                            vy.push(pair.1);
                        },
                        _ => {},
                    }
                    proof {
                        assert forall|n: int, p: int|
                            0 <= n < self.messages@.len() && #[trigger] self.single_diff_at(
                                message as int,
                                n,
                                p,
                            ) && ((exists|j: int|
                                #![trigger self.messages@[message as int].instances@[j]]
                                0 <= j < i && self.message_has_word(
                                    n,
                                    self.instances@[self.messages@[message as int].instances@[j] as int].word,
                                )) || (exists|k2: int|
                                #![trigger self.words@[w as int].instances@[k2]]
                                0 <= k2 < k + 1
                                    && self.instances@[self.words@[w as int].instances@[k2] as int].message
                                    == n)) implies self.pair_recorded(
                            vx@,
                            vy@,
                            message as int,
                            n,
                            p,
                        ) by {
                            let covered_before = (exists|j: int|
                                #![trigger self.messages@[message as int].instances@[j]]
                                0 <= j < i && self.message_has_word(
                                    n,
                                    self.instances@[self.messages@[message as int].instances@[j] as int].word,
                                )) || (exists|k2: int|
                                #![trigger self.words@[w as int].instances@[k2]]
                                0 <= k2 < k && self.instances@[self.words@[w as int].instances@[k2] as int].message
                                    == n);
                            if covered_before {
                                assert(self.pair_recorded(vxp, vyp, message as int, n, p));
                                let t = choose|t: int|
                                    #![trigger vxp[t]]
                                    0 <= t < vxp.len() && vxp[t] == self.messages@[message as int].instances@[p]
                                        && vyp[t] == self.messages@[n].instances@[p];
                                assert(vx@[t] == vxp[t]);
                                assert(vy@[t] == vyp[t]);
                            } else {
                                // the one new candidate is the message of this
                                // word-list entry
                                assert(self.words@[w as int].instances@[k as int] == other);
                                assert(n == m2 as int);
                                match verdict {
                                    Mismatch::One(pair) => {
                                        let pp = choose|pp: int|
                                            0 <= pp < self.messages@[message as int].instances@.len()
                                                && #[trigger] self.pos_diff(
                                                message as int,
                                                m2 as int,
                                                pp,
                                            ) && pair.0 == self.messages@[message as int].instances@[pp]
                                                && pair.1 == self.messages@[m2 as int].instances@[pp];
                                        self.lemma_single_diff_unique(
                                            message as int,
                                            m2 as int,
                                            pp,
                                            p,
                                        );
                                        assert(vx@ == vxp.push(pair.0));
                                        assert(vx@[vxp.len() as int] == pair.0);
                                        assert(vy@[vxp.len() as int] == pair.1);
                                    },
                                    _ => {
                                        // a single mismatch would have been
                                        // classified as such
                                        assert(self.total_diffs(message as int, m2 as int) == 1);
                                        assert(verdict is One);
                                        assert(false);
                                    },
                                }
                            }
                        }
                    }
                    k += 1;
                }
                proof {
                    assert forall|n: int, p: int|
                        0 <= n < self.messages@.len() && #[trigger] self.single_diff_at(
                            message as int,
                            n,
                            p,
                        ) && (exists|j: int|
                            #![trigger self.messages@[message as int].instances@[j]]
                            0 <= j < i + 1 && self.message_has_word(
                                n,
                                self.instances@[self.messages@[message as int].instances@[j] as int].word,
                            )) implies self.pair_recorded(vx@, vy@, message as int, n, p) by {
                        let j = choose|j: int|
                            #![trigger self.messages@[message as int].instances@[j]]
                            0 <= j < i + 1 && self.message_has_word(
                                n,
                                self.instances@[self.messages@[message as int].instances@[j] as int].word,
                            );
                        if j == i {
                            // the inner pass covered every owner of this word
                            let q = choose|q: int|
                                #![trigger self.messages@[n].instances@[q]]
                                0 <= q < self.messages@[n].instances@.len()
                                    && self.instances@[self.messages@[n].instances@[q] as int].word
                                    == w;
                            assert(self.message_wf(n));
                            let id = self.messages@[n].instances@[q];
                            assert(self.inst_wf(id as int));
                            assert(self.words@[w as int].instances@.contains(id));
                            let k2 = choose|k2: int|
                                0 <= k2 < self.words@[w as int].instances@.len()
                                    && self.words@[w as int].instances@[k2] == id;
                            assert(self.instances@[self.words@[w as int].instances@[k2] as int].message
                                == n);
                        }
                    }
                }
                i += 1;
            }
            proof {
                assert forall|n: int, p: int|
                    0 <= n < old(self).messages@.len() && old(self).shares_word(message as int, n)
                        && #[trigger] old(self).single_diff_at(message as int, n, p) implies old(
                    self,
                ).pair_recorded(vx@, vy@, message as int, n, p) by {
                    let (ii, jj) = choose|ii: int, jj: int|
                        #![trigger old(self).messages@[message as int].instances@[ii], old(self).messages@[n].instances@[jj]]
                        0 <= ii < old(self).messages@[message as int].instances@.len() && 0 <= jj
                            < old(self).messages@[n].instances@.len()
                            && old(self).instances@[old(self).messages@[message as int].instances@[ii] as int].word
                            == old(self).instances@[old(self).messages@[n].instances@[jj] as int].word;
                    assert(self.message_has_word(
                        n,
                        self.instances@[self.messages@[message as int].instances@[ii] as int].word,
                    ));
                }
            }
            let vn = vx.len();
            let mut t: usize = 0;
            while t < vn
                invariant
                    self.wf(),
                    self.learn_frame(*old(self)),
                    vn == vx@.len(),
                    vn == vy@.len(),
                    t <= vn,
                    forall|t2: int|
                        0 <= t2 < vx@.len() ==> #[trigger] vx@[t2] < self.instances@.len(),
                    forall|t2: int|
                        0 <= t2 < vy@.len() ==> #[trigger] vy@[t2] < self.instances@.len(),
                    forall|t2: int|
                        #![trigger vx@[t2]]
                        0 <= t2 < t ==> self.instances@[vx@[t2] as int].category
                            == self.instances@[vy@[t2] as int].category,
                decreases vn - t,
            {
                let ghost pre = *self;
                let x = vx[t];
                let y = vy[t];
                proof {
                    assert(self.inst_wf(x as int));
                    assert(self.inst_wf(y as int));
                }
                let cx = self.instances[x].category;
                let cy = self.instances[y].category;
                if cx != cy {
                    self.merge(cx, cy);
                    proof {
                        assert(self.learn_frame(pre));
                        Lexicon::lemma_learn_frame_trans(*old(self), pre, *self);
                        assert forall|t2: int| 0 <= t2 < t + 1 implies self.instances@[
                            #[trigger] vx@[t2] as int].category == self.instances@[vy@[t2] as int].category by {
                            if t2 < t {
                                assert(pre.instances@[vx@[t2] as int].category
                                    == pre.instances@[vy@[t2] as int].category);
                            }
                        }
                    }
                }
                t += 1;
            }
            let ghost pre_tick = *self;
            self.messages[message].last_checked_at = n_msgs;
            proof {
                assert forall|k: int| 0 <= k < self.instances@.len() implies #[trigger] self
                    .inst_wf(k) by {
                    assert(pre_tick.inst_wf(k));
                }
                assert forall|m2: int| 0 <= m2 < self.messages@.len() implies #[trigger] self
                    .message_wf(m2) by {
                    assert(pre_tick.message_wf(m2));
                }
                assert forall|w2: int| 0 <= w2 < self.words@.len() implies #[trigger] self.word_wf(
                    w2,
                ) by {
                    assert(pre_tick.word_wf(w2));
                }
                assert forall|c: int| 0 <= c < self.categories@.len() implies #[trigger] self
                    .category_wf(c) by {
                    assert(pre_tick.category_wf(c));
                }
                assert forall|c: int| 0 <= c < self.conversations@.len() implies #[trigger] self
                    .conversation_wf(c) by {
                    assert(pre_tick.conversation_wf(c));
                }
                assert forall|t2: int| 0 <= t2 < self.sources@.len() implies #[trigger] self
                    .source_wf(t2) by {
                    assert(pre_tick.source_wf(t2));
                }
                assert forall|a2: int| 0 <= a2 < self.authors@.len() implies #[trigger] self
                    .author_wf(a2) by {
                    assert(pre_tick.author_wf(a2));
                }
                assert(self.learn_frame(pre_tick));
                Lexicon::lemma_learn_frame_trans(*old(self), pre_tick, *self);
                assert(self.instances@ == pre_tick.instances@);
            }
        }
        let ghost pre_mag = *self;
        let mag = self.cocategorize_magnitude;
        let mut q: u32 = 0;
        while q < mag
            invariant
                self.wf(),
                self.learn_frame(*old(self)),
                message < self.messages@.len(),
                q <= mag,
                self.messages@ == pre_mag.messages@,
                self.instances@ == pre_mag.instances@,
                self.categories@.len() == pre_mag.categories@.len(),
                forall|d: int|
                    #![trigger self.categories@[d]]
                    0 <= d < pre_mag.categories@.len() ==> self.categories@[d].instances@
                        == pre_mag.categories@[d].instances@,
            decreases mag - q,
        {
            let ghost pre = *self;
            let mlen2 = self.messages[message].instances.len();
            if mlen2 > 0 {
                proof {
                    assert(self.message_wf(message as int));
                }
                let pick_a = self.draw_below(mlen2);
                proof {
                    assert(self.inst_wf(
                        self.messages@[message as int].instances@[pick_a as int] as int,
                    ));
                }
                let ia = self.messages[message].instances[pick_a];
                let ca = self.instances[ia].category;
                let n_messages = self.messages.len();
                let rm = self.draw_below(n_messages);
                proof {
                    assert(self.message_wf(rm as int));
                }
                let rlen = self.messages[rm].instances.len();
                if rlen > 0 {
                    let pick_b = self.draw_below(rlen);
                    proof {
                        assert(self.inst_wf(
                            self.messages@[rm as int].instances@[pick_b as int] as int,
                        ));
                    }
                    let ib = self.messages[rm].instances[pick_b];
                    let cb = self.instances[ib].category;
                    let la = self.categories[ca].instances.len();
                    let lb = self.categories[cb].instances.len();
                    let ratio = self.cocategorization_ratio;
                    match (la as u128).checked_mul(lb as u128) {
                        Some(t1) => {
                            match t1.checked_mul(ratio.num as u128) {
                                Some(t2) => {
                                    if t2 < u128::MAX - (ratio.den as u128) / 2 {
                                        let fe = self.forward_edge_distance;
                                        let be = self.backward_edge_distance;
                                        let fw = self.forward_word_distance;
                                        let bw = self.backward_word_distance;
                                        self.cocategorize(ca, cb, ratio, fe, be, fw, bw);
                                        proof {
                                            assert(self.learn_frame(pre));
                                            Lexicon::lemma_learn_frame_trans(
                                                *old(self),
                                                pre,
                                                *self,
                                            );
                                        }
                                    }
                                },
                                None => {},
                            }
                        },
                        None => {},
                    }
                }
            }
            proof {
                assert(self.learn_frame(pre));
                Lexicon::lemma_learn_frame_trans(*old(self), pre, *self);
            }
            q += 1;
        }
        proof {
            assert(Lexicon::learned_from(*old(self), *self, message as int)) by {
                if old(self).messages@[message as int].last_checked_at != old(
                    self,
                ).messages@.len() {
                    assert forall|n: int, p: int|
                        0 <= n < old(self).messages@.len() && old(self).shares_word(
                            message as int,
                            n,
                        ) && #[trigger] old(self).single_diff_at(message as int, n, p) implies self
                        .instances@[old(self).messages@[message as int].instances@[p] as int].category
                        == self.instances@[old(self).messages@[n].instances@[p] as int].category by {
                        assert(old(self).pair_recorded(vx@, vy@, message as int, n, p));
                        let t2 = choose|t2: int|
                            #![trigger vx@[t2]]
                            0 <= t2 < vx@.len() && vx@[t2] == old(self).messages@[message as int].instances@[p]
                                && vy@[t2] == old(self).messages@[n].instances@[p];
                        assert(pre_mag.instances@[vx@[t2] as int].category
                            == pre_mag.instances@[vy@[t2] as int].category);
                        assert(self.instances@ == pre_mag.instances@);
                    }
                }
            }
        }
    }

    /// One idle-time step: learn from a uniformly random historical message;
    /// with an empty corpus nothing happens at all.
    pub fn think(&mut self)
        requires
            old(self).wf(),
        ensures
            final(self).wf(),
            final(self).learn_frame(*old(self)),
            old(self).messages@.len() == 0 ==> *final(self) == *old(self),
            old(self).messages@.len() > 0 ==> exists|m: int|
                0 <= m < old(self).messages@.len() && #[trigger] Lexicon::learned_from(
                    *old(self),
                    *final(self),
                    m,
                ),
    {
        if self.messages.len() == 0 {
            return ;
        }
        let n_messages = self.messages.len();
        let rm = self.draw_below(n_messages);
        let ghost mid = *self;
        self.learn(rm);
        proof {
            Lexicon::lemma_learn_frame_trans(*old(self), mid, *self);
            Lexicon::lemma_learned_from_same_graph(mid, *old(self), *self, rm as int);
        }
    }
}

} // verus!
