//! Word-instance navigation and the coincidence evaluator.
//!
//! Two word instances "coincide" in a direction when their neighbors at
//! offset one in that direction are interchangeable: either their categories
//! are already linked as cocategories, or they are the very same word — in
//! which case the test tunnels one more position outward while a word-distance
//! budget remains.  A message boundary reached on both sides counts as a
//! coincidence exactly when the edge-distance budget is used up.

use crate::lexicon::Lexicon;
use vstd::prelude::*;

verus! {

impl Lexicon {
    /// Whether the categories `a` and `b` are linked in the precocategory
    /// relation, identity aside.
    pub open spec fn pre_linked(self, a: usize, b: usize) -> bool {
        self.categories@[a as int].precocategories@.contains(b)
    }

    /// Whether the categories `a` and `b` are linked in the postcocategory
    /// relation, identity aside.
    pub open spec fn post_linked(self, a: usize, b: usize) -> bool {
        self.categories@[a as int].postcocategories@.contains(b)
    }

    /// Whether `a` and `b` count as precocategories: a category always counts
    /// as its own, otherwise the stored relation decides.
    pub open spec fn spec_are_precocategories(self, a: usize, b: usize) -> bool {
        a == b || self.pre_linked(a, b)
    }

    /// Whether `a` and `b` count as postcocategories.
    pub open spec fn spec_are_postcocategories(self, a: usize, b: usize) -> bool {
        a == b || self.post_linked(a, b)
    }

    /// The instance one position after `i` in its own message, if any.
    pub open spec fn spec_next_instance(self, i: int) -> Option<usize> {
        let ins = self.instances@[i];
        let msg = self.messages@[ins.message as int];
        if ins.index + 1 < msg.instances@.len() {
            Some(msg.instances@[ins.index + 1])
        } else {
            None
        }
    }

    /// The instance one position before `i` in its own message, if any.
    pub open spec fn spec_prev_instance(self, i: int) -> Option<usize> {
        let ins = self.instances@[i];
        let msg = self.messages@[ins.message as int];
        if ins.index >= 1 {
            Some(msg.instances@[ins.index - 1])
        } else {
            None
        }
    }

    /// Whether the instances `i0` and `i1` coincide on their *preceding*
    /// neighbors, with the given edge- and word-distance budgets.
    pub open spec fn spec_precoincidence(self, i0: int, i1: int, edge: nat, word: nat) -> bool
        decreases word,
    {
        let a = self.instances@[i0];
        let b = self.instances@[i1];
        if a.index >= 1 && b.index >= 1 {
            let p0 = self.messages@[a.message as int].instances@[a.index - 1];
            let p1 = self.messages@[b.message as int].instances@[b.index - 1];
            let c0 = self.instances@[p0 as int].category;
            let c1 = self.instances@[p1 as int].category;
            if self.spec_are_postcocategories(c0, c1) || self.spec_are_precocategories(c0, c1) {
                true
            } else if self.instances@[p0 as int].word == self.instances@[p1 as int].word {
                if word == 0 {
                    true
                } else {
                    self.spec_precoincidence(
                        p0 as int,
                        p1 as int,
                        if edge == 0 { 0 } else { (edge - 1) as nat },
                        (word - 1) as nat,
                    )
                }
            } else {
                false
            }
        } else if a.index == 0 && b.index == 0 {
            edge == 0
        } else {
            false
        }
    }

    /// Whether the instances `i0` and `i1` coincide on their *following*
    /// neighbors, with the given edge- and word-distance budgets.
    pub open spec fn spec_postcoincidence(self, i0: int, i1: int, edge: nat, word: nat) -> bool
        decreases word,
    {
        let a = self.instances@[i0];
        let b = self.instances@[i1];
        let la = self.messages@[a.message as int].instances@.len();
        let lb = self.messages@[b.message as int].instances@.len();
        if a.index + 1 < la && b.index + 1 < lb {
            let p0 = self.messages@[a.message as int].instances@[a.index + 1];
            let p1 = self.messages@[b.message as int].instances@[b.index + 1];
            let c0 = self.instances@[p0 as int].category;
            let c1 = self.instances@[p1 as int].category;
            if self.spec_are_precocategories(c0, c1) || self.spec_are_postcocategories(c0, c1) {
                true
            } else if self.instances@[p0 as int].word == self.instances@[p1 as int].word {
                if word == 0 {
                    true
                } else {
                    self.spec_postcoincidence(
                        p0 as int,
                        p1 as int,
                        if edge == 0 { 0 } else { (edge - 1) as nat },
                        (word - 1) as nat,
                    )
                }
            } else {
                false
            }
        } else if a.index + 1 == la && b.index + 1 == lb {
            edge == 0
        } else {
            false
        }
    }

    /// The instance following `i` in its message, if `i` is not the last one.
    pub fn next_instance(&self, i: usize) -> (r: Option<usize>)
        requires
            self.wf(),
            i < self.instances@.len(),
        ensures
            r == self.spec_next_instance(i as int),
            match r {
                Some(n) => n < self.instances@.len() && self.instances@[n as int].message
                    == self.instances@[i as int].message && self.instances@[n as int].index
                    == self.instances@[i as int].index + 1,
                None => true,
            },
    {
        proof {
            assert(self.inst_wf(i as int));
            assert(self.message_wf(self.instances@[i as int].message as int));
        }
        let ins = self.instances[i];
        let m = &self.messages[ins.message];
        let l = m.instances.len();
        if ins.index + 1 < l {
            Some(m.instances[ins.index + 1])
        } else {
            None
        }
    }

    /// The instance preceding `i` in its message, if `i` is not the first one.
    pub fn prev_instance(&self, i: usize) -> (r: Option<usize>)
        requires
            self.wf(),
            i < self.instances@.len(),
        ensures
            r == self.spec_prev_instance(i as int),
            match r {
                Some(n) => n < self.instances@.len() && self.instances@[n as int].message
                    == self.instances@[i as int].message && self.instances@[n as int].index + 1
                    == self.instances@[i as int].index,
                None => true,
            },
    {
        proof {
            assert(self.inst_wf(i as int));
            assert(self.message_wf(self.instances@[i as int].message as int));
        }
        let ins = self.instances[i];
        let m = &self.messages[ins.message];
        if ins.index >= 1 {
            Some(m.instances[ins.index - 1])
        } else {
            None
        }
    }

    /// Whether the preceding contexts of `i0` and `i1` are interchangeable.
    pub fn precoincidence_neighbors(
        &self,
        i0: usize,
        i1: usize,
        min_edge_distance: usize,
        words_only_distance: usize,
    ) -> (r: bool)
        requires
            self.wf(),
            i0 < self.instances@.len(),
            i1 < self.instances@.len(),
        ensures
            r == self.spec_precoincidence(
                i0 as int,
                i1 as int,
                min_edge_distance as nat,
                words_only_distance as nat,
            ),
        decreases words_only_distance,
    {
        proof {
            assert(self.inst_wf(i0 as int));
            assert(self.inst_wf(i1 as int));
            assert(self.message_wf(self.instances@[i0 as int].message as int));
            assert(self.message_wf(self.instances@[i1 as int].message as int));
        }
        let a = self.instances[i0];
        let b = self.instances[i1];
        if a.index >= 1 && b.index >= 1 {
            let p0 = self.messages[a.message].instances[a.index - 1];
            let p1 = self.messages[b.message].instances[b.index - 1];
            proof {
                assert(self.inst_wf(p0 as int));
                assert(self.inst_wf(p1 as int));
            }
            let c0 = self.instances[p0].category;
            let c1 = self.instances[p1].category;
            if self.are_postcocategories(c0, c1) || self.are_precocategories(c0, c1) {
                true
            } else if self.instances[p0].word == self.instances[p1].word {
                if words_only_distance == 0 {
                    true
                } else {
                    self.precoincidence_neighbors(
                        p0,
                        p1,
                        if min_edge_distance == 0 { 0 } else { min_edge_distance - 1 },
                        words_only_distance - 1,
                    )
                }
            } else {
                false
            }
        } else if a.index == 0 && b.index == 0 {
            min_edge_distance == 0
        } else {
            false
        }
    }

    /// Whether the following contexts of `i0` and `i1` are interchangeable.
    pub fn postcoincidence_neighbors(
        &self,
        i0: usize,
        i1: usize,
        min_edge_distance: usize,
        words_only_distance: usize,
    ) -> (r: bool)
        requires
            self.wf(),
            i0 < self.instances@.len(),
            i1 < self.instances@.len(),
        ensures
            r == self.spec_postcoincidence(
                i0 as int,
                i1 as int,
                min_edge_distance as nat,
                words_only_distance as nat,
            ),
        decreases words_only_distance,
    {
        proof {
            assert(self.inst_wf(i0 as int));
            assert(self.inst_wf(i1 as int));
            assert(self.message_wf(self.instances@[i0 as int].message as int));
            assert(self.message_wf(self.instances@[i1 as int].message as int));
        }
        let a = self.instances[i0];
        let b = self.instances[i1];
        let la = self.messages[a.message].instances.len();
        let lb = self.messages[b.message].instances.len();
        if a.index + 1 < la && b.index + 1 < lb {
            let p0 = self.messages[a.message].instances[a.index + 1];
            let p1 = self.messages[b.message].instances[b.index + 1];
            proof {
                assert(self.inst_wf(p0 as int));
                assert(self.inst_wf(p1 as int));
            }
            let c0 = self.instances[p0].category;
            let c1 = self.instances[p1].category;
            if self.are_precocategories(c0, c1) || self.are_postcocategories(c0, c1) {
                true
            } else if self.instances[p0].word == self.instances[p1].word {
                if words_only_distance == 0 {
                    true
                } else {
                    self.postcoincidence_neighbors(
                        p0,
                        p1,
                        if min_edge_distance == 0 { 0 } else { min_edge_distance - 1 },
                        words_only_distance - 1,
                    )
                }
            } else {
                false
            }
        } else if a.index + 1 == la && b.index + 1 == lb {
            min_edge_distance == 0
        } else {
            false
        }
    }
}


impl crate::types::WordInstance {
    /// The instance following `i` in its message of `lex`, if any.
    pub fn next_instance(lex: &Lexicon, i: usize) -> (r: Option<usize>)
        requires
            lex.wf(),
            i < lex.instances@.len(),
        ensures
            r == lex.spec_next_instance(i as int),
    {
        lex.next_instance(i)
    }

    /// The instance preceding `i` in its message of `lex`, if any.
    pub fn prev_instance(lex: &Lexicon, i: usize) -> (r: Option<usize>)
        requires
            lex.wf(),
            i < lex.instances@.len(),
        ensures
            r == lex.spec_prev_instance(i as int),
    {
        lex.prev_instance(i)
    }

    /// Whether the preceding contexts of `i0` and `i1` are interchangeable.
    pub fn precoincidence_neighbors(
        lex: &Lexicon,
        i0: usize,
        i1: usize,
        min_edge_distance: usize,
        words_only_distance: usize,
    ) -> (r: bool)
        requires
            lex.wf(),
            i0 < lex.instances@.len(),
            i1 < lex.instances@.len(),
        ensures
            r == lex.spec_precoincidence(
                i0 as int,
                i1 as int,
                min_edge_distance as nat,
                words_only_distance as nat,
            ),
    {
        lex.precoincidence_neighbors(i0, i1, min_edge_distance, words_only_distance)
    }

    /// Whether the following contexts of `i0` and `i1` are interchangeable.
    pub fn postcoincidence_neighbors(
        lex: &Lexicon,
        i0: usize,
        i1: usize,
        min_edge_distance: usize,
        words_only_distance: usize,
    ) -> (r: bool)
        requires
            lex.wf(),
            i0 < lex.instances@.len(),
            i1 < lex.instances@.len(),
        ensures
            r == lex.spec_postcoincidence(
                i0 as int,
                i1 as int,
                min_edge_distance as nat,
                words_only_distance as nat,
            ),
    {
        lex.postcoincidence_neighbors(i0, i1, min_edge_distance, words_only_distance)
    }
}


} // verus!
