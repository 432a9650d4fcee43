//! Message rendering and the position-by-position comparison that drives
//! learning.
//!
//! Two messages are comparable only when they have the same number of
//! instances; walking them position by position classifies them as having no
//! mismatching position, exactly one (the merge candidate), or several.

use crate::lexicon::Lexicon;
use crate::types::Mismatch;
use vstd::prelude::*;
use vstd::string::StringExecFns;

verus! {

/// The sequence `ws` joined with single spaces.
pub open spec fn joined(ws: Seq<Seq<char>>) -> Seq<char>
    decreases ws.len(),
{
    if ws.len() == 0 {
        Seq::empty()
    } else if ws.len() == 1 {
        ws[0]
    } else {
        joined(ws.drop_last()) + seq![' '] + ws.last()
    }
}

impl Lexicon {
    /// The literals of the message at `m`, in order.
    pub open spec fn message_words(self, m: int) -> Seq<Seq<char>> {
        let msg = self.messages@[m];
        Seq::new(
            msg.instances@.len(),
            |j: int|
                self.words@[self.instances@[msg.instances@[j] as int].word as int].name@,
        )
    }

    /// Render the message at `m` as its words joined by spaces.
    pub fn string(&self, m: usize) -> (r: String)
        requires
            self.wf(),
            m < self.messages@.len(),
        ensures
            r@ == joined(self.message_words(m as int)),
    {
        proof {
            assert(self.message_wf(m as int));
        }
        let len = self.messages[m].instances.len();
        let mut out = String::new();
        let mut j: usize = 0;
        while j < len
            invariant
                self.wf(),
                m < self.messages@.len(),
                len == self.messages@[m as int].instances@.len(),
                j <= len,
                out@ == joined(self.message_words(m as int).take(j as int)),
            decreases len - j,
        {
            proof {
                assert(self.message_wf(m as int));
                assert(self.inst_wf(self.messages@[m as int].instances@[j as int] as int));
            }
            let id = self.messages[m].instances[j];
            if j > 0 {
                out.append(" ");
                proof {
                    reveal_strlit(" ");
                }
            }
            out.append(self.words[self.instances[id].word].name.as_str());
            proof {
                let ws = self.message_words(m as int);
                assert(ws[j as int] == self.words@[self.instances@[id as int].word as int].name@);
                assert(ws.take((j + 1) as int).drop_last() =~= ws.take(j as int));
                assert(ws.take((j + 1) as int).last() == ws[j as int]);
                if j == 0 {
                    assert(out@ =~= joined(ws.take((j + 1) as int)));
                } else {
                    assert(out@ =~= joined(ws.take(j as int)) + seq![' '] + ws[j as int]);
                    assert(out@ =~= joined(ws.take((j + 1) as int)));
                }
            }
            j += 1;
        }
        proof {
            assert(self.message_words(m as int).take(len as int) =~= self.message_words(m as int));
        }
        out
    }

    /// Whether the messages `m0` and `m1` disagree at position `p`: both the
    /// word and the current category of the instances there differ.
    pub open spec fn pos_diff(self, m0: int, m1: int, p: int) -> bool {
        let x = self.messages@[m0].instances@[p];
        let y = self.messages@[m1].instances@[p];
        &&& self.instances@[x as int].word != self.instances@[y as int].word
        &&& self.instances@[x as int].category != self.instances@[y as int].category
    }

    /// How many positions below `upto` the messages `m0` and `m1` disagree
    /// at.
    pub open spec fn diff_count(self, m0: int, m1: int, upto: int) -> int
        decreases upto,
    {
        if upto <= 0 {
            0
        } else {
            self.diff_count(m0, m1, upto - 1) + if self.pos_diff(m0, m1, upto - 1) {
                1int
            } else {
                0int
            }
        }
    }

    /// The full disagreement count of two equally long messages.
    pub open spec fn total_diffs(self, m0: int, m1: int) -> int {
        self.diff_count(m0, m1, self.messages@[m0].instances@.len() as int)
    }

    /// The disagreement count only grows with the scanned prefix.
    pub proof fn lemma_diff_count_mono(self, m0: int, m1: int, a: int, b: int)
        requires
            0 <= a <= b,
        ensures
            self.diff_count(m0, m1, a) <= self.diff_count(m0, m1, b),
        decreases b - a,
    {
        if a < b {
            self.lemma_diff_count_mono(m0, m1, a, b - 1);
        }
    }

    /// With at most one disagreement in total, two disagreeing positions
    /// must be the same position.
    pub proof fn lemma_single_diff_unique(self, m0: int, m1: int, p: int, q: int)
        requires
            0 <= p < self.messages@[m0].instances@.len(),
            0 <= q < self.messages@[m0].instances@.len(),
            self.pos_diff(m0, m1, p),
            self.pos_diff(m0, m1, q),
            self.total_diffs(m0, m1) <= 1,
        ensures
            p == q,
    {
        if p != q {
            let lo = if p < q { p } else { q };
            let hi = if p < q { q } else { p };
            let len = self.messages@[m0].instances@.len() as int;
            self.lemma_diff_count_mono(m0, m1, 0, lo);
            assert(self.diff_count(m0, m1, lo + 1) == self.diff_count(m0, m1, lo) + 1);
            self.lemma_diff_count_mono(m0, m1, lo + 1, hi);
            assert(self.diff_count(m0, m1, hi + 1) >= 2);
            self.lemma_diff_count_mono(m0, m1, hi + 1, len);
            assert(false);
        }
    }

    /// The disagreement count reads only the message and instance arenas.
    pub proof fn lemma_diff_count_congruent(a: Lexicon, b: Lexicon, m0: int, m1: int, upto: int)
        requires
            a.messages@ == b.messages@,
            a.instances@ == b.instances@,
        ensures
            a.diff_count(m0, m1, upto) == b.diff_count(m0, m1, upto),
        decreases upto,
    {
        if upto > 0 {
            Lexicon::lemma_diff_count_congruent(a, b, m0, m1, upto - 1);
            assert(a.pos_diff(m0, m1, upto - 1) == b.pos_diff(m0, m1, upto - 1));
        }
    }

    /// Classify the messages `m0` and `m1`: incomparable (the same message,
    /// or different lengths) or without disagreement yields `Nothing`;
    /// exactly one disagreeing position yields `One` with that position's
    /// instance pair; more yield `Multiple`.
    pub fn category_and_word_mismatch(&self, m0: usize, m1: usize) -> (r: Mismatch<
        (usize, usize),
    >)
        requires
            self.wf(),
            m0 < self.messages@.len(),
            m1 < self.messages@.len(),
        ensures
            (m0 == m1 || self.messages@[m0 as int].instances@.len()
                != self.messages@[m1 as int].instances@.len()) ==> r is Nothing,
            (m0 != m1 && self.messages@[m0 as int].instances@.len()
                == self.messages@[m1 as int].instances@.len()) ==> {
                &&& (r is Nothing <==> self.total_diffs(m0 as int, m1 as int) == 0)
                &&& (r is Multiple <==> self.total_diffs(m0 as int, m1 as int) >= 2)
                &&& (self.total_diffs(m0 as int, m1 as int) == 1 <==> r is One)
                &&& match r {
                    Mismatch::One(pair) => exists|p: int|
                        0 <= p < self.messages@[m0 as int].instances@.len()
                            && #[trigger] self.pos_diff(m0 as int, m1 as int, p) && pair.0
                            == self.messages@[m0 as int].instances@[p] && pair.1
                            == self.messages@[m1 as int].instances@[p],
                    _ => true,
                }
            },
    {
        proof {
            assert(self.message_wf(m0 as int));
            assert(self.message_wf(m1 as int));
        }
        let len0 = self.messages[m0].instances.len();
        let len1 = self.messages[m1].instances.len();
        if m0 == m1 || len0 != len1 {
            return Mismatch::Nothing;
        }
        let mut cnt: usize = 0;
        let mut found: Option<(usize, usize)> = None;
        let mut p: usize = 0;
        while p < len0
            invariant
                self.wf(),
                m0 < self.messages@.len(),
                m1 < self.messages@.len(),
                len0 == self.messages@[m0 as int].instances@.len(),
                len0 == self.messages@[m1 as int].instances@.len(),
                p <= len0,
                cnt <= p,
                cnt == self.diff_count(m0 as int, m1 as int, p as int),
                match found {
                    Some(pair) => cnt >= 1 && exists|q: int|
                        0 <= q < p && #[trigger] self.pos_diff(m0 as int, m1 as int, q) && pair.0
                            == self.messages@[m0 as int].instances@[q] && pair.1
                            == self.messages@[m1 as int].instances@[q],
                    None => cnt == 0,
                },
            decreases len0 - p,
        {
            proof {
                assert(self.message_wf(m0 as int));
                assert(self.message_wf(m1 as int));
                assert(self.inst_wf(self.messages@[m0 as int].instances@[p as int] as int));
                assert(self.inst_wf(self.messages@[m1 as int].instances@[p as int] as int));
            }
            let x = self.messages[m0].instances[p];
            let y = self.messages[m1].instances[p];
            if self.instances[x].word != self.instances[y].word && self.instances[x].category
                != self.instances[y].category {
                proof {
                    assert(self.pos_diff(m0 as int, m1 as int, p as int));
                }
                cnt += 1;
                if found.is_none() {
                    found = Some((x, y));
                }
            }
            p += 1;
        }
        if cnt == 0 {
            Mismatch::Nothing
        } else if cnt == 1 {
            match found {
                Some(pair) => Mismatch::One(pair),
                None => Mismatch::Nothing,
            }
        } else {
            Mismatch::Multiple
        }
    }
}


impl crate::types::Message {
    /// Render the message at `m` of `lex` as its words joined by spaces.
    pub fn string(lex: &Lexicon, m: usize) -> (r: String)
        requires
            lex.wf(),
            m < lex.messages@.len(),
        ensures
            r@ == joined(lex.message_words(m as int)),
    {
        lex.string(m)
    }

    /// Classify the messages `m0` and `m1` of `lex` by their mismatching
    /// positions; see `Lexicon::category_and_word_mismatch`.
    pub fn category_and_word_mismatch(lex: &Lexicon, m0: usize, m1: usize) -> (r: Mismatch<
        (usize, usize),
    >)
        requires
            lex.wf(),
            m0 < lex.messages@.len(),
            m1 < lex.messages@.len(),
        ensures
            (m0 == m1 || lex.messages@[m0 as int].instances@.len() != lex.messages@[m1 as
                int].instances@.len()) ==> r is Nothing,
            (m0 != m1 && lex.messages@[m0 as int].instances@.len() == lex.messages@[m1 as
                int].instances@.len()) ==> {
                &&& (r is Nothing <==> lex.total_diffs(m0 as int, m1 as int) == 0)
                &&& (r is Multiple <==> lex.total_diffs(m0 as int, m1 as int) >= 2)
                &&& (lex.total_diffs(m0 as int, m1 as int) == 1 <==> r is One)
            },
    {
        lex.category_and_word_mismatch(m0, m1)
    }
}


} // verus!
