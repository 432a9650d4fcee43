//! Introspection: listing the categories that have grown past a single
//! member, and reporting how two literal words currently relate.

use crate::category::vec_contains;
use crate::lexicon::Lexicon;
use crate::message::joined;
use vstd::prelude::*;
use vstd::string::StringExecFns;

verus! {

/// How two literal words relate through the category graph.
pub struct RelationReport {
    /// Some occurrence of each word lives in one shared category.
    pub shared_category: bool,
    /// Occurrences of the two words live in precocategory-linked categories.
    pub precocategory: bool,
    /// Occurrences of the two words live in postcocategory-linked categories.
    pub postcocategory: bool,
}

/// The outcome of looking two words up.
pub enum Relation {
    /// Neither word has ever been seen.
    NeitherKnown,
    /// The first word has never been seen.
    FirstUnknown,
    /// The second word has never been seen.
    SecondUnknown,
    /// Both words are known; how they relate.
    Found(RelationReport),
}

impl Lexicon {
    /// Some occurrence of the word `w0` shares its category with some
    /// occurrence of the word `w1`.
    pub open spec fn words_share_category(self, w0: usize, w1: usize) -> bool {
        exists|p: int, q: int|
            #![trigger self.words@[w0 as int].instances@[p], self.words@[w1 as int].instances@[q]]
            0 <= p < self.words@[w0 as int].instances@.len() && 0 <= q < self.words@[w1 as
                int].instances@.len() && self.instances@[self.words@[w0 as int].instances@[p] as
                int].category == self.instances@[self.words@[w1 as int].instances@[q] as
                int].category
    }

    /// Occurrences of `w0` and `w1` live in precocategory-linked categories.
    pub open spec fn words_precocategory(self, w0: usize, w1: usize) -> bool {
        exists|p: int, q: int|
            #![trigger self.words@[w0 as int].instances@[p], self.words@[w1 as int].instances@[q]]
            0 <= p < self.words@[w0 as int].instances@.len() && 0 <= q < self.words@[w1 as
                int].instances@.len() && self.pre_linked(
                self.instances@[self.words@[w0 as int].instances@[p] as int].category,
                self.instances@[self.words@[w1 as int].instances@[q] as int].category,
            )
    }

    /// Occurrences of `w0` and `w1` live in postcocategory-linked categories.
    pub open spec fn words_postcocategory(self, w0: usize, w1: usize) -> bool {
        exists|p: int, q: int|
            #![trigger self.words@[w0 as int].instances@[p], self.words@[w1 as int].instances@[q]]
            0 <= p < self.words@[w0 as int].instances@.len() && 0 <= q < self.words@[w1 as
                int].instances@.len() && self.post_linked(
                self.instances@[self.words@[w0 as int].instances@[p] as int].category,
                self.instances@[self.words@[w1 as int].instances@[q] as int].category,
            )
    }

    /// Look a word up by its literal.
    pub fn find_word(&self, name: &String) -> (r: Option<usize>)
        requires
            self.wf(),
        ensures
            match r {
                Some(w) => w < self.words@.len() && self.words@[w as int].name@ == name@,
                None => !self.has_word_named(name@),
            },
    {
        let n = self.words.len();
        let mut i: usize = 0;
        while i < n
            invariant
                self.wf(),
                n == self.words@.len(),
                i <= n,
                forall|t: int| 0 <= t < i ==> self.words@[t].name@ != name@,
            decreases n - i,
        {
            if self.words[i].name == *name {
                return Some(i);
            }
            i += 1;
        }
        None
    }

    /// Report whether the two literal words currently share a category or a
    /// pre/post cocategory link.
    pub fn find_relation(&self, words: (String, String)) -> (r: Relation)
        requires
            self.wf(),
        ensures
            match r {
                Relation::NeitherKnown => !self.has_word_named(words.0@) && !self.has_word_named(
                    words.1@,
                ),
                Relation::FirstUnknown => !self.has_word_named(words.0@) && self.has_word_named(
                    words.1@,
                ),
                Relation::SecondUnknown => self.has_word_named(words.0@) && !self.has_word_named(
                    words.1@,
                ),
                Relation::Found(rep) => exists|w0: usize, w1: usize|
                    #![trigger self.words@[w0 as int], self.words@[w1 as int]]
                    {
                        &&& w0 < self.words@.len()
                        &&& w1 < self.words@.len()
                        &&& self.words@[w0 as int].name@ == words.0@
                        &&& self.words@[w1 as int].name@ == words.1@
                        &&& rep.shared_category == self.words_share_category(w0, w1)
                        &&& rep.precocategory == self.words_precocategory(w0, w1)
                        &&& rep.postcocategory == self.words_postcocategory(w0, w1)
                    },
            },
    {
        let f0 = self.find_word(&words.0);
        let f1 = self.find_word(&words.1);
        match (f0, f1) {
            (None, None) => Relation::NeitherKnown,
            (None, Some(_)) => {
                proof {
                    let w1 = f1.unwrap();
                    assert(self.words@[w1 as int].name@ == words.1@);
                }
                Relation::FirstUnknown
            },
            (Some(_), None) => {
                proof {
                    let w0 = f0.unwrap();
                    assert(self.words@[w0 as int].name@ == words.0@);
                }
                Relation::SecondUnknown
            },
            (Some(w0), Some(w1)) => {
                proof {
                    assert(self.word_wf(w0 as int));
                    assert(self.word_wf(w1 as int));
                }
                let n0 = self.words[w0].instances.len();
                let n1 = self.words[w1].instances.len();
                let mut shared = false;
                let mut pre = false;
                let mut post = false;
                let mut p: usize = 0;
                while p < n0
                    invariant
                        self.wf(),
                        w0 < self.words@.len(),
                        w1 < self.words@.len(),
                        n0 == self.words@[w0 as int].instances@.len(),
                        n1 == self.words@[w1 as int].instances@.len(),
                        p <= n0,
                        shared ==> self.words_share_category(w0, w1),
                        pre ==> self.words_precocategory(w0, w1),
                        post ==> self.words_postcocategory(w0, w1),
                        !shared ==> forall|p2: int, q2: int|
                            #![trigger self.words@[w0 as int].instances@[p2], self.words@[w1 as int].instances@[q2]]
                            0 <= p2 < p && 0 <= q2 < n1
                                ==> self.instances@[self.words@[w0 as int].instances@[p2] as
                                int].category != self.instances@[self.words@[w1 as
                                int].instances@[q2] as int].category,
                        !pre ==> forall|p2: int, q2: int|
                            #![trigger self.words@[w0 as int].instances@[p2], self.words@[w1 as int].instances@[q2]]
                            0 <= p2 < p && 0 <= q2 < n1 ==> !self.pre_linked(
                                self.instances@[self.words@[w0 as int].instances@[p2] as
                                    int].category,
                                self.instances@[self.words@[w1 as int].instances@[q2] as
                                    int].category,
                            ),
                        !post ==> forall|p2: int, q2: int|
                            #![trigger self.words@[w0 as int].instances@[p2], self.words@[w1 as int].instances@[q2]]
                            0 <= p2 < p && 0 <= q2 < n1 ==> !self.post_linked(
                                self.instances@[self.words@[w0 as int].instances@[p2] as
                                    int].category,
                                self.instances@[self.words@[w1 as int].instances@[q2] as
                                    int].category,
                            ),
                    decreases n0 - p,
                {
                    proof {
                        assert(self.word_wf(w0 as int));
                        assert(self.inst_wf(self.words@[w0 as int].instances@[p as int] as int));
                    }
                    let i0 = self.words[w0].instances[p];
                    let c0 = self.instances[i0].category;
                    let mut q: usize = 0;
                    while q < n1
                        invariant
                            self.wf(),
                            w0 < self.words@.len(),
                            w1 < self.words@.len(),
                            n0 == self.words@[w0 as int].instances@.len(),
                            n1 == self.words@[w1 as int].instances@.len(),
                            p < n0,
                            q <= n1,
                            i0 == self.words@[w0 as int].instances@[p as int],
                            c0 == self.instances@[i0 as int].category,
                            c0 < self.categories@.len(),
                            shared ==> self.words_share_category(w0, w1),
                            pre ==> self.words_precocategory(w0, w1),
                            post ==> self.words_postcocategory(w0, w1),
                            !shared ==> forall|p2: int, q2: int|
                                #![trigger self.words@[w0 as int].instances@[p2], self.words@[w1 as int].instances@[q2]]
                                0 <= p2 < n0 && 0 <= q2 < n1 && (p2 < p || (p2 == p && q2 < q))
                                    ==> self.instances@[self.words@[w0 as int].instances@[p2] as
                                    int].category != self.instances@[self.words@[w1 as
                                    int].instances@[q2] as int].category,
                            !pre ==> forall|p2: int, q2: int|
                                #![trigger self.words@[w0 as int].instances@[p2], self.words@[w1 as int].instances@[q2]]
                                0 <= p2 < n0 && 0 <= q2 < n1 && (p2 < p || (p2 == p && q2 < q))
                                    ==> !self.pre_linked(
                                    self.instances@[self.words@[w0 as int].instances@[p2] as
                                        int].category,
                                    self.instances@[self.words@[w1 as int].instances@[q2] as
                                        int].category,
                                ),
                            !post ==> forall|p2: int, q2: int|
                                #![trigger self.words@[w0 as int].instances@[p2], self.words@[w1 as int].instances@[q2]]
                                0 <= p2 < n0 && 0 <= q2 < n1 && (p2 < p || (p2 == p && q2 < q))
                                    ==> !self.post_linked(
                                    self.instances@[self.words@[w0 as int].instances@[p2] as
                                        int].category,
                                    self.instances@[self.words@[w1 as int].instances@[q2] as
                                        int].category,
                                ),
                        decreases n1 - q,
                    {
                        proof {
                            assert(self.word_wf(w1 as int));
                            assert(self.inst_wf(
                                self.words@[w1 as int].instances@[q as int] as int,
                            ));
                        }
                        let i1 = self.words[w1].instances[q];
                        let c1 = self.instances[i1].category;
                        if c0 == c1 {
                            shared = true;
                        }
                        if vec_contains(&self.categories[c0].precocategories, c1) {
                            pre = true;
                        }
                        if vec_contains(&self.categories[c0].postcocategories, c1) {
                            post = true;
                        }
                        q += 1;
                    }
                    p += 1;
                }
                Relation::Found(
                    RelationReport { shared_category: shared, precocategory: pre, postcocategory: post },
                )
            },
        }
    }

    /// The report line for the member instance `id`: its word and its
    /// message, indented one tab, or two inside a cocategory block.
    pub open spec fn member_line(self, id: usize, deep: bool) -> Seq<char> {
        (if deep {
            "\t\t"@
        } else {
            "\t"@
        }) + self.words@[self.instances@[id as int].word as int].name@ + " ~ "@ + joined(
            self.message_words(self.instances@[id as int].message as int),
        )
    }

    /// The member lines of the category at `c`, in member order.
    pub open spec fn member_lines(self, c: int, deep: bool) -> Seq<Seq<char>> {
        Seq::new(
            self.categories@[c].instances@.len(),
            |j: int| self.member_line(self.categories@[c].instances@[j], deep),
        )
    }

    /// One header-plus-members block per cocategory in `list`, in order.
    pub open spec fn cocategory_blocks(self, list: Seq<usize>, header: Seq<char>) -> Seq<Seq<char>>
        decreases list.len(),
    {
        if list.len() == 0 {
            Seq::empty()
        } else {
            self.cocategory_blocks(list.drop_last(), header) + seq![header] + self.member_lines(
                list.last() as int,
                true,
            )
        }
    }

    /// The whole report block of the category at `c`: the heading, its pre-
    /// and postcocategory blocks, then its own members.
    pub open spec fn category_block(self, c: int) -> Seq<Seq<char>> {
        seq!["Category:"@] + self.cocategory_blocks(
            self.categories@[c].precocategories@,
            "\tPre-Cocategory:"@,
        ) + self.cocategory_blocks(self.categories@[c].postcocategories@, "\tPost-Cocategory:"@)
            + self.member_lines(c, false)
    }

    /// The report blocks of the categories `cats`, in order.
    pub open spec fn category_blocks(self, cats: Seq<usize>) -> Seq<Seq<char>>
        decreases cats.len(),
    {
        if cats.len() == 0 {
            Seq::empty()
        } else {
            self.category_blocks(cats.drop_last()) + self.category_block(cats.last() as int)
        }
    }

    /// The ascending list of the categories below `upto` that have at least
    /// two members.
    pub open spec fn multi_list(self, upto: int) -> Seq<usize>
        decreases upto,
    {
        if upto <= 0 {
            Seq::empty()
        } else {
            self.multi_list(upto - 1) + (if self.categories@[upto - 1].instances@.len() >= 2 {
                seq![(upto - 1) as usize]
            } else {
                Seq::empty()
            })
        }
    }

    /// The categories that have grown beyond a single member, each listed
    /// once.
    pub fn multi_member_categories(&self) -> (r: Vec<usize>)
        requires
            self.wf(),
        ensures
            r@ == self.multi_list(self.categories@.len() as int),
            forall|c: usize|
                #[trigger] r@.contains(c) <==> (c < self.categories@.len()
                    && self.categories@[c as int].instances@.len() >= 2),
            forall|t1: int, t2: int| 0 <= t1 < t2 < r@.len() ==> r@[t1] != r@[t2],
    {
        let n = self.categories.len();
        let mut r: Vec<usize> = Vec::new();
        let mut c: usize = 0;
        while c < n
            invariant
                self.wf(),
                n == self.categories@.len(),
                c <= n,
                r@ == self.multi_list(c as int),
                forall|d: usize|
                    #[trigger] r@.contains(d) <==> (d < c && self.categories@[d as
                        int].instances@.len() >= 2),
                forall|t1: int, t2: int| 0 <= t1 < t2 < r@.len() ==> r@[t1] != r@[t2],
            decreases n - c,
        {
            let ghost rprev = r@;
            if self.categories[c].instances.len() >= 2 {
                proof {
                    if rprev.contains(c) {
                        assert(false);
                    }
                    assert forall|i1: int, i2: int| 0 <= i1 < i2 < rprev.push(c).len() implies
                        rprev.push(c)[i1] != rprev.push(c)[i2] by {
                        if i2 == rprev.len() {
                            assert(rprev.contains(rprev[i1]));
                        }
                    }
                }
                r.push(c);
                proof {
                    assert(r@ == rprev.push(c));
                    assert(r@ =~= self.multi_list(c as int) + seq![c]);
                    assert forall|d: usize| #[trigger] r@.contains(d) <==> (d < c + 1
                        && self.categories@[d as int].instances@.len() >= 2) by {
                        if r@.contains(d) {
                            let t = choose|t: int| 0 <= t < r@.len() && r@[t] == d;
                            if t < rprev.len() {
                                assert(rprev[t] == d);
                                assert(rprev.contains(d));
                            }
                        }
                        if d < c + 1 && self.categories@[d as int].instances@.len() >= 2 {
                            if d < c {
                                assert(rprev.contains(d));
                                let t = choose|t: int| 0 <= t < rprev.len() && rprev[t] == d;
                                assert(r@[t] == d);
                            } else {
                                assert(r@[r@.len() - 1] == c);
                            }
                        }
                    }
                }
            } else {
                proof {
                    assert(r@ =~= self.multi_list(c as int) + Seq::<usize>::empty());
                    assert forall|d: usize| #[trigger] r@.contains(d) <==> (d < c + 1
                        && self.categories@[d as int].instances@.len() >= 2) by {}
                }
            }
            c += 1;
        }
        r
    }

    /// Render every category with more than one member, with its members
    /// and cocategory links, one line per entry.
    pub fn show_categories(&self) -> (r: Vec<String>)
        requires
            self.wf(),
        ensures
            r.deep_view() == self.category_blocks(
                self.multi_list(self.categories@.len() as int),
            ),
            r@.len() > 0 <==> exists|c: usize|
                c < self.categories@.len() && #[trigger] self.categories@[c as
                    int].instances@.len() >= 2,
    {
        let cats = self.multi_member_categories();
        let mut out: Vec<String> = Vec::new();
        let n = cats.len();
        let mut t: usize = 0;
        while t < n
            invariant
                self.wf(),
                n == cats@.len(),
                cats@ == self.multi_list(self.categories@.len() as int),
                t <= n,
                out@.len() >= t,
                t == 0 ==> out@.len() == 0,
                out.deep_view() == self.category_blocks(cats@.take(t as int)),
                out@.len() == out.deep_view().len(),
                forall|c: usize|
                    #[trigger] cats@.contains(c) ==> c < self.categories@.len(),
            decreases n - t,
        {
            proof {
                assert(cats@.contains(cats@[t as int]));
            }
            let c = cats[t];
            let ghost dv = out.deep_view();
            out.push(String::from_str("Category:"));
            proof {
                reveal_strlit("Category:");
                assert(out.deep_view() =~= dv.push("Category:"@));
            }
            self.push_cocategory_lines(&mut out, c, true);
            self.push_cocategory_lines(&mut out, c, false);
            let ghost dv3 = out.deep_view();
            self.push_member_lines(&mut out, c, false);
            proof {
                let tk = cats@.take((t + 1) as int);
                assert(tk.drop_last() =~= cats@.take(t as int));
                assert(tk.last() == cats@[t as int]);
                assert(dv.push("Category:"@) =~= dv + seq!["Category:"@]);
                assert(out.deep_view() =~= dv + self.category_block(c as int));
                assert(out.deep_view() =~= self.category_blocks(tk));
                assert(out.deep_view().len() >= dv.len() + 1);
            }
            t += 1;
        }
        proof {
            assert(cats@.take(n as int) =~= cats@);
        }
        proof {
            if n > 0 {
                assert(cats@.contains(cats@[0]));
                assert(cats@[0] < self.categories@.len());
                assert(self.categories@[cats@[0] as int].instances@.len() >= 2);
            } else {
                assert forall|c: usize| c < self.categories@.len() implies !(
                #[trigger] self.categories@[c as int].instances@.len() >= 2) by {
                    if self.categories@[c as int].instances@.len() >= 2 {
                        assert(cats@.contains(c));
                        let u = choose|u: int| 0 <= u < cats@.len() && cats@[u] == c;
                        assert(false);
                    }
                }
            }
        }
        out
    }

    /// Append one line per member of `c`, each the member's word and its
    /// message, indented one tab deeper when `deep` is set.
    fn push_member_lines(&self, out: &mut Vec<String>, c: usize, deep: bool)
        requires
            self.wf(),
            c < self.categories@.len(),
        ensures
            final(out).deep_view() == old(out).deep_view() + self.member_lines(c as int, deep),
    {
        proof {
            assert(self.category_wf(c as int));
        }
        let n = self.categories[c].instances.len();
        let mut j: usize = 0;
        while j < n
            invariant
                self.wf(),
                c < self.categories@.len(),
                n == self.categories@[c as int].instances@.len(),
                j <= n,
                out.deep_view() == old(out).deep_view() + self.member_lines(c as int, deep).take(
                    j as int,
                ),
            decreases n - j,
        {
            proof {
                assert(self.category_wf(c as int));
                assert(self.inst_wf(self.categories@[c as int].instances@[j as int] as int));
            }
            let id = self.categories[c].instances[j];
            let mut line = if deep {
                String::from_str("\t\t")
            } else {
                String::from_str("\t")
            };
            line.append(self.words[self.instances[id].word].name.as_str());
            line.append(" ~ ");
            let msg = self.string(self.instances[id].message);
            line.append(msg.as_str());
            proof {
                assert(line@ == self.member_line(id, deep));
            }
            let ghost dv = out.deep_view();
            out.push(line);
            proof {
                assert(out.deep_view() =~= dv.push(line@));
                let ml = self.member_lines(c as int, deep);
                assert(ml[j as int] == self.member_line(id, deep));
                assert(ml.take((j + 1) as int) =~= ml.take(j as int).push(ml[j as int]));
                assert(out.deep_view() =~= old(out).deep_view() + ml.take((j + 1) as int));
            }
            j += 1;
        }
        proof {
            let ml = self.member_lines(c as int, deep);
            assert(ml.take(n as int) =~= ml);
        }
    }

    /// Append a header plus member lines for every pre- (or post-)
    /// cocategory of `c`.
    fn push_cocategory_lines(&self, out: &mut Vec<String>, c: usize, pre: bool)
        requires
            self.wf(),
            c < self.categories@.len(),
        ensures
            final(out).deep_view() == old(out).deep_view() + (if pre {
                self.cocategory_blocks(
                    self.categories@[c as int].precocategories@,
                    "\tPre-Cocategory:"@,
                )
            } else {
                self.cocategory_blocks(
                    self.categories@[c as int].postcocategories@,
                    "\tPost-Cocategory:"@,
                )
            }),
    {
        proof {
            assert(self.category_wf(c as int));
        }
        let ghost list = if pre {
            self.categories@[c as int].precocategories@
        } else {
            self.categories@[c as int].postcocategories@
        };
        let ghost header = if pre {
            "\tPre-Cocategory:"@
        } else {
            "\tPost-Cocategory:"@
        };
        let n = if pre {
            self.categories[c].precocategories.len()
        } else {
            self.categories[c].postcocategories.len()
        };
        let mut j: usize = 0;
        while j < n
            invariant
                self.wf(),
                c < self.categories@.len(),
                list == (if pre {
                    self.categories@[c as int].precocategories@
                } else {
                    self.categories@[c as int].postcocategories@
                }),
                header == (if pre {
                    "\tPre-Cocategory:"@
                } else {
                    "\tPost-Cocategory:"@
                }),
                n == list.len(),
                j <= n,
                out.deep_view() == old(out).deep_view() + self.cocategory_blocks(
                    list.take(j as int),
                    header,
                ),
            decreases n - j,
        {
            proof {
                assert(self.category_wf(c as int));
            }
            let ghost dv = out.deep_view();
            let d = if pre {
                out.push(String::from_str("\tPre-Cocategory:"));
                self.categories[c].precocategories[j]
            } else {
                out.push(String::from_str("\tPost-Cocategory:"));
                self.categories[c].postcocategories[j]
            };
            proof {
                assert(out.deep_view() =~= dv.push(header));
            }
            let ghost dv2 = out.deep_view();
            self.push_member_lines(out, d, true);
            proof {
                let tk = list.take((j + 1) as int);
                assert(tk.drop_last() =~= list.take(j as int));
                assert(tk.last() == list[j as int]);
                assert(d == list[j as int]);
                assert(out.deep_view() == dv2 + self.member_lines(d as int, true));
                assert(dv.push(header) =~= dv + seq![header]);
                assert(out.deep_view() =~= old(out).deep_view() + self.cocategory_blocks(
                    tk,
                    header,
                ));
            }
            j += 1;
        }
        proof {
            assert(list.take(n as int) =~= list);
        }
    }
}

} // verus!
