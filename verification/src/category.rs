//! Category operations: the symmetric cocategory relation and the
//! re-evaluation (`cocategorize`) that adds or retracts links, and the merge
//! of two categories into a fresh one.

use crate::lexicon::Lexicon;
use crate::types::{Category, Ratio, seq_distinct};
use vstd::prelude::*;

verus! {

/// Whether `v` holds `x`.
pub fn vec_contains(v: &Vec<usize>, x: usize) -> (r: bool)
    ensures
        r == v@.contains(x),
{
    let n = v.len();
    let mut i: usize = 0;
    while i < n
        invariant
            i <= n,
            n == v@.len(),
            forall|t: int| 0 <= t < i ==> v@[t] != x,
        decreases n - i,
    {
        if v[i] == x {
            return true;
        }
        i += 1;
    }
    false
}

/// A fresh vector with the same contents as `v`.
pub fn copy_ids(v: &Vec<usize>) -> (r: Vec<usize>)
    ensures
        r@ == v@,
{
    let n = v.len();
    let mut r: Vec<usize> = Vec::new();
    let mut i: usize = 0;
    while i < n
        invariant
            i <= n,
            n == v@.len(),
            r@ == v@.take(i as int),
        decreases n - i,
    {
        r.push(v[i]);
        proof {
            assert(v@.take((i + 1) as int) =~= v@.take(i as int).push(v@[i as int]));
        }
        i += 1;
    }
    proof {
        assert(v@.take(n as int) =~= v@);
    }
    r
}

/// Remove the (at most one) occurrence of `x` from the duplicate-free `v`.
pub(crate) fn remove_val(v: &mut Vec<usize>, x: usize)
    requires
        seq_distinct(old(v)@),
    ensures
        seq_distinct(final(v)@),
        forall|y: usize|
            #![trigger final(v)@.contains(y)]
            #![trigger old(v)@.contains(y)]
            final(v)@.contains(y) == (old(v)@.contains(y) && y != x),
{
    let n = v.len();
    let mut r: Vec<usize> = Vec::new();
    let mut i: usize = 0;
    while i < n
        invariant
            i <= n,
            n == v@.len(),
            *v == *old(v),
            seq_distinct(v@),
            seq_distinct(r@),
            forall|y: usize|
                #![trigger r@.contains(y)]
                #![trigger v@.take(i as int).contains(y)]
                r@.contains(y) == (v@.take(i as int).contains(y) && y != x),
        decreases n - i,
    {
        let e = v[i];
        let ghost tprev = v@.take(i as int);
        let ghost rprev = r@;
        proof {
            assert(v@.take((i + 1) as int) =~= tprev.push(v@[i as int]));
        }
        if e != x {
            proof {
                if r@.contains(e) {
                    assert(tprev.contains(e));
                    let t = choose|t: int| 0 <= t < tprev.len() && tprev[t] == e;
                    assert(v@[t] == v@[i as int]);
                    assert(false);
                }
                assert forall|i1: int, i2: int| 0 <= i1 < i2 < r@.push(e).len() implies r@.push(
                    e,
                )[i1] != r@.push(e)[i2] by {
                    if i2 == r@.len() {
                        assert(r@.contains(r@[i1]));
                    }
                }
            }
            r.push(e);
        }
        i += 1;
        proof {
            assert forall|y: usize| #[trigger] r@.contains(y) implies (v@.take(
                i as int,
            ).contains(y) && y != x) by {
                let t = choose|t: int| 0 <= t < r@.len() && r@[t] == y;
                if t < rprev.len() {
                    assert(rprev.contains(y));
                    let u = choose|u: int| 0 <= u < tprev.len() && tprev[u] == y;
                    assert(v@.take(i as int)[u] == y);
                } else {
                    assert(y == v@[i - 1]);
                    assert(v@.take(i as int)[i - 1] == y);
                }
            }
            assert forall|y: usize| #[trigger] v@.take(i as int).contains(y) && y != x implies
                r@.contains(y) by {
                let t = choose|t: int| 0 <= t < i && v@.take(i as int)[t] == y;
                if t < i - 1 {
                    assert(tprev[t] == y);
                    assert(tprev.contains(y));
                    assert(rprev.contains(y));
                    let u = choose|u: int| 0 <= u < rprev.len() && rprev[u] == y;
                    assert(r@[u] == y);
                } else {
                    assert(y == v@[i - 1]);
                    assert(y == e);
                    assert(r@[r@.len() - 1] == y);
                }
            }
        }
    }
    proof {
        assert(v@.take(n as int) =~= v@);
    }
    *v = r;
}

impl Lexicon {
    /// Whether `a` and `b` are precocategories: a category is trivially one
    /// of its own; otherwise the stored relation is consulted in one
    /// direction (symmetry makes the other redundant).
    pub fn are_precocategories(&self, a: usize, b: usize) -> (r: bool)
        requires
            self.wf(),
            a < self.categories@.len(),
            b < self.categories@.len(),
        ensures
            r == self.spec_are_precocategories(a, b),
    {
        if a == b {
            true
        } else {
            vec_contains(&self.categories[a].precocategories, b)
        }
    }

    /// Whether `a` and `b` are postcocategories.
    pub fn are_postcocategories(&self, a: usize, b: usize) -> (r: bool)
        requires
            self.wf(),
            a < self.categories@.len(),
            b < self.categories@.len(),
        ensures
            r == self.spec_are_postcocategories(a, b),
    {
        if a == b {
            true
        } else {
            vec_contains(&self.categories[a].postcocategories, b)
        }
    }

    /// Everything but the category arena (and the category labels of
    /// instances) is the same in `self` and `other`, including the random
    /// number generator and the tuning.
    pub open spec fn same_except_categories(self, other: Lexicon) -> bool {
        &&& self.words@ == other.words@
        &&& self.sources@ == other.sources@
        &&& self.authors@ == other.authors@
        &&& self.conversations@ == other.conversations@
        &&& self.messages@ == other.messages@
        &&& self.rng == other.rng
        &&& self.same_tunables(other)
    }

    /// The number of coincidences needed before a link is made: the pair
    /// total scaled by the ratio, rounded half-up, plus one.
    pub open spec fn needed_coincidences(total: int, r: Ratio) -> int {
        (total * r.num + r.den / 2) / (r.den as int) + 1
    }

    /// How many instances of `ys` pre-coincide with `i0`.
    pub open spec fn count_pre_row(self, i0: usize, ys: Seq<usize>, edge: nat, word: nat) -> int
        decreases ys.len(),
    {
        if ys.len() == 0 {
            0
        } else {
            self.count_pre_row(i0, ys.drop_last(), edge, word) + if self.spec_precoincidence(
                i0 as int,
                ys.last() as int,
                edge,
                word,
            ) {
                1int
            } else {
                0int
            }
        }
    }

    /// How many ordered pairs drawn from `xs` and `ys` pre-coincide.
    pub open spec fn count_pre_pairs(
        self,
        xs: Seq<usize>,
        ys: Seq<usize>,
        edge: nat,
        word: nat,
    ) -> int
        decreases xs.len(),
    {
        if xs.len() == 0 {
            0
        } else {
            self.count_pre_pairs(xs.drop_last(), ys, edge, word) + self.count_pre_row(
                xs.last(),
                ys,
                edge,
                word,
            )
        }
    }

    /// How many instances of `ys` post-coincide with `i0`.
    pub open spec fn count_post_row(self, i0: usize, ys: Seq<usize>, edge: nat, word: nat) -> int
        decreases ys.len(),
    {
        if ys.len() == 0 {
            0
        } else {
            self.count_post_row(i0, ys.drop_last(), edge, word) + if self.spec_postcoincidence(
                i0 as int,
                ys.last() as int,
                edge,
                word,
            ) {
                1int
            } else {
                0int
            }
        }
    }

    /// How many ordered pairs drawn from `xs` and `ys` post-coincide.
    pub open spec fn count_post_pairs(
        self,
        xs: Seq<usize>,
        ys: Seq<usize>,
        edge: nat,
        word: nat,
    ) -> int
        decreases xs.len(),
    {
        if xs.len() == 0 {
            0
        } else {
            self.count_post_pairs(xs.drop_last(), ys, edge, word) + self.count_post_row(
                xs.last(),
                ys,
                edge,
                word,
            )
        }
    }

    /// A row count lies between zero and the row length.
    pub proof fn lemma_count_row_bounds(self, i0: usize, ys: Seq<usize>, edge: nat, word: nat)
        ensures
            0 <= self.count_pre_row(i0, ys, edge, word) <= ys.len(),
            0 <= self.count_post_row(i0, ys, edge, word) <= ys.len(),
        decreases ys.len(),
    {
        if ys.len() > 0 {
            self.lemma_count_row_bounds(i0, ys.drop_last(), edge, word);
        }
    }

    /// A pair count lies between zero and the pair total.
    pub proof fn lemma_count_pairs_bounds(self, xs: Seq<usize>, ys: Seq<usize>, edge: nat, word: nat)
        ensures
            0 <= self.count_pre_pairs(xs, ys, edge, word) <= xs.len() * ys.len(),
            0 <= self.count_post_pairs(xs, ys, edge, word) <= xs.len() * ys.len(),
        decreases xs.len(),
    {
        if xs.len() > 0 {
            self.lemma_count_pairs_bounds(xs.drop_last(), ys, edge, word);
            self.lemma_count_row_bounds(xs.last(), ys, edge, word);
            assert((xs.len() - 1) * ys.len() + ys.len() == xs.len() * ys.len()) by (nonlinear_arith);
        } else {
            assert(xs.len() == 0);
            assert(xs.len() * ys.len() == 0);
        }
    }

    /// Ensure a symmetric precocategory link between the distinct categories
    /// `a` and `b` exists; every other link is untouched.
    fn link_pre(&mut self, a: usize, b: usize)
        requires
            old(self).wf(),
            a < old(self).categories@.len(),
            b < old(self).categories@.len(),
            a != b,
        ensures
            final(self).wf(),
            final(self).same_except_categories(*old(self)),
            final(self).instances@ == old(self).instances@,
            final(self).categories@.len() == old(self).categories@.len(),
            forall|d: int|
                #![trigger final(self).categories@[d]]
                0 <= d < old(self).categories@.len() ==> {
                    &&& final(self).categories@[d].instances@ == old(self).categories@[d].instances@
                    &&& final(self).categories@[d].postcocategories@ == old(
                        self,
                    ).categories@[d].postcocategories@
                },
            final(self).pre_linked(a, b) && final(self).pre_linked(b, a),
            forall|x: usize, y: usize|
                #![trigger final(self).pre_linked(x, y)]
                x < old(self).categories@.len() && y < old(self).categories@.len() && !(x == a && y
                    == b) && !(x == b && y == a) ==> final(self).pre_linked(x, y) == old(
                    self,
                ).pre_linked(x, y),
    {
        proof {
            assert(self.category_wf(a as int));
            assert(self.category_wf(b as int));
        }
        if !vec_contains(&self.categories[a].precocategories, b) {
            proof {
                if old(self).pre_linked(b, a) {
                    let j = choose|j: int|
                        0 <= j < old(self).categories@[b as int].precocategories@.len() && old(
                            self,
                        ).categories@[b as int].precocategories@[j] == a;
                    assert(false);
                }
            }
            self.categories[a].precocategories.push(b);
            self.categories[b].precocategories.push(a);
            proof {
                let ghost na = self.categories@[a as int].precocategories@;
                let ghost nb = self.categories@[b as int].precocategories@;
                assert(na == old(self).categories@[a as int].precocategories@.push(b));
                assert(nb == old(self).categories@[b as int].precocategories@.push(a));
                assert(na[na.len() - 1] == b);
                assert(nb[nb.len() - 1] == a);
                assert forall|k: int| 0 <= k < self.instances@.len() implies #[trigger] self
                    .inst_wf(k) by {
                    assert(old(self).inst_wf(k));
                }
                assert forall|m: int| 0 <= m < self.messages@.len() implies #[trigger] self
                    .message_wf(m) by {
                    assert(old(self).message_wf(m));
                }
                assert forall|w: int| 0 <= w < self.words@.len() implies #[trigger] self.word_wf(
                    w,
                ) by {
                    assert(old(self).word_wf(w));
                }
                assert forall|cc: int| 0 <= cc < self.conversations@.len() implies #[trigger] self
                    .conversation_wf(cc) by {
                    assert(old(self).conversation_wf(cc));
                }
                assert forall|t: int| 0 <= t < self.sources@.len() implies #[trigger] self
                    .source_wf(t) by {
                    assert(old(self).source_wf(t));
                }
                assert forall|t: int| 0 <= t < self.authors@.len() implies #[trigger] self
                    .author_wf(t) by {
                    assert(old(self).author_wf(t));
                }
                assert forall|c: int| 0 <= c < self.categories@.len() implies #[trigger] self
                    .category_wf(c) by {
                    assert(old(self).category_wf(c));
                    let oc = old(self).categories@[c];
                    let nc = self.categories@[c];
                    assert(nc.instances@ == oc.instances@);
                    assert(nc.postcocategories@ == oc.postcocategories@);
                    if c == a {
                        assert forall|j: int| 0 <= j < nc.precocategories@.len() implies {
                            let d = #[trigger] nc.precocategories@[j];
                            &&& d < self.categories@.len()
                            &&& d != c
                            &&& self.categories@[d as int].precocategories@.contains(c as usize)
                        } by {
                            if j < oc.precocategories@.len() {
                                let d = oc.precocategories@[j];
                                assert(old(self).categories@[d as int].precocategories@.contains(
                                    c as usize,
                                ));
                                let t = choose|t: int|
                                    0 <= t < old(self).categories@[d as int].precocategories@.len()
                                        && old(self).categories@[d as int].precocategories@[t] == c as usize;
                                if d == b {
                                    assert(nb[t] == c as usize);
                                } else {
                                    assert(self.categories@[d as int].precocategories@[t] == c as usize);
                                }
                            } else {
                                assert(nc.precocategories@[j] == b);
                                assert(nb[nb.len() - 1] == a);
                            }
                        }
                        assert(seq_distinct(nc.precocategories@)) by {
                            assert forall|i1: int, i2: int|
                                0 <= i1 < i2 < nc.precocategories@.len() implies nc
                                .precocategories@[i1] != nc.precocategories@[i2] by {
                                if i2 == nc.precocategories@.len() - 1 {
                                    assert(oc.precocategories@.contains(oc.precocategories@[i1]));
                                }
                            }
                        }
                    } else if c == b {
                        assert forall|j: int| 0 <= j < nc.precocategories@.len() implies {
                            let d = #[trigger] nc.precocategories@[j];
                            &&& d < self.categories@.len()
                            &&& d != c
                            &&& self.categories@[d as int].precocategories@.contains(c as usize)
                        } by {
                            if j < oc.precocategories@.len() {
                                let d = oc.precocategories@[j];
                                assert(old(self).categories@[d as int].precocategories@.contains(
                                    c as usize,
                                ));
                                let t = choose|t: int|
                                    0 <= t < old(self).categories@[d as int].precocategories@.len()
                                        && old(self).categories@[d as int].precocategories@[t] == c as usize;
                                if d == a {
                                    assert(na[t] == c as usize);
                                } else {
                                    assert(self.categories@[d as int].precocategories@[t] == c as usize);
                                }
                            } else {
                                assert(nc.precocategories@[j] == a);
                                assert(na[na.len() - 1] == b);
                            }
                        }
                        assert(seq_distinct(nc.precocategories@)) by {
                            assert forall|i1: int, i2: int|
                                0 <= i1 < i2 < nc.precocategories@.len() implies nc
                                .precocategories@[i1] != nc.precocategories@[i2] by {
                                if i2 == nc.precocategories@.len() - 1 {
                                    assert(oc.precocategories@.contains(oc.precocategories@[i1]));
                                }
                            }
                        }
                    } else {
                        assert(nc.precocategories@ == oc.precocategories@);
                        assert forall|j: int| 0 <= j < nc.precocategories@.len() implies {
                            let d = #[trigger] nc.precocategories@[j];
                            &&& d < self.categories@.len()
                            &&& d != c
                            &&& self.categories@[d as int].precocategories@.contains(c as usize)
                        } by {
                            let d = oc.precocategories@[j];
                            assert(old(self).categories@[d as int].precocategories@.contains(
                                c as usize,
                            ));
                            let t = choose|t: int|
                                0 <= t < old(self).categories@[d as int].precocategories@.len()
                                    && old(self).categories@[d as int].precocategories@[t] == c as usize;
                            if d == a {
                                assert(na[t] == c as usize);
                            } else if d == b {
                                assert(nb[t] == c as usize);
                            } else {
                                assert(self.categories@[d as int].precocategories@[t] == c as usize);
                            }
                        }
                    }
                }
                assert forall|x: usize, y: usize|
                    x < old(self).categories@.len() && y < old(self).categories@.len() && !(x == a
                        && y == b) && !(x == b && y == a) implies #[trigger] self.pre_linked(x, y)
                    == old(self).pre_linked(x, y) by {
                    if x == a {
                        assert(self.pre_linked(x, y) == na.contains(y));
                        if old(self).pre_linked(x, y) {
                            let t = choose|t: int|
                                0 <= t < old(self).categories@[x as int].precocategories@.len()
                                    && old(self).categories@[x as int].precocategories@[t] == y;
                            assert(na[t] == y);
                        } else {
                            if na.contains(y) {
                                let t = choose|t: int| 0 <= t < na.len() && na[t] == y;
                                assert(t == na.len() - 1);
                                assert(false);
                            }
                        }
                    } else if x == b {
                        if old(self).pre_linked(x, y) {
                            let t = choose|t: int|
                                0 <= t < old(self).categories@[x as int].precocategories@.len()
                                    && old(self).categories@[x as int].precocategories@[t] == y;
                            assert(nb[t] == y);
                        } else {
                            if nb.contains(y) {
                                let t = choose|t: int| 0 <= t < nb.len() && nb[t] == y;
                                assert(t == nb.len() - 1);
                                assert(false);
                            }
                        }
                    } else {
                        assert(self.categories@[x as int].precocategories@ == old(
                            self,
                        ).categories@[x as int].precocategories@);
                    }
                }
            }
        } else {
            proof {
                assert(old(self).pre_linked(a, b));
                let t = choose|t: int|
                    0 <= t < old(self).categories@[a as int].precocategories@.len() && old(
                        self,
                    ).categories@[a as int].precocategories@[t] == b;
                assert(old(self).categories@[b as int].precocategories@.contains(a));
            }
        }
    }

    /// Ensure a symmetric postcocategory link between the distinct categories
    /// `a` and `b` exists; every other link is untouched.
    fn link_post(&mut self, a: usize, b: usize)
        requires
            old(self).wf(),
            a < old(self).categories@.len(),
            b < old(self).categories@.len(),
            a != b,
        ensures
            final(self).wf(),
            final(self).same_except_categories(*old(self)),
            final(self).instances@ == old(self).instances@,
            final(self).categories@.len() == old(self).categories@.len(),
            forall|d: int|
                #![trigger final(self).categories@[d]]
                0 <= d < old(self).categories@.len() ==> {
                    &&& final(self).categories@[d].instances@ == old(self).categories@[d].instances@
                    &&& final(self).categories@[d].precocategories@ == old(
                        self,
                    ).categories@[d].precocategories@
                },
            final(self).post_linked(a, b) && final(self).post_linked(b, a),
            forall|x: usize, y: usize|
                #![trigger final(self).post_linked(x, y)]
                x < old(self).categories@.len() && y < old(self).categories@.len() && !(x == a && y
                    == b) && !(x == b && y == a) ==> final(self).post_linked(x, y) == old(
                    self,
                ).post_linked(x, y),
    {
        proof {
            assert(self.category_wf(a as int));
            assert(self.category_wf(b as int));
        }
        if !vec_contains(&self.categories[a].postcocategories, b) {
            proof {
                if old(self).post_linked(b, a) {
                    let j = choose|j: int|
                        0 <= j < old(self).categories@[b as int].postcocategories@.len() && old(
                            self,
                        ).categories@[b as int].postcocategories@[j] == a;
                    assert(false);
                }
            }
            self.categories[a].postcocategories.push(b);
            self.categories[b].postcocategories.push(a);
            proof {
                let ghost na = self.categories@[a as int].postcocategories@;
                let ghost nb = self.categories@[b as int].postcocategories@;
                assert(na == old(self).categories@[a as int].postcocategories@.push(b));
                assert(nb == old(self).categories@[b as int].postcocategories@.push(a));
                assert(na[na.len() - 1] == b);
                assert(nb[nb.len() - 1] == a);
                assert forall|k: int| 0 <= k < self.instances@.len() implies #[trigger] self
                    .inst_wf(k) by {
                    assert(old(self).inst_wf(k));
                }
                assert forall|m: int| 0 <= m < self.messages@.len() implies #[trigger] self
                    .message_wf(m) by {
                    assert(old(self).message_wf(m));
                }
                assert forall|w: int| 0 <= w < self.words@.len() implies #[trigger] self.word_wf(
                    w,
                ) by {
                    assert(old(self).word_wf(w));
                }
                assert forall|cc: int| 0 <= cc < self.conversations@.len() implies #[trigger] self
                    .conversation_wf(cc) by {
                    assert(old(self).conversation_wf(cc));
                }
                assert forall|t: int| 0 <= t < self.sources@.len() implies #[trigger] self
                    .source_wf(t) by {
                    assert(old(self).source_wf(t));
                }
                assert forall|t: int| 0 <= t < self.authors@.len() implies #[trigger] self
                    .author_wf(t) by {
                    assert(old(self).author_wf(t));
                }
                assert forall|c: int| 0 <= c < self.categories@.len() implies #[trigger] self
                    .category_wf(c) by {
                    assert(old(self).category_wf(c));
                    let oc = old(self).categories@[c];
                    let nc = self.categories@[c];
                    assert(nc.instances@ == oc.instances@);
                    assert(nc.precocategories@ == oc.precocategories@);
                    if c == a {
                        assert forall|j: int| 0 <= j < nc.postcocategories@.len() implies {
                            let d = #[trigger] nc.postcocategories@[j];
                            &&& d < self.categories@.len()
                            &&& d != c
                            &&& self.categories@[d as int].postcocategories@.contains(c as usize)
                        } by {
                            if j < oc.postcocategories@.len() {
                                let d = oc.postcocategories@[j];
                                assert(old(self).categories@[d as int].postcocategories@.contains(
                                    c as usize,
                                ));
                                let t = choose|t: int|
                                    0 <= t < old(self).categories@[d as int].postcocategories@.len()
                                        && old(self).categories@[d as int].postcocategories@[t] == c as usize;
                                if d == b {
                                    assert(nb[t] == c as usize);
                                } else {
                                    assert(self.categories@[d as int].postcocategories@[t] == c as usize);
                                }
                            } else {
                                assert(nc.postcocategories@[j] == b);
                                assert(nb[nb.len() - 1] == a);
                            }
                        }
                        assert(seq_distinct(nc.postcocategories@)) by {
                            assert forall|i1: int, i2: int|
                                0 <= i1 < i2 < nc.postcocategories@.len() implies nc
                                .postcocategories@[i1] != nc.postcocategories@[i2] by {
                                if i2 == nc.postcocategories@.len() - 1 {
                                    assert(oc.postcocategories@.contains(oc.postcocategories@[i1]));
                                }
                            }
                        }
                    } else if c == b {
                        assert forall|j: int| 0 <= j < nc.postcocategories@.len() implies {
                            let d = #[trigger] nc.postcocategories@[j];
                            &&& d < self.categories@.len()
                            &&& d != c
                            &&& self.categories@[d as int].postcocategories@.contains(c as usize)
                        } by {
                            if j < oc.postcocategories@.len() {
                                let d = oc.postcocategories@[j];
                                assert(old(self).categories@[d as int].postcocategories@.contains(
                                    c as usize,
                                ));
                                let t = choose|t: int|
                                    0 <= t < old(self).categories@[d as int].postcocategories@.len()
                                        && old(self).categories@[d as int].postcocategories@[t] == c as usize;
                                if d == a {
                                    assert(na[t] == c as usize);
                                } else {
                                    assert(self.categories@[d as int].postcocategories@[t] == c as usize);
                                }
                            } else {
                                assert(nc.postcocategories@[j] == a);
                                assert(na[na.len() - 1] == b);
                            }
                        }
                        assert(seq_distinct(nc.postcocategories@)) by {
                            assert forall|i1: int, i2: int|
                                0 <= i1 < i2 < nc.postcocategories@.len() implies nc
                                .postcocategories@[i1] != nc.postcocategories@[i2] by {
                                if i2 == nc.postcocategories@.len() - 1 {
                                    assert(oc.postcocategories@.contains(oc.postcocategories@[i1]));
                                }
                            }
                        }
                    } else {
                        assert(nc.postcocategories@ == oc.postcocategories@);
                        assert forall|j: int| 0 <= j < nc.postcocategories@.len() implies {
                            let d = #[trigger] nc.postcocategories@[j];
                            &&& d < self.categories@.len()
                            &&& d != c
                            &&& self.categories@[d as int].postcocategories@.contains(c as usize)
                        } by {
                            let d = oc.postcocategories@[j];
                            assert(old(self).categories@[d as int].postcocategories@.contains(
                                c as usize,
                            ));
                            let t = choose|t: int|
                                0 <= t < old(self).categories@[d as int].postcocategories@.len()
                                    && old(self).categories@[d as int].postcocategories@[t] == c as usize;
                            if d == a {
                                assert(na[t] == c as usize);
                            } else if d == b {
                                assert(nb[t] == c as usize);
                            } else {
                                assert(self.categories@[d as int].postcocategories@[t] == c as usize);
                            }
                        }
                    }
                }
                assert forall|x: usize, y: usize|
                    x < old(self).categories@.len() && y < old(self).categories@.len() && !(x == a
                        && y == b) && !(x == b && y == a) implies #[trigger] self.post_linked(x, y)
                    == old(self).post_linked(x, y) by {
                    if x == a {
                        assert(self.post_linked(x, y) == na.contains(y));
                        if old(self).post_linked(x, y) {
                            let t = choose|t: int|
                                0 <= t < old(self).categories@[x as int].postcocategories@.len()
                                    && old(self).categories@[x as int].postcocategories@[t] == y;
                            assert(na[t] == y);
                        } else {
                            if na.contains(y) {
                                let t = choose|t: int| 0 <= t < na.len() && na[t] == y;
                                assert(t == na.len() - 1);
                                assert(false);
                            }
                        }
                    } else if x == b {
                        if old(self).post_linked(x, y) {
                            let t = choose|t: int|
                                0 <= t < old(self).categories@[x as int].postcocategories@.len()
                                    && old(self).categories@[x as int].postcocategories@[t] == y;
                            assert(nb[t] == y);
                        } else {
                            if nb.contains(y) {
                                let t = choose|t: int| 0 <= t < nb.len() && nb[t] == y;
                                assert(t == nb.len() - 1);
                                assert(false);
                            }
                        }
                    } else {
                        assert(self.categories@[x as int].postcocategories@ == old(
                            self,
                        ).categories@[x as int].postcocategories@);
                    }
                }
            }
        } else {
            proof {
                assert(old(self).post_linked(a, b));
                let t = choose|t: int|
                    0 <= t < old(self).categories@[a as int].postcocategories@.len() && old(
                        self,
                    ).categories@[a as int].postcocategories@[t] == b;
                assert(old(self).categories@[b as int].postcocategories@.contains(a));
            }
        }
    }

    /// Ensure no precocategory link exists between the distinct categories
    /// `a` and `b`; every other link is untouched.
    fn unlink_pre(&mut self, a: usize, b: usize)
        requires
            old(self).wf(),
            a < old(self).categories@.len(),
            b < old(self).categories@.len(),
            a != b,
        ensures
            final(self).wf(),
            final(self).same_except_categories(*old(self)),
            final(self).instances@ == old(self).instances@,
            final(self).categories@.len() == old(self).categories@.len(),
            forall|d: int|
                #![trigger final(self).categories@[d]]
                0 <= d < old(self).categories@.len() ==> {
                    &&& final(self).categories@[d].instances@ == old(self).categories@[d].instances@
                    &&& final(self).categories@[d].postcocategories@ == old(
                        self,
                    ).categories@[d].postcocategories@
                },
            !final(self).pre_linked(a, b) && !final(self).pre_linked(b, a),
            forall|x: usize, y: usize|
                #![trigger final(self).pre_linked(x, y)]
                x < old(self).categories@.len() && y < old(self).categories@.len() && !(x == a && y
                    == b) && !(x == b && y == a) ==> final(self).pre_linked(x, y) == old(
                    self,
                ).pre_linked(x, y),
    {
        let n_cats = self.categories.len();
        proof {
            assert(self.category_wf(a as int));
            assert(self.category_wf(b as int));
        }
        if vec_contains(&self.categories[a].precocategories, b) {
            proof {
                let t = choose|t: int|
                    0 <= t < old(self).categories@[a as int].precocategories@.len() && old(
                        self,
                    ).categories@[a as int].precocategories@[t] == b;
                assert(old(self).categories@[b as int].precocategories@.contains(a));
            }
            remove_val(&mut self.categories[a].precocategories, b);
            remove_val(&mut self.categories[b].precocategories, a);
            proof {
                let ghost oa = old(self).categories@[a as int].precocategories@;
                let ghost ob = old(self).categories@[b as int].precocategories@;
                let ghost na = self.categories@[a as int].precocategories@;
                let ghost nb = self.categories@[b as int].precocategories@;
                assert(forall|y: usize| #[trigger] na.contains(y) == (oa.contains(y) && y != b));
                assert(forall|y: usize| #[trigger] nb.contains(y) == (ob.contains(y) && y != a));
                assert forall|k: int| 0 <= k < self.instances@.len() implies #[trigger] self
                    .inst_wf(k) by {
                    assert(old(self).inst_wf(k));
                }
                assert forall|m: int| 0 <= m < self.messages@.len() implies #[trigger] self
                    .message_wf(m) by {
                    assert(old(self).message_wf(m));
                }
                assert forall|w: int| 0 <= w < self.words@.len() implies #[trigger] self.word_wf(
                    w,
                ) by {
                    assert(old(self).word_wf(w));
                }
                assert forall|cc: int| 0 <= cc < self.conversations@.len() implies #[trigger] self
                    .conversation_wf(cc) by {
                    assert(old(self).conversation_wf(cc));
                }
                assert forall|t: int| 0 <= t < self.sources@.len() implies #[trigger] self
                    .source_wf(t) by {
                    assert(old(self).source_wf(t));
                }
                assert forall|t: int| 0 <= t < self.authors@.len() implies #[trigger] self
                    .author_wf(t) by {
                    assert(old(self).author_wf(t));
                }
                assert forall|c: int| 0 <= c < self.categories@.len() implies #[trigger] self
                    .category_wf(c) by {
                    assert(old(self).category_wf(c));
                    let oc = old(self).categories@[c];
                    let nc = self.categories@[c];
                    assert(nc.instances@ == oc.instances@);
                    assert(nc.postcocategories@ == oc.postcocategories@);
                    if c == a || c == b {
                        assert forall|j: int| 0 <= j < nc.precocategories@.len() implies {
                            let d = #[trigger] nc.precocategories@[j];
                            &&& d < self.categories@.len()
                            &&& d != c
                            &&& self.categories@[d as int].precocategories@.contains(c as usize)
                        } by {
                            let d = nc.precocategories@[j];
                            assert(nc.precocategories@.contains(d));
                            assert(oc.precocategories@.contains(d));
                            let u = choose|u: int|
                                0 <= u < oc.precocategories@.len() && oc.precocategories@[u] == d;
                            assert(old(self).categories@[d as int].precocategories@.contains(
                                c as usize,
                            ));
                            assert(d != a && d != b) by {
                                if c == a {
                                    assert(d != b);
                                    assert(d != c);
                                } else {
                                    assert(d != a);
                                    assert(d != c);
                                }
                            }
                            assert(self.categories@[d as int].precocategories@ == old(
                                self,
                            ).categories@[d as int].precocategories@);
                        }
                    } else {
                        assert(nc.precocategories@ == oc.precocategories@);
                        assert forall|j: int| 0 <= j < nc.precocategories@.len() implies {
                            let d = #[trigger] nc.precocategories@[j];
                            &&& d < self.categories@.len()
                            &&& d != c
                            &&& self.categories@[d as int].precocategories@.contains(c as usize)
                        } by {
                            let d = oc.precocategories@[j];
                            assert(old(self).categories@[d as int].precocategories@.contains(
                                c as usize,
                            ));
                            if d == a {
                                assert(c < n_cats as int);
                                assert(c as usize != b);
                                assert(na.contains(c as usize) == (oa.contains(c as usize) && c
                                    as usize != b));
                            } else if d == b {
                                assert(c < n_cats as int);
                                assert(c as usize != a);
                                assert(nb.contains(c as usize) == (ob.contains(c as usize) && c
                                    as usize != a));
                            } else {
                                assert(self.categories@[d as int].precocategories@ == old(
                                    self,
                                ).categories@[d as int].precocategories@);
                            }
                        }
                    }
                }
                assert forall|x: usize, y: usize|
                    x < old(self).categories@.len() && y < old(self).categories@.len() && !(x == a
                        && y == b) && !(x == b && y == a) implies #[trigger] self.pre_linked(x, y)
                    == old(self).pre_linked(x, y) by {
                    if x == a {
                        assert(na.contains(y) == (oa.contains(y) && y != b));
                    } else if x == b {
                        assert(nb.contains(y) == (ob.contains(y) && y != a));
                    } else {
                        assert(self.categories@[x as int].precocategories@ == old(
                            self,
                        ).categories@[x as int].precocategories@);
                    }
                }
            }
        } else {
            proof {
                if old(self).pre_linked(b, a) {
                    let t = choose|t: int|
                        0 <= t < old(self).categories@[b as int].precocategories@.len() && old(
                            self,
                        ).categories@[b as int].precocategories@[t] == a;
                    assert(old(self).categories@[a as int].precocategories@.contains(b));
                    assert(false);
                }
            }
        }
    }

    /// Ensure no postcocategory link exists between the distinct categories
    /// `a` and `b`; every other link is untouched.
    fn unlink_post(&mut self, a: usize, b: usize)
        requires
            old(self).wf(),
            a < old(self).categories@.len(),
            b < old(self).categories@.len(),
            a != b,
        ensures
            final(self).wf(),
            final(self).same_except_categories(*old(self)),
            final(self).instances@ == old(self).instances@,
            final(self).categories@.len() == old(self).categories@.len(),
            forall|d: int|
                #![trigger final(self).categories@[d]]
                0 <= d < old(self).categories@.len() ==> {
                    &&& final(self).categories@[d].instances@ == old(self).categories@[d].instances@
                    &&& final(self).categories@[d].precocategories@ == old(
                        self,
                    ).categories@[d].precocategories@
                },
            !final(self).post_linked(a, b) && !final(self).post_linked(b, a),
            forall|x: usize, y: usize|
                #![trigger final(self).post_linked(x, y)]
                x < old(self).categories@.len() && y < old(self).categories@.len() && !(x == a && y
                    == b) && !(x == b && y == a) ==> final(self).post_linked(x, y) == old(
                    self,
                ).post_linked(x, y),
    {
        let n_cats = self.categories.len();
        proof {
            assert(self.category_wf(a as int));
            assert(self.category_wf(b as int));
        }
        if vec_contains(&self.categories[a].postcocategories, b) {
            proof {
                let t = choose|t: int|
                    0 <= t < old(self).categories@[a as int].postcocategories@.len() && old(
                        self,
                    ).categories@[a as int].postcocategories@[t] == b;
                assert(old(self).categories@[b as int].postcocategories@.contains(a));
            }
            remove_val(&mut self.categories[a].postcocategories, b);
            remove_val(&mut self.categories[b].postcocategories, a);
            proof {
                let ghost oa = old(self).categories@[a as int].postcocategories@;
                let ghost ob = old(self).categories@[b as int].postcocategories@;
                let ghost na = self.categories@[a as int].postcocategories@;
                let ghost nb = self.categories@[b as int].postcocategories@;
                assert(forall|y: usize| #[trigger] na.contains(y) == (oa.contains(y) && y != b));
                assert(forall|y: usize| #[trigger] nb.contains(y) == (ob.contains(y) && y != a));
                assert forall|k: int| 0 <= k < self.instances@.len() implies #[trigger] self
                    .inst_wf(k) by {
                    assert(old(self).inst_wf(k));
                }
                assert forall|m: int| 0 <= m < self.messages@.len() implies #[trigger] self
                    .message_wf(m) by {
                    assert(old(self).message_wf(m));
                }
                assert forall|w: int| 0 <= w < self.words@.len() implies #[trigger] self.word_wf(
                    w,
                ) by {
                    assert(old(self).word_wf(w));
                }
                assert forall|cc: int| 0 <= cc < self.conversations@.len() implies #[trigger] self
                    .conversation_wf(cc) by {
                    assert(old(self).conversation_wf(cc));
                }
                assert forall|t: int| 0 <= t < self.sources@.len() implies #[trigger] self
                    .source_wf(t) by {
                    assert(old(self).source_wf(t));
                }
                assert forall|t: int| 0 <= t < self.authors@.len() implies #[trigger] self
                    .author_wf(t) by {
                    assert(old(self).author_wf(t));
                }
                assert forall|c: int| 0 <= c < self.categories@.len() implies #[trigger] self
                    .category_wf(c) by {
                    assert(old(self).category_wf(c));
                    let oc = old(self).categories@[c];
                    let nc = self.categories@[c];
                    assert(nc.instances@ == oc.instances@);
                    assert(nc.precocategories@ == oc.precocategories@);
                    if c == a || c == b {
                        assert forall|j: int| 0 <= j < nc.postcocategories@.len() implies {
                            let d = #[trigger] nc.postcocategories@[j];
                            &&& d < self.categories@.len()
                            &&& d != c
                            &&& self.categories@[d as int].postcocategories@.contains(c as usize)
                        } by {
                            let d = nc.postcocategories@[j];
                            assert(nc.postcocategories@.contains(d));
                            assert(oc.postcocategories@.contains(d));
                            let u = choose|u: int|
                                0 <= u < oc.postcocategories@.len() && oc.postcocategories@[u] == d;
                            assert(old(self).categories@[d as int].postcocategories@.contains(
                                c as usize,
                            ));
                            assert(d != a && d != b) by {
                                if c == a {
                                    assert(d != b);
                                    assert(d != c);
                                } else {
                                    assert(d != a);
                                    assert(d != c);
                                }
                            }
                            assert(self.categories@[d as int].postcocategories@ == old(
                                self,
                            ).categories@[d as int].postcocategories@);
                        }
                    } else {
                        assert(nc.postcocategories@ == oc.postcocategories@);
                        assert forall|j: int| 0 <= j < nc.postcocategories@.len() implies {
                            let d = #[trigger] nc.postcocategories@[j];
                            &&& d < self.categories@.len()
                            &&& d != c
                            &&& self.categories@[d as int].postcocategories@.contains(c as usize)
                        } by {
                            let d = oc.postcocategories@[j];
                            assert(old(self).categories@[d as int].postcocategories@.contains(
                                c as usize,
                            ));
                            if d == a {
                                assert(c < n_cats as int);
                                assert(c as usize != b);
                                assert(na.contains(c as usize) == (oa.contains(c as usize) && c
                                    as usize != b));
                            } else if d == b {
                                assert(c < n_cats as int);
                                assert(c as usize != a);
                                assert(nb.contains(c as usize) == (ob.contains(c as usize) && c
                                    as usize != a));
                            } else {
                                assert(self.categories@[d as int].postcocategories@ == old(
                                    self,
                                ).categories@[d as int].postcocategories@);
                            }
                        }
                    }
                }
                assert forall|x: usize, y: usize|
                    x < old(self).categories@.len() && y < old(self).categories@.len() && !(x == a
                        && y == b) && !(x == b && y == a) implies #[trigger] self.post_linked(x, y)
                    == old(self).post_linked(x, y) by {
                    if x == a {
                        assert(na.contains(y) == (oa.contains(y) && y != b));
                    } else if x == b {
                        assert(nb.contains(y) == (ob.contains(y) && y != a));
                    } else {
                        assert(self.categories@[x as int].postcocategories@ == old(
                            self,
                        ).categories@[x as int].postcocategories@);
                    }
                }
            }
        } else {
            proof {
                if old(self).post_linked(b, a) {
                    let t = choose|t: int|
                        0 <= t < old(self).categories@[b as int].postcocategories@.len() && old(
                            self,
                        ).categories@[b as int].postcocategories@[t] == a;
                    assert(old(self).categories@[a as int].postcocategories@.contains(b));
                    assert(false);
                }
            }
        }
    }

    /// Re-evaluate whether the categories `a` and `b` should be linked as
    /// pre- and/or postcocategories.  Every ordered pair of member instances
    /// is tested for coincidence in each direction; a direction's symmetric
    /// link is made when its coincidence count reaches the needed threshold
    /// and retracted otherwise.  Comparing a category with itself does
    /// nothing.
    pub fn cocategorize(
        &mut self,
        a: usize,
        b: usize,
        ratio: Ratio,
        forward_edge_distance: usize,
        backward_edge_distance: usize,
        forward_word_distance: usize,
        backward_word_distance: usize,
    )
        requires
            old(self).wf(),
            a < old(self).categories@.len(),
            b < old(self).categories@.len(),
            ratio.den >= 1,
            old(self).categories@[a as int].instances@.len() * old(
                self,
            ).categories@[b as int].instances@.len() * ratio.num + ratio.den / 2 < u128::MAX,
        ensures
            final(self).wf(),
            a == b ==> *final(self) == *old(self),
            a != b ==> ({
                let ai = old(self).categories@[a as int].instances@;
                let bi = old(self).categories@[b as int].instances@;
                let needed = Lexicon::needed_coincidences((ai.len() * bi.len()) as int, ratio);
                &&& final(self).same_except_categories(*old(self))
                &&& final(self).instances@ == old(self).instances@
                &&& final(self).categories@.len() == old(self).categories@.len()
                &&& forall|d: int|
                    #![trigger final(self).categories@[d].instances@]
                    0 <= d < old(self).categories@.len() ==> final(self).categories@[d].instances@
                        == old(self).categories@[d].instances@
                &&& (final(self).pre_linked(a, b) <==> old(self).count_pre_pairs(
                    ai,
                    bi,
                    forward_edge_distance as nat,
                    forward_word_distance as nat,
                ) >= needed)
                &&& (final(self).post_linked(a, b) <==> old(self).count_post_pairs(
                    ai,
                    bi,
                    backward_edge_distance as nat,
                    backward_word_distance as nat,
                ) >= needed)
                &&& forall|x: usize, y: usize|
                    #![trigger final(self).pre_linked(x, y)]
                    x < old(self).categories@.len() && y < old(self).categories@.len() && !(x == a
                        && y == b) && !(x == b && y == a) ==> final(self).pre_linked(x, y) == old(
                        self,
                    ).pre_linked(x, y)
                &&& forall|x: usize, y: usize|
                    #![trigger final(self).post_linked(x, y)]
                    x < old(self).categories@.len() && y < old(self).categories@.len() && !(x == a
                        && y == b) && !(x == b && y == a) ==> final(self).post_linked(x, y) == old(
                        self,
                    ).post_linked(x, y)
            }),
    {
        if a == b {
            return ;
        }
        proof {
            assert(self.category_wf(a as int));
            assert(self.category_wf(b as int));
        }
        let a_ins = copy_ids(&self.categories[a].instances);
        let b_ins = copy_ids(&self.categories[b].instances);
        let an = a_ins.len();
        let bn = b_ins.len();
        let mut pre_c: u128 = 0;
        let mut post_c: u128 = 0;
        let ghost fe = forward_edge_distance as nat;
        let ghost fw = forward_word_distance as nat;
        let ghost be = backward_edge_distance as nat;
        let ghost bw = backward_word_distance as nat;
        let mut i: usize = 0;
        while i < an
            invariant
                self.wf(),
                *self == *old(self),
                a < self.categories@.len(),
                b < self.categories@.len(),
                a != b,
                an == a_ins@.len(),
                bn == b_ins@.len(),
                a_ins@ == self.categories@[a as int].instances@,
                b_ins@ == self.categories@[b as int].instances@,
                fe == forward_edge_distance as nat,
                fw == forward_word_distance as nat,
                be == backward_edge_distance as nat,
                bw == backward_word_distance as nat,
                i <= an,
                pre_c == self.count_pre_pairs(a_ins@.take(i as int), b_ins@, fe, fw),
                post_c == self.count_post_pairs(a_ins@.take(i as int), b_ins@, be, bw),
            decreases an - i,
        {
            let x = a_ins[i];
            proof {
                assert(self.category_wf(a as int));
                assert(self.categories@[a as int].instances@[i as int] == x);
            }
            let mut j: usize = 0;
            while j < bn
                invariant
                    self.wf(),
                    *self == *old(self),
                    a < self.categories@.len(),
                    b < self.categories@.len(),
                    a != b,
                    an == a_ins@.len(),
                    bn == b_ins@.len(),
                    a_ins@ == self.categories@[a as int].instances@,
                    b_ins@ == self.categories@[b as int].instances@,
                    fe == forward_edge_distance as nat,
                    fw == forward_word_distance as nat,
                    be == backward_edge_distance as nat,
                    bw == backward_word_distance as nat,
                    i < an,
                    j <= bn,
                    x == a_ins@[i as int],
                    x < self.instances@.len(),
                    pre_c == self.count_pre_pairs(a_ins@.take(i as int), b_ins@, fe, fw)
                        + self.count_pre_row(x, b_ins@.take(j as int), fe, fw),
                    post_c == self.count_post_pairs(a_ins@.take(i as int), b_ins@, be, bw)
                        + self.count_post_row(x, b_ins@.take(j as int), be, bw),
                decreases bn - j,
            {
                let y = b_ins[j];
                proof {
                    assert(self.category_wf(b as int));
                    assert(self.categories@[b as int].instances@[j as int] == y);
                    self.lemma_count_pairs_bounds(a_ins@.take(i as int), b_ins@, fe, fw);
                    self.lemma_count_pairs_bounds(a_ins@.take(i as int), b_ins@, be, bw);
                    self.lemma_count_row_bounds(x, b_ins@.take(j as int), fe, fw);
                    self.lemma_count_row_bounds(x, b_ins@.take(j as int), be, bw);
                    assert(i * bn + j + 1 <= an * bn) by (nonlinear_arith)
                        requires
                            0 <= i < an,
                            0 <= j < bn,
                    ;
                    assert(an * bn < u128::MAX) by (nonlinear_arith)
                        requires
                            0 <= an <= usize::MAX,
                            0 <= bn <= usize::MAX,
                    ;
                    assert(pre_c <= i * bn + j);
                    assert(post_c <= i * bn + j);
                }
                if self.precoincidence_neighbors(x, y, forward_edge_distance, forward_word_distance)
                 {
                    pre_c = pre_c + 1;
                }
                if self.postcoincidence_neighbors(
                    x,
                    y,
                    backward_edge_distance,
                    backward_word_distance,
                ) {
                    post_c = post_c + 1;
                }
                proof {
                    let tj = b_ins@.take((j + 1) as int);
                    assert(tj =~= b_ins@.take(j as int).push(b_ins@[j as int]));
                    assert(tj.drop_last() =~= b_ins@.take(j as int));
                    assert(tj.last() == y);
                }
                j += 1;
            }
            proof {
                assert(b_ins@.take(bn as int) =~= b_ins@);
                let ti = a_ins@.take((i + 1) as int);
                assert(ti.drop_last() =~= a_ins@.take(i as int));
                assert(ti.last() == x);
            }
            i += 1;
        }
        proof {
            assert(a_ins@.take(an as int) =~= a_ins@);
        }
        proof {
            assert(an * bn < u128::MAX) by (nonlinear_arith)
                requires
                    0 <= an <= usize::MAX,
                    0 <= bn <= usize::MAX,
            ;
            assert(an * bn * ratio.num + ratio.den / 2 < u128::MAX);
        }
        let total: u128 = (an as u128) * (bn as u128);
        proof {
            assert(an * bn * ratio.num <= an * bn * ratio.num + ratio.den / 2);
            assert(total == an * bn);
            assert(total * ratio.num < u128::MAX);
            let x: int = total * ratio.num + ratio.den / 2;
            let dd: int = ratio.den as int;
            assert(x / dd <= x) by (nonlinear_arith)
                requires
                    dd >= 1,
                    x >= 0,
            ;
        }
        let needed: u128 = (total * (ratio.num as u128) + (ratio.den as u128) / 2) / (
        ratio.den as u128) + 1;
        proof {
            let x: int = total * ratio.num + ratio.den / 2;
            let dd: int = ratio.den as int;
            assert(x / dd <= x) by (nonlinear_arith)
                requires
                    dd >= 1,
                    x >= 0,
            ;
            assert(needed == Lexicon::needed_coincidences((an * bn) as int, ratio));
        }
        let pre_hit = pre_c >= needed;
        let post_hit = post_c >= needed;
        if pre_hit {
            self.link_pre(a, b);
        } else {
            self.unlink_pre(a, b);
        }
        let ghost mid: Lexicon = *self;
        if post_hit {
            self.link_post(a, b);
        } else {
            self.unlink_post(a, b);
        }
        proof {
            let ao = *old(self);
            let len = ao.categories@.len() as int;
            assert forall|d: int| 0 <= d < len implies self.categories@[d].instances@
                == ao.categories@[d].instances@ by {
                assert(mid.categories@[d].instances@ == ao.categories@[d].instances@);
                assert(self.categories@[d].instances@ == mid.categories@[d].instances@);
            }
            assert(self.categories@[a as int].precocategories@ == mid.categories@[
                a as int].precocategories@);
            assert(self.pre_linked(a, b) == mid.pre_linked(a, b));
            assert forall|x: usize, y: usize|
                x < ao.categories@.len() && y < ao.categories@.len() && !(x == a && y == b) && !(x
                == b && y == a) implies self.pre_linked(x, y) == ao.pre_linked(x, y) by {
                assert(self.categories@[x as int].precocategories@ == mid.categories@[
                    x as int].precocategories@);
                assert(self.pre_linked(x, y) == mid.pre_linked(x, y));
                assert(mid.pre_linked(x, y) == ao.pre_linked(x, y));
            }
            assert forall|x: usize, y: usize|
                x < ao.categories@.len() && y < ao.categories@.len() && !(x == a && y == b) && !(x
                == b && y == a) implies self.post_linked(x, y) == ao.post_linked(x, y) by {
                assert(mid.categories@[x as int].postcocategories@ == ao.categories@[
                    x as int].postcocategories@);
                assert(mid.post_linked(x, y) == ao.post_linked(x, y));
                assert(self.post_linked(x, y) == mid.post_linked(x, y));
            }
        }
    }
}


impl Category {
    /// Whether `a` and `b` are precocategories of `lex`: identity counts,
    /// otherwise the stored relation decides.
    pub fn are_precocategories(lex: &Lexicon, a: usize, b: usize) -> (r: bool)
        requires
            lex.wf(),
            a < lex.categories@.len(),
            b < lex.categories@.len(),
        ensures
            r == lex.spec_are_precocategories(a, b),
    {
        lex.are_precocategories(a, b)
    }

    /// Whether `a` and `b` are postcocategories of `lex`.
    pub fn are_postcocategories(lex: &Lexicon, a: usize, b: usize) -> (r: bool)
        requires
            lex.wf(),
            a < lex.categories@.len(),
            b < lex.categories@.len(),
        ensures
            r == lex.spec_are_postcocategories(a, b),
    {
        lex.are_postcocategories(a, b)
    }

    /// Merge the categories `a` and `b` of `lex` into a fresh category; see
    /// `Lexicon::merge` for the full account.
    pub fn merge(lex: &mut Lexicon, a: usize, b: usize) -> (c: usize)
        requires
            old(lex).wf(),
            a < old(lex).categories@.len(),
            b < old(lex).categories@.len(),
        ensures
            final(lex).wf(),
            c < final(lex).categories@.len(),
            a == b ==> *final(lex) == *old(lex) && c == a,
            a != b ==> final(lex).same_store_except_categories(*old(lex))
                && final(lex).merge_cats_shape(*old(lex), a, b, c),
    {
        lex.merge(a, b)
    }

    /// Re-evaluate the cocategory links between `a` and `b` of `lex`; see
    /// `Lexicon::cocategorize` for the full account.
    pub fn cocategorize(
        lex: &mut Lexicon,
        a: usize,
        b: usize,
        ratio: Ratio,
        forward_edge_distance: usize,
        backward_edge_distance: usize,
        forward_word_distance: usize,
        backward_word_distance: usize,
    )
        requires
            old(lex).wf(),
            a < old(lex).categories@.len(),
            b < old(lex).categories@.len(),
            ratio.den >= 1,
            old(lex).categories@[a as int].instances@.len() * old(
                lex,
            ).categories@[b as int].instances@.len() * ratio.num + ratio.den / 2 < u128::MAX,
        ensures
            final(lex).wf(),
            a == b ==> *final(lex) == *old(lex),
            a != b ==> final(lex).categories@.len() == old(lex).categories@.len() && (forall|
                d: int,
            |
                #![trigger final(lex).categories@[d].instances@]
                0 <= d < old(lex).categories@.len() ==> final(lex).categories@[d].instances@ == old(
                    lex,
                ).categories@[d].instances@) && (forall|x: usize, y: usize|
                #![trigger final(lex).pre_linked(x, y)]
                x < old(lex).categories@.len() && y < old(lex).categories@.len() && !(x == a && y
                    == b) && !(x == b && y == a) ==> final(lex).pre_linked(x, y) == old(
                    lex,
                ).pre_linked(x, y)) && (forall|x: usize, y: usize|
                #![trigger final(lex).post_linked(x, y)]
                x < old(lex).categories@.len() && y < old(lex).categories@.len() && !(x == a && y
                    == b) && !(x == b && y == a) ==> final(lex).post_linked(x, y) == old(
                    lex,
                ).post_linked(x, y)),
            a != b ==> final(lex).same_except_categories(*old(lex)) && final(lex).instances@ == old(
                lex,
            ).instances@ && (final(lex).pre_linked(a, b) <==> old(lex).count_pre_pairs(
                old(lex).categories@[a as int].instances@,
                old(lex).categories@[b as int].instances@,
                forward_edge_distance as nat,
                forward_word_distance as nat,
            ) >= Lexicon::needed_coincidences(
                (old(lex).categories@[a as int].instances@.len() * old(
                    lex,
                ).categories@[b as int].instances@.len()) as int,
                ratio,
            )) && (final(lex).post_linked(a, b) <==> old(lex).count_post_pairs(
                old(lex).categories@[a as int].instances@,
                old(lex).categories@[b as int].instances@,
                backward_edge_distance as nat,
                backward_word_distance as nat,
            ) >= Lexicon::needed_coincidences(
                (old(lex).categories@[a as int].instances@.len() * old(
                    lex,
                ).categories@[b as int].instances@.len()) as int,
                ratio,
            )),
    {
        lex.cocategorize(
            a,
            b,
            ratio,
            forward_edge_distance,
            backward_edge_distance,
            forward_word_distance,
            backward_word_distance,
        )
    }
}


} // verus!
