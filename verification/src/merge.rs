//! Merging two categories into a fresh one.
//!
//! A merge retires both inputs: the new category inherits every member
//! instance and the union of both adjacency sets (minus any edge between or
//! to the retired pair), every neighbor is rewired to the new category, and
//! every inherited instance is relabeled.

use crate::lexicon::Lexicon;
use crate::types::{Category, seq_distinct};
use crate::category::{copy_ids, vec_contains};
use vstd::prelude::*;

verus! {

impl Lexicon {
    /// The final shape of the category arena after merging `a` and `b` of
    /// `orig` into the fresh `c`: membership is inherited by concatenation,
    /// both inputs are emptied, and every adjacency list is rewritten so
    /// that edges to `a` or `b` become edges to `c`.
    pub open spec fn merge_cats_shape(self, orig: Lexicon, a: usize, b: usize, c: usize) -> bool {
        let oa = orig.categories@[a as int];
        let ob = orig.categories@[b as int];
        let nc = self.categories@[c as int];
        &&& self.categories@.len() == orig.categories@.len() + 1
        &&& c == orig.categories@.len()
        &&& nc.instances@ == oa.instances@ + ob.instances@
        &&& seq_distinct(nc.precocategories@)
        &&& seq_distinct(nc.postcocategories@)
        &&& forall|t: int|
            0 <= t < nc.precocategories@.len() ==> #[trigger] nc.precocategories@[t] < c
                && nc.precocategories@[t] != a && nc.precocategories@[t] != b
        &&& forall|t: int|
            0 <= t < nc.postcocategories@.len() ==> #[trigger] nc.postcocategories@[t] < c
                && nc.postcocategories@[t] != a && nc.postcocategories@[t] != b
        &&& forall|y: usize|
            #[trigger] nc.precocategories@.contains(y) == ((oa.precocategories@.contains(y)
                || ob.precocategories@.contains(y)) && y != a && y != b)
        &&& forall|y: usize|
            #[trigger] nc.postcocategories@.contains(y) == ((oa.postcocategories@.contains(y)
                || ob.postcocategories@.contains(y)) && y != a && y != b)
        &&& self.categories@[a as int].instances@.len() == 0
        &&& self.categories@[a as int].precocategories@.len() == 0
        &&& self.categories@[a as int].postcocategories@.len() == 0
        &&& self.categories@[b as int].instances@.len() == 0
        &&& self.categories@[b as int].precocategories@.len() == 0
        &&& self.categories@[b as int].postcocategories@.len() == 0
        &&& forall|d: int|
            #![trigger self.categories@[d]]
            0 <= d < orig.categories@.len() && d != a && d != b ==> {
                let od = orig.categories@[d];
                let nd = self.categories@[d];
                &&& nd.instances@ == od.instances@
                &&& seq_distinct(nd.precocategories@)
                &&& seq_distinct(nd.postcocategories@)
                &&& forall|y: usize|
                    #[trigger] nd.precocategories@.contains(y) == (if y == c {
                        od.precocategories@.contains(a) || od.precocategories@.contains(b)
                    } else {
                        od.precocategories@.contains(y) && y != a && y != b
                    })
                &&& forall|y: usize|
                    #[trigger] nd.postcocategories@.contains(y) == (if y == c {
                        od.postcocategories@.contains(a) || od.postcocategories@.contains(b)
                    } else {
                        od.postcocategories@.contains(y) && y != a && y != b
                    })
            }
    }

    /// Merge the categories `a` and `b` into a fresh category, returning its
    /// index.  Merging a category with itself is a no-op that returns it
    /// unchanged.  Otherwise the fresh category takes over every member of
    /// both inputs — their concatenation, so no instance is lost or
    /// duplicated — and the rewired union of their adjacency; `a` and `b`
    /// are left empty and unreferenced.
    pub fn merge(&mut self, a: usize, b: usize) -> (c: usize)
        requires
            old(self).wf(),
            a < old(self).categories@.len(),
            b < old(self).categories@.len(),
        ensures
            final(self).wf(),
            c < final(self).categories@.len(),
            a == b ==> *final(self) == *old(self) && c == a,
            a != b ==> ({
                &&& final(self).same_except_categories(*old(self))
                &&& final(self).merge_cats_shape(*old(self), a, b, c)
                &&& final(self).instances@.len() == old(self).instances@.len()
                &&& forall|k: int|
                    #![trigger final(self).instances@[k]]
                    0 <= k < old(self).instances@.len() ==> {
                        let oi = old(self).instances@[k];
                        let ni = final(self).instances@[k];
                        &&& ni.word == oi.word
                        &&& ni.message == oi.message
                        &&& ni.index == oi.index
                        &&& ni.category == (if oi.category == a || oi.category == b {
                            c
                        } else {
                            oi.category
                        })
                    }
            }),
    {
        if a == b {
            return a;
        }
        let c = self.categories.len();
        proof {
            assert(self.category_wf(a as int));
            assert(self.category_wf(b as int));
        }
        let a_pre = copy_ids(&self.categories[a].precocategories);
        let b_pre = copy_ids(&self.categories[b].precocategories);
        let a_post = copy_ids(&self.categories[a].postcocategories);
        let b_post = copy_ids(&self.categories[b].postcocategories);
        let u_pre = union_without(&a_pre, &b_pre, a, b);
        let u_post = union_without(&a_post, &b_post, a, b);
        proof {
            assert forall|t: int| 0 <= t < u_pre@.len() implies #[trigger] u_pre@[t] < c
                && u_pre@[t] != a && u_pre@[t] != b by {
                let y = u_pre@[t];
                assert(u_pre@.contains(y));
                if a_pre@.contains(y) {
                    let j = choose|j: int| 0 <= j < a_pre@.len() && a_pre@[j] == y;
                } else {
                    let j = choose|j: int| 0 <= j < b_pre@.len() && b_pre@[j] == y;
                }
            }
            assert forall|t: int| 0 <= t < u_post@.len() implies #[trigger] u_post@[t] < c
                && u_post@[t] != a && u_post@[t] != b by {
                let y = u_post@[t];
                assert(u_post@.contains(y));
                if a_post@.contains(y) {
                    let j = choose|j: int| 0 <= j < a_post@.len() && a_post@[j] == y;
                } else {
                    let j = choose|j: int| 0 <= j < b_post@.len() && b_post@[j] == y;
                }
            }
        }
        let mut c_ins = copy_ids(&self.categories[a].instances);
        let mut b_ins = copy_ids(&self.categories[b].instances);
        c_ins.append(&mut b_ins);
        let ghost upre = u_pre@;
        let ghost upost = u_post@;
        let ghost cins = c_ins@;
        let ghost oa_ins = old(self).categories@[a as int].instances@;
        let ghost ob_ins = old(self).categories@[b as int].instances@;
        let ghost oa_pre = old(self).categories@[a as int].precocategories@;
        let ghost ob_pre = old(self).categories@[b as int].precocategories@;
        let ghost oa_post = old(self).categories@[a as int].postcocategories@;
        let ghost ob_post = old(self).categories@[b as int].postcocategories@;
        proof {
            assert(cins == oa_ins + ob_ins);
            assert forall|i1: int, i2: int| 0 <= i1 < i2 < cins.len() implies cins[i1]
                != cins[i2] by {
                if i1 < oa_ins.len() && i2 >= oa_ins.len() {
                    let x1 = cins[i1];
                    let x2 = cins[i2];
                    assert(oa_ins[i1] == x1);
                    assert(ob_ins[i2 - oa_ins.len()] == x2);
                    assert(old(self).instances@[x1 as int].category == a);
                    assert(old(self).instances@[x2 as int].category == b);
                }
            }
        }
        self.categories.push(
            Category { instances: c_ins, precocategories: u_pre, postcocategories: u_post },
        );
        let un_pre = self.categories[c].precocategories.len();
        let mut i: usize = 0;
        while i < un_pre
            invariant
                old(self).wf(),
                a < c,
                b < c,
                a != b,
                c == old(self).categories@.len(),
                self.categories@.len() == old(self).categories@.len() + 1,
                self.same_except_categories(*old(self)),
                self.instances@ == old(self).instances@,
                self.categories@[c as int].instances@ == cins,
                self.categories@[c as int].precocategories@ == upre,
                self.categories@[c as int].postcocategories@ == upost,
                self.categories@[a as int] == old(self).categories@[a as int],
                self.categories@[b as int] == old(self).categories@[b as int],
                un_pre == upre.len(),
                i <= un_pre,
                seq_distinct(upre),
                forall|t: int|
                    0 <= t < upre.len() ==> #[trigger] upre[t] < c && upre[t] != a && upre[t] != b,
                forall|y: usize|
                    #[trigger] upre.contains(y) == ((oa_pre.contains(y) || ob_pre.contains(y)) && y
                        != a && y != b),
                oa_pre == old(self).categories@[a as int].precocategories@,
                ob_pre == old(self).categories@[b as int].precocategories@,
                forall|j: int, y: usize|
                    #![trigger self.categories@[upre[j] as int].precocategories@.contains(y)]
                    0 <= j < i ==> self.categories@[upre[j] as int].precocategories@.contains(y)
                        == ((old(self).categories@[upre[j] as int].precocategories@.contains(y)
                        && y != a && y != b) || y == c),
                forall|j: int|
                    0 <= j < i ==> seq_distinct(
                        #[trigger] self.categories@[upre[j] as int].precocategories@,
                    ),
                forall|j: int|
                    0 <= j < i ==> #[trigger] self.categories@[upre[j] as int].instances@ == old(
                        self,
                    ).categories@[upre[j] as int].instances@ && self.categories@[upre[j] as int].postcocategories@
                        == old(self).categories@[upre[j] as int].postcocategories@,
                forall|d: int|
                    #![trigger self.categories@[d]]
                    0 <= d < c && d != a && d != b && !upre.take(i as int).contains(d as usize)
                        ==> self.categories@[d] == old(self).categories@[d],
            decreases un_pre - i,
        {
            let n = self.categories[c].precocategories[i];
            proof {
                assert(n == upre[i as int]);
                assert(!upre.take(i as int).contains(n)) by {
                    if upre.take(i as int).contains(n) {
                        let t = choose|t: int| 0 <= t < i && upre.take(i as int)[t] == n;
                        assert(upre[t] == upre[i as int]);
                        assert(false);
                    }
                }
                assert(self.categories@[n as int] == old(self).categories@[n as int]);
                assert(old(self).category_wf(n as int));
            }
            let ghost before = self.categories@[n as int].precocategories@;
            crate::category::remove_val(&mut self.categories[n].precocategories, a);
            crate::category::remove_val(&mut self.categories[n].precocategories, b);
            let ghost ar = self.categories@[n as int].precocategories@;
            proof {
                if ar.contains(c) {
                    assert(before.contains(c));
                    let t = choose|t: int| 0 <= t < before.len() && before[t] == c;
                    assert(false);
                }
            }
            self.categories[n].precocategories.push(c);
            proof {
                let nn = self.categories@[n as int].precocategories@;
                assert(nn == ar.push(c));
                assert(nn[nn.len() - 1] == c);
                assert(seq_distinct(nn)) by {
                    assert forall|i1: int, i2: int| 0 <= i1 < i2 < nn.len() implies nn[i1]
                        != nn[i2] by {
                        if i2 == nn.len() - 1 {
                            assert(nn[i1] == ar[i1]);
                            assert(ar.contains(ar[i1]));
                        }
                    }
                }
                assert forall|y: usize| #[trigger] nn.contains(y) == ((before.contains(y) && y != a
                    && y != b) || y == c) by {
                    if nn.contains(y) {
                        let t = choose|t: int| 0 <= t < nn.len() && nn[t] == y;
                        if t < nn.len() - 1 {
                            assert(ar[t] == y);
                            assert(ar.contains(y));
                        }
                    }
                    if (before.contains(y) && y != a && y != b) {
                        assert(ar.contains(y));
                        let t = choose|t: int| 0 <= t < ar.len() && ar[t] == y;
                        assert(nn[t] == y);
                    }
                    if y == c {
                        assert(nn.contains(y));
                    }
                }
                assert(upre.take((i + 1) as int) =~= upre.take(i as int).push(upre[i as int]));
                assert forall|d: int|
                    0 <= d < c && d != a && d != b && !upre.take((i + 1) as int).contains(
                        d as usize,
                    ) implies #[trigger] self.categories@[d] == old(self).categories@[d] by {
                    assert(upre.take((i + 1) as int)[i as int] == n);
                    assert(upre.take((i + 1) as int).contains(upre.take((i + 1) as int)[i as int]));
                    assert(!upre.take(i as int).contains(d as usize));
                    assert(d != n);
                }
            }
            i += 1;
        }
        proof {
            assert(upre.take(un_pre as int) =~= upre);
            assert forall|d: int|
                0 <= d < c && d != a && d != b implies #[trigger] self.categories@[d].postcocategories@
                == old(self).categories@[d].postcocategories@ && self.categories@[d].instances@
                == old(self).categories@[d].instances@ by {
                if upre.contains(d as usize) {
                    let j = choose|j: int| 0 <= j < upre.len() && upre[j] == d as usize;
                    assert(self.categories@[upre[j] as int].instances@ == old(
                        self,
                    ).categories@[upre[j] as int].instances@ && self.categories@[upre[j] as int].postcocategories@
                        == old(self).categories@[upre[j] as int].postcocategories@);
                } else {
                    assert(self.categories@[d] == old(self).categories@[d]);
                }
            }
            assert forall|d: int|
                0 <= d < c && d != a && d != b && !upre.contains(d as usize) implies #[trigger] self
                .categories@[d].precocategories@ == old(self).categories@[d].precocategories@ by {
                assert(self.categories@[d] == old(self).categories@[d]);
            }
        }
        let un_post = self.categories[c].postcocategories.len();
        let mut i2: usize = 0;
        while i2 < un_post
            invariant
                old(self).wf(),
                a < c,
                b < c,
                a != b,
                c == old(self).categories@.len(),
                self.categories@.len() == old(self).categories@.len() + 1,
                self.same_except_categories(*old(self)),
                self.instances@ == old(self).instances@,
                self.categories@[c as int].instances@ == cins,
                self.categories@[c as int].precocategories@ == upre,
                self.categories@[c as int].postcocategories@ == upost,
                self.categories@[a as int] == old(self).categories@[a as int],
                self.categories@[b as int] == old(self).categories@[b as int],
                un_post == upost.len(),
                i2 <= un_post,
                seq_distinct(upre),
                seq_distinct(upost),
                forall|t: int|
                    0 <= t < upre.len() ==> #[trigger] upre[t] < c && upre[t] != a && upre[t] != b,
                forall|t: int|
                    0 <= t < upost.len() ==> #[trigger] upost[t] < c && upost[t] != a && upost[t]
                        != b,
                forall|y: usize|
                    #[trigger] upre.contains(y) == ((oa_pre.contains(y) || ob_pre.contains(y)) && y
                        != a && y != b),
                forall|y: usize|
                    #[trigger] upost.contains(y) == ((oa_post.contains(y) || ob_post.contains(y))
                        && y != a && y != b),
                oa_pre == old(self).categories@[a as int].precocategories@,
                ob_pre == old(self).categories@[b as int].precocategories@,
                oa_post == old(self).categories@[a as int].postcocategories@,
                ob_post == old(self).categories@[b as int].postcocategories@,
                // the pre pass is complete
                forall|j: int, y: usize|
                    #![trigger self.categories@[upre[j] as int].precocategories@.contains(y)]
                    0 <= j < upre.len() ==> self.categories@[upre[j] as int].precocategories@
                        .contains(y) == ((old(
                        self,
                    ).categories@[upre[j] as int].precocategories@.contains(y) && y != a && y != b)
                        || y == c),
                forall|j: int|
                    0 <= j < upre.len() ==> seq_distinct(
                        #[trigger] self.categories@[upre[j] as int].precocategories@,
                    ),
                forall|d: int|
                    #![trigger self.categories@[d].precocategories@]
                    0 <= d < c && d != a && d != b && !upre.contains(d as usize)
                        ==> self.categories@[d].precocategories@ == old(
                        self,
                    ).categories@[d].precocategories@,
                forall|d: int|
                    #![trigger self.categories@[d].instances@]
                    0 <= d < c && d != a && d != b ==> self.categories@[d].instances@ == old(
                        self,
                    ).categories@[d].instances@,
                // the post pass so far
                forall|j: int, y: usize|
                    #![trigger self.categories@[upost[j] as int].postcocategories@.contains(y)]
                    0 <= j < i2 ==> self.categories@[upost[j] as int].postcocategories@.contains(y)
                        == ((old(self).categories@[upost[j] as int].postcocategories@.contains(y)
                        && y != a && y != b) || y == c),
                forall|j: int|
                    0 <= j < i2 ==> seq_distinct(
                        #[trigger] self.categories@[upost[j] as int].postcocategories@,
                    ),
                forall|d: int|
                    #![trigger self.categories@[d].postcocategories@]
                    0 <= d < c && d != a && d != b && !upost.take(i2 as int).contains(d as usize)
                        ==> self.categories@[d].postcocategories@ == old(
                        self,
                    ).categories@[d].postcocategories@,
            decreases un_post - i2,
        {
            let n = self.categories[c].postcocategories[i2];
            let ghost pre_iter = *self;
            proof {
                assert(n == upost[i2 as int]);
                assert(!upost.take(i2 as int).contains(n)) by {
                    if upost.take(i2 as int).contains(n) {
                        let t = choose|t: int| 0 <= t < i2 && upost.take(i2 as int)[t] == n;
                        assert(upost[t] == upost[i2 as int]);
                        assert(false);
                    }
                }
                assert(self.categories@[n as int].postcocategories@ == old(
                    self,
                ).categories@[n as int].postcocategories@);
                assert(old(self).category_wf(n as int));
            }
            let ghost before = self.categories@[n as int].postcocategories@;
            crate::category::remove_val(&mut self.categories[n].postcocategories, a);
            crate::category::remove_val(&mut self.categories[n].postcocategories, b);
            let ghost ar = self.categories@[n as int].postcocategories@;
            proof {
                if ar.contains(c) {
                    assert(before.contains(c));
                    let t = choose|t: int| 0 <= t < before.len() && before[t] == c;
                    assert(false);
                }
            }
            self.categories[n].postcocategories.push(c);
            proof {
                let nn = self.categories@[n as int].postcocategories@;
                assert(nn == ar.push(c));
                assert(nn[nn.len() - 1] == c);
                assert(seq_distinct(nn)) by {
                    assert forall|i1: int, i3: int| 0 <= i1 < i3 < nn.len() implies nn[i1]
                        != nn[i3] by {
                        if i3 == nn.len() - 1 {
                            assert(nn[i1] == ar[i1]);
                            assert(ar.contains(ar[i1]));
                        }
                    }
                }
                assert forall|y: usize| #[trigger] nn.contains(y) == ((before.contains(y) && y != a
                    && y != b) || y == c) by {
                    if nn.contains(y) {
                        let t = choose|t: int| 0 <= t < nn.len() && nn[t] == y;
                        if t < nn.len() - 1 {
                            assert(ar[t] == y);
                            assert(ar.contains(y));
                        }
                    }
                    if (before.contains(y) && y != a && y != b) {
                        assert(ar.contains(y));
                        let t = choose|t: int| 0 <= t < ar.len() && ar[t] == y;
                        assert(nn[t] == y);
                    }
                    if y == c {
                        assert(nn.contains(y));
                    }
                }
                assert(upost.take((i2 + 1) as int) =~= upost.take(i2 as int).push(
                    upost[i2 as int],
                ));
                assert forall|d: int|
                    0 <= d < c && d != a && d != b && !upost.take((i2 + 1) as int).contains(
                        d as usize,
                    ) implies #[trigger] self.categories@[d].postcocategories@ == old(
                    self,
                ).categories@[d].postcocategories@ by {
                    assert(upost.take((i2 + 1) as int)[i2 as int] == n);
                    assert(upost.take((i2 + 1) as int).contains(
                        upost.take((i2 + 1) as int)[i2 as int],
                    ));
                    assert(!upost.take(i2 as int).contains(d as usize));
                    assert(d != n);
                }
                assert forall|d: int| 0 <= d < c && d != a && d != b implies #[trigger] self
                    .categories@[d].instances@ == old(self).categories@[d].instances@ by {
                    assert(pre_iter.categories@[d].instances@ == old(
                        self,
                    ).categories@[d].instances@);
                    assert(self.categories@[d].instances@ == pre_iter.categories@[d].instances@);
                }
            }
            i2 += 1;
        }
        proof {
            assert(upost.take(un_post as int) =~= upost);
        }
        // retire the two inputs
        self.categories[a].instances.clear();
        self.categories[a].precocategories.clear();
        self.categories[a].postcocategories.clear();
        self.categories[b].instances.clear();
        self.categories[b].precocategories.clear();
        self.categories[b].postcocategories.clear();
        proof {
            assert(self.merge_cats_shape(*old(self), a, b, c)) by {
                assert forall|d: int|
                    0 <= d < old(self).categories@.len() && d != a && d != b implies {
                    let od = old(self).categories@[d];
                    let nd = #[trigger] self.categories@[d];
                    &&& nd.instances@ == od.instances@
                    &&& seq_distinct(nd.precocategories@)
                    &&& seq_distinct(nd.postcocategories@)
                    &&& forall|y: usize|
                        #[trigger] nd.precocategories@.contains(y) == (if y == c {
                            od.precocategories@.contains(a) || od.precocategories@.contains(b)
                        } else {
                            od.precocategories@.contains(y) && y != a && y != b
                        })
                    &&& forall|y: usize|
                        #[trigger] nd.postcocategories@.contains(y) == (if y == c {
                            od.postcocategories@.contains(a) || od.postcocategories@.contains(b)
                        } else {
                            od.postcocategories@.contains(y) && y != a && y != b
                        })
                } by {
                    let od = old(self).categories@[d];
                    let nd = self.categories@[d];
                    assert(old(self).category_wf(d));
                    if upre.contains(d as usize) {
                        let j = choose|j: int| 0 <= j < upre.len() && upre[j] == d as usize;
                        assert forall|y: usize| #[trigger] nd.precocategories@.contains(y) == (if y
                            == c {
                            od.precocategories@.contains(a) || od.precocategories@.contains(b)
                        } else {
                            od.precocategories@.contains(y) && y != a && y != b
                        }) by {
                            assert(self.categories@[upre[j] as int].precocategories@.contains(y)
                                == ((old(
                                self,
                            ).categories@[upre[j] as int].precocategories@.contains(y) && y != a
                                && y != b) || y == c));
                            if y == c {
                                assert(oa_pre.contains(d as usize) || ob_pre.contains(d as usize));
                                if oa_pre.contains(d as usize) {
                                    assert(old(self).category_wf(a as int));
                                    let t = choose|t: int|
                                        0 <= t < oa_pre.len() && oa_pre[t] == d as usize;
                                    assert(od.precocategories@.contains(a));
                                } else {
                                    assert(old(self).category_wf(b as int));
                                    let t = choose|t: int|
                                        0 <= t < ob_pre.len() && ob_pre[t] == d as usize;
                                    assert(od.precocategories@.contains(b));
                                }
                                assert(od.precocategories@.contains(c) == false) by {
                                    if od.precocategories@.contains(c) {
                                        let t = choose|t: int|
                                            0 <= t < od.precocategories@.len()
                                                && od.precocategories@[t] == c;
                                        assert(false);
                                    }
                                }
                            }
                        }
                        assert(seq_distinct(nd.precocategories@));
                    } else {
                        assert(nd.precocategories@ == od.precocategories@);
                        assert forall|y: usize| #[trigger] nd.precocategories@.contains(y) == (if y
                            == c {
                            od.precocategories@.contains(a) || od.precocategories@.contains(b)
                        } else {
                            od.precocategories@.contains(y) && y != a && y != b
                        }) by {
                            if od.precocategories@.contains(a) {
                                let t = choose|t: int|
                                    0 <= t < od.precocategories@.len() && od.precocategories@[t]
                                        == a;
                                assert(oa_pre.contains(d as usize));
                                assert(upre.contains(d as usize));
                                assert(false);
                            }
                            if od.precocategories@.contains(b) {
                                let t = choose|t: int|
                                    0 <= t < od.precocategories@.len() && od.precocategories@[t]
                                        == b;
                                assert(ob_pre.contains(d as usize));
                                assert(upre.contains(d as usize));
                                assert(false);
                            }
                            if od.precocategories@.contains(c) {
                                let t = choose|t: int|
                                    0 <= t < od.precocategories@.len() && od.precocategories@[t]
                                        == c;
                                assert(false);
                            }
                        }
                        assert(seq_distinct(nd.precocategories@));
                    }
                    if upost.contains(d as usize) {
                        let j = choose|j: int| 0 <= j < upost.len() && upost[j] == d as usize;
                        assert forall|y: usize| #[trigger] nd.postcocategories@.contains(y) == (if y
                            == c {
                            od.postcocategories@.contains(a) || od.postcocategories@.contains(b)
                        } else {
                            od.postcocategories@.contains(y) && y != a && y != b
                        }) by {
                            assert(self.categories@[upost[j] as int].postcocategories@.contains(y)
                                == ((old(
                                self,
                            ).categories@[upost[j] as int].postcocategories@.contains(y) && y != a
                                && y != b) || y == c));
                            if y == c {
                                assert(oa_post.contains(d as usize) || ob_post.contains(
                                    d as usize,
                                ));
                                if oa_post.contains(d as usize) {
                                    assert(old(self).category_wf(a as int));
                                    let t = choose|t: int|
                                        0 <= t < oa_post.len() && oa_post[t] == d as usize;
                                    assert(od.postcocategories@.contains(a));
                                } else {
                                    assert(old(self).category_wf(b as int));
                                    let t = choose|t: int|
                                        0 <= t < ob_post.len() && ob_post[t] == d as usize;
                                    assert(od.postcocategories@.contains(b));
                                }
                                assert(od.postcocategories@.contains(c) == false) by {
                                    if od.postcocategories@.contains(c) {
                                        let t = choose|t: int|
                                            0 <= t < od.postcocategories@.len()
                                                && od.postcocategories@[t] == c;
                                        assert(false);
                                    }
                                }
                            }
                        }
                        assert(seq_distinct(nd.postcocategories@));
                    } else {
                        assert(nd.postcocategories@ == od.postcocategories@);
                        assert forall|y: usize| #[trigger] nd.postcocategories@.contains(y) == (if y
                            == c {
                            od.postcocategories@.contains(a) || od.postcocategories@.contains(b)
                        } else {
                            od.postcocategories@.contains(y) && y != a && y != b
                        }) by {
                            if od.postcocategories@.contains(a) {
                                let t = choose|t: int|
                                    0 <= t < od.postcocategories@.len() && od.postcocategories@[t]
                                        == a;
                                assert(oa_post.contains(d as usize));
                                assert(upost.contains(d as usize));
                                assert(false);
                            }
                            if od.postcocategories@.contains(b) {
                                let t = choose|t: int|
                                    0 <= t < od.postcocategories@.len() && od.postcocategories@[t]
                                        == b;
                                assert(ob_post.contains(d as usize));
                                assert(upost.contains(d as usize));
                                assert(false);
                            }
                            if od.postcocategories@.contains(c) {
                                let t = choose|t: int|
                                    0 <= t < od.postcocategories@.len() && od.postcocategories@[t]
                                        == c;
                                assert(false);
                            }
                        }
                        assert(seq_distinct(nd.postcocategories@));
                    }
                }
            }
        }
        let ghost mid = *self;
        // relabel the inherited instances
        let cl = self.categories[c].instances.len();
        let mut k: usize = 0;
        while k < cl
            invariant
                old(self).wf(),
                a < c,
                b < c,
                a != b,
                c == old(self).categories@.len(),
                self.categories@ == mid.categories@,
                self.same_except_categories(*old(self)),
                mid.categories@[c as int].instances@ == cins,
                cl == cins.len(),
                k <= cl,
                c < mid.categories@.len(),
                seq_distinct(cins),
                cins == oa_ins + ob_ins,
                oa_ins == old(self).categories@[a as int].instances@,
                ob_ins == old(self).categories@[b as int].instances@,
                self.instances@.len() == old(self).instances@.len(),
                forall|t: int|
                    #![trigger self.instances@[t]]
                    0 <= t < old(self).instances@.len() ==> {
                        let oi = old(self).instances@[t];
                        let ni = self.instances@[t];
                        &&& ni.word == oi.word
                        &&& ni.message == oi.message
                        &&& ni.index == oi.index
                        &&& ni.category == (if cins.take(k as int).contains(t as usize) {
                            c
                        } else {
                            oi.category
                        })
                    },
            decreases cl - k,
        {
            let id = self.categories[c].instances[k];
            let n_inst = self.instances.len();
            proof {
                assert(self.instances@.len() == n_inst);
                assert(cins[k as int] == id);
                assert(id < self.instances@.len()) by {
                    if k < oa_ins.len() {
                        assert(old(self).category_wf(a as int));
                        assert(oa_ins[k as int] == id);
                    } else {
                        assert(old(self).category_wf(b as int));
                        assert(ob_ins[k - oa_ins.len()] == id);
                    }
                }
            }
            self.instances[id].category = c;
            proof {
                assert(cins.take((k + 1) as int) =~= cins.take(k as int).push(cins[k as int]));
                assert forall|t: int| 0 <= t < old(self).instances@.len() implies {
                    let oi = old(self).instances@[t];
                    let ni = #[trigger] self.instances@[t];
                    &&& ni.word == oi.word
                    &&& ni.message == oi.message
                    &&& ni.index == oi.index
                    &&& ni.category == (if cins.take((k + 1) as int).contains(t as usize) {
                        c
                    } else {
                        oi.category
                    })
                } by {
                    let tk = cins.take((k + 1) as int);
                    if tk.contains(t as usize) {
                        let u = choose|u: int|
                            0 <= u <= k && tk[u] == t as usize;
                        if u < k {
                            assert(cins.take(k as int)[u] == t as usize);
                            assert(cins.take(k as int).contains(t as usize));
                        } else {
                            assert(t as usize == id);
                        }
                    } else {
                        assert(!cins.take(k as int).contains(t as usize)) by {
                            if cins.take(k as int).contains(t as usize) {
                                let u = choose|u: int|
                                    0 <= u < k && cins.take(k as int)[u] == t as usize;
                                assert(tk[u] == t as usize);
                            }
                        }
                        assert(tk[k as int] == id);
                        assert(tk.contains(id));
                        assert(t != id as int);
                    }
                }
            }
            k += 1;
        }
        proof {
            assert(cins.take(cl as int) =~= cins);
            let fin = *self;
            assert forall|t: int| 0 <= t < old(self).instances@.len() implies {
                let oi = old(self).instances@[t];
                let ni = #[trigger] fin.instances@[t];
                ni.category == (if oi.category == a || oi.category == b {
                    c
                } else {
                    oi.category
                })
            } by {
                let oi = old(self).instances@[t];
                assert(old(self).inst_wf(t));
                if oi.category == a || oi.category == b {
                    assert(old(self).categories@[oi.category as int].instances@.contains(
                        t as usize,
                    ));
                    if oi.category == a {
                        let u = choose|u: int| 0 <= u < oa_ins.len() && oa_ins[u] == t as usize;
                        assert(cins[u] == t as usize);
                    } else {
                        let u = choose|u: int| 0 <= u < ob_ins.len() && ob_ins[u] == t as usize;
                        assert(cins[oa_ins.len() + u] == t as usize);
                    }
                    assert(cins.contains(t as usize));
                } else {
                    if cins.contains(t as usize) {
                        let u = choose|u: int| 0 <= u < cins.len() && cins[u] == t as usize;
                        if u < oa_ins.len() {
                            assert(old(self).categories@[a as int].instances@[u] == t as usize);
                            assert(old(self).category_wf(a as int));
                            assert(old(self).instances@[t].category == a);
                        } else {
                            assert(old(self).categories@[b as int].instances@[u - oa_ins.len()]
                                == t as usize);
                            assert(old(self).category_wf(b as int));
                            assert(old(self).instances@[t].category == b);
                        }
                        assert(false);
                    }
                }
            }
            // now establish well-formedness of the final state
            assert forall|m: int| 0 <= m < self.messages@.len() implies #[trigger] self.message_wf(
                m,
            ) by {
                assert(old(self).message_wf(m));
            }
            assert forall|w: int| 0 <= w < self.words@.len() implies #[trigger] self.word_wf(
                w,
            ) by {
                assert(old(self).word_wf(w));
            }
            assert forall|cc: int| 0 <= cc < self.conversations@.len() implies #[trigger] self
                .conversation_wf(cc) by {
                assert(old(self).conversation_wf(cc));
            }
            assert forall|t: int| 0 <= t < self.sources@.len() implies #[trigger] self.source_wf(
                t,
            ) by {
                assert(old(self).source_wf(t));
            }
            assert forall|t: int| 0 <= t < self.authors@.len() implies #[trigger] self.author_wf(
                t,
            ) by {
                assert(old(self).author_wf(t));
            }
            assert forall|t: int| 0 <= t < self.instances@.len() implies #[trigger] self.inst_wf(
                t,
            ) by {
                assert(old(self).inst_wf(t));
                let oi = old(self).instances@[t];
                let ni = self.instances@[t];
                if oi.category == a || oi.category == b {
                    assert(ni.category == c);
                    assert(cins.contains(t as usize));
                } else {
                    assert(ni.category == oi.category);
                    assert(self.categories@[ni.category as int].instances@ == old(
                        self,
                    ).categories@[ni.category as int].instances@);
                }
            }
            assert forall|d: int| 0 <= d < self.categories@.len() implies #[trigger] self
                .category_wf(d) by {
                let nd = self.categories@[d];
                if d == c {
                    assert forall|j: int| 0 <= j < nd.instances@.len() implies {
                        let id = #[trigger] nd.instances@[j];
                        &&& id < self.instances@.len()
                        &&& self.instances@[id as int].category == d
                    } by {
                        let id = nd.instances@[j];
                        if j < oa_ins.len() {
                            assert(old(self).category_wf(a as int));
                            assert(oa_ins[j] == id);
                            assert(old(self).instances@[id as int].category == a);
                        } else {
                            assert(old(self).category_wf(b as int));
                            assert(ob_ins[j - oa_ins.len()] == id);
                            assert(old(self).instances@[id as int].category == b);
                        }
                    }
                    assert forall|j: int| 0 <= j < nd.precocategories@.len() implies {
                        let e = #[trigger] nd.precocategories@[j];
                        &&& e < self.categories@.len()
                        &&& e != d
                        &&& self.categories@[e as int].precocategories@.contains(d as usize)
                    } by {
                        let e = nd.precocategories@[j];
                        assert(nd.precocategories@.contains(e));
                        assert(e < c && e != a && e != b);
                        assert(self.categories@[e as int].precocategories@.contains(c as usize)
                            == (old(self).categories@[e as int].precocategories@.contains(a)
                            || old(self).categories@[e as int].precocategories@.contains(b)));
                        if oa_pre.contains(e) {
                            assert(old(self).category_wf(a as int));
                            let u = choose|u: int| 0 <= u < oa_pre.len() && oa_pre[u] == e;
                            assert(old(self).categories@[e as int].precocategories@.contains(a));
                        } else {
                            assert(ob_pre.contains(e));
                            assert(old(self).category_wf(b as int));
                            let u = choose|u: int| 0 <= u < ob_pre.len() && ob_pre[u] == e;
                            assert(old(self).categories@[e as int].precocategories@.contains(b));
                        }
                    }
                    assert forall|j: int| 0 <= j < nd.postcocategories@.len() implies {
                        let e = #[trigger] nd.postcocategories@[j];
                        &&& e < self.categories@.len()
                        &&& e != d
                        &&& self.categories@[e as int].postcocategories@.contains(d as usize)
                    } by {
                        let e = nd.postcocategories@[j];
                        assert(nd.postcocategories@.contains(e));
                        assert(e < c && e != a && e != b);
                        assert(self.categories@[e as int].postcocategories@.contains(c as usize)
                            == (old(self).categories@[e as int].postcocategories@.contains(a)
                            || old(self).categories@[e as int].postcocategories@.contains(b)));
                        if oa_post.contains(e) {
                            assert(old(self).category_wf(a as int));
                            let u = choose|u: int| 0 <= u < oa_post.len() && oa_post[u] == e;
                            assert(old(self).categories@[e as int].postcocategories@.contains(a));
                        } else {
                            assert(ob_post.contains(e));
                            assert(old(self).category_wf(b as int));
                            let u = choose|u: int| 0 <= u < ob_post.len() && ob_post[u] == e;
                            assert(old(self).categories@[e as int].postcocategories@.contains(b));
                        }
                    }
                } else if d == a || d == b {
                } else {
                    assert(old(self).category_wf(d));
                    let od = old(self).categories@[d];
                    assert(nd.instances@ == od.instances@);
                    assert forall|j: int| 0 <= j < nd.instances@.len() implies {
                        let id = #[trigger] nd.instances@[j];
                        &&& id < self.instances@.len()
                        &&& self.instances@[id as int].category == d
                    } by {
                        let id = nd.instances@[j];
                        assert(old(self).instances@[id as int].category == d);
                        assert(self.instances@[id as int].category == (if cins.contains(id) {
                            c as usize
                        } else {
                            old(self).instances@[id as int].category
                        })) by {
                            if old(self).instances@[id as int].category == a || old(
                                self,
                            ).instances@[id as int].category == b {
                            }
                        }
                        if cins.contains(id) {
                            let u = choose|u: int| 0 <= u < cins.len() && cins[u] == id;
                            if u < oa_ins.len() {
                                assert(old(self).category_wf(a as int));
                                assert(old(self).instances@[id as int].category == a);
                            } else {
                                assert(old(self).category_wf(b as int));
                                assert(ob_ins[u - oa_ins.len()] == id);
                                assert(old(self).instances@[id as int].category == b);
                            }
                            assert(false);
                        }
                    }
                    assert forall|j: int| 0 <= j < nd.precocategories@.len() implies {
                        let e = #[trigger] nd.precocategories@[j];
                        &&& e < self.categories@.len()
                        &&& e != d
                        &&& self.categories@[e as int].precocategories@.contains(d as usize)
                    } by {
                        let e = nd.precocategories@[j];
                        assert(nd.precocategories@.contains(e));
                        if e == c {
                            assert(od.precocategories@.contains(a) || od.precocategories@.contains(
                                b,
                            ));
                            if od.precocategories@.contains(a) {
                                let u = choose|u: int|
                                    0 <= u < od.precocategories@.len() && od.precocategories@[u]
                                        == a;
                                assert(oa_pre.contains(d as usize));
                            } else {
                                let u = choose|u: int|
                                    0 <= u < od.precocategories@.len() && od.precocategories@[u]
                                        == b;
                                assert(ob_pre.contains(d as usize));
                            }
                            assert(upre.contains(d as usize));
                            assert(self.categories@[c as int].precocategories@.contains(
                                d as usize,
                            ));
                        } else {
                            assert(od.precocategories@.contains(e) && e != a && e != b);
                            let u = choose|u: int|
                                0 <= u < od.precocategories@.len() && od.precocategories@[u] == e;
                            assert(old(self).categories@[e as int].precocategories@.contains(
                                d as usize,
                            ));
                            assert(self.categories@[e as int].precocategories@.contains(d as usize)
                                == (old(self).categories@[e as int].precocategories@.contains(
                                d as usize,
                            ) && d != a && d != b));
                        }
                    }
                    assert forall|j: int| 0 <= j < nd.postcocategories@.len() implies {
                        let e = #[trigger] nd.postcocategories@[j];
                        &&& e < self.categories@.len()
                        &&& e != d
                        &&& self.categories@[e as int].postcocategories@.contains(d as usize)
                    } by {
                        let e = nd.postcocategories@[j];
                        assert(nd.postcocategories@.contains(e));
                        if e == c {
                            assert(od.postcocategories@.contains(a)
                                || od.postcocategories@.contains(b));
                            if od.postcocategories@.contains(a) {
                                let u = choose|u: int|
                                    0 <= u < od.postcocategories@.len() && od.postcocategories@[u]
                                        == a;
                                assert(oa_post.contains(d as usize));
                            } else {
                                let u = choose|u: int|
                                    0 <= u < od.postcocategories@.len() && od.postcocategories@[u]
                                        == b;
                                assert(ob_post.contains(d as usize));
                            }
                            assert(upost.contains(d as usize));
                            assert(self.categories@[c as int].postcocategories@.contains(
                                d as usize,
                            ));
                        } else {
                            assert(od.postcocategories@.contains(e) && e != a && e != b);
                            let u = choose|u: int|
                                0 <= u < od.postcocategories@.len() && od.postcocategories@[u] == e;
                            assert(old(self).categories@[e as int].postcocategories@.contains(
                                d as usize,
                            ));
                            assert(self.categories@[e as int].postcocategories@.contains(d as usize)
                                == (old(self).categories@[e as int].postcocategories@.contains(
                                d as usize,
                            ) && d != a && d != b));
                        }
                    }
                }
            }
        }
        c
    }
}

/// The deduplicated union of `xs` and `ys` with the values `a` and `b` left
/// out.
fn union_without(xs: &Vec<usize>, ys: &Vec<usize>, a: usize, b: usize) -> (r: Vec<usize>)
    ensures
        seq_distinct(r@),
        forall|y: usize|
            #![trigger r@.contains(y)]
            #![trigger xs@.contains(y)]
            #![trigger ys@.contains(y)]
            r@.contains(y) == ((xs@.contains(y) || ys@.contains(y)) && y != a && y != b),
{
    let mut r: Vec<usize> = Vec::new();
    let xn = xs.len();
    let mut i: usize = 0;
    while i < xn
        invariant
            i <= xn,
            xn == xs@.len(),
            seq_distinct(r@),
            forall|y: usize|
                #![trigger r@.contains(y)]
                #![trigger xs@.take(i as int).contains(y)]
                r@.contains(y) == (xs@.take(i as int).contains(y) && y != a && y != b),
        decreases xn - i,
    {
        let e = xs[i];
        proof {
            assert(xs@.take((i + 1) as int) =~= xs@.take(i as int).push(xs@[i as int]));
        }
        if e != a && e != b && !vec_contains(&r, e) {
            proof {
                assert forall|i1: int, i2: int| 0 <= i1 < i2 < r@.push(e).len() implies r@.push(
                    e,
                )[i1] != r@.push(e)[i2] by {
                    if i2 == r@.len() {
                        assert(r@.contains(r@[i1]));
                    }
                }
            }
            let ghost rprev = r@;
            r.push(e);
            proof {
                assert(r@ == rprev.push(e));
                assert(r@[r@.len() - 1] == e);
                assert forall|y: usize| #[trigger] r@.contains(y) == (xs@.take(
                    (i + 1) as int,
                ).contains(y) && y != a && y != b) by {
                    let rp = rprev;
                    let tk = xs@.take((i + 1) as int);
                    if r@.contains(y) {
                        let t = choose|t: int| 0 <= t < r@.len() && r@[t] == y;
                        if t < r@.len() - 1 {
                            assert(rp[t] == y);
                            assert(rp.contains(y));
                            assert(xs@.take(i as int).contains(y));
                            let u = choose|u: int|
                                0 <= u < i && xs@.take(i as int)[u] == y;
                            assert(tk[u] == y);
                        } else {
                            assert(y == e);
                            assert(tk[i as int] == y);
                        }
                    }
                    if tk.contains(y) && y != a && y != b {
                        let u = choose|u: int|
                            0 <= u <= i && tk[u] == y;
                        if u < i {
                            assert(xs@.take(i as int)[u] == y);
                            assert(xs@.take(i as int).contains(y));
                            assert(rp.contains(y));
                            let t = choose|t: int| 0 <= t < rp.len() && rp[t] == y;
                            assert(r@[t] == y);
                        } else {
                            assert(y == e);
                        }
                    }
                }
            }
        } else {
            proof {
                assert forall|y: usize| #[trigger] r@.contains(y) == (xs@.take(
                    (i + 1) as int,
                ).contains(y) && y != a && y != b) by {
                    let tk = xs@.take((i + 1) as int);
                    if tk.contains(y) && y != a && y != b {
                        let u = choose|u: int|
                            0 <= u <= i && tk[u] == y;
                        if u < i {
                            assert(xs@.take(i as int)[u] == y);
                            assert(xs@.take(i as int).contains(y));
                        } else {
                            assert(y == e);
                            assert(r@.contains(e));
                        }
                    }
                    if r@.contains(y) {
                        assert(xs@.take(i as int).contains(y));
                        let u = choose|u: int| 0 <= u < i && xs@.take(i as int)[u] == y;
                        assert(tk[u] == y);
                    }
                }
            }
        }
        i += 1;
    }
    proof {
        assert(xs@.take(xn as int) =~= xs@);
    }
    let yn = ys.len();
    let mut j: usize = 0;
    while j < yn
        invariant
            j <= yn,
            yn == ys@.len(),
            seq_distinct(r@),
            forall|y: usize|
                #![trigger r@.contains(y)]
                #![trigger ys@.take(j as int).contains(y)]
                #![trigger xs@.contains(y)]
                r@.contains(y) == ((xs@.contains(y) || ys@.take(j as int).contains(y)) && y != a
                    && y != b),
        decreases yn - j,
    {
        let e = ys[j];
        proof {
            assert(ys@.take((j + 1) as int) =~= ys@.take(j as int).push(ys@[j as int]));
        }
        if e != a && e != b && !vec_contains(&r, e) {
            proof {
                assert forall|i1: int, i2: int| 0 <= i1 < i2 < r@.push(e).len() implies r@.push(
                    e,
                )[i1] != r@.push(e)[i2] by {
                    if i2 == r@.len() {
                        assert(r@.contains(r@[i1]));
                    }
                }
            }
            let ghost rprev = r@;
            r.push(e);
            proof {
                assert(r@ == rprev.push(e));
                assert(r@[r@.len() - 1] == e);
                assert forall|y: usize| #[trigger] r@.contains(y) == ((xs@.contains(y) || ys@.take(
                    (j + 1) as int,
                ).contains(y)) && y != a && y != b) by {
                    let rp = rprev;
                    let tk = ys@.take((j + 1) as int);
                    if r@.contains(y) {
                        let t = choose|t: int| 0 <= t < r@.len() && r@[t] == y;
                        if t < r@.len() - 1 {
                            assert(rp[t] == y);
                            assert(rp.contains(y));
                            if ys@.take(j as int).contains(y) {
                                let u = choose|u: int|
                                    0 <= u < j && ys@.take(j as int)[u] == y;
                                assert(tk[u] == y);
                            }
                        } else {
                            assert(y == e);
                            assert(tk[j as int] == y);
                        }
                    }
                    if (xs@.contains(y) || tk.contains(y)) && y != a && y
                        != b {
                        if xs@.contains(y) {
                            assert(rp.contains(y));
                            let t = choose|t: int| 0 <= t < rp.len() && rp[t] == y;
                            assert(r@[t] == y);
                        } else {
                            let u = choose|u: int|
                                0 <= u <= j && tk[u] == y;
                            if u < j {
                                assert(ys@.take(j as int)[u] == y);
                                assert(ys@.take(j as int).contains(y));
                                assert(rp.contains(y));
                                let t = choose|t: int| 0 <= t < rp.len() && rp[t] == y;
                                assert(r@[t] == y);
                            } else {
                                assert(y == e);
                            }
                        }
                    }
                }
            }
        } else {
            proof {
                assert forall|y: usize| #[trigger] r@.contains(y) == ((xs@.contains(y) || ys@.take(
                    (j + 1) as int,
                ).contains(y)) && y != a && y != b) by {
                    let tk = ys@.take((j + 1) as int);
                    if (xs@.contains(y) || tk.contains(y)) && y != a && y
                        != b {
                        if xs@.contains(y) {
                        } else {
                            let u = choose|u: int|
                                0 <= u <= j && tk[u] == y;
                            if u < j {
                                assert(ys@.take(j as int)[u] == y);
                                assert(ys@.take(j as int).contains(y));
                            } else {
                                assert(y == e);
                                assert(r@.contains(e));
                            }
                        }
                    }
                    if r@.contains(y) {
                        if ys@.take(j as int).contains(y) {
                            let u = choose|u: int| 0 <= u < j && ys@.take(j as int)[u] == y;
                            assert(tk[u] == y);
                        }
                    }
                }
            }
        }
        j += 1;
    }
    proof {
        assert(ys@.take(yn as int) =~= ys@);
    }
    r
}

} // verus!
