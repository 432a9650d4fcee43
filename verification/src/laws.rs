//! The global laws of the category graph, stated and proved once over the
//! well-formedness invariant that every operation maintains.

use crate::lexicon::Lexicon;
use crate::types::seq_distinct;
use vstd::prelude::*;

verus! {

/// The cocategory relations are symmetric: after any sequence of
/// operations, `x` lists `y` as a pre- (or post-) cocategory exactly when
/// `y` lists `x`.
pub proof fn lemma_cocategory_symmetry(lex: Lexicon, x: usize, y: usize)
    requires
        lex.wf(),
        x < lex.categories@.len(),
        y < lex.categories@.len(),
    ensures
        lex.pre_linked(x, y) <==> lex.pre_linked(y, x),
        lex.post_linked(x, y) <==> lex.post_linked(y, x),
        lex.spec_are_precocategories(x, y) <==> lex.spec_are_precocategories(y, x),
        lex.spec_are_postcocategories(x, y) <==> lex.spec_are_postcocategories(y, x),
{
    assert(lex.category_wf(x as int));
    assert(lex.category_wf(y as int));
    if lex.pre_linked(x, y) {
        let j = choose|j: int|
            0 <= j < lex.categories@[x as int].precocategories@.len()
                && lex.categories@[x as int].precocategories@[j] == y;
        assert(lex.categories@[y as int].precocategories@.contains(x));
    }
    if lex.pre_linked(y, x) {
        let j = choose|j: int|
            0 <= j < lex.categories@[y as int].precocategories@.len()
                && lex.categories@[y as int].precocategories@[j] == x;
        assert(lex.categories@[x as int].precocategories@.contains(y));
    }
    if lex.post_linked(x, y) {
        let j = choose|j: int|
            0 <= j < lex.categories@[x as int].postcocategories@.len()
                && lex.categories@[x as int].postcocategories@[j] == y;
        assert(lex.categories@[y as int].postcocategories@.contains(x));
    }
    if lex.post_linked(y, x) {
        let j = choose|j: int|
            0 <= j < lex.categories@[y as int].postcocategories@.len()
                && lex.categories@[y as int].postcocategories@[j] == x;
        assert(lex.categories@[x as int].postcocategories@.contains(y));
    }
}

/// Category membership partitions the instances: every word instance
/// belongs to its own category and to no other, at any observation point.
pub proof fn lemma_instance_partition(lex: Lexicon, i: usize)
    requires
        lex.wf(),
        i < lex.instances@.len(),
    ensures
        lex.categories@[lex.instances@[i as int].category as int].instances@.contains(i),
        forall|c: usize|
            c < lex.categories@.len() && c != lex.instances@[i as int].category
                ==> !(#[trigger] lex.categories@[c as int].instances@.contains(i)),
{
    assert(lex.inst_wf(i as int));
    assert forall|c: usize|
        c < lex.categories@.len() && c != lex.instances@[i as int].category implies !(
    #[trigger] lex.categories@[c as int].instances@.contains(i)) by {
        if lex.categories@[c as int].instances@.contains(i) {
            let j = choose|j: int|
                0 <= j < lex.categories@[c as int].instances@.len()
                    && lex.categories@[c as int].instances@[j] == i;
            assert(lex.category_wf(c as int));
            assert(lex.instances@[i as int].category == c);
        }
    }
}

/// A merged category's membership is exactly the union of its two inputs'
/// membership, with no instance lost or duplicated.
pub proof fn lemma_merge_membership(orig: Lexicon, merged: Lexicon, a: usize, b: usize, c: usize)
    requires
        orig.wf(),
        merged.wf(),
        a < orig.categories@.len(),
        b < orig.categories@.len(),
        a != b,
        merged.merge_cats_shape(orig, a, b, c),
    ensures
        forall|i: usize|
            #[trigger] merged.categories@[c as int].instances@.contains(i)
                <==> (orig.categories@[a as int].instances@.contains(i)
                || orig.categories@[b as int].instances@.contains(i)),
        seq_distinct(merged.categories@[c as int].instances@),
{
    let oa = orig.categories@[a as int].instances@;
    let ob = orig.categories@[b as int].instances@;
    let nc = merged.categories@[c as int].instances@;
    assert(merged.category_wf(c as int));
    assert(nc == oa + ob);
    assert forall|i: usize| #[trigger] nc.contains(i) <==> (oa.contains(i) || ob.contains(
        i,
    )) by {
        if nc.contains(i) {
            let j = choose|j: int| 0 <= j < nc.len() && nc[j] == i;
            if j < oa.len() {
                assert(oa[j] == i);
            } else {
                assert(ob[j - oa.len()] == i);
            }
        }
        if oa.contains(i) {
            let j = choose|j: int| 0 <= j < oa.len() && oa[j] == i;
            assert(nc[j] == i);
        }
        if ob.contains(i) {
            let j = choose|j: int| 0 <= j < ob.len() && ob[j] == i;
            assert(nc[oa.len() + j] == i);
        }
    }
}

/// Two instances that are both the last token of their messages are judged
/// a forward coincidence exactly when the edge-distance budget is used up.
pub proof fn lemma_boundary_coincidence(lex: Lexicon, i0: usize, i1: usize, edge: nat, word: nat)
    requires
        lex.wf(),
        i0 < lex.instances@.len(),
        i1 < lex.instances@.len(),
        lex.instances@[i0 as int].index + 1 == lex.messages@[lex.instances@[i0 as int].message
            as int].instances@.len(),
        lex.instances@[i1 as int].index + 1 == lex.messages@[lex.instances@[i1 as int].message
            as int].instances@.len(),
    ensures
        lex.spec_postcoincidence(i0 as int, i1 as int, edge, word) <==> edge == 0,
{
}

/// The mirror image of the boundary law: two instances that are both the
/// first token of their messages are judged a backward coincidence exactly
/// when the edge-distance budget is used up.
pub proof fn lemma_boundary_precoincidence(lex: Lexicon, i0: usize, i1: usize, edge: nat, word: nat)
    requires
        lex.wf(),
        i0 < lex.instances@.len(),
        i1 < lex.instances@.len(),
        lex.instances@[i0 as int].index == 0,
        lex.instances@[i1 as int].index == 0,
    ensures
        lex.spec_precoincidence(i0 as int, i1 as int, edge, word) <==> edge == 0,
{
}

} // verus!
