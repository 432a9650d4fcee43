//! The generator: a weighted random walk over the category graph that
//! produces a synthetic utterance, plus a drifted rendering of the same walk.
//!
//! The walk is seeded from the last message of the source's active
//! conversation when one exists (continuing context) or from a random
//! historical message (cold start).  It then extends forward and backward:
//! at each step the neighbor instance's category — together with its pre-
//! or postcocategories — offers its members for a weighted random choice.
//! A step budget keeps the walk finite whatever the random choices are.

use crate::lexicon::Lexicon;
use crate::message::joined;
use vstd::prelude::*;
use vstd::string::StringExecFns;

verus! {

/// The most instances a generated utterance may accumulate in either
/// direction of the walk.
pub const WALK_LIMIT: usize = 4096;

impl Lexicon {
    /// The literals of the instances `ids`, in order.
    pub open spec fn instance_words(self, ids: Seq<usize>) -> Seq<Seq<char>> {
        Seq::new(
            ids.len(),
            |t: int| self.words@[self.instances@[ids[t] as int].word as int].name@,
        )
    }

    /// Render the instances `ids` as their words joined by spaces.
    fn render_ids(&self, ids: &Vec<usize>) -> (r: String)
        requires
            self.wf(),
            forall|t: int| 0 <= t < ids@.len() ==> #[trigger] ids@[t] < self.instances@.len(),
        ensures
            r@ == joined(self.instance_words(ids@)),
    {
        let n = ids.len();
        let mut out = String::new();
        let mut j: usize = 0;
        while j < n
            invariant
                self.wf(),
                n == ids@.len(),
                forall|t: int| 0 <= t < ids@.len() ==> #[trigger] ids@[t] < self.instances@.len(),
                j <= n,
                out@ == joined(self.instance_words(ids@).take(j as int)),
            decreases n - j,
        {
            proof {
                assert(self.inst_wf(ids@[j as int] as int));
            }
            let id = ids[j];
            if j > 0 {
                out.append(" ");
                proof {
                    reveal_strlit(" ");
                }
            }
            out.append(self.words[self.instances[id].word].name.as_str());
            proof {
                let ws = self.instance_words(ids@);
                assert(ws[j as int] == self.words@[self.instances@[id as int].word as int].name@);
                assert(ws.take((j + 1) as int).drop_last() =~= ws.take(j as int));
                assert(ws.take((j + 1) as int).last() == ws[j as int]);
                if j == 0 {
                    assert(out@ =~= joined(ws.take((j + 1) as int)));
                } else {
                    assert(out@ =~= joined(ws.take(j as int)) + seq![' '] + ws[j as int]);
                    assert(out@ =~= joined(ws.take((j + 1) as int)));
                }
            }
            j += 1;
        }
        proof {
            assert(self.instance_words(ids@).take(n as int) =~= self.instance_words(ids@));
        }
        out
    }

    /// Pick a member instance at random from the category `c` or one of its
    /// precocategories, weighted by membership counts.
    fn choose_via_pre(&mut self, c: usize) -> (r: usize)
        requires
            old(self).wf(),
            c < old(self).categories@.len(),
            old(self).categories@[c as int].instances@.len() > 0,
        ensures
            final(self).wf(),
            final(self).same_graph(*old(self)),
            r < final(self).instances@.len(),
            exists|d: usize|
                (d == c || old(self).pre_linked(c, d)) && #[trigger] old(
                    self,
                ).categories@[d as int].instances@.contains(r),
    {
        proof {
            assert(self.category_wf(c as int));
        }
        let base_len = self.categories[c].instances.len();
        let pn = self.categories[c].precocategories.len();
        let mut count: usize = base_len;
        let mut overflow = false;
        let mut i: usize = 0;
        while i < pn
            invariant
                self.wf(),
                *self == *old(self),
                c < self.categories@.len(),
                pn == self.categories@[c as int].precocategories@.len(),
                i <= pn,
                count >= self.categories@[c as int].instances@.len(),
            decreases pn - i,
        {
            proof {
                assert(self.category_wf(c as int));
            }
            let nb = self.categories[c].precocategories[i];
            match count.checked_add(self.categories[nb].instances.len()) {
                Some(nc) => {
                    count = nc;
                },
                None => {
                    overflow = true;
                },
            }
            i += 1;
        }
        if overflow {
            let k = self.draw_below(base_len);
            proof {
                assert(self.categories@[c as int].instances@.contains(
                    self.categories@[c as int].instances@[k as int],
                ));
            }
            return self.categories[c].instances[k];
        }
        let k = self.draw_below(count);
        let ghost g0 = *old(self);
        if k < self.categories[c].instances.len() {
            proof {
                assert(self.category_wf(c as int));
                assert(self.categories@[c as int].instances@.contains(
                    self.categories@[c as int].instances@[k as int],
                ));
            }
            return self.categories[c].instances[k];
        }
        let mut rem: usize = k - base_len;
        let mut i2: usize = 0;
        while i2 < pn
            invariant
                self.wf(),
                self.same_graph(g0),
                g0 == *old(self),
                g0.wf(),
                c < self.categories@.len(),
                pn == self.categories@[c as int].precocategories@.len(),
                i2 <= pn,
            decreases pn - i2,
        {
            proof {
                assert(self.category_wf(c as int));
                assert(g0.categories@ == self.categories@);
            }
            let nb = self.categories[c].precocategories[i2];
            let l = self.categories[nb].instances.len();
            if rem < l {
                proof {
                    assert(self.categories@[c as int].precocategories@.contains(nb));
                    assert(g0.pre_linked(c, nb));
                    assert(self.categories@[nb as int].instances@.contains(
                        self.categories@[nb as int].instances@[rem as int],
                    ));
                    assert(self.category_wf(nb as int));
                }
                return self.categories[nb].instances[rem];
            }
            if l <= rem {
                rem = rem - l;
            }
            i2 += 1;
        }
        // the drawn index always lands in some member list; as a safeguard
        // the category's own first member answers otherwise
        proof {
            assert(self.category_wf(c as int));
            assert(self.categories@[c as int].instances@.contains(
                self.categories@[c as int].instances@[0],
            ));
        }
        self.categories[c].instances[0]
    }

    /// Pick a member instance at random from the category `c` or one of its
    /// postcocategories, weighted by membership counts.
    fn choose_via_post(&mut self, c: usize) -> (r: usize)
        requires
            old(self).wf(),
            c < old(self).categories@.len(),
            old(self).categories@[c as int].instances@.len() > 0,
        ensures
            final(self).wf(),
            final(self).same_graph(*old(self)),
            r < final(self).instances@.len(),
            exists|d: usize|
                (d == c || old(self).post_linked(c, d)) && #[trigger] old(
                    self,
                ).categories@[d as int].instances@.contains(r),
    {
        proof {
            assert(self.category_wf(c as int));
        }
        let base_len = self.categories[c].instances.len();
        let pn = self.categories[c].postcocategories.len();
        let mut count: usize = base_len;
        let mut overflow = false;
        let mut i: usize = 0;
        while i < pn
            invariant
                self.wf(),
                *self == *old(self),
                c < self.categories@.len(),
                pn == self.categories@[c as int].postcocategories@.len(),
                i <= pn,
                count >= self.categories@[c as int].instances@.len(),
            decreases pn - i,
        {
            proof {
                assert(self.category_wf(c as int));
            }
            let nb = self.categories[c].postcocategories[i];
            match count.checked_add(self.categories[nb].instances.len()) {
                Some(nc) => {
                    count = nc;
                },
                None => {
                    overflow = true;
                },
            }
            i += 1;
        }
        if overflow {
            let k = self.draw_below(base_len);
            proof {
                assert(self.categories@[c as int].instances@.contains(
                    self.categories@[c as int].instances@[k as int],
                ));
            }
            return self.categories[c].instances[k];
        }
        let k = self.draw_below(count);
        let ghost g0 = *old(self);
        if k < self.categories[c].instances.len() {
            proof {
                assert(self.category_wf(c as int));
                assert(self.categories@[c as int].instances@.contains(
                    self.categories@[c as int].instances@[k as int],
                ));
            }
            return self.categories[c].instances[k];
        }
        let mut rem: usize = k - base_len;
        let mut i2: usize = 0;
        while i2 < pn
            invariant
                self.wf(),
                self.same_graph(g0),
                g0 == *old(self),
                g0.wf(),
                c < self.categories@.len(),
                pn == self.categories@[c as int].postcocategories@.len(),
                i2 <= pn,
            decreases pn - i2,
        {
            proof {
                assert(self.category_wf(c as int));
                assert(g0.categories@ == self.categories@);
            }
            let nb = self.categories[c].postcocategories[i2];
            let l = self.categories[nb].instances.len();
            if rem < l {
                proof {
                    assert(self.categories@[c as int].postcocategories@.contains(nb));
                    assert(g0.post_linked(c, nb));
                    assert(self.categories@[nb as int].instances@.contains(
                        self.categories@[nb as int].instances@[rem as int],
                    ));
                    assert(self.category_wf(nb as int));
                }
                return self.categories[nb].instances[rem];
            }
            if l <= rem {
                rem = rem - l;
            }
            i2 += 1;
        }
        proof {
            assert(self.category_wf(c as int));
            assert(self.categories@[c as int].instances@.contains(
                self.categories@[c as int].instances@[0],
            ));
        }
        self.categories[c].instances[0]
    }

    /// Generate a reply for `source`: `None` only when the corpus gives no
    /// usable seed; otherwise a pair of renderings of one instance walk —
    /// the plain one first, then the drifted one that transports relay as
    /// the reply — both composed entirely of corpus words.
    pub fn respond(&mut self, source: usize) -> (r: Option<(String, String)>)
        requires
            old(self).wf(),
            source < old(self).sources@.len(),
        ensures
            final(self).wf(),
            final(self).same_graph(*old(self)),
            old(self).messages@.len() == 0 ==> r is None,
            r is None ==> (old(self).messages@.len() == 0 || exists|m2: int|
                0 <= m2 < old(self).messages@.len() && old(
                    self,
                ).messages@[m2].instances@.len() == 0),
            (old(self).messages@.len() > 0 && (forall|m2: int|
                0 <= m2 < old(self).messages@.len() ==> (#[trigger] old(
                    self,
                ).messages@[m2]).instances@.len() > 0)) ==> r is Some,
            match r {
                Some(pair) => {
                    &&& exists|ids: Seq<usize>, ids2: Seq<usize>|
                        #![trigger final(self).instance_words(ids), final(self).instance_words(ids2)]
                        {
                            &&& ids.len() >= 1
                            &&& ids2.len() == ids.len()
                            &&& forall|t: int|
                                0 <= t < ids.len() ==> ids[t] < final(self).instances@.len()
                            &&& forall|t: int|
                                0 <= t < ids2.len() ==> ids2[t] < final(self).instances@.len()
                            &&& pair.0@ == joined(final(self).instance_words(ids))
                            &&& pair.1@ == joined(final(self).instance_words(ids2))
                            // the walk stops only at message boundaries, unless
                            // the step budget of that direction ran out
                            &&& (final(self).spec_prev_instance(ids[0] as int) is None
                                || ids.len() > WALK_LIMIT as int)
                            &&& (final(self).spec_next_instance(ids[ids.len() - 1] as int) is None
                                || ids.len() > WALK_LIMIT as int)
                            &&& (final(self).cocategory_travel_distance == 0 ==> ids2 == ids)
                        }
                    &&& (final(self).cocategory_travel_distance == 0 ==> pair.0@ == pair.1@)
                },
                None => true,
            },
    {
        let n_messages = self.messages.len();
        if n_messages == 0 {
            return None;
        }
        let base = self.draw_below(n_messages);
        let seed_message: Option<usize> = match self.sources[source].active_conversation {
            Some(cv) => {
                proof {
                    assert(self.source_wf(source as int));
                }
                let cl = self.conversations[cv].messages.len();
                if cl > 0 {
                    proof {
                        assert(self.conversation_wf(cv as int));
                    }
                    Some(self.conversations[cv].messages[cl - 1])
                } else {
                    None
                }
            },
            None => None,
        };
        let mut ids: Vec<usize> = Vec::new();
        let from_conversation: bool;
        match seed_message {
            Some(conm) => {
                let milen = self.messages[conm].instances.len();
                if milen == 0 {
                    proof {
                        assert(self.messages@[conm as int].instances@.len() == 0);
                    }
                    return None;
                }
                let p = self.draw_below(milen);
                proof {
                    assert(self.message_wf(conm as int));
                    assert(self.inst_wf(
                        self.messages@[conm as int].instances@[p as int] as int,
                    ));
                }
                ids.push(self.messages[conm].instances[p]);
                from_conversation = true;
            },
            None => {
                let milen = self.messages[base].instances.len();
                if milen == 0 {
                    proof {
                        assert(self.messages@[base as int].instances@.len() == 0);
                    }
                    return None;
                }
                let p = self.draw_below(milen);
                proof {
                    assert(self.message_wf(base as int));
                    assert(self.inst_wf(
                        self.messages@[base as int].instances@[p as int] as int,
                    ));
                }
                ids.push(self.messages[base].instances[p]);
                from_conversation = false;
            },
        }
        let ghost g0 = *old(self);
        // weave forward to the end of a message
        let mut fuel: usize = WALK_LIMIT;
        while fuel > 0
            invariant
                self.wf(),
                self.same_graph(g0),
                g0.wf(),
                ids@.len() >= 1,
                ids@.len() + fuel == 1 + WALK_LIMIT,
                forall|t: int| 0 <= t < ids@.len() ==> #[trigger] ids@[t] < self.instances@.len(),
            ensures
                self.wf(),
                self.same_graph(g0),
                ids@.len() >= 1,
                ids@.len() + fuel == 1 + WALK_LIMIT,
                fuel > 0 ==> self.spec_next_instance(ids@[ids@.len() - 1] as int) is None,
                forall|t: int| 0 <= t < ids@.len() ==> #[trigger] ids@[t] < self.instances@.len(),
            decreases fuel,
        {
            let lastid = ids[ids.len() - 1];
            match self.next_instance(lastid) {
                Some(nxt) => {
                    proof {
                        assert(self.inst_wf(nxt as int));
                        assert(self.categories@[self.instances@[nxt as int].category as int].instances@.contains(
                            nxt,
                        ));
                    }
                    let c = self.instances[nxt].category;
                    let chosen = self.choose_via_pre(c);
                    ids.push(chosen);
                },
                None => {
                    break ;
                },
            }
            fuel -= 1;
        }
        // weave backward to the beginning of a message
        let mut front: Vec<usize> = Vec::new();
        let mut fuel2: usize = WALK_LIMIT;
        while fuel2 > 0
            invariant
                self.wf(),
                self.same_graph(g0),
                g0.wf(),
                ids@.len() >= 1,
                front@.len() + fuel2 == WALK_LIMIT,
                forall|t: int| 0 <= t < ids@.len() ==> #[trigger] ids@[t] < self.instances@.len(),
                forall|t: int|
                    0 <= t < front@.len() ==> #[trigger] front@[t] < self.instances@.len(),
            ensures
                self.wf(),
                self.same_graph(g0),
                ids@.len() >= 1,
                front@.len() + fuel2 == WALK_LIMIT,
                fuel2 > 0 ==> self.spec_prev_instance(
                    (if front@.len() == 0 {
                        ids@[0]
                    } else {
                        front@[front@.len() - 1]
                    }) as int,
                ) is None,
                forall|t: int| 0 <= t < ids@.len() ==> #[trigger] ids@[t] < self.instances@.len(),
                forall|t: int|
                    0 <= t < front@.len() ==> #[trigger] front@[t] < self.instances@.len(),
            decreases fuel2,
        {
            let firstid = if front.len() == 0 {
                ids[0]
            } else {
                front[front.len() - 1]
            };
            match self.prev_instance(firstid) {
                Some(prv) => {
                    proof {
                        assert(self.inst_wf(prv as int));
                        assert(self.categories@[self.instances@[prv as int].category as int].instances@.contains(
                            prv,
                        ));
                    }
                    let c = self.instances[prv].category;
                    let chosen = self.choose_via_post(c);
                    front.push(chosen);
                },
                None => {
                    break ;
                },
            }
            fuel2 -= 1;
        }
        // assemble the walk in textual order
        let mut all: Vec<usize> = Vec::new();
        let fl = front.len();
        let mut t: usize = 0;
        while t < fl
            invariant
                fl == front@.len(),
                t <= fl,
                all@.len() == t,
                forall|u: int| 0 <= u < t ==> #[trigger] all@[u] == front@[fl - 1 - u],
                forall|u: int|
                    0 <= u < front@.len() ==> #[trigger] front@[u] < self.instances@.len(),
                forall|u: int| 0 <= u < all@.len() ==> #[trigger] all@[u] < self.instances@.len(),
            decreases fl - t,
        {
            all.push(front[fl - 1 - t]);
            t += 1;
        }
        let orig_index = fl;
        let il = ids.len();
        let mut t2: usize = 0;
        while t2 < il
            invariant
                il == ids@.len(),
                t2 <= il,
                all@.len() == fl + t2,
                fl == front@.len(),
                forall|u: int| 0 <= u < fl ==> #[trigger] all@[u] == front@[fl - 1 - u],
                forall|u: int| 0 <= u < t2 ==> #[trigger] all@[fl + u] == ids@[u],
                forall|u: int| 0 <= u < ids@.len() ==> #[trigger] ids@[u] < self.instances@.len(),
                forall|u: int| 0 <= u < all@.len() ==> #[trigger] all@[u] < self.instances@.len(),
            decreases il - t2,
        {
            all.push(ids[t2]);
            t2 += 1;
        }
        let generated = self.render_ids(&all);
        // drifted rendering: every position except the conversation seed may
        // hop along cocategory links a configured number of times
        let al = all.len();
        let travel = self.cocategory_travel_distance;
        let mut drifted: Vec<usize> = Vec::new();
        let mut t3: usize = 0;
        while t3 < al
            invariant
                self.wf(),
                self.same_graph(g0),
                g0.wf(),
                al == all@.len(),
                t3 <= al,
                forall|u: int| 0 <= u < all@.len() ==> #[trigger] all@[u] < self.instances@.len(),
                drifted@.len() == t3,
                travel == self.cocategory_travel_distance,
                travel == 0 ==> (forall|u: int|
                    0 <= u < t3 ==> #[trigger] drifted@[u] == all@[u]),
                forall|u: int|
                    0 <= u < drifted@.len() ==> #[trigger] drifted@[u] < self.instances@.len(),
            decreases al - t3,
        {
            let mut cur = all[t3];
            if !(from_conversation && t3 == orig_index) {
                let mut hop: u32 = 0;
                while hop < travel
                    invariant
                        self.wf(),
                        self.same_graph(g0),
                        g0.wf(),
                        hop <= travel,
                        travel == 0 ==> cur == all@[t3 as int],
                        cur < self.instances@.len(),
                    decreases travel - hop,
                {
                    proof {
                        assert(self.inst_wf(cur as int));
                        assert(self.categories@[self.instances@[cur as int].category as int].instances@.contains(
                            cur,
                        ));
                    }
                    let c = self.instances[cur].category;
                    let coin = self.draw_below(2);
                    if coin == 0 {
                        cur = self.choose_via_post(c);
                    } else {
                        cur = self.choose_via_pre(c);
                    }
                    hop += 1;
                }
            }
            drifted.push(cur);
            t3 += 1;
        }
        proof {
            assert(drifted@.len() == all@.len());
        }
        let original = self.render_ids(&drifted);
        proof {
            assert(all@.len() >= 1);
            assert(generated@ == joined(self.instance_words(all@)));
            assert(original@ == joined(self.instance_words(drifted@)));
            // first element: a message boundary or an exhausted backward budget
            assert(self.spec_prev_instance(all@[0] as int) is None || all@.len()
                > WALK_LIMIT as int) by {
                if fl > 0 {
                    assert(all@[0] == front@[fl - 1]);
                    if fuel2 == 0 {
                        assert(all@.len() > WALK_LIMIT as int);
                    }
                } else {
                    assert(all@[fl + 0] == ids@[0]);
                }
            }
            // last element: a message boundary or an exhausted forward budget
            assert(self.spec_next_instance(all@[all@.len() - 1] as int) is None || all@.len()
                > WALK_LIMIT as int) by {
                assert(all@[fl + (il - 1)] == ids@[il - 1]);
                if fuel == 0 {
                    assert(ids@.len() > WALK_LIMIT as int);
                }
            }
            if self.cocategory_travel_distance == 0 {
                assert(drifted@ =~= all@);
            }
        }
        Some((generated, original))
    }

    /// Start a fresh conversation at `source` — empty, owned by the source
    /// and active, so the generation seed is a cold start — and immediately
    /// generate an opening line for it.
    pub fn initiate(&mut self, source: usize) -> (r: Option<(String, String)>)
        requires
            old(self).wf(),
            source < old(self).sources@.len(),
        ensures
            final(self).wf(),
            final(self).messages@ == old(self).messages@,
            final(self).words@ == old(self).words@,
            final(self).instances@ == old(self).instances@,
            final(self).categories@ == old(self).categories@,
            final(self).authors@ == old(self).authors@,
            final(self).same_tunables(*old(self)),
            // the fresh conversation is empty, owned by the source, active
            final(self).conversations@.len() == old(self).conversations@.len() + 1,
            forall|t: int|
                #![trigger final(self).conversations@[t]]
                0 <= t < old(self).conversations@.len() ==> final(self).conversations@[t] == old(
                    self,
                ).conversations@[t],
            final(self).conversations@[old(self).conversations@.len() as int].source == source,
            final(self).conversations@[old(self).conversations@.len() as int].messages@.len() == 0,
            final(self).sources@[source as int].active_conversation == Some(
                old(self).conversations@.len() as usize,
            ),
            final(self).sources@.len() == old(self).sources@.len(),
            forall|t: int|
                #![trigger final(self).sources@[t]]
                0 <= t < old(self).sources@.len() && t != source ==> final(self).sources@[t] == old(
                    self,
                ).sources@[t],
            // generation outcome, as for a cold-started reply
            old(self).messages@.len() == 0 ==> r is None,
            r is None ==> (old(self).messages@.len() == 0 || exists|m2: int|
                0 <= m2 < old(self).messages@.len() && old(
                    self,
                ).messages@[m2].instances@.len() == 0),
            (old(self).messages@.len() > 0 && (forall|m2: int|
                0 <= m2 < old(self).messages@.len() ==> (#[trigger] old(
                    self,
                ).messages@[m2]).instances@.len() > 0)) ==> r is Some,
            match r {
                Some(pair) => {
                    &&& exists|ids: Seq<usize>, ids2: Seq<usize>|
                        #![trigger final(self).instance_words(ids), final(self).instance_words(ids2)]
                        {
                            &&& ids.len() >= 1
                            &&& ids2.len() == ids.len()
                            &&& forall|t: int|
                                0 <= t < ids.len() ==> ids[t] < final(self).instances@.len()
                            &&& forall|t: int|
                                0 <= t < ids2.len() ==> ids2[t] < final(self).instances@.len()
                            &&& pair.0@ == joined(final(self).instance_words(ids))
                            &&& pair.1@ == joined(final(self).instance_words(ids2))
                            &&& (final(self).cocategory_travel_distance == 0 ==> ids2 == ids)
                        }
                    &&& (final(self).cocategory_travel_distance == 0 ==> pair.0@ == pair.1@)
                },
                None => true,
            },
    {
        self.switch(source);
        let ghost mid = *self;
        let r = self.respond(source);
        proof {
            assert(self.conversations@ == mid.conversations@);
            assert(self.sources@ == mid.sources@);
            match &r {
                Some(pair) => {
                    let (ids, ids2) = choose|ids: Seq<usize>, ids2: Seq<usize>|
                        #![trigger self.instance_words(ids), self.instance_words(ids2)]
                        {
                            &&& ids.len() >= 1
                            &&& ids2.len() == ids.len()
                            &&& (forall|t: int|
                                0 <= t < ids.len() ==> ids[t] < self.instances@.len())
                            &&& (forall|t: int|
                                0 <= t < ids2.len() ==> ids2[t] < self.instances@.len())
                            &&& pair.0@ == joined(self.instance_words(ids))
                            &&& pair.1@ == joined(self.instance_words(ids2))
                            &&& (self.spec_prev_instance(ids[0] as int) is None || ids.len()
                                > WALK_LIMIT as int)
                            &&& (self.spec_next_instance(ids[ids.len() - 1] as int) is None
                                || ids.len() > WALK_LIMIT as int)
                            &&& (self.cocategory_travel_distance == 0 ==> ids2 == ids)
                        };
                    assert(pair.0@ == joined(self.instance_words(ids)));
                },
                None => {},
            }
        }
        r
    }
}

} // verus!
