//! The content-addressed event graph: events keyed by the digest of their
//! canonical encoding, named saved frontiers, dependency closure and
//! folding, and topological replay orders.

use vstd::prelude::*;

use crate::codec::event_bytes;
use crate::codec::event_digest;
use crate::codec::serialize_event;
use crate::codec::Event;
use crate::codec::EventV;
use crate::hash::calculate_hash;
use crate::hash::Digest;

use crate::ord::OrdMap;
use crate::ord::OrdSet;
use crate::ord::OrderedKey;
use vstd::string::StrSliceExecFns;

verus! {

broadcast use crate::ord::OrdSet::lemma_view_is_seq_set;

/// Whether a replay order should include the requested event itself or
/// stop after its transitive dependencies.
#[derive(Clone, Copy, Debug, PartialEq, Eq, Structural)]
pub enum IncludeSpec {
    IncludeAll,
    IncludeOnlyDeps,
}

#[derive(Clone, Debug, PartialEq, Eq)]
pub enum GraphError {
    DatasetNotFound,
    DependencyCircuit(crate::hash::Hash),
    DependencyNotFound(crate::hash::Hash),
    HashCollision(crate::hash::Hash, String),
}

/// `t` contains, for each of its members stored in `g`, all the member's
/// dependencies that lie outside `ex`.
pub open spec fn closed_under_except(
    g: Map<Digest, EventV>,
    t: Set<Digest>,
    ex: Set<Digest>,
) -> bool {
    forall|h: Digest|
        t.contains(h) && g.contains_key(h) ==> (#[trigger] g[h]).dep_set().difference(
            ex,
        ).subset_of(t)
}

/// The least set that contains `s \ ex` and is dependency-closed while
/// never descending into `ex`.
pub open spec fn closure_except(
    g: Map<Digest, EventV>,
    s: Set<Digest>,
    ex: Set<Digest>,
) -> Set<Digest> {
    Set::new(
        |h: Digest|
            forall|t: Set<Digest>|
                (s.difference(ex).subset_of(t) && closed_under_except(g, t, ex))
                    ==> #[trigger] t.contains(h),
    )
}

/// The dependency closure of `s`: the least superset of `s` closed under
/// the stored dependency edges.
pub open spec fn closure(g: Map<Digest, EventV>, s: Set<Digest>) -> Set<Digest> {
    closure_except(g, s, Set::empty())
}

pub proof fn lemma_closure_except_basic(g: Map<Digest, EventV>, s: Set<Digest>, ex: Set<Digest>)
    ensures
        s.difference(ex).subset_of(closure_except(g, s, ex)),
        closed_under_except(g, closure_except(g, s, ex), ex),
{
    let cl = closure_except(g, s, ex);
    assert forall|h: Digest| s.difference(ex).contains(h) implies cl.contains(h) by {
    }
    assert forall|h: Digest| cl.contains(h) && g.contains_key(h) implies (
    #[trigger] g[h]).dep_set().difference(ex).subset_of(cl) by {
        assert forall|d: Digest| g[h].dep_set().difference(ex).contains(d) implies cl.contains(
            d,
        ) by {
            assert forall|t: Set<Digest>|
                s.difference(ex).subset_of(t) && closed_under_except(g, t, ex) implies
                #[trigger] t.contains(d) by {
                assert(t.contains(h));
            }
        }
    }
}

pub proof fn lemma_closure_except_least(
    g: Map<Digest, EventV>,
    s: Set<Digest>,
    ex: Set<Digest>,
    t: Set<Digest>,
)
    requires
        s.difference(ex).subset_of(t),
        closed_under_except(g, t, ex),
    ensures
        closure_except(g, s, ex).subset_of(t),
{
}

/// With every stored dependency present in the graph, a closure stays
/// within the stored events and the seeds.
pub proof fn lemma_closure_except_bounded(
    g: Map<Digest, EventV>,
    s: Set<Digest>,
    ex: Set<Digest>,
)
    requires
        forall|h: Digest|
            #[trigger] g.contains_key(h) ==> g[h].dep_set().subset_of(g.dom()),
    ensures
        closure_except(g, s, ex).subset_of(s.union(g.dom())),
{
    let t = s.union(g.dom());
    assert(closed_under_except(g, t, ex)) by {
        assert forall|h: Digest| t.contains(h) && g.contains_key(h) implies (
        #[trigger] g[h]).dep_set().difference(ex).subset_of(t) by {
        }
    }
    lemma_closure_except_least(g, s, ex, t);
}

/// A closure that must avoid `ex` never meets it.
pub proof fn lemma_closure_except_disjoint(
    g: Map<Digest, EventV>,
    s: Set<Digest>,
    ex: Set<Digest>,
)
    ensures
        closure_except(g, s, ex).disjoint(ex),
{
    let cl = closure_except(g, s, ex);
    let t = cl.difference(ex);
    lemma_closure_except_basic(g, s, ex);
    assert(closed_under_except(g, t, ex)) by {
        assert forall|h: Digest| t.contains(h) && g.contains_key(h) implies (
        #[trigger] g[h]).dep_set().difference(ex).subset_of(t) by {
            assert(g[h].dep_set().difference(ex).subset_of(cl));
        }
    }
    lemma_closure_except_least(g, s, ex, t);
    assert forall|h: Digest| cl.contains(h) implies !ex.contains(h) by {
        assert(t.contains(h));
    }
}

/// A finite, nonempty set of ranked digests has a member of least rank.
proof fn lemma_min_rank(s: Set<Digest>, rank: Map<Digest, nat>) -> (m: Digest)
    requires
        s.finite(),
        s.len() > 0,
        forall|x: Digest| s.contains(x) ==> rank.contains_key(x),
    ensures
        s.contains(m),
        forall|x: Digest| s.contains(x) ==> rank[m] <= rank[x],
    decreases s.len(),
{
    let e = s.choose();
    assert(s.contains(e));
    let rest = s.remove(e);
    if rest.len() == 0 {
        assert forall|x: Digest| s.contains(x) implies rank[e] <= rank[x] by {
            if x != e {
                assert(rest.contains(x));
                assert(rest.len() > 0) by {
                    vstd::set_lib::lemma_set_empty_equivalency_len(rest);
                }
            }
        }
        e
    } else {
        let m0 = lemma_min_rank(rest, rank);
        if rank[e] <= rank[m0] {
            assert forall|x: Digest| s.contains(x) implies rank[e] <= rank[x] by {
                if x != e {
                    assert(rest.contains(x));
                }
            }
            e
        } else {
            assert forall|x: Digest| s.contains(x) implies rank[m0] <= rank[x] by {
                if x != e {
                    assert(rest.contains(x));
                }
            }
            m0
        }
    }
}

/// The events named by the replay request that still need running: the
/// `IncludeAll` targets themselves and every direct dependency of any
/// pending target.
/// `d` is a direct dependency of the pending target `k`.
pub open spec fn seed_via(
    g: Map<Digest, EventV>,
    evids: Map<Digest, IncludeSpec>,
    tt: Set<Digest>,
    k: Digest,
    d: Digest,
) -> bool {
    evids.contains_key(k) && !tt.contains(k) && g.contains_key(k) && g[k].dep_set().contains(d)
}

pub open spec fn is_replay_seed(
    g: Map<Digest, EventV>,
    evids: Map<Digest, IncludeSpec>,
    tt: Set<Digest>,
    d: Digest,
) -> bool {
    ||| (evids.contains_key(d) && evids[d] == IncludeSpec::IncludeAll && !tt.contains(d))
    ||| (exists|k: Digest| #[trigger] seed_via(g, evids, tt, k, d))
}

pub open spec fn replay_seeds(
    g: Map<Digest, EventV>,
    evids: Map<Digest, IncludeSpec>,
    tt: Set<Digest>,
) -> Set<Digest> {
    Set::new(|d: Digest| is_replay_seed(g, evids, tt, d))
}

/// The event graph.
pub struct Graph {
    events: OrdMap<Digest, Event>,
    nstates: Vec<(String, OrdSet<Digest>)>,
    rank: Ghost<Map<Digest, nat>>,
}

impl Graph {
    /// The stored events, as a map from digest to event view.
    pub closed spec fn spec_events(self) -> Map<Digest, EventV> {
        self.events@.map_values(|e: Event| e@)
    }

    pub closed spec fn spec_rank(self) -> Map<Digest, nat> {
        self.rank@
    }

    pub closed spec fn spec_nstates(self) -> Seq<(Seq<char>, Set<Digest>)> {
        self.nstates@.map_values(|p: (String, OrdSet<Digest>)| (p.0@, p.1@))
    }

    /// Every event is stored under the hash of its canonical encoding, its
    /// dependencies are stored and acyclic (witnessed by a rank that
    /// strictly drops along every edge), and no event depends on itself.
    pub closed spec fn events_wf(self) -> bool {
        self.events.wf()
    }

    pub open spec fn wf(self) -> bool {
        &&& self.events_wf()
        &&& forall|h: Digest|
            #[trigger] self.spec_events().contains_key(h) ==> self.spec_events()[h].wf()
        &&& forall|h: Digest|
            #[trigger] self.spec_events().contains_key(h) ==> h == event_digest(
                self.spec_events()[h],
            )
        &&& forall|h: Digest|
            #[trigger] self.spec_events().contains_key(h)
                ==> self.spec_events()[h].dep_set().subset_of(self.spec_events().dom())
        &&& forall|h: Digest|
            #[trigger] self.spec_events().contains_key(h) ==> !self.spec_events()[
                h
            ].dep_set().contains(h)
        &&& forall|h: Digest|
            #[trigger] self.spec_events().contains_key(h) ==> self.spec_rank().contains_key(h)
        &&& forall|h: Digest, d: Digest|
            self.spec_events().contains_key(h) && #[trigger] self.spec_events()[
                h
            ].dep_set().contains(d) ==> self.spec_rank()[d] < self.spec_rank()[h]
    }

    pub fn new() -> (r: Graph)
        ensures
            r.wf(),
            r.spec_events() == Map::<Digest, EventV>::empty(),
            r.spec_nstates() == Seq::<(Seq<char>, Set<Digest>)>::empty(),
    {
        let r = Graph { events: OrdMap::new(), nstates: Vec::new(), rank: Ghost(Map::empty()) };
        proof {
            assert(r.spec_events() =~= Map::<Digest, EventV>::empty());
            assert(r.spec_nstates() =~= Seq::<(Seq<char>, Set<Digest>)>::empty());
        }
        r
    }

    /// Looks up an event by its digest.
    pub fn get_event(&self, d: Digest) -> (r: Option<&Event>)
        requires
            self.wf(),
        ensures
            match r {
                Some(e) => self.spec_events().contains_key(d) && e@ == self.spec_events()[d],
                None => !self.spec_events().contains_key(d),
            },
    {
        self.events.get(d)
    }

    pub fn events_len(&self) -> (r: usize)
        requires
            self.wf(),
        ensures
            r == self.events_seq_len(),
    {
        proof {
            self.events.lemma_dom();
        }
        self.events.len()
    }

    pub closed spec fn events_seq_len(self) -> nat {
        self.events@.dom().len()
    }

    /// The stored digests, in ascending storage order.
    pub closed spec fn spec_event_keys(self) -> Seq<Digest> {
        Seq::new(self.events.seq().len(), |i: int| self.events.seq()[i].0)
    }

    /// The digests of all stored events, in ascending order.
    pub fn event_digests(&self) -> (r: Vec<Digest>)
        requires
            self.wf(),
        ensures
            r@ == self.spec_event_keys(),
            forall|i: int|
                0 <= i < r@.len() ==> self.spec_events().contains_key(#[trigger] r@[i]),
            forall|d: Digest|
                self.spec_events().contains_key(d) ==> r@.contains(d),
    {
        let mut out: Vec<Digest> = Vec::new();
        let n = self.events.len();
        for i in 0..n
            invariant
                n == self.events.seq().len(),
                self.wf(),
                out@.len() == i,
                forall|m: int| 0 <= m < i ==> out@[m] == self.events.seq()[m].0,
        {
            out.push(self.events.key_at(i));
        }
        proof {
            assert(out@ =~= self.spec_event_keys());
            assert forall|i: int|
                0 <= i < out@.len() implies self.spec_events().contains_key(
                #[trigger] out@[i]) by {
                self.events.lemma_at(i);
            }
            assert forall|d: Digest|
                self.spec_events().contains_key(d) implies out@.contains(d) by {
                self.events.lemma_contains_key(d);
                let w = choose|w: int|
                    0 <= w < self.events.seq().len() && (#[trigger] self.events.seq()[w]).0
                        == d;
                assert(out@[w] == d);
            }
        }
        out
    }

    pub fn nstates_len(&self) -> (r: usize)
        ensures
            r == self.spec_nstates().len(),
    {
        self.nstates.len()
    }

    /// The name of the saved frontier at the given position.
    pub fn nstate_name_at(&self, i: usize) -> (r: &String)
        requires
            i < self.spec_nstates().len(),
        ensures
            r@ == self.spec_nstates()[i as int].0,
    {
        &self.nstates[i].0
    }

    /// The saved frontier at the given position.
    pub fn nstate_frontier_at(&self, i: usize) -> (r: &OrdSet<Digest>)
        requires
            i < self.spec_nstates().len(),
        ensures
            r@ == self.spec_nstates()[i as int].1,
    {
        &self.nstates[i].1
    }

    /// The saved frontier under the given name, if any.
    pub fn nstate_get(&self, name: &str) -> (r: Option<&OrdSet<Digest>>)
        ensures
            match r {
                Some(s) => exists|i: int|
                    0 <= i < self.spec_nstates().len() && #[trigger] self.spec_nstates()[i]
                        == (name@, s@),
                None => forall|i: int|
                    0 <= i < self.spec_nstates().len() ==> (#[trigger] self.spec_nstates()[
                    i]).0 != name@,
            },
    {
        let n = self.nstates.len();
        for i in 0..n
            invariant
                n == self.nstates@.len(),
                forall|m: int|
                    0 <= m < i ==> (#[trigger] self.nstates@[m]).0@ != name@,
        {
            if vstd::string::StrSliceExecFns::unicode_len(self.nstates[i].0.as_str())
                == vstd::string::StrSliceExecFns::unicode_len(name) && str_eq(
                self.nstates[i].0.as_str(),
                name,
            ) {
                proof {
                    assert(self.spec_nstates()[i as int] == (
                        name@,
                        self.nstates@[i as int].1@,
                    ));
                }
                return Some(&self.nstates[i].1);
            }
        }
        None
    }

    /// Saves a frontier under a name, replacing any older one.
    pub fn nstate_set(&mut self, name: String, fr: OrdSet<Digest>)
        requires
            old(self).wf(),
        ensures
            final(self).wf(),
            final(self).spec_events() == old(self).spec_events(),
            exists|i: int|
                0 <= i < final(self).spec_nstates().len()
                    && #[trigger] final(self).spec_nstates()[i] == (name@, fr@),
    {
        let ghost fv = fr@;
        let ghost nv = name@;
        let n = self.nstates.len();
        let mut i: usize = 0;
        loop
            invariant
                i <= n,
                n == self.nstates@.len(),
                *self == *old(self),
                nv == name@,
            ensures
                *self == *old(self),
                i <= n,
                i < n ==> self.nstates@[i as int].0@ == nv,
            decreases n - i,
        {
            if i >= n {
                break ;
            }
            if vstd::string::StrSliceExecFns::unicode_len(self.nstates[i].0.as_str())
                == vstd::string::StrSliceExecFns::unicode_len(name.as_str()) && str_eq(
                self.nstates[i].0.as_str(),
                name.as_str(),
            ) {
                break ;
            }
            i = i + 1;
        }
        if i < n {
            self.nstates.remove(i);
        }
        self.nstates.push((name, fr));
        proof {
            let m = self.spec_nstates().len() - 1;
            assert(self.spec_nstates()[m] == (nv, fv));
            assert(self.spec_events() =~= old(self).spec_events());
        }
    }

    /// Content-addressed get-or-insert. The caller must already hold every
    /// dependency of the event in the graph. Returns the event's hash; a
    /// non-`None` first component reports a digest collision (the stored
    /// event under that hash differs), in which case nothing is changed.
    pub fn ensure_event(&mut self, ev: Event) -> (r: (Option<Event>, crate::hash::Hash))
        requires
            old(self).wf(),
            ev.wf(),
            ev@.dep_set().subset_of(old(self).spec_events().dom()),
        ensures
            final(self).wf(),
            r.1 == crate::hash::Hash::Blake2b512(event_digest(ev@)),
            final(self).spec_nstates() == old(self).spec_nstates(),
            match r.0 {
                None => final(self).spec_events() == old(self).spec_events().insert(
                    event_digest(ev@),
                    ev@,
                ) && (old(self).spec_events().contains_key(event_digest(ev@)) ==> old(
                    self,
                ).spec_events()[event_digest(ev@)] == ev@),
                Some(clash) => {
                    &&& clash@ == ev@
                    &&& final(self).spec_events() == old(self).spec_events()
                    &&& old(self).spec_events().contains_key(event_digest(ev@))
                    &&& old(self).spec_events()[event_digest(ev@)] != ev@
                },
            },
    {
        let bytes = serialize_event(&ev);
        let h = calculate_hash(bytes.as_slice());
        let d = h.digest();
        proof {
            assert(d == event_digest(ev@));
            self.lemma_events_view();
        }
        match self.events.get(d) {
            Some(stored) => {
                let same = event_eq(stored, &ev);
                proof {
                    assert(self.spec_events()[d] == stored@);
                    if same {
                        assert(self.spec_events() =~= self.spec_events().insert(d, ev@));
                    }
                }
                if same {
                    (None, h)
                } else {
                    (Some(ev), h)
                }
            },
            None => {
                proof {
                    // A fresh event cannot depend on itself: its deps are
                    // already stored, while its own digest is not.
                    assert(!ev@.dep_set().contains(d));
                }
                let ghost oldg = *self;
                let ghost newrank = seq_max_rank(self.rank@, ev.deps.seq()) + 1;
                self.rank = Ghost(self.rank@.insert(d, newrank as nat));
                self.events.insert(d, ev);
                proof {
                    self.lemma_events_view();
                    oldg.lemma_events_view();
                    assert(self.events@ == oldg.events@.insert(d, ev));
                    assert(self.spec_events() =~= oldg.spec_events().insert(d, ev@));
                    assert(self.spec_nstates() == oldg.spec_nstates());
                    assert(self.wf()) by {
                        lemma_seq_max_rank(oldg.rank@, ev.deps.seq());
                        assert forall|x: Digest, dd: Digest|
                            self.spec_events().contains_key(x)
                                && #[trigger] self.spec_events()[x].dep_set().contains(
                                dd,
                            ) implies self.spec_rank()[dd] < self.spec_rank()[x] by {
                            if x == d {
                                let ds = ev.deps.seq();
                                assert(ev@.dep_set().contains(dd));
                                ev.deps.lemma_contains_key(dd);
                                let w = choose|w: int|
                                    0 <= w < ds.len() && (#[trigger] ds[w]).0 == dd;
                                assert(oldg.rank@.contains_key(dd));
                                assert(oldg.rank@[ds[w].0] <= seq_max_rank(
                                    oldg.rank@,
                                    ds,
                                ));
                            } else {
                                assert(oldg.spec_events().contains_key(x));
                                assert(oldg.spec_events()[x].dep_set().contains(dd));
                                assert(dd != d && x != d);
                            }
                        }
                    }
                }
                (None, h)
            },
        }
    }

    /// The exec map and its view agree key by key.
    proof fn lemma_events_view(self)
        ensures
            forall|d: Digest|
                #[trigger] self.spec_events().contains_key(d) <==> self.events@.contains_key(
                    d,
                ),
            forall|d: Digest|
                self.events@.contains_key(d) ==> #[trigger] self.spec_events()[d]
                    == self.events@[d]@,
            self.spec_events().dom() == self.events@.dom(),
    {
        assert(self.spec_events().dom() =~= self.events@.dom());
    }
}

/// Popping an already-done digest loses no coverage.
proof fn lemma_worklist_skip(
    g: Map<Digest, EventV>,
    stop: Set<Digest>,
    seeds: Set<Digest>,
    done2: Set<Digest>,
    prevwork: Seq<Digest>,
    work2: Seq<Digest>,
    h: Digest,
)
    requires
        prevwork.len() > 0,
        prevwork[prevwork.len() - 1] == h,
        work2 == prevwork.drop_last(),
        done2.contains(h),
        seeds.difference(stop).subset_of(done2.union(prevwork.to_set())),
        forall|x: Digest|
            #[trigger] done2.contains(x) ==> g[x].dep_set().difference(stop).subset_of(
                done2.union(prevwork.to_set()),
            ),
    ensures
        seeds.difference(stop).subset_of(done2.union(work2.to_set())),
        forall|x: Digest|
            #[trigger] done2.contains(x) ==> g[x].dep_set().difference(stop).subset_of(
                done2.union(work2.to_set()),
            ),
{
    assert forall|x: Digest|
        done2.union(prevwork.to_set()).contains(x) implies done2.union(
        work2.to_set(),
    ).contains(x) by {
        if prevwork.to_set().contains(x) {
            let w = choose|w: int| 0 <= w < prevwork.len() && #[trigger] prevwork[w] == x;
            if w < prevwork.len() - 1 {
                assert(work2[w] == x);
                assert(work2.to_set().contains(x));
            } else {
                assert(x == h);
            }
        }
    }
}

/// One step of the closure worklist: after popping `h`, marking it done
/// and pushing its dependencies, everything covered before stays covered.
proof fn lemma_worklist_step(
    g: Map<Digest, EventV>,
    stop: Set<Digest>,
    seeds: Set<Digest>,
    prevdone: Set<Digest>,
    prevwork: Seq<Digest>,
    done2: Set<Digest>,
    work2: Seq<Digest>,
    midwork: Seq<Digest>,
    h: Digest,
    ev: EventV,
)
    requires
        prevwork.len() > 0,
        prevwork[prevwork.len() - 1] == h,
        midwork == prevwork.drop_last(),
        done2 == prevdone.insert(h),
        midwork.to_set().subset_of(work2.to_set()),
        g.contains_key(h),
        g[h] == ev,
        forall|k: int|
            0 <= k < ev.deps.len() ==> (stop.contains((#[trigger] ev.deps[k]).0)
                || work2.to_set().contains(ev.deps[k].0)),
        forall|x: Digest|
            #[trigger] prevdone.contains(x) ==> g[x].dep_set().difference(stop).subset_of(
                prevdone.union(prevwork.to_set()),
            ),
        seeds.difference(stop).subset_of(prevdone.union(prevwork.to_set())),
    ensures
        forall|x: Digest|
            #[trigger] done2.contains(x) ==> g[x].dep_set().difference(stop).subset_of(
                done2.union(work2.to_set()),
            ),
        seeds.difference(stop).subset_of(done2.union(work2.to_set())),
{
    assert forall|x: Digest|
        prevdone.union(prevwork.to_set()).contains(x) implies done2.union(
        work2.to_set(),
    ).contains(x) by {
        if prevwork.to_set().contains(x) {
            let w = choose|w: int| 0 <= w < prevwork.len() && #[trigger] prevwork[w] == x;
            if w < prevwork.len() - 1 {
                assert(midwork[w] == x);
                assert(midwork.to_set().contains(x));
            } else {
                assert(x == h);
            }
        }
    }
    assert forall|x: Digest|
        #[trigger] done2.contains(x) implies g[x].dep_set().difference(stop).subset_of(
        done2.union(work2.to_set()),
    ) by {
        if x == h {
            assert forall|dd: Digest|
                g[h].dep_set().difference(stop).contains(dd) implies done2.union(
                work2.to_set(),
            ).contains(dd) by {
                let w = choose|w: int|
                    0 <= w < ev.deps.len() && (#[trigger] ev.deps[w]).0 == dd;
            }
        } else {
            assert(prevdone.contains(x));
        }
    }
}

/// The digests that some member of `s` stored in `g` depends on.
pub open spec fn dep_targets(g: Map<Digest, EventV>, s: Set<Digest>) -> Set<Digest> {
    Set::new(
        |d: Digest|
            exists|p: Digest|
                #[trigger] s.contains(p) && g.contains_key(p) && g[p].dep_set().contains(d),
    )
}

/// The flag an entry carries after folding: marked as a dependency when
/// some closure member depends on it, otherwise keeping its original flag.
pub open spec fn fold_flag(
    g: Map<Digest, EventV>,
    cl: Set<Digest>,
    st: Map<Digest, bool>,
    h: Digest,
) -> bool {
    dep_targets(g, cl).contains(h) || (st.contains_key(h) && st[h])
}

impl Graph {
    /// Computes the dependency closure of `seeds`, never descending into
    /// `stop`, or reports a digest that the closure needs but the graph
    /// does not hold.
    #[verifier::rlimit(100)]
    #[verifier::spinoff_prover]
    fn closure_from(&self, seeds: &OrdSet<Digest>, stop: &OrdSet<Digest>) -> (r: Result<
        OrdSet<Digest>,
        Digest,
    >)
        requires
            self.wf(),
            seeds.wf(),
        ensures
            match r {
                Ok(c) => {
                    &&& c.wf()
                    &&& c@ == closure_except(self.spec_events(), seeds@, stop@)
                    &&& c@.subset_of(self.spec_events().dom())
                },
                Err(d) => {
                    &&& closure_except(self.spec_events(), seeds@, stop@).contains(d)
                    &&& !self.spec_events().contains_key(d)
                },
            },
    {
        let ghost g = self.spec_events();
        let ghost cl = closure_except(g, seeds@, stop@);
        proof {
            lemma_closure_except_basic(g, seeds@, stop@);
            self.events.lemma_dom();
        }
        let mut work: Vec<Digest> = Vec::new();
        let ns = seeds.len();
        proof {
            assert(seeds.seq().skip(0) =~= seeds.seq());
        }
        for i in 0..ns
            invariant
                ns == seeds.seq().len(),
                seeds.wf(),
                self.wf(),
                g == self.spec_events(),
                cl == closure_except(g, seeds@, stop@),
                forall|m: int| 0 <= m < work@.len() ==> cl.contains(#[trigger] work@[m]),
                seeds@.difference(stop@).subset_of(
                    seeds.seq().skip(i as int).to_set().union(work@.to_set()),
                ),
        {
            proof {
                lemma_closure_except_basic(g, seeds@, stop@);
            }
            let ghost wb = work@;
            let s = seeds.get_at(i);
            if !stop.contains(s) {
                work.push(s);
                proof {
                    assert(seeds@.contains(s));
                    assert(cl.contains(s));
                }
            }
            proof {
                assert forall|x: Digest|
                    seeds@.difference(stop@).contains(x) implies seeds.seq().skip(
                    i + 1,
                ).to_set().union(work@.to_set()).contains(x) by {
                    if seeds.seq().skip(i as int).to_set().contains(x) {
                        let w = choose|w: int|
                            0 <= w < seeds.seq().skip(i as int).len()
                                && #[trigger] seeds.seq().skip(i as int)[w] == x;
                        if w == 0 {
                            assert(x == seeds.seq()[i as int]);
                            assert(work@[work@.len() - 1] == x);
                        } else {
                            assert(seeds.seq().skip(i + 1)[w - 1] == x);
                        }
                    } else {
                        assert(wb.to_set().contains(x));
                        let w = choose|w: int| 0 <= w < wb.len() && #[trigger] wb[w] == x;
                        assert(work@[w] == x);
                    }
                }
            }
        }
        proof {
            assert(seeds@.difference(stop@).subset_of(work@.to_set())) by {
                assert forall|x: Digest|
                    seeds@.difference(stop@).contains(x) implies work@.to_set().contains(
                    x,
                ) by {
                    if seeds.seq().skip(ns as int).to_set().contains(x) {
                        let w = choose|w: int|
                            0 <= w < seeds.seq().skip(ns as int).len() && seeds.seq().skip(
                                ns as int,
                            )[w] == x;
                    }
                }
            }
        }
        let mut done: OrdSet<Digest> = OrdSet::new();
        let bound = self.events.len();
        #[verifier::rlimit(100)]
        loop
            invariant
                self.wf(),
                g == self.spec_events(),
                cl == closure_except(g, seeds@, stop@),
                done.wf(),
                bound == self.events.seq().len(),
                done.seq().len() <= bound,
                done@.subset_of(cl),
                done@.subset_of(g.dom()),
                forall|m: int| 0 <= m < work@.len() ==> cl.contains(#[trigger] work@[m]),
                seeds@.difference(stop@).subset_of(done@.union(work@.to_set())),
                forall|h: Digest|
                    #[trigger] done@.contains(h) ==> g[h].dep_set().difference(
                        stop@,
                    ).subset_of(done@.union(work@.to_set())),
            ensures
                work@.len() == 0,
                done.wf(),
                done@.subset_of(cl),
                done@.subset_of(g.dom()),
                seeds@.difference(stop@).subset_of(done@),
                forall|h: Digest|
                    #[trigger] done@.contains(h) ==> g[h].dep_set().difference(
                        stop@,
                    ).subset_of(done@),
            decreases bound - done.seq().len(), work@.len(),
        {
            let ghost prevdone = done@;
            let ghost prevwork = work@;
            let h = match work.pop() {
                Some(h) => h,
                None => { break ; },
            };
            proof {
                assert(prevwork[prevwork.len() - 1] == h);
                assert(cl.contains(h));
            }
            if done.contains(h) {
                proof {
                    lemma_worklist_skip(g, stop@, seeds@, done@, prevwork, work@, h);
                }
            } else {
                match self.events.get(h) {
                    None => {
                        proof {
                            self.lemma_events_view();
                        }
                        return Err(h);
                    },
                    Some(e) => {
                        proof {
                            self.lemma_events_view();
                            self.events.lemma_dom();
                            assert(g.contains_key(h));
                            assert(!done@.contains(h));
                            done.lemma_no_duplicates();
                            assert(done@.insert(h).subset_of(g.dom()));
                            assert(g.dom().finite());
                            vstd::set_lib::lemma_len_subset(done@.insert(h), g.dom());
                        }
                        done.insert(h);
                        let nd = e.deps.len();
                        let ghost middone = done@;
                        let ghost midwork = work@;
                        for j in 0..nd
                            invariant
                                self.wf(),
                                g == self.spec_events(),
                                cl == closure_except(g, seeds@, stop@),
                                nd == e.deps.seq().len(),
                                g.contains_key(h),
                                cl.contains(h),
                                e@ == g[h],
                                forall|m: int|
                                    0 <= m < work@.len() ==> cl.contains(#[trigger] work@[m]),
                                midwork.to_set().subset_of(work@.to_set()),
                                forall|k: int|
                                    0 <= k < j ==> (stop@.contains(
                                        (#[trigger] e.deps.seq()[k]).0,
                                    ) || work@.to_set().contains(e.deps.seq()[k].0)),
                        {
                            let ghost wbefore = work@;
                            let (dd, _f) = e.deps.entry_at(j);
                            if !stop.contains(dd) {
                                proof {
                                    lemma_closure_except_basic(g, seeds@, stop@);
                                    assert(g[h].dep_set().contains(dd)) by {
                                        assert(e.deps.seq()[j as int].0 == dd);
                                    }
                                    assert(g[h].dep_set().difference(stop@).contains(dd));
                                    assert(cl.contains(dd));
                                }
                                work.push(dd);
                            }
                            proof {
                                assert forall|x: Digest|
                                    wbefore.to_set().contains(x) implies work@.to_set().contains(
                                    x,
                                ) by {
                                    let w = choose|w: int|
                                        0 <= w < wbefore.len() && #[trigger] wbefore[w] == x;
                                    assert(work@[w] == x);
                                }
                                assert forall|k: int|
                                    0 <= k < j + 1 implies (stop@.contains(
                                        (#[trigger] e.deps.seq()[k]).0,
                                    ) || work@.to_set().contains(e.deps.seq()[k].0)) by {
                                    if k < j {
                                        if !stop@.contains(e.deps.seq()[k].0) {
                                            assert(wbefore.to_set().contains(
                                                e.deps.seq()[k].0,
                                            ));
                                        }
                                    } else {
                                        if !stop@.contains(e.deps.seq()[k].0) {
                                            assert(work@[work@.len() - 1] == e.deps.seq()[
                                                k].0);
                                        }
                                    }
                                }
                                assert forall|x: Digest|
                                    midwork.to_set().contains(x) implies work@.to_set().contains(
                                    x,
                                ) by {
                                    assert(wbefore.to_set().contains(x));
                                    let w = choose|w: int|
                                        0 <= w < wbefore.len() && #[trigger] wbefore[w] == x;
                                    assert(work@[w] == x);
                                }
                            }
                        }
                        proof {
                            lemma_worklist_step(
                                g,
                                stop@,
                                seeds@,
                                prevdone,
                                prevwork,
                                done@,
                                work@,
                                midwork,
                                h,
                                e@,
                            );
                        }
                    },
                }
            }
        }
        proof {
            assert(closed_under_except(g, done@, stop@));
            lemma_closure_except_least(g, seeds@, stop@, done@);
            assert(done@ =~= cl);
        }
        Ok(done)
    }
}

impl Graph {
    /// Folds a frontier along the dependency edges: computes the closure of
    /// the given entries, marking every digest that some closure member
    /// depends on. With `expand` the whole closure is returned; without it,
    /// only the entries whose flag stayed clear — the leaves — remain.
    /// Fails when the closure needs an event the graph does not hold.
    pub fn fold_state(&self, st: OrdMap<Digest, bool>, expand: bool) -> (r: Option<
        OrdMap<Digest, bool>,
    >)
        requires
            self.wf(),
            st.wf(),
        ensures
            ({
                let g = self.spec_events();
                let cl = closure(g, st@.dom());
                match r {
                    Some(out) => {
                        &&& out.wf()
                        &&& cl.subset_of(g.dom())
                        &&& (expand ==> out@.dom() == cl)
                        &&& (expand ==> forall|h: Digest|
                            cl.contains(h) ==> out@[h] == fold_flag(g, cl, st@, h))
                        &&& (!expand ==> out@.dom() == cl.difference(
                            Set::new(|h: Digest| fold_flag(g, cl, st@, h)),
                        ))
                        &&& (!expand ==> forall|h: Digest|
                            out@.contains_key(h) ==> out@[h] == false)
                    },
                    None => exists|h: Digest|
                        #[trigger] cl.contains(h) && !g.contains_key(h),
                }
            }),
    {
        let ghost g = self.spec_events();
        let n = st.len();
        let mut ks: OrdSet<Digest> = OrdSet::new();
        for i in 0..n
            invariant
                n == st.seq().len(),
                st.wf(),
                ks.wf(),
                forall|m: int|
                    0 <= m < i ==> ks@.contains((#[trigger] st.seq()[m]).0),
                forall|d: Digest|
                    ks@.contains(d) ==> exists|m: int|
                        0 <= m < i && (#[trigger] st.seq()[m]).0 == d,
        {
            let k = st.key_at(i);
            ks.insert(k);
            proof {
                assert forall|d: Digest| ks@.contains(d) implies exists|m: int|
                    0 <= m < i + 1 && (#[trigger] st.seq()[m]).0 == d by {
                    if d == k {
                        assert(st.seq()[i as int].0 == d);
                    }
                }
            }
        }
        proof {
            assert(ks@ =~= st@.dom()) by {
                assert forall|d: Digest| ks@.contains(d) implies st@.dom().contains(d) by {
                    let m = choose|m: int|
                        0 <= m < st.seq().len() && (#[trigger] st.seq()[m]).0 == d;
                    st.lemma_at(m);
                }
                assert forall|d: Digest| st@.dom().contains(d) implies ks@.contains(d) by {
                    st.lemma_contains_key(d);
                    let m = choose|m: int|
                        0 <= m < st.seq().len() && (#[trigger] st.seq()[m]).0 == d;
                }
            }
        }
        let none: OrdSet<Digest> = OrdSet::new();
        let cl = match self.closure_from(&ks, &none) {
            Ok(c) => c,
            Err(d) => {
                proof {
                    assert(none@ =~= Set::<Digest>::empty());
                    assert(closure(g, st@.dom()).contains(d));
                }
                return None;
            },
        };
        proof {
            assert(none@ =~= Set::<Digest>::empty());
        }
        let ghost clset = closure(g, st@.dom());
        // Collect every digest that a closure member depends on.
        let mut dt: OrdSet<Digest> = OrdSet::new();
        let cln = cl.len();
        for i in 0..cln
            invariant
                cln == cl.seq().len(),
                self.wf(),
                g == self.spec_events(),
                cl.wf(),
                cl@ == clset,
                clset.subset_of(g.dom()),
                dt.wf(),
                dt@ == dep_targets(g, cl.seq().take(i as int).to_set()),
        {
            let h = cl.get_at(i);
            let e = match self.events.get(h) {
                Some(e) => e,
                None => {
                    proof {
                        self.lemma_events_view();
                        assert(false);
                    }
                    return None;
                },
            };
            proof {
                self.lemma_events_view();
            }
            let nd = e.deps.len();
            let ghost dtmid = dt@;
            for j in 0..nd
                invariant
                    nd == e.deps.seq().len(),
                    dt.wf(),
                    g.contains_key(h),
                    e@ == g[h],
                    forall|d: Digest|
                        #[trigger] dt@.contains(d) ==> (dtmid.contains(d) || g[
                            h].dep_set().contains(d)),
                    forall|d: Digest| dtmid.contains(d) ==> dt@.contains(d),
                    forall|k: int|
                        0 <= k < j ==> dt@.contains((#[trigger] e.deps.seq()[k]).0),
            {
                let (dd, _f) = e.deps.entry_at(j);
                proof {
                    assert(g[h].dep_set().contains(dd)) by {
                        assert(e.deps.seq()[j as int].0 == dd);
                    }
                }
                dt.insert(dd);
            }
            proof {
                assert(dt@ =~= dep_targets(g, cl.seq().take(i + 1).to_set())) by {
                    assert forall|d: Digest|
                        dt@.contains(d) implies dep_targets(
                        g,
                        cl.seq().take(i + 1).to_set(),
                    ).contains(d) by {
                        if dtmid.contains(d) {
                            let p = choose|p: Digest|
                                #[trigger] cl.seq().take(i as int).to_set().contains(p)
                                    && g.contains_key(p) && g[p].dep_set().contains(d);
                            let w = choose|w: int|
                                0 <= w < i && #[trigger] cl.seq().take(i as int)[w] == p;
                            assert(cl.seq().take(i + 1)[w] == p);
                            assert(cl.seq().take(i + 1).to_set().contains(p));
                        } else {
                            assert(cl.seq().take(i + 1)[i as int] == h);
                            assert(cl.seq().take(i + 1).to_set().contains(h));
                        }
                    }
                    assert forall|d: Digest|
                        dep_targets(g, cl.seq().take(i + 1).to_set()).contains(
                        d,
                    ) implies dt@.contains(d) by {
                        let p = choose|p: Digest|
                            #[trigger] cl.seq().take(i + 1).to_set().contains(p)
                                && g.contains_key(p) && g[p].dep_set().contains(d);
                        let w = choose|w: int|
                            0 <= w < i + 1 && #[trigger] cl.seq().take(i + 1)[w] == p;
                        if w < i {
                            assert(cl.seq().take(i as int)[w] == p);
                            assert(cl.seq().take(i as int).to_set().contains(p));
                            assert(dtmid.contains(d));
                        } else {
                            assert(p == h);
                            let u = choose|u: int|
                                0 <= u < g[h].deps.len() && (#[trigger] g[h].deps[u]).0
                                    == d;
                            assert(e.deps.seq()[u].0 == d);
                        }
                    }
                }
            }
        }
        proof {
            assert(cl.seq().take(cln as int) =~= cl.seq());
            assert(dt@ == dep_targets(g, clset));
        }
        // Rebuild the folded map in the closure's ascending order.
        let mut out: OrdMap<Digest, bool> = OrdMap::new();
        proof {
            assert(cl.seq().take(0) =~= Seq::<Digest>::empty());
            assert(cl.seq().take(0).to_set() =~= Set::<Digest>::empty());
            assert(out@.dom() =~= Set::<Digest>::empty());
            assert(Set::<Digest>::empty().difference(
                Set::new(|h: Digest| fold_flag(g, clset, st@, h)),
            ) =~= Set::<Digest>::empty());
        }
        for i in 0..cln
            invariant
                cln == cl.seq().len(),
                self.wf(),
                g == self.spec_events(),
                st.wf(),
                cl.wf(),
                cl@ == clset,
                dt.wf(),
                dt@ == dep_targets(g, clset),
                out.wf(),
                out@.dom().subset_of(cl.seq().take(i as int).to_set()),
                expand ==> out@.dom() == cl.seq().take(i as int).to_set(),
                expand ==> forall|h: Digest|
                    out@.contains_key(h) ==> out@[h] == fold_flag(g, clset, st@, h),
                !expand ==> out@.dom() == cl.seq().take(i as int).to_set().difference(
                    Set::new(|h: Digest| fold_flag(g, clset, st@, h)),
                ),
                !expand ==> forall|h: Digest|
                    out@.contains_key(h) ==> out@[h] == false,
        {
            let h = cl.get_at(i);
            let in_dt = dt.contains(h);
            let orig = match st.get(h) {
                Some(b) => *b,
                None => false,
            };
            let flag = in_dt || orig;
            proof {
                assert(flag == fold_flag(g, clset, st@, h));
                assert forall|p: int|
                    0 <= p < out.seq().len() implies (#[trigger] out.seq()[p]).0.lt_spec(
                    h,
                ) by {
                    out.lemma_at(p);
                    let x = out.seq()[p].0;
                    assert(cl.seq().take(i as int).to_set().contains(x));
                    let m = choose|m: int|
                        0 <= m < i && #[trigger] cl.seq().take(i as int)[m] == x;
                    assert(cl.seq()[m] == x);
                }
            }
            let ghost outprev = out;
            if expand {
                out.push_max(h, flag);
            } else if !flag {
                out.push_max(h, false);
            }
            proof {
                cl.lemma_no_duplicates();
                assert(cl.seq().take(i + 1).drop_last() =~= cl.seq().take(i as int));
                assert(cl.seq().take(i + 1).to_set() =~= cl.seq().take(
                    i as int,
                ).to_set().insert(h)) by {
                    assert forall|x: Digest|
                        cl.seq().take(i + 1).to_set().contains(x) implies cl.seq().take(
                        i as int,
                    ).to_set().insert(h).contains(x) by {
                        let w = choose|w: int|
                            0 <= w < i + 1 && #[trigger] cl.seq().take(i + 1)[w] == x;
                        if w < i {
                            assert(cl.seq().take(i as int)[w] == x);
                        }
                    }
                    assert forall|x: Digest|
                        cl.seq().take(i as int).to_set().insert(h).contains(
                        x,
                    ) implies cl.seq().take(i + 1).to_set().contains(x) by {
                        if x == h {
                            assert(cl.seq().take(i + 1)[i as int] == x);
                        } else {
                            let w = choose|w: int|
                                0 <= w < i && #[trigger] cl.seq().take(i as int)[w] == x;
                            assert(cl.seq().take(i + 1)[w] == x);
                        }
                    }
                }
                if expand {
                    assert(out@.dom() =~= cl.seq().take(i + 1).to_set());
                } else {
                    assert(out@.dom() =~= cl.seq().take(i + 1).to_set().difference(
                        Set::new(|x: Digest| fold_flag(g, clset, st@, x)),
                    ));
                }
            }
        }
        proof {
            assert(cl.seq().take(cln as int) =~= cl.seq());
            if expand {
                assert(out@.dom() == clset);
                assert forall|h: Digest| clset.contains(h) implies out@[h] == fold_flag(
                    g,
                    clset,
                    st@,
                    h,
                ) by {
                    assert(out@.contains_key(h));
                }
            } else {
                assert(out@.dom() == clset.difference(
                    Set::new(|h: Digest| fold_flag(g, clset, st@, h)),
                ));
            }
        }
        Some(out)
    }
}

impl Graph {
    /// Among events still to run, one of least rank is runnable: all its
    /// dependencies are already applied.
    proof fn lemma_replay_progress(
        &self,
        cl: Set<Digest>,
        tt0: Set<Digest>,
        applied: Set<Digest>,
    ) -> (m: Digest)
        requires
            self.wf(),
            cl.finite(),
            cl.subset_of(self.spec_events().dom()),
            forall|h: Digest|
                #[trigger] cl.contains(h) ==> self.spec_events()[h].dep_set().difference(
                    tt0,
                ).subset_of(cl),
            tt0.subset_of(applied),
            exists|h: Digest| #[trigger] cl.contains(h) && !applied.contains(h),
        ensures
            cl.contains(m),
            !applied.contains(m),
            self.spec_events()[m].dep_set().subset_of(applied),
    {
        let g = self.spec_events();
        let pending = cl.difference(applied);
        let w = choose|h: Digest| #[trigger] cl.contains(h) && !applied.contains(h);
        assert(pending.contains(w));
        vstd::set_lib::lemma_len_subset(pending, cl);
        assert(pending.len() > 0) by {
            vstd::set_lib::lemma_set_empty_equivalency_len(pending);
        }
        let m = lemma_min_rank(pending, self.spec_rank());
        assert forall|d: Digest| self.spec_events()[m].dep_set().contains(
            d,
        ) implies applied.contains(d) by {
            if !tt0.contains(d) {
                assert(cl.contains(d));
                assert(self.spec_rank()[d] < self.spec_rank()[m]);
                if !applied.contains(d) {
                    assert(pending.contains(d));
                }
            }
        }
        m
    }

    /// Produces a replay order for the requested events: a duplicate-free,
    /// topologically sorted listing of exactly the events the request still
    /// needs beyond `tt` — for every listed event, each dependency is in
    /// `tt` or listed earlier. Targets already in `tt` are skipped; an
    /// `IncludeOnlyDeps` target contributes only its transitive
    /// dependencies. Fails exactly when a pending target is not stored.
    pub fn calculate_dependencies(&self, tt: OrdSet<Digest>, evids: OrdMap<Digest, IncludeSpec>) -> (r:
        Result<Vec<crate::hash::Hash>, GraphError>)
        requires
            self.wf(),
            tt.wf(),
            evids.wf(),
        ensures
            ({
                let g = self.spec_events();
                let emitted = closure_except(g, replay_seeds(g, evids@, tt@), tt@);
                match r {
                    Ok(ret) => {
                        let ds = Seq::new(ret@.len(), |i: int| ret@[i].spec_digest());
                        &&& forall|i: int|
                            0 <= i < ret@.len() ==> ret@[i] == crate::hash::Hash::Blake2b512(
                                ds[i],
                            )
                        &&& ds.no_duplicates()
                        &&& ds.to_set() == emitted
                        &&& emitted.subset_of(g.dom())
                        &&& forall|i: int, d: Digest|
                            0 <= i < ds.len() && #[trigger] g[ds[i]].dep_set().contains(d)
                                ==> tt@.contains(d) || ds.take(i).to_set().contains(d)
                    },
                    Err(e) => {
                        &&& e matches GraphError::DependencyNotFound(h)
                        &&& !g.contains_key((e->DependencyNotFound_0).spec_digest())
                        &&& evids@.contains_key((e->DependencyNotFound_0).spec_digest())
                        &&& !tt@.contains((e->DependencyNotFound_0).spec_digest())
                    },
                }
            }),
            r is Ok <==> (forall|k: Digest|
                evids@.contains_key(k) && !tt@.contains(k) ==> self.spec_events().contains_key(
                    k,
                )),
    {
        let ghost g = self.spec_events();
        let mut seeds: OrdSet<Digest> = OrdSet::new();
        let ne = evids.len();
        for i in 0..ne
            invariant
                ne == evids.seq().len(),
                self.wf(),
                g == self.spec_events(),
                evids.wf(),
                seeds.wf(),
                forall|m: int|
                    0 <= m < i ==> (tt@.contains((#[trigger] evids.seq()[m]).0)
                        || g.contains_key(evids.seq()[m].0)),
                forall|d: Digest| #[trigger] seeds@.contains(d) ==> replay_seeds(
                    g,
                    evids@,
                    tt@,
                ).contains(d),
                forall|m: int|
                    #![trigger evids.seq()[m]]
                    0 <= m < i && !tt@.contains(evids.seq()[m].0) ==> {
                        &&& (evids.seq()[m].1 == IncludeSpec::IncludeAll ==> seeds@.contains(
                            evids.seq()[m].0,
                        ))
                        &&& g[evids.seq()[m].0].dep_set().subset_of(seeds@)
                    },
        {
            let (k, incl) = evids.entry_at(i);
            proof {
                evids.lemma_at(i as int);
            }
            if !tt.contains(k) {
                let e = match self.events.get(k) {
                    Some(e) => e,
                    None => {
                        proof {
                            self.lemma_events_view();
                        }
                        return Err(
                            GraphError::DependencyNotFound(crate::hash::Hash::from_digest(k)),
                        );
                    },
                };
                proof {
                    self.lemma_events_view();
                }
                if matches!(incl, IncludeSpec::IncludeAll) {
                    seeds.insert(k);
                }
                let nd = e.deps.len();
                let ghost smid = seeds@;
                for j in 0..nd
                    invariant
                        nd == e.deps.seq().len(),
                        seeds.wf(),
                        g.contains_key(k),
                        evids@.contains_key(k),
                        evids@[k] == incl,
                        !tt@.contains(k),
                        e@ == g[k],
                        g == self.spec_events(),
                        self.wf(),
                        forall|d: Digest|
                            smid.contains(d) ==> #[trigger] seeds@.contains(d),
                        forall|d: Digest| #[trigger] seeds@.contains(d) ==> (smid.contains(
                            d,
                        ) || g[k].dep_set().contains(d)),
                        forall|u: int|
                            0 <= u < j ==> seeds@.contains((#[trigger] e.deps.seq()[u]).0),
                {
                    let (dd, _f) = e.deps.entry_at(j);
                    proof {
                        assert(g[k].dep_set().contains(dd)) by {
                            assert(e.deps.seq()[j as int].0 == dd);
                        }
                    }
                    seeds.insert(dd);
                }
                proof {
                    assert forall|d: Digest|
                        #[trigger] seeds@.contains(d) implies replay_seeds(
                        g,
                        evids@,
                        tt@,
                    ).contains(d) by {
                        if !smid.contains(d) {
                            assert(g[k].dep_set().contains(d));
                            assert(seed_via(g, evids@, tt@, k, d));
                        }
                    }
                    assert(g[k].dep_set().subset_of(seeds@)) by {
                        assert forall|d: Digest|
                            g[k].dep_set().contains(d) implies seeds@.contains(d) by {
                            let u = choose|u: int|
                                0 <= u < g[k].deps.len() && (#[trigger] g[k].deps[u]).0 == d;
                            assert(e.deps.seq()[u].0 == d);
                        }
                    }
                }
            }
        }
        proof {
            assert(seeds@ =~= replay_seeds(g, evids@, tt@)) by {
                assert forall|d: Digest|
                    replay_seeds(g, evids@, tt@).contains(d) implies seeds@.contains(d) by {
                    if evids@.contains_key(d) && evids@[d] == IncludeSpec::IncludeAll
                        && !tt@.contains(d) {
                        evids.lemma_contains_key(d);
                        assert(exists|m: int|
                            0 <= m < evids.seq().len() && (#[trigger] evids.seq()[m]).0 == d);
                        let m = choose|m: int|
                            0 <= m < evids.seq().len() && (#[trigger] evids.seq()[m]).0 == d;
                        assert(evids.seq()[m].0 == d);
                        evids.lemma_at(m);
                        assert(evids.seq()[m].1 == IncludeSpec::IncludeAll);
                        assert(seeds@.contains(d));
                    } else {
                        assert(is_replay_seed(g, evids@, tt@, d));
                        let k = choose|k: Digest| #[trigger] seed_via(g, evids@, tt@, k, d);
                        assert(seed_via(g, evids@, tt@, k, d));
                        evids.lemma_contains_key(k);
                        assert(exists|m: int|
                            0 <= m < evids.seq().len() && (#[trigger] evids.seq()[m]).0 == k);
                        let m = choose|m: int|
                            0 <= m < evids.seq().len() && (#[trigger] evids.seq()[m]).0 == k;
                        assert(evids.seq()[m].0 == k);
                        evids.lemma_at(m);
                        assert(g[evids.seq()[m].0].dep_set().subset_of(seeds@));
                        assert(seeds@.contains(d));
                    }
                }
            }
            assert forall|k: Digest|
                evids@.contains_key(k) && !tt@.contains(k) implies g.contains_key(k) by {
                evids.lemma_contains_key(k);
                let m = choose|m: int|
                    0 <= m < evids.seq().len() && (#[trigger] evids.seq()[m]).0 == k;
                evids.lemma_at(m);
            }
        }
        let cl = match self.closure_from(&seeds, &tt) {
            Ok(c) => c,
            Err(d) => {
                proof {
                    lemma_closure_except_bounded(g, seeds@, tt@);
                    assert(false);
                }
                return Err(GraphError::DependencyNotFound(crate::hash::Hash::from_digest(d)));
            },
        };
        let ghost emitted = closure_except(g, seeds@, tt@);
        let total = cl.len();
        let mut applied = tt;
        let mut ret: Vec<crate::hash::Hash> = Vec::new();
        proof {
            lemma_closure_except_basic(g, seeds@, tt@);
            lemma_closure_except_disjoint(g, seeds@, tt@);
            cl.lemma_no_duplicates();
        }
        while ret.len() < total
            invariant
                self.wf(),
                g == self.spec_events(),
                cl.wf(),
                cl@ == emitted,
                total == cl.seq().len(),
                emitted.subset_of(g.dom()),
                emitted.disjoint(tt@),
                emitted.len() == total,
                emitted.finite(),
                forall|h: Digest|
                    #[trigger] emitted.contains(h) ==> g[h].dep_set().difference(
                        tt@,
                    ).subset_of(emitted),
                applied.wf(),
                ret@.len() <= total,
                ({
                    let ds = Seq::new(ret@.len(), |i: int| ret@[i].spec_digest());
                    &&& forall|i: int|
                        0 <= i < ret@.len() ==> ret@[i] == crate::hash::Hash::Blake2b512(
                            #[trigger] ds[i],
                        )
                    &&& ds.no_duplicates()
                    &&& ds.to_set().subset_of(emitted)
                    &&& applied@ == tt@.union(ds.to_set())
                    &&& forall|i: int, d: Digest|
                        0 <= i < ds.len() && #[trigger] g[ds[i]].dep_set().contains(d)
                            ==> tt@.contains(d) || ds.take(i).to_set().contains(d)
                }),
            decreases total - ret.len(),
        {
            let ghost ds = Seq::new(ret@.len(), |i: int| ret@[i].spec_digest());
            proof {
                // Some emitted-set member is still pending, so a least-rank
                // pending member is runnable.
                assert(exists|h: Digest|
                    #[trigger] emitted.contains(h) && !applied@.contains(h)) by {
                    ds.unique_seq_to_set();
                    vstd::set_lib::lemma_len_subset(ds.to_set(), emitted);
                    if forall|h: Digest| #[trigger] emitted.contains(h) ==> applied@.contains(
                        h,
                    ) {
                        assert(emitted.subset_of(ds.to_set())) by {
                            assert forall|h: Digest|
                                emitted.contains(h) implies ds.to_set().contains(h) by {
                                assert(applied@.contains(h));
                                assert(!tt@.contains(h));
                            }
                        }
                        vstd::set_lib::lemma_len_subset(emitted, ds.to_set());
                    }
                }
            }
            let mut i: usize = 0;
            let mut emitted_one = false;
            loop
                invariant_except_break
                    !emitted_one,
                    i <= total,
                    ds == Seq::new(ret@.len(), |q: int| ret@[q].spec_digest()),
                    forall|m: int|
                        0 <= m < i ==> (applied@.contains(#[trigger] cl.seq()[m])
                            || !g[cl.seq()[m]].dep_set().subset_of(applied@)),
                    ret@.len() < total,
                    exists|h: Digest|
                        #[trigger] emitted.contains(h) && !applied@.contains(h),
                invariant
                    self.wf(),
                    g == self.spec_events(),
                    cl.wf(),
                    cl@ == emitted,
                    total == cl.seq().len(),
                    emitted.subset_of(g.dom()),
                    emitted.disjoint(tt@),
                    emitted.finite(),
                    forall|h: Digest|
                        #[trigger] emitted.contains(h) ==> g[h].dep_set().difference(
                            tt@,
                        ).subset_of(emitted),
                    applied.wf(),
                    ({
                        let ds = Seq::new(ret@.len(), |i: int| ret@[i].spec_digest());
                        &&& forall|i: int|
                            0 <= i < ret@.len() ==> ret@[i] == crate::hash::Hash::Blake2b512(
                                #[trigger] ds[i],
                            )
                        &&& ds.no_duplicates()
                        &&& ds.to_set().subset_of(emitted)
                        &&& applied@ == tt@.union(ds.to_set())
                        &&& forall|i: int, d: Digest|
                            0 <= i < ds.len() && #[trigger] g[ds[i]].dep_set().contains(d)
                                ==> tt@.contains(d) || ds.take(i).to_set().contains(d)
                    }),
                ensures
                    emitted_one,
                    ({
                        let ds = Seq::new(ret@.len(), |i: int| ret@[i].spec_digest());
                        &&& forall|i: int|
                            0 <= i < ret@.len() ==> ret@[i] == crate::hash::Hash::Blake2b512(
                                #[trigger] ds[i],
                            )
                        &&& ds.no_duplicates()
                        &&& ds.to_set().subset_of(emitted)
                        &&& applied@ == tt@.union(ds.to_set())
                        &&& forall|i: int, d: Digest|
                            0 <= i < ds.len() && #[trigger] g[ds[i]].dep_set().contains(d)
                                ==> tt@.contains(d) || ds.take(i).to_set().contains(d)
                    }),
                    ret@.len() == ds.len() + 1,
                decreases total - i,
            {
                if i >= total {
                    proof {
                        let m = self.lemma_replay_progress(emitted, tt@, applied@);
                        cl.lemma_contains(m);
                        let w = choose|w: int|
                            0 <= w < cl.seq().len() && cl.seq()[w] == m;
                        assert(applied@.contains(cl.seq()[w]) || !g[
                            cl.seq()[w]].dep_set().subset_of(applied@));
                        assert(false);
                    }
                    break ;
                }
                let h = cl.get_at(i);
                if !applied.contains(h) {
                    let e = match self.events.get(h) {
                        Some(e) => e,
                        None => {
                            proof {
                                self.lemma_events_view();
                                assert(false);
                            }
                            return Err(
                                GraphError::DependencyCircuit(
                                    crate::hash::Hash::from_digest(h),
                                ),
                            );
                        },
                    };
                    proof {
                        self.lemma_events_view();
                    }
                    let nd = e.deps.len();
                    let mut all_in: bool = true;
                    for j in 0..nd
                        invariant
                            nd == e.deps.seq().len(),
                            applied.wf(),
                            all_in ==> forall|u: int|
                                0 <= u < j ==> applied@.contains(
                                    (#[trigger] e.deps.seq()[u]).0,
                                ),
                            !all_in ==> exists|u: int|
                                0 <= u < nd && !applied@.contains(
                                    (#[trigger] e.deps.seq()[u]).0,
                                ),
                    {
                        let (dd, _f) = e.deps.entry_at(j);
                        if !applied.contains(dd) {
                            all_in = false;
                        }
                    }
                    if all_in {
                        proof {
                            assert(g[h].dep_set().subset_of(applied@)) by {
                                assert forall|d: Digest|
                                    g[h].dep_set().contains(d) implies applied@.contains(
                                    d,
                                ) by {
                                    let u = choose|u: int|
                                        0 <= u < g[h].deps.len() && (#[trigger] g[h].deps[
                                        u]).0 == d;
                                    assert(e.deps.seq()[u].0 == d);
                                }
                            }
                        }
                        ret.push(crate::hash::Hash::from_digest(h));
                        applied.insert(h);
                        emitted_one = true;
                        proof {
                            let ds2 = Seq::new(ret@.len(), |q: int| ret@[q].spec_digest());
                            assert(ds2.drop_last() =~= ds);
                            assert(ds2[ds2.len() - 1] == h);
                            assert(ds2.no_duplicates()) by {
                                assert forall|p: int, q: int|
                                    0 <= p < ds2.len() && 0 <= q < ds2.len() && p != q implies
                                    ds2[p] != ds2[q] by {
                                    if p < ds2.len() - 1 && q < ds2.len() - 1 {
                                        assert(ds[p] == ds2[p] && ds[q] == ds2[q]);
                                    } else if p == ds2.len() - 1 && q < ds2.len() - 1 {
                                        assert(!ds.to_set().contains(h) || false) by {
                                            if ds.to_set().contains(h) {
                                                assert(applied@.contains(h) || true);
                                            }
                                        }
                                        assert(ds2[q] != h) by {
                                            if ds[q] == h {
                                                assert(tt@.union(ds.to_set()).contains(h));
                                            }
                                        }
                                    } else if q == ds2.len() - 1 && p < ds2.len() - 1 {
                                        assert(ds2[p] != h) by {
                                            if ds[p] == h {
                                                assert(tt@.union(ds.to_set()).contains(h));
                                            }
                                        }
                                    }
                                }
                            }
                            assert(ds2.to_set() =~= ds.to_set().insert(h)) by {
                                assert forall|x: Digest|
                                    ds2.to_set().contains(x) implies ds.to_set().insert(
                                    h,
                                ).contains(x) by {
                                    let w = choose|w: int|
                                        0 <= w < ds2.len() && ds2[w] == x;
                                    if w < ds2.len() - 1 {
                                        assert(ds[w] == x);
                                    }
                                }
                                assert forall|x: Digest|
                                    ds.to_set().insert(h).contains(x) implies ds2.to_set().contains(
                                    x,
                                ) by {
                                    if x == h {
                                        assert(ds2[ds2.len() - 1] == x);
                                    } else {
                                        let w = choose|w: int| 0 <= w < ds.len() && ds[w] == x;
                                        assert(ds2[w] == x);
                                    }
                                }
                            }
                            assert(applied@ =~= tt@.union(ds2.to_set()));
                            assert forall|q: int, d: Digest|
                                0 <= q < ds2.len() && #[trigger] g[ds2[q]].dep_set().contains(
                                d,
                            ) implies tt@.contains(d) || ds2.take(q).to_set().contains(d) by {
                                if q < ds2.len() - 1 {
                                    assert(ds[q] == ds2[q]);
                                    assert(g[ds[q]].dep_set().contains(d));
                                    if !tt@.contains(d) {
                                        let w = choose|w: int|
                                            0 <= w < q && #[trigger] ds.take(q)[w] == d;
                                        assert(ds2.take(q)[w] == d);
                                    }
                                } else {
                                    // the freshly emitted event: its deps were
                                    // all applied before this step
                                    if !tt@.contains(d) {
                                        assert(g[h].dep_set().contains(d));
                                        assert(tt@.union(ds.to_set()).contains(d));
                                        let w = choose|w: int|
                                            0 <= w < ds.len() && #[trigger] ds[w] == d;
                                        assert(ds2.take(q)[w] == d);
                                    }
                                }
                            }
                        }
                        break ;
                    }
                }
                i = i + 1;
            }
        }
        proof {
            let ds = Seq::new(ret@.len(), |i: int| ret@[i].spec_digest());
            ds.unique_seq_to_set();
            assert(ds.to_set() =~= emitted) by {
                if !emitted.subset_of(ds.to_set()) {
                    let x = choose|x: Digest|
                        #[trigger] emitted.contains(x) && !ds.to_set().contains(x);
                    assert(ds.to_set().subset_of(emitted.remove(x)));
                    vstd::set_lib::lemma_len_subset(ds.to_set(), emitted.remove(x));
                }
            }
        }
        Ok(ret)
    }
}

/// Requesting a whole frontier in full replays exactly the frontier's
/// dependency closure.
pub proof fn lemma_closure_of_replay_seeds(
    g: Map<Digest, EventV>,
    m: Map<Digest, IncludeSpec>,
    s: Set<Digest>,
)
    requires
        m.dom() == s,
        forall|k: Digest| #[trigger] m.contains_key(k) ==> m[k] == IncludeSpec::IncludeAll,
    ensures
        closure_except(g, replay_seeds(g, m, Set::empty()), Set::empty()) == closure_except(
            g,
            s,
            Set::empty(),
        ),
{
    let rs = replay_seeds(g, m, Set::empty());
    let cls = closure_except(g, s, Set::empty());
    let clr = closure_except(g, rs, Set::empty());
    lemma_closure_except_basic(g, s, Set::empty());
    lemma_closure_except_basic(g, rs, Set::empty());
    assert(s.difference(Set::empty()) =~= s);
    assert(rs.difference(Set::empty()) =~= rs);
    assert(rs.subset_of(cls)) by {
        assert forall|d: Digest| rs.contains(d) implies cls.contains(d) by {
            assert(is_replay_seed(g, m, Set::empty(), d));
            if m.contains_key(d) && m[d] == IncludeSpec::IncludeAll && !Set::empty().contains(
                d,
            ) {
                assert(s.contains(d));
            } else {
                let k = choose|k: Digest| #[trigger] seed_via(g, m, Set::empty(), k, d);
                assert(s.contains(k));
                assert(cls.contains(k));
                assert(g[k].dep_set().difference(Set::empty()).subset_of(cls));
                assert(g[k].dep_set().difference(Set::empty()).contains(d));
            }
        }
    }
    lemma_closure_except_least(g, rs, Set::empty(), cls);
    assert(s.subset_of(rs)) by {
        assert forall|d: Digest| s.contains(d) implies rs.contains(d) by {
            assert(is_replay_seed(g, m, Set::empty(), d));
        }
    }
    lemma_closure_except_least(g, s, Set::empty(), clr);
    assert(clr =~= cls);
}

/// A replay whose requested events lie inside a closure stays inside it.
pub proof fn lemma_request_within_closure(
    g: Map<Digest, EventV>,
    targets: Map<Digest, IncludeSpec>,
    cl0: Set<Digest>,
    s0: Set<Digest>,
)
    requires
        cl0 == closure_except(g, s0, Set::empty()),
        forall|k: Digest| #[trigger] targets.contains_key(k) ==> cl0.contains(k),
    ensures
        closure_except(g, replay_seeds(g, targets, Set::empty()), Set::empty()).subset_of(
            cl0,
        ),
{
    let rs = replay_seeds(g, targets, Set::empty());
    lemma_closure_except_basic(g, s0, Set::empty());
    assert(rs.subset_of(cl0)) by {
        assert forall|d: Digest| rs.contains(d) implies cl0.contains(d) by {
            assert(is_replay_seed(g, targets, Set::empty(), d));
            if targets.contains_key(d) && targets[d] == IncludeSpec::IncludeAll
                && !Set::empty().contains(d) {
            } else {
                let k = choose|k: Digest| #[trigger] seed_via(g, targets, Set::empty(), k, d);
                assert(cl0.contains(k));
                assert(g[k].dep_set().difference(Set::empty()).subset_of(cl0));
                assert(g[k].dep_set().difference(Set::empty()).contains(d));
            }
        }
    }
    assert(rs.difference(Set::empty()) =~= rs);
    lemma_closure_except_least(g, rs, Set::empty(), cl0);
}

/// Content addressing: every stored event sits under the hash of its own
/// canonical encoding.
pub proof fn lemma_content_addressing(g: Graph)
    requires
        g.wf(),
    ensures
        forall|h: Digest|
            #[trigger] g.spec_events().contains_key(h) ==> h == event_digest(
                g.spec_events()[h],
            ),
{
}

/// Folding with expansion is idempotent: an expanded frontier is its own
/// closure, and folding it again changes no flag.
pub proof fn lemma_fold_expand_idempotent(
    g: Map<Digest, EventV>,
    st: Map<Digest, bool>,
    st2: Map<Digest, bool>,
)
    requires
        st2.dom() == closure(g, st.dom()),
        forall|h: Digest|
            #[trigger] st2.dom().contains(h) ==> st2[h] == fold_flag(
                g,
                closure(g, st.dom()),
                st,
                h,
            ),
    ensures
        closure(g, st2.dom()) == closure(g, st.dom()),
        st2.dom() == closure(g, st2.dom()),
        forall|h: Digest|
            #[trigger] st2.dom().contains(h) ==> st2[h] == fold_flag(
                g,
                closure(g, st2.dom()),
                st2,
                h,
            ),
{
    let cl = closure(g, st.dom());
    lemma_closure_except_basic(g, st.dom(), Set::empty());
    lemma_closure_except_basic(g, cl, Set::empty());
    assert(cl.difference(Set::empty()) =~= cl);
    assert(st.dom().difference(Set::empty()) =~= st.dom());
    lemma_closure_except_least(g, cl, Set::empty(), cl);
    assert(closure(g, cl) =~= cl);
    assert forall|h: Digest| #[trigger] st2.dom().contains(h) implies st2[h] == fold_flag(
        g,
        closure(g, st2.dom()),
        st2,
        h,
    ) by {
        assert(st2.contains_key(h));
    }
}

/// Folding without expansion is idempotent: compressing an already
/// compressed frontier returns it unchanged, entry for entry.
pub proof fn lemma_fold_compress_idempotent(
    g: Map<Digest, EventV>,
    st: Map<Digest, bool>,
    out: Map<Digest, bool>,
)
    requires
        out.dom() == closure(g, st.dom()).difference(
            Set::new(|h: Digest| fold_flag(g, closure(g, st.dom()), st, h)),
        ),
        forall|h: Digest| #[trigger] out.contains_key(h) ==> out[h] == false,
    ensures
        out.dom() == closure(g, out.dom()).difference(
            Set::new(|h: Digest| fold_flag(g, closure(g, out.dom()), out, h)),
        ),
{
    let cl = closure(g, st.dom());
    let cl2 = closure(g, out.dom());
    lemma_closure_except_basic(g, st.dom(), Set::empty());
    lemma_closure_except_basic(g, out.dom(), Set::empty());
    assert(out.dom().difference(Set::empty()) =~= out.dom());
    // The refolded frontier stays within the original closure.
    assert(cl2.subset_of(cl)) by {
        assert(st.dom().difference(Set::empty()) =~= st.dom());
        lemma_closure_except_least(g, out.dom(), Set::empty(), cl);
    }
    // Members of a closure that are not seeds are dependencies of members.
    assert(cl2.subset_of(out.dom().union(dep_targets(g, cl2)))) by {
        let t = out.dom().union(dep_targets(g, cl2).intersect(cl2));
        assert(closed_under_except(g, t, Set::empty())) by {
            assert forall|y: Digest| t.contains(y) && g.contains_key(y) implies (
            #[trigger] g[y]).dep_set().difference(Set::empty()).subset_of(t) by {
                assert(g[y].dep_set().difference(Set::empty()).subset_of(cl2)) by {
                    assert(cl2.contains(y));
                }
                assert forall|d: Digest| g[y].dep_set().contains(d) implies t.contains(
                    d,
                ) by {
                    assert(cl2.contains(d));
                    assert(dep_targets(g, cl2).contains(d)) by {
                        assert(cl2.contains(y) && g.contains_key(y)
                            && g[y].dep_set().contains(d));
                    }
                }
            }
        }
        lemma_closure_except_least(g, out.dom(), Set::empty(), t);
        assert forall|h: Digest| cl2.contains(h) implies out.dom().union(
            dep_targets(g, cl2),
        ).contains(h) by {
            assert(t.contains(h));
        }
    }
    assert(out.dom() =~= cl2.difference(
        Set::new(|h: Digest| fold_flag(g, cl2, out, h)),
    )) by {
        assert forall|h: Digest| out.dom().contains(h) implies cl2.contains(h) && !fold_flag(
            g,
            cl2,
            out,
            h,
        ) by {
            assert(cl2.contains(h));
            if dep_targets(g, cl2).contains(h) {
                let p = choose|p: Digest|
                    #[trigger] cl2.contains(p) && g.contains_key(p)
                        && g[p].dep_set().contains(h);
                assert(dep_targets(g, cl).contains(h)) by {
                    assert(cl.contains(p));
                }
                assert(fold_flag(g, cl, st, h));
            }
            assert(out[h] == false);
        }
        assert forall|h: Digest|
            cl2.contains(h) && !fold_flag(g, cl2, out, h) implies out.dom().contains(
            h,
        ) by {
            if !out.dom().contains(h) {
                assert(dep_targets(g, cl2).contains(h));
            }
        }
    }
}

/// The listing `print_deps` produces: each hash's textual form on its own
/// line, after the prefix.
pub open spec fn deps_listing(pfx: Seq<char>, ds: Seq<crate::hash::Hash>) -> Seq<char>
    decreases ds.len(),
{
    if ds.len() == 0 {
        Seq::empty()
    } else {
        deps_listing(pfx, ds.drop_last()) + pfx + crate::hash::hash_chars(ds.last()) + seq![
            '\n',
        ]
    }
}

/// Formats each hash on its own line, after the given prefix.
pub fn print_deps(pfx: &str, deps: &Vec<crate::hash::Hash>) -> (r: String)
    ensures
        r@ == deps_listing(pfx@, deps@),
{
    let mut out = String::new();
    let n = deps.len();
    for i in 0..n
        invariant
            n == deps@.len(),
            out@ == deps_listing(pfx@, deps@.take(i as int)),
    {
        out.append(pfx);
        let txt = deps[i].format();
        out.append(txt.as_str());
        out.append("\n");
        proof {
            reveal_strlit("\n");
            assert(deps@.take(i + 1).drop_last() =~= deps@.take(i as int));
            assert(deps@.take(i + 1).last() == deps@[i as int]);
            assert(out@ =~= deps_listing(pfx@, deps@.take(i + 1)));
        }
    }
    proof {
        assert(deps@.take(n as int) =~= deps@);
    }
    out
}

/// An upper bound for the ranks of the listed digests.
pub open spec fn seq_max_rank(rank: Map<Digest, nat>, ds: Seq<(Digest, bool)>) -> nat
    decreases ds.len(),
{
    if ds.len() == 0 {
        0
    } else {
        let rest = seq_max_rank(rank, ds.drop_last());
        let last = if rank.contains_key(ds.last().0) {
            rank[ds.last().0]
        } else {
            0
        };
        if last > rest {
            last
        } else {
            rest
        }
    }
}

pub proof fn lemma_seq_max_rank(rank: Map<Digest, nat>, ds: Seq<(Digest, bool)>)
    ensures
        forall|i: int|
            0 <= i < ds.len() && rank.contains_key((#[trigger] ds[i]).0) ==> rank[ds[i].0]
                <= seq_max_rank(rank, ds),
    decreases ds.len(),
{
    if ds.len() > 0 {
        lemma_seq_max_rank(rank, ds.drop_last());
        assert forall|i: int|
            0 <= i < ds.len() && rank.contains_key((#[trigger] ds[i]).0) implies rank[
            ds[i].0] <= seq_max_rank(rank, ds) by {
            if i < ds.len() - 1 {
                assert(ds.drop_last()[i] == ds[i]);
            }
        }
    }
}

/// Character-by-character equality of two names of the same length.
fn str_eq(a: &str, b: &str) -> (r: bool)
    requires
        a@.len() == b@.len(),
    ensures
        r == (a@ == b@),
{
    let n = a.unicode_len();
    for i in 0..n
        invariant
            n == a@.len(),
            n == b@.len(),
            forall|m: int| 0 <= m < i ==> a@[m] == b@[m],
    {
        if a.get_char(i) != b.get_char(i) {
            return false;
        }
    }
    proof {
        assert(a@ =~= b@);
    }
    true
}

/// Field-by-field event comparison, at the level of views.
pub fn event_eq(a: &Event, b: &Event) -> (r: bool)
    ensures
        r == (a@ == b@),
{
    if a.cmd != b.cmd {
        proof {
            assert(a@.cmd != b@.cmd);
        }
        return false;
    }
    if a.arg.len() != b.arg.len() {
        return false;
    }
    let n = a.arg.len();
    for i in 0..n
        invariant
            n == a.arg@.len(),
            n == b.arg@.len(),
            forall|m: int| 0 <= m < i ==> a.arg@[m] == b.arg@[m],
    {
        if a.arg[i] != b.arg[i] {
            return false;
        }
    }
    proof {
        assert(a.arg@ =~= b.arg@);
    }
    if a.deps.len() != b.deps.len() {
        return false;
    }
    let m = a.deps.len();
    for i in 0..m
        invariant
            m == a.deps.seq().len(),
            m == b.deps.seq().len(),
            a.arg@ == b.arg@,
            a.cmd == b.cmd,
            forall|j: int| 0 <= j < i ==> a.deps.seq()[j] == b.deps.seq()[j],
    {
        let (da, fa) = a.deps.entry_at(i);
        let (db, fb) = b.deps.entry_at(i);
        if !da.eq_key(db) || fa != fb {
            proof {
                assert(a.deps.seq()[i as int] != b.deps.seq()[i as int]);
            }
            return false;
        }
    }
    proof {
        assert(a.deps.seq() =~= b.deps.seq());
        assert(a@ =~= b@);
    }
    true
}

} // verus!
