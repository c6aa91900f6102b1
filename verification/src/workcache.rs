//! The replay cache: payloads memoized by the exact set of applied events.
//! The set is the only correct key, because different orders of commuting
//! events reach the same payload. Entries are written once and the cache
//! only grows; every entry is justified by a topologically valid replay
//! from the initial payload.

use vstd::prelude::*;

use crate::codec::Event;
use crate::codec::EventV;
use crate::engine::Engine;
use crate::graph::closure_except;
use crate::graph::replay_seeds;
use crate::graph::Graph;
use crate::graph::GraphError;
use crate::graph::IncludeSpec;
use crate::hash::Digest;
use crate::ord::OrdMap;
use crate::ord::OrdSet;
use crate::ord::OrderedKey;

verus! {

broadcast use crate::ord::OrdSet::lemma_view_is_seq_set;

#[derive(Debug)]
pub enum WorkCacheError<EE> {
    CommandNotFound(u32),
    Graph(GraphError),
    HashChangeAtMerge(crate::hash::Hash, crate::hash::Hash),
    NoopAtMerge(crate::hash::Hash),
    Engine(EE),
}

/// The payload reached by applying the listed events in order, starting
/// from `init`. Fails if any event is missing or any application fails.
pub open spec fn run_seq<En: Engine>(
    en: &En,
    g: Map<Digest, EventV>,
    init: Seq<u8>,
    order: Seq<Digest>,
) -> Option<Seq<u8>>
    decreases order.len(),
{
    if order.len() == 0 {
        Some(init)
    } else {
        match run_seq(en, g, init, order.drop_last()) {
            None => None,
            Some(st) => {
                if g.contains_key(order.last()) {
                    en.run_spec(g[order.last()].cmd, g[order.last()].arg, st)
                } else {
                    None
                }
            },
        }
    }
}

/// `order` lists the members of `s` exactly once, dependencies first.
pub open spec fn topo_ok(g: Map<Digest, EventV>, order: Seq<Digest>, s: Set<Digest>) -> bool {
    &&& order.no_duplicates()
    &&& order.to_set() == s
    &&& forall|i: int|
        0 <= i < order.len() ==> g.contains_key(#[trigger] order[i])
    &&& forall|i: int, d: Digest|
        0 <= i < order.len() && #[trigger] g[order[i]].dep_set().contains(d)
            ==> order.take(i).to_set().contains(d)
}

/// A cache entry is correct: some topologically valid replay of its key
/// produces its payload.
pub open spec fn entry_ok<En: Engine>(
    en: &En,
    g: Map<Digest, EventV>,
    init: Seq<u8>,
    s: Set<Digest>,
    p: Seq<u8>,
) -> bool {
    exists|order: Seq<Digest>|
        #[trigger] topo_ok(g, order, s) && run_seq(en, g, init, order) == Some(p)
}

/// The memoized replay cache over a borrowed executor.
pub struct WorkCache<'a, En: Engine> {
    engine: &'a En,
    sts: Vec<(OrdSet<Digest>, Vec<u8>)>,
    init: Ghost<Seq<u8>>,
}

impl<'a, En: Engine> WorkCache<'a, En> {
    pub closed spec fn spec_engine(self) -> &'a En {
        self.engine
    }

    pub closed spec fn spec_init(self) -> Seq<u8> {
        self.init@
    }

    pub closed spec fn spec_cache(self) -> Seq<(Set<Digest>, Seq<u8>)> {
        self.sts@.map_values(|p: (OrdSet<Digest>, Vec<u8>)| (p.0@, p.1@))
    }

    pub open spec fn has_entry(self, s: Set<Digest>, p: Seq<u8>) -> bool {
        exists|i: int|
            0 <= i < self.spec_cache().len() && #[trigger] self.spec_cache()[i] == (s, p)
    }

    pub closed spec fn keys_wf(self) -> bool {
        forall|i: int| 0 <= i < self.sts@.len() ==> (#[trigger] self.sts@[i]).0.wf()
    }

    /// Every entry of the cache is a true replay over `g` of its key set,
    /// and entries are written once: the cache is a function of the set.
    pub open spec fn wf(self, g: Map<Digest, EventV>) -> bool {
        &&& self.keys_wf()
        &&& self.has_entry(Set::empty(), self.spec_init())
        &&& forall|i: int, j: int|
            0 <= i < j < self.spec_cache().len() ==> (#[trigger] self.spec_cache()[i]).0 != (
            #[trigger] self.spec_cache()[j]).0
        &&& forall|i: int|
            0 <= i < self.spec_cache().len() ==> entry_ok(
                self.spec_engine(),
                g,
                self.spec_init(),
                (#[trigger] self.spec_cache()[i]).0,
                self.spec_cache()[i].1,
            )
    }

    /// With write-once entries, a set determines its cached payload.
    pub proof fn lemma_entry_unique(self, g: Map<Digest, EventV>, s: Set<Digest>, p1: Seq<u8>, p2: Seq<u8>)
        requires
            self.wf(g),
            self.has_entry(s, p1),
            self.has_entry(s, p2),
        ensures
            p1 == p2,
    {
        let i = choose|i: int|
            0 <= i < self.spec_cache().len() && #[trigger] self.spec_cache()[i] == (s, p1);
        let j = choose|j: int|
            0 <= j < self.spec_cache().len() && #[trigger] self.spec_cache()[j] == (s, p2);
        if i != j {
            if i < j {
                assert(self.spec_cache()[i].0 != self.spec_cache()[j].0);
            } else {
                assert(self.spec_cache()[j].0 != self.spec_cache()[i].0);
            }
        }
    }

    pub fn new(engine: &'a En, init_data: Vec<u8>) -> (r: Self)
        ensures
            r.spec_engine() == engine,
            r.spec_init() == init_data@,
            forall|g: Map<Digest, EventV>| #[trigger] r.wf(g),
            r.has_entry(Set::empty(), init_data@),
    {
        let mut sts: Vec<(OrdSet<Digest>, Vec<u8>)> = Vec::new();
        let empty = OrdSet::new();
        let ghost iv = init_data@;
        sts.push((empty, init_data));
        let r = WorkCache { engine, sts, init: Ghost(iv) };
        proof {
            assert(r.spec_cache()[0] == (Set::<Digest>::empty(), iv));
            assert forall|g: Map<Digest, EventV>| #[trigger] r.wf(g) by {
                assert forall|i: int|
                    0 <= i < r.spec_cache().len() implies entry_ok(
                    r.spec_engine(),
                    g,
                    r.spec_init(),
                    (#[trigger] r.spec_cache()[i]).0,
                    r.spec_cache()[i].1,
                ) by {
                    let order = Seq::<Digest>::empty();
                    assert(topo_ok(g, order, Set::empty())) by {
                        assert(order.to_set() =~= Set::<Digest>::empty());
                    }
                    assert(run_seq(r.spec_engine(), g, iv, order) == Some(iv));
                }
            }
        }
        r
    }

    /// Looks a payload up under the exact set of applied events.
    fn lookup(&self, key: &OrdSet<Digest>) -> (r: Option<&Vec<u8>>)
        requires
            key.wf(),
            self.keys_wf(),
        ensures
            match r {
                Some(p) => self.has_entry(key@, p@),
                None => forall|p: Seq<u8>| !self.has_entry(key@, p),
            },
    {
        let n = self.sts.len();
        for i in 0..n
            invariant
                n == self.sts@.len(),
                key.wf(),
                self.keys_wf(),
                forall|m: int| 0 <= m < i ==> (#[trigger] self.sts@[m]).0@ != key@,
        {
            if self.sts[i].0.eq_set(key) {
                proof {
                    assert(self.sts@[i as int].0.seq() == key.seq());
                    assert(self.sts@[i as int].0@ == key@);
                    assert(self.spec_cache()[i as int] == (key@, self.sts@[i as int].1@));
                }
                return Some(&self.sts[i].1);
            }
            proof {
                if self.sts@[i as int].0@ == key@ {
                    crate::ord::OrdSet::lemma_canonical(self.sts@[i as int].0, *key);
                }
            }
        }
        proof {
            assert forall|p: Seq<u8>| !self.has_entry(key@, p) by {
                if self.has_entry(key@, p) {
                    let w = choose|w: int|
                        0 <= w < self.spec_cache().len() && #[trigger] self.spec_cache()[w]
                            == (key@, p);
                    assert(self.sts@[w].0@ == key@);
                }
            }
        }
        None
    }

    /// Replays the given events in order on top of the payload cached for
    /// `tt`, memoizing every intermediate set. The order must be
    /// topologically valid relative to `tt`, duplicate-free and disjoint
    /// from `tt`, as `calculate_dependencies` produces it.
    fn run_deps(&mut self, graph: &Graph, tt: OrdSet<Digest>, deps: &Vec<crate::hash::Hash>) -> (r:
        Result<(Vec<u8>, OrdSet<Digest>), WorkCacheError<En::Error>>)
        requires
            graph.wf(),
            old(self).wf(graph.spec_events()),
            tt.wf(),
            ({
                let g = graph.spec_events();
                let ds = Seq::new(deps@.len(), |i: int| deps@[i].spec_digest());
                &&& ds.no_duplicates()
                &&& forall|i: int|
                    0 <= i < ds.len() ==> g.contains_key(#[trigger] ds[i]) && !tt@.contains(
                        ds[i],
                    )
                &&& forall|i: int, d: Digest|
                    0 <= i < ds.len() && #[trigger] g[ds[i]].dep_set().contains(d)
                        ==> tt@.contains(d) || ds.take(i).to_set().contains(d)
            }),
        ensures
            final(self).wf(graph.spec_events()),
            final(self).spec_engine() == old(self).spec_engine(),
            final(self).spec_init() == old(self).spec_init(),
            forall|s: Set<Digest>, p: Seq<u8>|
                old(self).has_entry(s, p) ==> #[trigger] final(self).has_entry(s, p),
            ({
                let ds = Seq::new(deps@.len(), |i: int| deps@[i].spec_digest());
                match r {
                    Ok(out) => {
                        &&& out.1.wf()
                        &&& out.1@ == tt@.union(ds.to_set())
                        &&& final(self).has_entry(out.1@, out.0@)
                    },
                    Err(e) => {
                        ||| (e matches WorkCacheError::Graph(ge) && ge
                            == GraphError::DatasetNotFound && (forall|p: Seq<u8>|
                            !old(self).has_entry(tt@, p)))
                        ||| e matches WorkCacheError::Engine(_)
                    },
                }
            }),
            match r {
                Err(WorkCacheError::Graph(_)) => *final(self) == *old(self),
                _ => true,
            },
    {
        let ghost g = graph.spec_events();
        let ghost ds = Seq::new(deps@.len(), |i: int| deps@[i].spec_digest());
        let ghost en0 = self.spec_engine();
        let ghost init0 = self.spec_init();
        let mut cur: Vec<u8> = match self.lookup(&tt) {
            Some(p) => clone_bytes(p),
            None => {
                return Err(WorkCacheError::Graph(GraphError::DatasetNotFound));
            },
        };
        let mut cur_tt = tt;
        let n = deps.len();
        proof {
            assert(ds.take(0) =~= Seq::<Digest>::empty());
            assert(cur_tt@ =~= tt@.union(ds.take(0).to_set()));
            assert(self.has_entry(tt@.union(ds.take(0).to_set()), cur@));
        }
        for i in 0..n
            invariant
                n == deps@.len(),
                ds == Seq::new(deps@.len(), |q: int| deps@[q].spec_digest()),
                graph.wf(),
                g == graph.spec_events(),
                self.wf(g),
                self.spec_engine() == en0,
                self.spec_init() == init0,
                en0 == old(self).spec_engine(),
                init0 == old(self).spec_init(),
                tt.wf(),
                cur_tt.wf(),
                cur_tt@ == tt@.union(ds.take(i as int).to_set()),
                self.has_entry(cur_tt@, cur@),

                forall|s: Set<Digest>, p: Seq<u8>|
                    old(self).has_entry(s, p) ==> #[trigger] self.has_entry(s, p),
                ds.no_duplicates(),
                forall|q: int|
                    0 <= q < ds.len() ==> g.contains_key(#[trigger] ds[q]) && !tt@.contains(
                        ds[q],
                    ),
                forall|q: int, d: Digest|
                    0 <= q < ds.len() && #[trigger] g[ds[q]].dep_set().contains(d)
                        ==> tt@.contains(d) || ds.take(q).to_set().contains(d),
        {
            let evid = deps[i].digest();
            proof {
                assert(evid == ds[i as int]);
            }
            let e = match graph.get_event(evid) {
                Some(e) => e,
                None => {
                    proof {
                        assert(false);
                    }
                    return Err(WorkCacheError::Graph(GraphError::DatasetNotFound));
                },
            };
            let mut nt = cur_tt.clone();
            nt.insert(evid);
            proof {
                crate::ord::lemma_take_push(ds, i as int);
                assert(nt@ =~= tt@.union(ds.take(i + 1).to_set()));
            }
            let hit = self.lookup(&nt);
            match hit {
                Some(p) => {
                    cur = clone_bytes(p);
                },
                None => {
                    let out = match self.engine.run_event_bare(e.cmd, &e.arg, &cur) {
                        Ok(o) => o,
                        Err(er) => {
                            return Err(WorkCacheError::Engine(er));
                        },
                    };
                    proof {
                        // Extend the current entry's replay witness by the
                        // event just applied.
                        let w = choose|w: int|
                            0 <= w < self.spec_cache().len() && #[trigger] self.spec_cache()[
                            w] == (cur_tt@, cur@);
                        assert(entry_ok(en0, g, init0, cur_tt@, cur@));
                        let order0 = choose|order0: Seq<Digest>|
                            #[trigger] topo_ok(g, order0, cur_tt@) && run_seq(
                                en0,
                                g,
                                init0,
                                order0,
                            ) == Some(cur@);
                        let order1 = order0.push(evid);
                        assert(entry_ok(en0, g, init0, nt@, out@)) by {
                            assert(topo_ok(g, order1, nt@)) by {
                                assert(order1.drop_last() =~= order0);
                                assert(!cur_tt@.contains(evid)) by {
                                    if ds.take(i as int).to_set().contains(evid) {
                                        let u = choose|u: int|
                                            0 <= u < i && #[trigger] ds.take(i as int)[u]
                                                == evid;
                                        assert(ds[u] == ds[i as int]);
                                    }
                                }
                                assert(order1.no_duplicates()) by {
                                    assert(!order0.contains(evid));
                                }
                                assert(order1.to_set() =~= nt@) by {
                                    assert forall|x: Digest|
                                        order1.to_set().contains(x) implies nt@.contains(
                                        x,
                                    ) by {
                                        let u = choose|u: int|
                                            0 <= u < order1.len() && #[trigger] order1[u]
                                                == x;
                                        if u < order1.len() - 1 {
                                            assert(order0[u] == x);
                                        }
                                    }
                                    assert forall|x: Digest|
                                        nt@.contains(x) implies order1.to_set().contains(
                                        x,
                                    ) by {
                                        if x == evid {
                                            assert(order1[order1.len() - 1] == x);
                                        } else {
                                            assert(cur_tt@.contains(x));
                                            let u = choose|u: int|
                                                0 <= u < order0.len() && #[trigger] order0[u]
                                                    == x;
                                            assert(order1[u] == x);
                                        }
                                    }
                                }
                                assert forall|q: int, d: Digest|
                                    0 <= q < order1.len() && #[trigger] g[
                                    order1[q]].dep_set().contains(d) implies order1.take(
                                    q,
                                ).to_set().contains(d) by {
                                    if q < order1.len() - 1 {
                                        assert(order0[q] == order1[q]);
                                        assert(order0.take(q) =~= order1.take(q));
                                    } else {
                                        assert(order1[q] == evid);
                                        assert(g[ds[i as int]].dep_set().contains(d));
                                        assert(tt@.contains(d) || ds.take(
                                            i as int,
                                        ).to_set().contains(d));
                                        assert(cur_tt@.contains(d));
                                        assert(order1.take(q) =~= order0);
                                    }
                                }
                            }
                            assert(run_seq(en0, g, init0, order1) == Some(out@)) by {
                                assert(order1.drop_last() =~= order0);
                                assert(order1.last() == evid);
                                assert(g[evid] == e@);
                            }
                        }
                    }
                    let nt2 = nt.clone();
                    let val2 = clone_bytes(&out);
                    self.insert_entry(Ghost(g), nt2, val2);
                    cur = out;
                },
            }
            cur_tt = nt;
        }
        proof {
            assert(ds.take(n as int) =~= ds);
        }
        Ok((cur, cur_tt))
    }

    /// Replays the requested events (and, transitively, everything they
    /// depend on) from the initial payload, returning the final payload
    /// and the exact set of applied events.
    pub fn run_foreach_recursively(&mut self, graph: &Graph, evids: OrdMap<Digest, IncludeSpec>) -> (r:
        Result<(Vec<u8>, OrdSet<Digest>), WorkCacheError<En::Error>>)
        requires
            graph.wf(),
            old(self).wf(graph.spec_events()),
            evids.wf(),
        ensures
            final(self).wf(graph.spec_events()),
            final(self).spec_engine() == old(self).spec_engine(),
            final(self).spec_init() == old(self).spec_init(),
            forall|s: Set<Digest>, p: Seq<u8>|
                old(self).has_entry(s, p) ==> #[trigger] final(self).has_entry(s, p),
            ({
                let g = graph.spec_events();
                match r {
                    Ok(out) => {
                        &&& out.1.wf()
                        &&& out.1@ == closure_except(
                            g,
                            replay_seeds(g, evids@, Set::empty()),
                            Set::empty(),
                        )
                        &&& final(self).has_entry(out.1@, out.0@)
                        &&& forall|k: Digest|
                            #[trigger] evids@.contains_key(k) ==> g.contains_key(k)
                    },
                    Err(e) => {
                        ||| (e matches WorkCacheError::Graph(ge) && ge matches
                            GraphError::DependencyNotFound(h) && !g.contains_key(
                            h.spec_digest(),
                        ) && evids@.contains_key(h.spec_digest()))
                        ||| e matches WorkCacheError::Engine(_)
                    },
                }
            }),
    {
        let ghost g = graph.spec_events();
        let empty: OrdSet<Digest> = OrdSet::new();
        proof {
            assert(empty@ =~= Set::<Digest>::empty());
        }
        let order = match graph.calculate_dependencies(empty, evids) {
            Ok(o) => o,
            Err(ge) => {
                return Err(WorkCacheError::Graph(ge));
            },
        };
        let tt0: OrdSet<Digest> = OrdSet::new();
        proof {
            assert(tt0@ =~= Set::<Digest>::empty());
            let ds = Seq::new(order@.len(), |i: int| order@[i].spec_digest());
            assert forall|i: int| 0 <= i < ds.len() implies g.contains_key(#[trigger] ds[i])
                && !tt0@.contains(ds[i]) by {
                assert(ds.to_set().contains(ds[i]));
            }
        }
        match self.run_deps(graph, tt0, &order) {
            Ok(out) => {
                proof {
                    let ds = Seq::new(order@.len(), |i: int| order@[i].spec_digest());
                    assert(out.1@ =~= closure_except(
                        g,
                        replay_seeds(g, evids@, Set::empty()),
                        Set::empty(),
                    ));
                }
                Ok(out)
            },
            Err(e) => {
                proof {
                    if e matches WorkCacheError::Graph(_) {
                        assert(old(self).has_entry(Set::empty(), old(self).spec_init()));
                        assert(false);
                    }
                }
                Err(e)
            },
        }
    }

    /// Replays one event (or, with `IncludeOnlyDeps`, only its transitive
    /// dependencies) on top of the already applied set `tt`.
    pub fn run_recursively(
        &mut self,
        graph: &Graph,
        tt: OrdSet<Digest>,
        target: Digest,
        incl: IncludeSpec,
    ) -> (r: Result<(Vec<u8>, OrdSet<Digest>), WorkCacheError<En::Error>>)
        requires
            graph.wf(),
            old(self).wf(graph.spec_events()),
            tt.wf(),
        ensures
            final(self).wf(graph.spec_events()),
            final(self).spec_engine() == old(self).spec_engine(),
            final(self).spec_init() == old(self).spec_init(),
            forall|s: Set<Digest>, p: Seq<u8>|
                old(self).has_entry(s, p) ==> #[trigger] final(self).has_entry(s, p),
            ({
                let g = graph.spec_events();
                let req = Map::<Digest, IncludeSpec>::empty().insert(target, incl);
                match r {
                    Ok(out) => {
                        &&& out.1.wf()
                        &&& out.1@ == tt@.union(closure_except(g, replay_seeds(g, req, tt@), tt@))
                        &&& final(self).has_entry(out.1@, out.0@)
                    },
                    Err(e) => {
                        ||| (e matches WorkCacheError::Graph(ge) && ge matches
                            GraphError::DependencyNotFound(h) && h.spec_digest() == target
                            && !g.contains_key(target) && !tt@.contains(target))
                        ||| (e matches WorkCacheError::Graph(ge) && ge
                            == GraphError::DatasetNotFound && (forall|p: Seq<u8>|
                            !old(self).has_entry(tt@, p)))
                        ||| e matches WorkCacheError::Engine(_)
                    },
                }
            }),
    {
        let ghost g = graph.spec_events();
        let mut evids: OrdMap<Digest, IncludeSpec> = OrdMap::new();
        evids.insert(target, incl);
        let order = match graph.calculate_dependencies(tt.clone(), evids) {
            Ok(o) => o,
            Err(ge) => {
                proof {
                    assert(ge matches GraphError::DependencyNotFound(_));
                }
                return Err(WorkCacheError::Graph(ge));
            },
        };
        proof {
            let req = Map::<Digest, IncludeSpec>::empty().insert(target, incl);
            crate::graph::lemma_closure_except_disjoint(g, replay_seeds(g, req, tt@), tt@);
            let ds = Seq::new(order@.len(), |i: int| order@[i].spec_digest());
            assert forall|i: int| 0 <= i < ds.len() implies g.contains_key(#[trigger] ds[i])
                && !tt@.contains(ds[i]) by {
                assert(ds.to_set().contains(ds[i]));
            }
        }
        match self.run_deps(graph, tt, &order) {
            Ok(out) => {
                proof {
                    let ds = Seq::new(order@.len(), |i: int| order@[i].spec_digest());
                    let req = Map::<Digest, IncludeSpec>::empty().insert(target, incl);
                    assert(out.1@ =~= tt@.union(
                        closure_except(g, replay_seeds(g, req, tt@), tt@),
                    ));
                }
                Ok(out)
            },
            Err(e) => {
                Err(e)
            },
        }
    }

    /// Records a freshly computed payload under its set, keeping every
    /// older entry.
    fn insert_entry(&mut self, g: Ghost<Map<Digest, EventV>>, key: OrdSet<Digest>, val: Vec<u8>)
        requires
            old(self).wf(g@),
            key.wf(),
            forall|p: Seq<u8>| !old(self).has_entry(key@, p),
            entry_ok(old(self).spec_engine(), g@, old(self).spec_init(), key@, val@),
        ensures
            final(self).wf(g@),
            final(self).spec_engine() == old(self).spec_engine(),
            final(self).spec_init() == old(self).spec_init(),
            final(self).has_entry(key@, val@),
            forall|s: Set<Digest>, p: Seq<u8>|
                old(self).has_entry(s, p) ==> #[trigger] final(self).has_entry(s, p),
    {
        let ghost oldc = self.spec_cache();
        let ghost kv = key@;
        let ghost vv = val@;
        self.sts.push((key, val));
        proof {
            assert(self.spec_cache() =~= oldc.push((kv, vv)));
            assert(self.spec_cache()[self.spec_cache().len() - 1] == (kv, vv));
            assert forall|s: Set<Digest>, p: Seq<u8>|
                old(self).has_entry(s, p) implies #[trigger] self.has_entry(s, p) by {
                let w = choose|w: int| 0 <= w < oldc.len() && #[trigger] oldc[w] == (s, p);
                assert(self.spec_cache()[w] == (s, p));
            }
            assert(self.has_entry(Set::empty(), self.spec_init()));
            assert forall|i: int, j: int|
                0 <= i < j < self.spec_cache().len() implies (#[trigger] self.spec_cache()[
            i]).0 != (#[trigger] self.spec_cache()[j]).0 by {
                if j == self.spec_cache().len() - 1 {
                    if oldc[i].0 == kv {
                        assert(old(self).has_entry(kv, oldc[i].1));
                    }
                }
            }
        }
    }
}

/// Replaying depends only on the events it touches, so a grown graph
/// replays any old order identically.
proof fn lemma_run_seq_agree<En: Engine>(
    en: &En,
    g: Map<Digest, EventV>,
    g2: Map<Digest, EventV>,
    init: Seq<u8>,
    order: Seq<Digest>,
)
    requires
        forall|d: Digest|
            #[trigger] g.contains_key(d) ==> g2.contains_key(d) && g2[d] == g[d],
        forall|i: int| 0 <= i < order.len() ==> g.contains_key(#[trigger] order[i]),
    ensures
        run_seq(en, g2, init, order) == run_seq(en, g, init, order),
    decreases order.len(),
{
    if order.len() > 0 {
        lemma_run_seq_agree(en, g, g2, init, order.drop_last());
        assert(g.contains_key(order[order.len() - 1]));
    }
}

impl<'a, En: Engine> WorkCache<'a, En> {
    /// Closure correctness: every cached entry is the payload of some
    /// topologically valid replay of its key set from the initial payload.
    pub proof fn lemma_cache_entry_replay(self, g: Map<Digest, EventV>, s: Set<Digest>, p: Seq<u8>)
        requires
            self.wf(g),
            self.has_entry(s, p),
        ensures
            entry_ok(self.spec_engine(), g, self.spec_init(), s, p),
    {
        let w = choose|w: int|
            0 <= w < self.spec_cache().len() && #[trigger] self.spec_cache()[w] == (s, p);
    }

    /// Growing the graph with fresh events invalidates no cache entry.
    pub proof fn lemma_wf_monotone(self, g: Map<Digest, EventV>, g2: Map<Digest, EventV>)
        requires
            self.wf(g),
            forall|d: Digest|
                #[trigger] g.contains_key(d) ==> g2.contains_key(d) && g2[d] == g[d],
        ensures
            self.wf(g2),
    {
        assert forall|i: int|
            0 <= i < self.spec_cache().len() implies entry_ok(
            self.spec_engine(),
            g2,
            self.spec_init(),
            (#[trigger] self.spec_cache()[i]).0,
            self.spec_cache()[i].1,
        ) by {
            let s = self.spec_cache()[i].0;
            let p = self.spec_cache()[i].1;
            assert(entry_ok(self.spec_engine(), g, self.spec_init(), s, p));
            let order = choose|order: Seq<Digest>|
                #[trigger] topo_ok(g, order, s) && run_seq(
                    self.spec_engine(),
                    g,
                    self.spec_init(),
                    order,
                ) == Some(p);
            lemma_run_seq_agree(self.spec_engine(), g, g2, self.spec_init(), order);
            assert(topo_ok(g2, order, s)) by {
                assert forall|q: int, d: Digest|
                    0 <= q < order.len() && #[trigger] g2[order[q]].dep_set().contains(
                    d,
                ) implies order.take(q).to_set().contains(d) by {
                    assert(g.contains_key(order[q]));
                    assert(g[order[q]].dep_set().contains(d));
                }
            }
        }
    }
}

/// The independence probe rejects the candidate `cev` at the probed
/// state `base` (the frontier with the candidate left out) against the
/// current state `cur`: the candidate's removal changed nothing (it was
/// a revert or no-op in context), the candidate repeats the event
/// itself, or applying the event first and the candidate second fails
/// to reproduce the current state with an actual change.
pub open spec fn probe_rejects<En: Engine>(
    en: &En,
    cev: EventV,
    cmd: u32,
    arg: Seq<u8>,
    base: Seq<u8>,
    cur: Seq<u8>,
) -> bool {
    ||| cur == base
    ||| (cev.cmd == cmd && cev.arg == arg)
    ||| !(match en.run_spec(cmd, arg, base) {
        Some(f) => match en.run_spec(cev.cmd, cev.arg, f) {
            Some(ft) => f != ft && ft == cur,
            None => false,
        },
        None => false,
    })
}

/// The probe that rejected candidate `k`, pinned to cached states: a
/// cached frontier without the candidate (`t.0`, payload `t.1`), a cached
/// frontier with it (`t.2`, payload `t.3`) whose evaluation under the
/// event is `t.4`, both frontiers inside the seed closure, and the
/// independence test rejecting the candidate between the two.
pub open spec fn probe_evidence<'a, En: Engine>(
    w: WorkCache<'a, En>,
    en: &En,
    g: Map<Digest, EventV>,
    cmd: u32,
    arg: Seq<u8>,
    cl0: Set<Digest>,
    k: Digest,
    t: (Set<Digest>, Seq<u8>, Set<Digest>, Seq<u8>, Seq<u8>),
) -> bool {
    &&& w.has_entry(t.0, t.1)
    &&& !t.0.contains(k)
    &&& t.0.subset_of(cl0)
    &&& w.has_entry(t.2, t.3)
    &&& t.2.contains(k)
    &&& t.2.subset_of(cl0)
    &&& en.run_spec(cmd, arg, t.3) == Some(t.4)
    &&& probe_rejects(en, g[k], cmd, arg, t.1, t.4)
}

/// Every hard dependency recorded so far carries probe evidence.
spec fn use_witnessed<'a, En: Engine>(
    w: WorkCache<'a, En>,
    en: &En,
    g: Map<Digest, EventV>,
    cmd: u32,
    arg: Seq<u8>,
    cl0: Set<Digest>,
    cur_deps: Map<Digest, DepState>,
    wits: Map<Digest, (Set<Digest>, Seq<u8>, Set<Digest>, Seq<u8>, Seq<u8>)>,
) -> bool {
    forall|k: Digest|
        #[trigger] cur_deps.contains_key(k) && cur_deps[k] == DepState::Use ==> (
        wits.contains_key(k) && probe_evidence(w, en, g, cmd, arg, cl0, k, wits[k]))
}

/// Shelve soundness at the replay level: extending a valid replay of the
/// seed closure by the freshly recorded event yields a valid replay of
/// the closure plus the event, producing the event's output.
proof fn lemma_shelve_replay_extends<En: Engine>(
    en: &En,
    g: Map<Digest, EventV>,
    g2: Map<Digest, EventV>,
    init: Seq<u8>,
    cl0: Set<Digest>,
    p: Seq<u8>,
    q: Seq<u8>,
    dg: Digest,
    nv: EventV,
)
    requires
        entry_ok(en, g, init, cl0, p),
        en.run_spec(nv.cmd, nv.arg, p) == Some(q),
        g2 == g.insert(dg, nv),
        g.contains_key(dg) ==> g[dg] == nv,
        !cl0.contains(dg),
        nv.dep_set().subset_of(cl0),
    ensures
        entry_ok(en, g2, init, cl0.insert(dg), q),
{
    let order0 = choose|order0: Seq<Digest>|
        #[trigger] topo_ok(g, order0, cl0) && run_seq(en, g, init, order0) == Some(p);
    assert forall|d: Digest|
        #[trigger] g.contains_key(d) implies g2.contains_key(d) && g2[d] == g[d] by {
    }
    lemma_run_seq_agree(en, g, g2, init, order0);
    let order1 = order0.push(dg);
    assert(order1.drop_last() =~= order0);
    assert(topo_ok(g2, order1, cl0.insert(dg))) by {
        assert(order1.no_duplicates()) by {
            assert(!order0.contains(dg)) by {
                if order0.contains(dg) {
                    assert(order0.to_set().contains(dg));
                }
            }
        }
        assert(order1.to_set() =~= cl0.insert(dg)) by {
            assert forall|x: Digest|
                order1.to_set().contains(x) implies cl0.insert(dg).contains(x) by {
                let w = choose|w: int| 0 <= w < order1.len() && order1[w] == x;
                if w < order1.len() - 1 {
                    assert(order0[w] == x);
                    assert(order0.to_set().contains(x));
                }
            }
            assert forall|x: Digest|
                cl0.insert(dg).contains(x) implies order1.to_set().contains(x) by {
                if x == dg {
                    assert(order1[order1.len() - 1] == x);
                } else {
                    assert(order0.to_set().contains(x));
                    let w = choose|w: int| 0 <= w < order0.len() && order0[w] == x;
                    assert(order1[w] == x);
                }
            }
        }
        assert forall|i: int|
            0 <= i < order1.len() implies g2.contains_key(#[trigger] order1[i]) by {
            if i < order1.len() - 1 {
                assert(g.contains_key(order0[i]));
            }
        }
        assert forall|i: int, d: Digest|
            0 <= i < order1.len() && #[trigger] g2[order1[i]].dep_set().contains(
            d,
        ) implies order1.take(i).to_set().contains(d) by {
            if i < order1.len() - 1 {
                assert(g.contains_key(order0[i]));
                assert(g2[order0[i]] == g[order0[i]]);
                assert(g[order0[i]].dep_set().contains(d));
                assert(order0.take(i) =~= order1.take(i));
            } else {
                assert(order1[i] == dg);
                assert(g2[dg] == nv);
                assert(cl0.contains(d));
                assert(order1.take(i) =~= order0);
            }
        }
    }
    assert(run_seq(en, g2, init, order1) == Some(q)) by {
        assert(order1.last() == dg);
        assert(g2[dg] == nv);
        assert(run_seq(en, g2, init, order0) == Some(p));
    }
}

/// Probe evidence only mentions cache entries, which growing the cache
/// keeps.
proof fn lemma_witness_mono<'a, En: Engine>(
    w1: WorkCache<'a, En>,
    w2: WorkCache<'a, En>,
    en: &En,
    g: Map<Digest, EventV>,
    cmd: u32,
    arg: Seq<u8>,
    cl0: Set<Digest>,
    cur_deps: Map<Digest, DepState>,
    wits: Map<Digest, (Set<Digest>, Seq<u8>, Set<Digest>, Seq<u8>, Seq<u8>)>,
)
    requires
        use_witnessed(w1, en, g, cmd, arg, cl0, cur_deps, wits),
        forall|s: Set<Digest>, p: Seq<u8>|
            w1.has_entry(s, p) ==> #[trigger] w2.has_entry(s, p),
    ensures
        use_witnessed(w2, en, g, cmd, arg, cl0, cur_deps, wits),
{
    assert forall|k: Digest|
        #[trigger] cur_deps.contains_key(k) && cur_deps[k] == DepState::Use implies (
    wits.contains_key(k) && probe_evidence(w2, en, g, cmd, arg, cl0, k, wits[k])) by {
        assert(probe_evidence(w1, en, g, cmd, arg, cl0, k, wits[k]));
        assert(w2.has_entry(wits[k].0, wits[k].1));
        assert(w2.has_entry(wits[k].2, wits[k].3));
    }
}

/// The state a probed candidate ends in: a hard dependency, a soft one
/// (kept when reduction stopped early), or covered transitively by a hard
/// dependency and therefore never recorded as its own edge.
#[derive(Clone, Copy, Debug, PartialEq, Eq, Structural)]
enum DepState {
    Use,
    UseSoft,
    Deny,
}

impl<'a, En: Engine> WorkCache<'a, En> {
    /// Discovers the minimal causal dependencies of a fresh event against
    /// the frontier `seed_deps`, then inserts the canonicalized event.
    /// Candidates that commute with the event are pushed backward along
    /// the graph; the ones that do not become hard dependencies, and their
    /// own dependencies are barred from reappearing as edges. A candidate
    /// whose removal cannot be compensated is kept as a soft edge. Returns
    /// the new event's hash, or `None` when the event changes nothing.
    /// The event's own dependency list is ignored.
    #[verifier::rlimit(100)]
    pub fn shelve_event(&mut self, graph: &mut Graph, seed_deps: OrdSet<Digest>, ev: Event) -> (r:
        Result<Option<crate::hash::Hash>, WorkCacheError<En::Error>>)
        requires
            old(graph).wf(),
            old(self).wf(old(graph).spec_events()),
            seed_deps.wf(),
        ensures
            final(graph).wf(),
            final(self).wf(final(graph).spec_events()),
            final(self).spec_engine() == old(self).spec_engine(),
            final(self).spec_init() == old(self).spec_init(),
            forall|d: Digest|
                #[trigger] old(graph).spec_events().contains_key(d)
                    ==> (final(graph).spec_events().contains_key(d)
                    && final(graph).spec_events()[d] == old(graph).spec_events()[d]),
            final(graph).spec_nstates() == old(graph).spec_nstates(),
            match r {
                Ok(Some(h)) => (exists|nv: EventV|
                    {
                        &&& final(graph).spec_events() == old(graph).spec_events().insert(
                            #[trigger] crate::codec::event_digest(nv),
                            nv,
                        )
                        &&& nv.cmd == ev.cmd
                        &&& nv.arg == ev.arg@
                        &&& nv.wf()
                        &&& nv.dep_set().subset_of(old(graph).spec_events().dom())
                        &&& nv.dep_set().subset_of(
                            crate::graph::closure(old(graph).spec_events(), seed_deps@),
                        )
                        &&& h == crate::hash::Hash::Blake2b512(crate::codec::event_digest(nv))
                        &&& forall|d: Digest|
                            #[trigger] nv.hard_dep_set().contains(d) ==> exists|
                                t: (Set<Digest>, Seq<u8>, Set<Digest>, Seq<u8>, Seq<u8>),
                            |
                                #[trigger] probe_evidence(
                                    *final(self),
                                    old(self).spec_engine(),
                                    old(graph).spec_events(),
                                    ev.cmd,
                                    ev.arg@,
                                    crate::graph::closure(
                                        old(graph).spec_events(),
                                        seed_deps@,
                                    ),
                                    d,
                                    t,
                                )
                        &&& exists|p: Seq<u8>|
                            #[trigger] final(self).has_entry(
                                crate::graph::closure(old(graph).spec_events(), seed_deps@),
                                p,
                            )
                        &&& forall|p: Seq<u8>|
                            #[trigger] final(self).has_entry(
                                crate::graph::closure(old(graph).spec_events(), seed_deps@),
                                p,
                            ) ==> ({
                                let out = old(self).spec_engine().run_spec(
                                    ev.cmd,
                                    ev.arg@,
                                    p,
                                );
                                &&& out is Some
                                &&& out != Some(p)
                                &&& (!crate::graph::closure(
                                    old(graph).spec_events(),
                                    seed_deps@,
                                ).contains(crate::codec::event_digest(nv)) ==> entry_ok(
                                    old(self).spec_engine(),
                                    final(graph).spec_events(),
                                    old(self).spec_init(),
                                    crate::graph::closure(
                                        old(graph).spec_events(),
                                        seed_deps@,
                                    ).insert(crate::codec::event_digest(nv)),
                                    out.unwrap(),
                                ))
                            })
                    }),
                Ok(None) => final(graph).spec_events() == old(graph).spec_events()
                    && (exists|st: Set<Digest>, p: Seq<u8>|
                    {
                        &&& st.subset_of(
                            crate::graph::closure(old(graph).spec_events(), seed_deps@),
                        )
                        &&& #[trigger] final(self).has_entry(st, p)
                        &&& old(self).spec_engine().run_spec(ev.cmd, ev.arg@, p) == Some(p)
                    }),
                Err(e) => final(graph).spec_events() == old(graph).spec_events() && match e {
                    WorkCacheError::Engine(_) => true,
                    WorkCacheError::Graph(GraphError::HashCollision(hh, _)) => exists|
                        nv: EventV,
                    |
                        {
                            &&& nv.cmd == ev.cmd
                            &&& nv.arg == ev.arg@
                            &&& hh == crate::hash::Hash::Blake2b512(
                                #[trigger] crate::codec::event_digest(nv),
                            )
                            &&& old(graph).spec_events().contains_key(
                                crate::codec::event_digest(nv),
                            )
                            &&& old(graph).spec_events()[crate::codec::event_digest(nv)]
                                != nv
                        },
                    WorkCacheError::Graph(GraphError::DependencyNotFound(h)) => !old(
                        graph,
                    ).spec_events().contains_key(h.spec_digest()) && seed_deps@.contains(
                        h.spec_digest(),
                    ),
                    _ => false,
                },
            },
    {
        let ghost g = graph.spec_events();
        let ghost en0 = self.spec_engine();
        let ghost init0 = self.spec_init();
        let ghost argv = ev.arg@;
        let ghost cl0 = closure_except(g, seed_deps@, Set::empty());
        let mut seeds = seed_deps;
        proof {
            crate::graph::lemma_closure_except_basic(g, seeds@, Set::empty());
            assert(seeds@.difference(Set::empty()) =~= seeds@);
            assert(seeds@.subset_of(cl0));
            crate::graph::lemma_closure_except_bounded(g, seeds@, Set::empty());
            assert(cl0.subset_of(seed_deps@.union(g.dom())));
        }
        let mut cur_deps: OrdMap<Digest, DepState> = OrdMap::new();
        let ghost mut wits: Map<Digest, (Set<Digest>, Seq<u8>, Set<Digest>, Seq<u8>, Seq<u8>)> =
            Map::empty();
        // A fresh event that leaves the frontier's state unchanged is a
        // no-op and cannot be recorded.
        let itargets = build_targets(&seeds, true, &cur_deps, None);
        let (ibase, itt) = match self.run_foreach_recursively(graph, itargets) {
            Ok(o) => o,
            Err(e) => {
                proof {
                    match &e {
                        WorkCacheError::Graph(GraphError::DependencyNotFound(h)) => {
                            let hd = h.spec_digest();
                            assert(itargets@.contains_key(hd));
                            assert(seeds@.contains(hd));
                        },
                        _ => {},
                    }
                }
                return Err(e);
            },
        };
        let icur = match self.engine.run_event_bare(ev.cmd, &ev.arg, &ibase) {
            Ok(o) => o,
            Err(er) => {
                return Err(WorkCacheError::Engine(er));
            },
        };
        proof {
            // The first frontier evaluated is exactly the seed closure.
            assert(itargets@.dom() =~= seeds@);
            crate::graph::lemma_closure_of_replay_seeds(g, itargets@, seeds@);
            assert(itt@ == cl0);
        }
        if bytes_eq(&ibase, &icur) {
            proof {
                assert(self.has_entry(itt@, ibase@) && self.spec_engine().run_spec(
                    ev.cmd,
                    ev.arg@,
                    ibase@,
                ) == Some(ibase@));
            }
            return Ok(None);
        }
        let ghost ibv = ibase@;
        let ghost icv = icur@;
        // Generous round budget: each round walks at least one edge
        // backward, so the stored event count bounds useful rounds.
        let mut fuel = graph.events_len() / 2 + 2;
        let mut done_reducing = false;
        while !done_reducing
            invariant
                graph.wf(),
                *graph == *old(graph),
                g == graph.spec_events(),
                self.wf(g),
                self.spec_engine() == en0,
                self.spec_init() == init0,
                en0 == old(self).spec_engine(),
                init0 == old(self).spec_init(),
                forall|s: Set<Digest>, p: Seq<u8>|
                    old(self).has_entry(s, p) ==> #[trigger] self.has_entry(s, p),
                seeds.wf(),
                cur_deps.wf(),
                forall|k: Digest|
                    #[trigger] cur_deps@.contains_key(k) ==> g.contains_key(k),
                use_witnessed(*self, en0, g, ev.cmd, argv, cl0, cur_deps@, wits),
                argv == ev.arg@,
                cl0 == closure_except(g, seed_deps@, Set::empty()),
                cl0.subset_of(seed_deps@.union(g.dom())),
                seeds@.subset_of(cl0),
                forall|k: Digest| #[trigger] cur_deps@.contains_key(k) ==> cl0.contains(k),
                self.has_entry(cl0, ibv),
                en0.run_spec(ev.cmd, argv, ibv) == Some(icv),
                icv != ibv,
            decreases fuel,
        {
            if fuel == 0 {
                // Out of budget: stop reducing and keep the still-open
                // candidates as soft hints, as a failed safety check would.
                let sn = seeds.len();
                let mut si: usize = 0;
                while si < sn
                    invariant
                        sn == seeds.seq().len(),
                        graph.wf(),
                        *graph == *old(graph),
                        g == graph.spec_events(),
                        seeds.wf(),
                        cur_deps.wf(),
                        forall|k: Digest|
                            #[trigger] cur_deps@.contains_key(k) ==> g.contains_key(k),
                        use_witnessed(*self, en0, g, ev.cmd, argv, cl0, cur_deps@, wits),
                        seeds@.subset_of(cl0),
                        forall|k: Digest|
                            #[trigger] cur_deps@.contains_key(k) ==> cl0.contains(k),
                        forall|m: int|
                            0 <= m < si ==> (cur_deps@.contains_key(
                                #[trigger] seeds.seq()[m],
                            ) || !g.contains_key(seeds.seq()[m])),
                    decreases sn - si,
                {
                    let k = seeds.get_at(si);
                    if graph.get_event(k).is_some() && !cur_deps.contains_key(k) {
                        cur_deps.insert(k, DepState::UseSoft);
                    }
                    si = si + 1;
                }
                done_reducing = true;
                break ;
            }
            fuel = fuel - 1;
            // Candidates already decided leave the open set.
            seeds = filter_unknown(&seeds, &cur_deps);
            if seeds.is_empty() {
                done_reducing = true;
                break ;
            }
            // The current frontier: open candidates (outside barred ones)
            // plus the hard dependencies found so far.
            let ghost selftop = *self;
            let targets = build_targets(&seeds, true, &cur_deps, None);
            let (base_st, _base_tt) = match self.run_foreach_recursively(graph, targets) {
                Ok(o) => o,
                Err(e) => {
                    proof {
                        match &e {
                            WorkCacheError::Graph(GraphError::DependencyNotFound(h)) => {
                                let hd = h.spec_digest();
                                assert(targets@.contains_key(hd));
                                assert(seeds@.contains(hd));
                                assert(cl0.contains(hd));
                                assert(seed_deps@.union(g.dom()).contains(hd));
                            },
                            _ => {},
                        }
                    }
                    return Err(e);
                },
            };
            let cur_st = match self.engine.run_event_bare(ev.cmd, &ev.arg, &base_st) {
                Ok(o) => o,
                Err(er) => {
                    return Err(WorkCacheError::Engine(er));
                },
            };
            let ghost btt = _base_tt@;
            let ghost bsv = base_st@;
            let ghost csv = cur_st@;
            proof {
                lemma_witness_mono(selftop, *self, en0, g, ev.cmd, argv, cl0, cur_deps@, wits);
                assert forall|k: Digest|
                    #[trigger] targets@.contains_key(k) implies cl0.contains(k) by {
                }
                crate::graph::lemma_request_within_closure(g, targets@, cl0, seed_deps@);
                assert(btt.subset_of(cl0));
                crate::graph::lemma_closure_except_basic(
                    g,
                    replay_seeds(g, targets@, Set::empty()),
                    Set::empty(),
                );
                assert(replay_seeds(g, targets@, Set::empty()).difference(Set::empty())
                    =~= replay_seeds(g, targets@, Set::empty()));
                assert forall|d: Digest| seeds@.contains(d) implies btt.contains(d) by {
                    assert(!cur_deps@.contains_key(d));
                    assert(targets@.contains_key(d));
                    assert(targets@[d] == IncludeSpec::IncludeAll);
                    assert(crate::graph::is_replay_seed(g, targets@, Set::empty(), d));
                }
            }
            if cur_deps.is_empty() && bytes_eq(&base_st, &cur_st) {
                // A no-op event cannot be recorded. The frontier evaluated
                // here lies inside the seed closure.
                proof {
                    assert(self.has_entry(_base_tt@, base_st@) && self.spec_engine().run_spec(
                        ev.cmd,
                        ev.arg@,
                        base_st@,
                    ) == Some(base_st@));
                    crate::graph::lemma_closure_except_basic(g, seed_deps@, Set::empty());
                    let rs = replay_seeds(g, targets@, Set::empty());
                    assert(rs.subset_of(cl0)) by {
                        assert forall|d: Digest| rs.contains(d) implies cl0.contains(d) by {
                            assert(crate::graph::is_replay_seed(
                                g,
                                targets@,
                                Set::empty(),
                                d,
                            ));
                            if targets@.contains_key(d) && targets@[d]
                                == IncludeSpec::IncludeAll && !Set::empty().contains(d) {
                                assert(seeds@.contains(d) || cur_deps@.contains_key(d));
                            } else {
                                let k = choose|k: Digest|
                                    #[trigger] crate::graph::seed_via(
                                        g,
                                        targets@,
                                        Set::empty(),
                                        k,
                                        d,
                                    );
                                assert(cl0.contains(k));
                                assert(g[k].dep_set().difference(Set::empty()).subset_of(
                                    cl0,
                                ));
                                assert(g[k].dep_set().difference(Set::empty()).contains(d));
                            }
                        }
                    }
                    assert(rs.difference(Set::empty()) =~= rs);
                    crate::graph::lemma_closure_except_least(g, rs, Set::empty(), cl0);
                    assert(_base_tt@.subset_of(cl0));
                }
                return Ok(None);
            }
            // Probe every open candidate at the frontier with the
            // candidate itself left out.
            let mut probes: Vec<(Digest, OrdSet<Digest>, Vec<u8>)> = Vec::new();
            let mut extra: OrdSet<Digest> = OrdSet::new();
            let sn = seeds.len();
            let mut si: usize = 0;
            while si < sn
                invariant
                    sn == seeds.seq().len(),
                    graph.wf(),
                    *graph == *old(graph),
                    g == graph.spec_events(),
                    self.wf(g),
                    self.spec_engine() == en0,
                    self.spec_init() == init0,
                    en0 == old(self).spec_engine(),
                    init0 == old(self).spec_init(),
                    forall|s: Set<Digest>, p: Seq<u8>|
                        old(self).has_entry(s, p) ==> #[trigger] self.has_entry(s, p),
                    seeds.wf(),
                    cur_deps.wf(),
                    extra.wf(),
                    forall|k: Digest|
                        #[trigger] cur_deps@.contains_key(k) ==> g.contains_key(k),
                    forall|d: Digest|
                        #[trigger] seeds@.contains(d) ==> !cur_deps@.contains_key(d),
                    seeds@.subset_of(cl0),
                    extra@.subset_of(cl0),
                    cl0.subset_of(seed_deps@.union(g.dom())),
                    cl0 == closure_except(g, seed_deps@, Set::empty()),
                    argv == ev.arg@,
                    self.has_entry(cl0, ibv),
                    self.has_entry(btt, bsv),
                    en0.run_spec(ev.cmd, argv, bsv) == Some(csv),
                    btt.subset_of(cl0),
                    forall|d: Digest| #[trigger] seeds@.contains(d) ==> btt.contains(d),
                    use_witnessed(*self, en0, g, ev.cmd, argv, cl0, cur_deps@, wits),
                    forall|m: int|
                        0 <= m < probes@.len() ==> (g.contains_key((#[trigger] probes@[m]).0)
                            && cl0.contains(probes@[m].0) && seeds@.contains(probes@[m].0)
                            && !probes@[m].1@.contains(probes@[m].0)
                            && probes@[m].1@.subset_of(cl0) && self.has_entry(
                            probes@[m].1@,
                            probes@[m].2@,
                        )),
                decreases sn - si,
            {
                let conc = seeds.get_at(si);
                let ghost sp = *self;
                let ptargets = build_targets(&seeds, false, &cur_deps, Some(conc));
                let (pst, ptt) = match self.run_foreach_recursively(graph, ptargets) {
                    Ok(o) => o,
                    Err(e) => {
                        proof {
                            match &e {
                                WorkCacheError::Graph(GraphError::DependencyNotFound(h)) => {
                                    let hd = h.spec_digest();
                                    assert(ptargets@.contains_key(hd));
                                    assert(seeds@.contains(hd) || cur_deps@.contains_key(
                                        hd,
                                    ));
                                    assert(cl0.contains(hd));
                                    assert(seed_deps@.union(g.dom()).contains(hd));
                                },
                                _ => {},
                            }
                        }
                        return Err(e);
                    },
                };
                proof {
                    lemma_witness_mono(sp, *self, en0, g, ev.cmd, argv, cl0, cur_deps@, wits);
                    assert forall|k: Digest|
                        #[trigger] ptargets@.contains_key(k) implies cl0.contains(k) by {
                    }
                    crate::graph::lemma_request_within_closure(g, ptargets@, cl0, seed_deps@);
                    assert(ptt@.subset_of(cl0));
                }
                if ptt.contains(conc) {
                    // Another candidate pulls this one in transitively;
                    // defer it to the next round.
                    extra.insert(conc);
                } else {
                    proof {
                        assert(ptargets@.contains_key(conc));
                        assert(g.contains_key(conc));
                    }
                    probes.push((conc, ptt, pst));
                }
                si = si + 1;
            }
            // Decide each probed candidate.
            let mut new_seeds: OrdSet<Digest> = OrdSet::new();
            let pn = probes.len();
            let mut pi: usize = 0;
            while pi < pn
                invariant
                    pn == probes@.len(),
                    graph.wf(),
                    *graph == *old(graph),
                    g == graph.spec_events(),
                    self.wf(g),
                    self.spec_engine() == en0,
                    self.spec_init() == init0,
                    en0 == old(self).spec_engine(),
                    init0 == old(self).spec_init(),
                    forall|s: Set<Digest>, p: Seq<u8>|
                        old(self).has_entry(s, p) ==> #[trigger] self.has_entry(s, p),
                    new_seeds.wf(),
                    cur_deps.wf(),
                    forall|k: Digest|
                        #[trigger] cur_deps@.contains_key(k) ==> g.contains_key(k),
                    use_witnessed(*self, en0, g, ev.cmd, argv, cl0, cur_deps@, wits),
                    argv == ev.arg@,
                    cl0 == closure_except(g, seed_deps@, Set::empty()),
                    new_seeds@.subset_of(cl0),
                    forall|k: Digest| #[trigger] cur_deps@.contains_key(k) ==> cl0.contains(k),
                    self.has_entry(btt, bsv),
                    en0.run_spec(ev.cmd, argv, bsv) == Some(csv),
                    csv == cur_st@,
                    btt.subset_of(cl0),
                    forall|m: int|
                        0 <= m < probes@.len() ==> (g.contains_key((#[trigger] probes@[m]).0)
                            && cl0.contains(probes@[m].0) && btt.contains(probes@[m].0)
                            && !probes@[m].1@.contains(probes@[m].0)
                            && probes@[m].1@.subset_of(cl0) && self.has_entry(
                            probes@[m].1@,
                            probes@[m].2@,
                        )),
                decreases pn - pi,
            {
                let conc = probes[pi].0;
                let conc_ev = match graph.get_event(conc) {
                    Some(e) => e,
                    None => {
                        proof {
                            assert(false);
                        }
                        return Ok(None);
                    },
                };
                let is_indep: bool;
                let ghost base2v = probes@[pi as int].2@;
                proof {
                    assert(btt.contains(probes@[pi as int].0));
                    assert(self.has_entry(probes@[pi as int].1@, base2v));
                }
                if bytes_eq(&cur_st, &probes[pi].2) {
                    // Removing the candidate changed nothing: it was a
                    // revert or no-op in context, which must stay ordered.
                    is_indep = false;
                    proof {
                        assert(probe_rejects(en0, g[conc], ev.cmd, argv, base2v, cur_st@));
                    }
                } else if ev.cmd == conc_ev.cmd && bytes_eq(&ev.arg, &conc_ev.arg) {
                    // A non-idempotent self-repeat must stay ordered.
                    is_indep = false;
                    proof {
                        assert(probe_rejects(en0, g[conc], ev.cmd, argv, base2v, cur_st@));
                    }
                } else {
                    let evfirst = match self.engine.run_event_bare(
                        ev.cmd,
                        &ev.arg,
                        &probes[pi].2,
                    ) {
                        Ok(o) => o,
                        Err(er) => {
                            return Err(WorkCacheError::Engine(er));
                        },
                    };
                    let evfirst_then = match self.engine.run_event_bare(
                        conc_ev.cmd,
                        &conc_ev.arg,
                        &evfirst,
                    ) {
                        Ok(o) => o,
                        Err(er) => {
                            return Err(WorkCacheError::Engine(er));
                        },
                    };
                    is_indep = !bytes_eq(&evfirst, &evfirst_then) && bytes_eq(
                        &evfirst_then,
                        &cur_st,
                    );
                    proof {
                        if !is_indep {
                            assert(en0.run_spec(ev.cmd, argv, base2v) == Some(evfirst@));
                            assert(probe_rejects(
                                en0,
                                g[conc],
                                ev.cmd,
                                argv,
                                base2v,
                                cur_st@,
                            ));
                        }
                    }
                }
                if is_indep {
                    // Independent: walk backward, maybe a deeper ancestor
                    // is the true dependency.
                    let nd = conc_ev.deps.len();
                    let mut j: usize = 0;
                    while j < nd
                        invariant
                            nd == conc_ev.deps.seq().len(),
                            new_seeds.wf(),
                            g == graph.spec_events(),
                            g.contains_key(conc),
                            cl0.contains(conc),
                            cl0 == closure_except(g, seed_deps@, Set::empty()),
                            conc_ev@ == g[conc],
                            new_seeds@.subset_of(cl0),
                        decreases nd - j,
                    {
                        let (dd, _f) = conc_ev.deps.entry_at(j);
                        proof {
                            crate::graph::lemma_closure_except_basic(
                                g,
                                seed_deps@,
                                Set::empty(),
                            );
                            assert(g[conc].dep_set().contains(dd)) by {
                                assert(conc_ev.deps.seq()[j as int].0 == dd);
                            }
                            assert(g[conc].dep_set().difference(Set::empty()).contains(dd));
                            assert(cl0.contains(dd));
                        }
                        new_seeds.insert(dd);
                        j = j + 1;
                    }
                } else {
                    // Dependent: record a hard edge, and bar its own hard
                    // dependencies from becoming edges of their own.
                    if !cur_deps.contains_key(conc) {
                        let ghost wprev = wits;
                        let ghost cprev = cur_deps@;
                        cur_deps.insert(conc, DepState::Use);
                        proof {
                            wits = wits.insert(
                                conc,
                                (probes@[pi as int].1@, base2v, btt, bsv, csv),
                            );
                            assert(probe_evidence(
                                *self,
                                en0,
                                g,
                                ev.cmd,
                                argv,
                                cl0,
                                conc,
                                wits[conc],
                            ));
                            assert forall|k: Digest|
                                #[trigger] cur_deps@.contains_key(k) && cur_deps@[k]
                                    == DepState::Use implies (wits.contains_key(k)
                                && probe_evidence(*self, en0, g, ev.cmd, argv, cl0, k, wits[
                                k])) by {
                                if k != conc {
                                    assert(cprev.contains_key(k) && cprev[k]
                                        == DepState::Use);
                                    assert(wprev.contains_key(k));
                                    assert(probe_evidence(
                                        *self,
                                        en0,
                                        g,
                                        ev.cmd,
                                        argv,
                                        cl0,
                                        k,
                                        wprev[k],
                                    ));
                                }
                            }
                        }
                    }
                    let nd = conc_ev.deps.len();
                    let mut j: usize = 0;
                    while j < nd
                        invariant
                            nd == conc_ev.deps.seq().len(),
                            graph.wf(),
                            *graph == *old(graph),
                            g == graph.spec_events(),
                            g.contains_key(conc),
                            conc_ev@ == g[conc],
                            cur_deps.wf(),
                            forall|k: Digest|
                                #[trigger] cur_deps@.contains_key(k) ==> g.contains_key(k),
                            use_witnessed(*self, en0, g, ev.cmd, argv, cl0, cur_deps@, wits),
                            cl0 == closure_except(g, seed_deps@, Set::empty()),
                            cl0.contains(conc),
                            forall|k: Digest|
                                #[trigger] cur_deps@.contains_key(k) ==> cl0.contains(k),
                        decreases nd - j,
                    {
                        let (dd, hard) = conc_ev.deps.entry_at(j);
                        if hard && !cur_deps.contains_key(dd) {
                            proof {
                                assert(g[conc].dep_set().contains(dd)) by {
                                    assert(conc_ev.deps.seq()[j as int].0 == dd);
                                }
                                crate::graph::lemma_closure_except_basic(
                                    g,
                                    seed_deps@,
                                    Set::empty(),
                                );
                                assert(g[conc].dep_set().difference(Set::empty()).contains(
                                    dd,
                                ));
                                assert(cl0.contains(dd));
                            }
                            cur_deps.insert(dd, DepState::Deny);
                        }
                        j = j + 1;
                    }
                }
                pi = pi + 1;
            }
            if !extra.eq_set(&seeds) {
                let en = extra.len();
                let mut xi: usize = 0;
                while xi < en
                    invariant
                        en == extra.seq().len(),
                        extra.wf(),
                        new_seeds.wf(),
                        extra@.subset_of(cl0),
                        new_seeds@.subset_of(cl0),
                    decreases en - xi,
                {
                    new_seeds.insert(extra.get_at(xi));
                    xi = xi + 1;
                }
            }
            // Safety check: replaying the reduced frontier, the event, and
            // whatever open candidates the reduced frontier missed must
            // reproduce the current state; otherwise an essential
            // dependency was lost and reduction stops here.
            let stargets = build_targets(&new_seeds, true, &cur_deps, None);
            let (bare_st, bare_tt) = match self.run_foreach_recursively(graph, stargets) {
                Ok(o) => o,
                Err(e) => {
                    proof {
                        match &e {
                            WorkCacheError::Graph(GraphError::DependencyNotFound(h)) => {
                                let hd = h.spec_digest();
                                assert(stargets@.contains_key(hd));
                                assert(new_seeds@.contains(hd) || cur_deps@.contains_key(
                                    hd,
                                ));
                                assert(cl0.contains(hd));
                                assert(seed_deps@.union(g.dom()).contains(hd));
                            },
                            _ => {},
                        }
                    }
                    return Err(e);
                },
            };
            let mut tmp_st = match self.engine.run_event_bare(ev.cmd, &ev.arg, &bare_st) {
                Ok(o) => o,
                Err(er) => {
                    return Err(WorkCacheError::Engine(er));
                },
            };
            let leftover = seeds.difference(&bare_tt);
            let ln = leftover.len();
            let mut li: usize = 0;
            while li < ln
                invariant
                    ln == leftover.seq().len(),
                    graph.wf(),
                    *graph == *old(graph),
                    g == graph.spec_events(),
                    self.wf(g),
                    self.spec_engine() == en0,
                    self.spec_init() == init0,
                    en0 == old(self).spec_engine(),
                    init0 == old(self).spec_init(),
                    forall|s: Set<Digest>, p: Seq<u8>|
                        old(self).has_entry(s, p) ==> #[trigger] self.has_entry(s, p),
                    leftover.wf(),
                    leftover@.subset_of(cl0),
                    cl0.subset_of(seed_deps@.union(g.dom())),
                decreases ln - li,
            {
                let k = leftover.get_at(li);
                let kev = match graph.get_event(k) {
                    Some(e) => e,
                    None => {
                        proof {
                            assert(cl0.contains(k));
                            assert(seed_deps@.union(g.dom()).contains(k));
                        }
                        return Err(
                            WorkCacheError::Graph(
                                GraphError::DependencyNotFound(
                                    crate::hash::Hash::from_digest(k),
                                ),
                            ),
                        );
                    },
                };
                tmp_st = match self.engine.run_event_bare(kev.cmd, &kev.arg, &tmp_st) {
                    Ok(o) => o,
                    Err(er) => {
                        return Err(WorkCacheError::Engine(er));
                    },
                };
                li = li + 1;
            }
            if !bytes_eq(&cur_st, &tmp_st) {
                // An essential dependency got lost: keep every still-open
                // candidate as a soft hint and stop reducing.
                let sn2 = seeds.len();
                let mut si2: usize = 0;
                while si2 < sn2
                    invariant
                        sn2 == seeds.seq().len(),
                        graph.wf(),
                        *graph == *old(graph),
                        g == graph.spec_events(),
                        seeds.wf(),
                        cur_deps.wf(),
                        forall|k: Digest|
                            #[trigger] cur_deps@.contains_key(k) ==> g.contains_key(k),
                        use_witnessed(*self, en0, g, ev.cmd, argv, cl0, cur_deps@, wits),
                        seeds@.subset_of(cl0),
                        forall|k: Digest|
                            #[trigger] cur_deps@.contains_key(k) ==> cl0.contains(k),
                    decreases sn2 - si2,
                {
                    let k = seeds.get_at(si2);
                    if graph.get_event(k).is_some() && !cur_deps.contains_key(k) {
                        cur_deps.insert(k, DepState::UseSoft);
                    }
                    si2 = si2 + 1;
                }
                done_reducing = true;
                break ;
            }
            seeds = new_seeds;
        }
        // Canonicalize: hard edges for `Use`, soft edges for `UseSoft`,
        // nothing for `Deny`, in ascending digest order.
        let mut deps: OrdMap<Digest, bool> = OrdMap::new();
        let cn = cur_deps.len();
        let mut ci: usize = 0;
        proof {
            assert(Seq::new(0, |m: int| cur_deps.seq()[m].0).to_set() =~= Set::<
                Digest,
            >::empty());
            assert(deps@.dom() =~= Set::<Digest>::empty());
        }
        while ci < cn
            invariant
                cn == cur_deps.seq().len(),
                ci <= cn,
                graph.wf(),
                *graph == *old(graph),
                g == graph.spec_events(),
                cur_deps.wf(),
                deps.wf(),
                forall|k: Digest|
                    #[trigger] cur_deps@.contains_key(k) ==> g.contains_key(k),
                cl0 == closure_except(g, seed_deps@, Set::empty()),
                forall|k: Digest| #[trigger] cur_deps@.contains_key(k) ==> cl0.contains(k),
                deps@.dom().subset_of(
                    Seq::new(ci as nat, |m: int| cur_deps.seq()[m].0).to_set(),
                ),
                forall|k: Digest|
                    #[trigger] deps@.contains_key(k) ==> (g.contains_key(k) && cl0.contains(
                        k,
                    )),
                forall|p: int|
                    0 <= p < deps.seq().len() && (#[trigger] deps.seq()[p]).1 == true
                        ==> (cur_deps@.contains_key(deps.seq()[p].0) && cur_deps@[deps.seq()[
                        p].0] == DepState::Use),
            decreases cn - ci,
        {
            let ghost kpfx = Seq::new(ci as nat, |m: int| cur_deps.seq()[m].0);
            let (k, st) = cur_deps.entry_at(ci);
            proof {
                cur_deps.lemma_at(ci as int);
                assert forall|p: int|
                    0 <= p < deps.seq().len() implies (#[trigger] deps.seq()[p]).0.lt_spec(
                    k,
                ) by {
                    deps.lemma_at(p);
                    let kk = deps.seq()[p].0;
                    assert(kpfx.to_set().contains(kk));
                    let w = choose|w: int| 0 <= w < ci && #[trigger] kpfx[w] == kk;
                    assert(cur_deps.seq()[w].0 == kk);
                }
            }
            let ghost dprev = deps.seq();
            if matches!(st, DepState::Use) {
                deps.push_max(k, true);
            } else if matches!(st, DepState::UseSoft) {
                deps.push_max(k, false);
            }
            proof {
                assert forall|p: int|
                    0 <= p < deps.seq().len() && (#[trigger] deps.seq()[p]).1
                        == true implies (cur_deps@.contains_key(deps.seq()[p].0)
                    && cur_deps@[deps.seq()[p].0] == DepState::Use) by {
                    if p < dprev.len() {
                        assert(deps.seq()[p] == dprev[p]);
                    } else {
                        assert(deps.seq()[p] == (k, st == DepState::Use));
                    }
                }
                let kpfx2 = Seq::new((ci + 1) as nat, |m: int| cur_deps.seq()[m].0);
                assert forall|kk: Digest|
                    deps@.dom().contains(kk) implies kpfx2.to_set().contains(kk) by {
                    if kpfx.to_set().contains(kk) {
                        let w = choose|w: int| 0 <= w < ci && #[trigger] kpfx[w] == kk;
                        assert(kpfx2[w] == kk);
                    } else {
                        assert(kk == k);
                        assert(kpfx2[ci as int] == kk);
                    }
                }
                assert forall|kk: Digest|
                    #[trigger] deps@.contains_key(kk) implies (g.contains_key(kk)
                    && cl0.contains(kk)) by {
                    assert(kpfx2.to_set().contains(kk));
                    let w = choose|w: int| 0 <= w < ci + 1 && #[trigger] kpfx2[w] == kk;
                    cur_deps.lemma_at(w);
                }
            }
            ci = ci + 1;
        }
        let nev = Event { cmd: ev.cmd, arg: ev.arg, deps };
        let ghost nvv = nev@;
        proof {
            crate::codec::lemma_event_dep_set(nev);
            assert(nev@.dep_set().subset_of(g.dom()));
            assert forall|d: Digest| #[trigger] nvv.hard_dep_set().contains(d) implies exists|
                t: (Set<Digest>, Seq<u8>, Set<Digest>, Seq<u8>, Seq<u8>),
            | #[trigger] probe_evidence(*self, en0, g, ev.cmd, argv, cl0, d, t) by {
                let w = choose|w: int|
                    0 <= w < nvv.deps.len() && (#[trigger] nvv.deps[w]) == (d, true);
                assert(cur_deps@.contains_key(d) && cur_deps@[d] == DepState::Use);
                assert(wits.contains_key(d) && probe_evidence(
                    *self,
                    en0,
                    g,
                    ev.cmd,
                    argv,
                    cl0,
                    d,
                    wits[d],
                ));
            }
        }
        let (coll, h) = graph.ensure_event(nev);
        if let Some(_clash) = coll {
            let txt = h.format();
            return Err(WorkCacheError::Graph(GraphError::HashCollision(h, txt)));
        }
        proof {
            assert forall|d: Digest|
                g.contains_key(d) implies graph.spec_events().contains_key(d)
                && graph.spec_events()[d] == g[d] by {
                assert(graph.spec_events() == g.insert(
                    crate::codec::event_digest(nev@),
                    nev@,
                ));
            }
            self.lemma_wf_monotone(g, graph.spec_events());
            // The event changed the state of the seed closure, which stays
            // cached, and replaying the closure plus the new event yields
            // exactly the event's output there.
            assert(self.has_entry(cl0, ibv) && en0.run_spec(ev.cmd, argv, ibv) == Some(icv)
                && icv != ibv);
            let dgv = crate::codec::event_digest(nvv);
            assert forall|p: Seq<u8>| #[trigger] self.has_entry(cl0, p) implies ({
                let out = en0.run_spec(ev.cmd, argv, p);
                &&& out is Some
                &&& out != Some(p)
                &&& (!cl0.contains(dgv) ==> entry_ok(
                    en0,
                    graph.spec_events(),
                    init0,
                    cl0.insert(dgv),
                    out.unwrap(),
                ))
            }) by {
                self.lemma_entry_unique(graph.spec_events(), cl0, p, ibv);
                if !cl0.contains(dgv) {
                    lemma_shelve_replay_extends(
                        en0,
                        g,
                        graph.spec_events(),
                        init0,
                        cl0,
                        ibv,
                        icv,
                        dgv,
                        nvv,
                    );
                }
            }
        }
        Ok(Some(h))
    }
}

/// The ancestors of a frontier that are not themselves in contention:
/// everything the frontier's members transitively depend on.
pub open spec fn merge_ancestors(g: Map<Digest, EventV>, sts: Set<Digest>) -> Set<Digest> {
    closure_except(
        g,
        replay_seeds(
            g,
            Map::new(|d: Digest| sts.contains(d), |d: Digest| IncludeSpec::IncludeOnlyDeps),
            Set::empty(),
        ),
        Set::empty(),
    )
}

/// A contended event was re-shelved acceptably: some stored event carries
/// the same command, argument and hard dependencies.
pub open spec fn reshelved_ok(g: Map<Digest, EventV>, k: Digest, ih: Digest) -> bool {
    &&& g.contains_key(ih)
    &&& g.contains_key(k)
    &&& g[ih].cmd == g[k].cmd
    &&& g[ih].arg == g[k].arg
    &&& crate::codec::hard_deps(g[ih].deps) == crate::codec::hard_deps(g[k].deps)
}

impl<'a, En: Engine> WorkCache<'a, En> {
    /// Merges a foreign frontier into the local view: every event of the
    /// frontier that is not an ancestor of another is re-shelved against
    /// the uncontended ancestor set. A re-shelve that changes the event's
    /// hash is accepted only when the hard dependencies agree (only soft
    /// hints changed); one that turns the event into a no-op fails. With
    /// nothing in contention and every member stored, the merge succeeds
    /// outright.
    pub fn try_merge(&mut self, graph: &mut Graph, sts: OrdSet<Digest>) -> (r: Result<
        (),
        WorkCacheError<En::Error>,
    >)
        requires
            old(graph).wf(),
            old(self).wf(old(graph).spec_events()),
            sts.wf(),
        ensures
            final(graph).wf(),
            final(self).wf(final(graph).spec_events()),
            final(self).spec_engine() == old(self).spec_engine(),
            final(self).spec_init() == old(self).spec_init(),
            final(graph).spec_nstates() == old(graph).spec_nstates(),
            forall|d: Digest|
                #[trigger] old(graph).spec_events().contains_key(d)
                    ==> (final(graph).spec_events().contains_key(d)
                    && final(graph).spec_events()[d] == old(graph).spec_events()[d]),
            ((forall|k: Digest|
                #[trigger] sts@.contains(k) ==> old(graph).spec_events().contains_key(k))
                && (forall|k: Digest|
                #[trigger] sts@.contains(k) ==> merge_ancestors(
                    old(graph).spec_events(),
                    sts@,
                ).contains(k))) ==> r is Ok,
            r is Ok ==> forall|k: Digest|
                (#[trigger] sts@.contains(k) && !merge_ancestors(
                    old(graph).spec_events(),
                    sts@,
                ).contains(k)) ==> exists|ih: Digest|
                    reshelved_ok(final(graph).spec_events(), k, ih),
            match r {
                Err(e) => match e {
                    WorkCacheError::Engine(_) => true,
                    WorkCacheError::NoopAtMerge(h) => ({
                        let hd = h.spec_digest();
                        &&& sts@.contains(hd)
                        &&& !merge_ancestors(old(graph).spec_events(), sts@).contains(hd)
                        &&& final(graph).spec_events().contains_key(hd)
                        &&& exists|st: Set<Digest>, p: Seq<u8>|
                            {
                                &&& #[trigger] final(self).has_entry(st, p)
                                &&& old(self).spec_engine().run_spec(
                                    final(graph).spec_events()[hd].cmd,
                                    final(graph).spec_events()[hd].arg,
                                    p,
                                ) == Some(p)
                            }
                    }),
                    WorkCacheError::HashChangeAtMerge(h, ih) => ({
                        let hd = h.spec_digest();
                        let id = ih.spec_digest();
                        &&& sts@.contains(hd)
                        &&& !merge_ancestors(old(graph).spec_events(), sts@).contains(hd)
                        &&& final(graph).spec_events().contains_key(hd)
                        &&& final(graph).spec_events().contains_key(id)
                        &&& final(graph).spec_events()[id].cmd
                            == final(graph).spec_events()[hd].cmd
                        &&& final(graph).spec_events()[id].arg
                            == final(graph).spec_events()[hd].arg
                        &&& crate::codec::hard_deps(final(graph).spec_events()[id].deps)
                            != crate::codec::hard_deps(final(graph).spec_events()[hd].deps)
                    }),
                    WorkCacheError::Graph(GraphError::HashCollision(_, _)) => true,
                    WorkCacheError::Graph(GraphError::DependencyNotFound(h)) => !old(
                        graph,
                    ).spec_events().contains_key(h.spec_digest()),
                    _ => false,
                },
                _ => true,
            },
    {
        let ghost en0 = self.spec_engine();
        let ghost init0 = self.spec_init();
        let ghost g0 = graph.spec_events();
        let ghost anc = merge_ancestors(g0, sts@);
        // The ancestor set that is not in contention.
        let mut evids: OrdMap<Digest, IncludeSpec> = OrdMap::new();
        let sn = sts.len();
        for i in 0..sn
            invariant
                sn == sts.seq().len(),
                sts.wf(),
                evids.wf(),
                forall|d: Digest| #[trigger] evids@.contains_key(d) ==> sts@.contains(d),
                forall|d: Digest|
                    #[trigger] evids@.contains_key(d) ==> evids@[d]
                        == IncludeSpec::IncludeOnlyDeps,
                forall|m: int| 0 <= m < i ==> evids@.contains_key(#[trigger] sts.seq()[m]),
        {
            evids.insert(sts.get_at(i), IncludeSpec::IncludeOnlyDeps);
        }
        proof {
            assert(evids@ =~= Map::new(
                |d: Digest| sts@.contains(d),
                |d: Digest| IncludeSpec::IncludeOnlyDeps,
            )) by {
                assert forall|d: Digest| sts@.contains(d) implies evids@.contains_key(d) by {
                    sts.lemma_contains(d);
                    let m = choose|m: int|
                        0 <= m < sts.seq().len() && sts.seq()[m] == d;
                    assert(evids@.contains_key(sts.seq()[m]));
                }
            }
        }
        let none: OrdSet<Digest> = OrdSet::new();
        let ghost evv = evids@;
        let ghost ttv = none@;
        let full = match graph.calculate_dependencies(none, evids) {
            Ok(o) => o,
            Err(ge) => {
                proof {
                    match &ge {
                        GraphError::DependencyNotFound(h) => {
                            assert(sts@.contains(h.spec_digest()));
                            assert(!g0.contains_key(h.spec_digest()));
                        },
                        _ => {},
                    }
                }
                return Err(WorkCacheError::Graph(ge));
            },
        };
        proof {
            assert(ttv =~= Set::<Digest>::empty());
            assert forall|m: int|
                0 <= m < sn implies graph.spec_events().contains_key(
                #[trigger] sts.seq()[m]) by {
                assert(evv.contains_key(sts.seq()[m]));
                assert(!ttv.contains(sts.seq()[m]));
            }
        }
        let ghost ds = Seq::new(full@.len(), |i: int| full@[i].spec_digest());
        proof {
            assert(ds.to_set() == anc);
            assert forall|m: int|
                0 <= m < full@.len() implies graph.spec_events().contains_key(
                (#[trigger] full@[m]).spec_digest()) by {
                assert(ds[m] == full@[m].spec_digest());
                assert(ds.to_set().contains(ds[m]));
            }
        }
        let mut full_set: OrdSet<Digest> = OrdSet::new();
        let fln = full.len();
        proof {
            assert(ds.take(0).to_set() =~= Set::<Digest>::empty());
        }
        for i in 0..fln
            invariant
                fln == full@.len(),
                graph.wf(),
                full_set.wf(),
                ds == Seq::new(full@.len(), |q: int| full@[q].spec_digest()),
                full_set@ == ds.take(i as int).to_set(),
                forall|d: Digest|
                    #[trigger] full_set@.contains(d) ==> graph.spec_events().contains_key(d),
                forall|m: int|
                    0 <= m < fln ==> graph.spec_events().contains_key(
                        (#[trigger] full@[m]).spec_digest(),
                    ),
        {
            full_set.insert(full[i].digest());
            proof {
                crate::ord::lemma_take_push(ds, i as int);
            }
        }
        proof {
            assert(ds.take(fln as int) =~= ds);
            assert(full_set@ == anc);
        }
        // Its leaves are the merge's starting frontier.
        let mut fmap: OrdMap<Digest, bool> = OrdMap::new();
        let fsn = full_set.len();
        for i in 0..fsn
            invariant
                fsn == full_set.seq().len(),
                graph.wf(),
                full_set.wf(),
                fmap.wf(),
                forall|d: Digest|
                    #[trigger] fmap@.contains_key(d) ==> graph.spec_events().contains_key(d),
                forall|d: Digest| #[trigger] full_set@.contains(d)
                    ==> graph.spec_events().contains_key(d),
        {
            fmap.insert(full_set.get_at(i), false);
        }
        proof {
            fmap.lemma_dom();
        }
        let folded = match graph.fold_state(fmap, false) {
            Some(f) => f,
            None => {
                proof {
                    // The ancestors are all stored, so their closure is too.
                    crate::graph::lemma_closure_except_bounded(
                        graph.spec_events(),
                        fmap@.dom(),
                        Set::empty(),
                    );
                    assert(fmap@.dom().subset_of(graph.spec_events().dom()));
                    assert(false);
                }
                return Err(WorkCacheError::Graph(GraphError::DatasetNotFound));
            },
        };
        let mut seed_deps: OrdSet<Digest> = OrdSet::new();
        let fn2 = folded.len();
        for i in 0..fn2
            invariant
                fn2 == folded.seq().len(),
                folded.wf(),
                seed_deps.wf(),
        {
            seed_deps.insert(folded.key_at(i));
        }
        // Re-shelve each contended event against the growing frontier.
        let mut si: usize = 0;
        while si < sn
            invariant
                sn == sts.seq().len(),
                sts.wf(),
                graph.wf(),
                self.wf(graph.spec_events()),
                self.spec_engine() == en0,
                self.spec_init() == init0,
                en0 == old(self).spec_engine(),
                init0 == old(self).spec_init(),
                seed_deps.wf(),
                full_set.wf(),
                g0 == old(graph).spec_events(),
                anc == merge_ancestors(g0, sts@),
                full_set@ == anc,
                graph.spec_nstates() == old(graph).spec_nstates(),
                forall|d: Digest|
                    #[trigger] old(graph).spec_events().contains_key(d)
                        ==> (graph.spec_events().contains_key(d)
                        && graph.spec_events()[d] == old(graph).spec_events()[d]),
                forall|m: int|
                    0 <= m < sn ==> graph.spec_events().contains_key(#[trigger] sts.seq()[m]),
                forall|m: int|
                    0 <= m < si ==> (anc.contains(#[trigger] sts.seq()[m]) || (exists|
                        ih: Digest,
                    |
                        reshelved_ok(graph.spec_events(), sts.seq()[m], ih))),
            decreases sn - si,
        {
            let ghost gstart = graph.spec_events();
            let i_dg = sts.get_at(si);
            if !full_set.contains(i_dg) {
                let lev = match graph.get_event(i_dg) {
                    Some(e) => clone_event(e),
                    None => {
                        proof {
                            assert(false);
                        }
                        return Ok(());
                    },
                };
                let ghost gpre = graph.spec_events();
                let h2 = match self.shelve_event(graph, seed_deps.clone(), lev) {
                    Ok(o) => o,
                    Err(e) => {
                        proof {
                            assert(sts@.contains(i_dg) && !anc.contains(i_dg));
                            match &e {
                                WorkCacheError::Graph(GraphError::DependencyNotFound(h)) => {
                                    assert(!gpre.contains_key(h.spec_digest()));
                                    assert(!g0.contains_key(h.spec_digest()));
                                },
                                _ => {},
                            }
                        }
                        return Err(e);
                    },
                };
                proof {
                    assert(sts@.contains(i_dg) && !anc.contains(i_dg));
                }
                match h2 {
                    None => {
                        return Err(
                            WorkCacheError::NoopAtMerge(crate::hash::Hash::from_digest(i_dg)),
                        );
                    },
                    Some(ih) => {
                        let ih_dg = ih.digest();
                        if !ih_dg.eq_key(i_dg) {
                            let a = match graph.get_event(i_dg) {
                                Some(e) => e,
                                None => {
                                    proof {
                                        assert(gpre.contains_key(i_dg));
                                        assert(false);
                                    }
                                    return Ok(());
                                },
                            };
                            let b = match graph.get_event(ih_dg) {
                                Some(e) => e,
                                None => {
                                    proof {
                                        // The re-shelved event was just
                                        // inserted under this hash.
                                        assert(false);
                                    }
                                    return Err(
                                        WorkCacheError::Graph(
                                            GraphError::DependencyNotFound(ih),
                                        ),
                                    );
                                },
                            };
                            if !hard_deps_eq(a, b) {
                                return Err(
                                    WorkCacheError::HashChangeAtMerge(
                                        crate::hash::Hash::from_digest(i_dg),
                                        ih,
                                    ),
                                );
                            }
                            proof {
                                assert(reshelved_ok(graph.spec_events(), i_dg, ih_dg)) by {
                                    assert(a@ == graph.spec_events()[i_dg]);
                                    assert(b@ == graph.spec_events()[ih_dg]);
                                }
                            }
                            // Only soft hints changed: accept.
                        } else {
                            proof {
                                assert(reshelved_ok(graph.spec_events(), i_dg, i_dg));
                            }
                        }
                    },
                }
                seed_deps.insert(i_dg);
            }
            proof {
                let gnow = graph.spec_events();
                assert forall|m: int|
                    0 <= m < si + 1 implies (anc.contains(#[trigger] sts.seq()[m]) || (exists|
                    ih: Digest,
                |
                    reshelved_ok(gnow, sts.seq()[m], ih))) by {
                    if m < si && !anc.contains(sts.seq()[m]) {
                        let ih = choose|ih: Digest|
                            reshelved_ok(gstart, sts.seq()[m], ih);
                        assert(reshelved_ok(gstart, sts.seq()[m], ih));
                        assert(reshelved_ok(gnow, sts.seq()[m], ih));
                    }
                }
            }
            si = si + 1;
        }
        proof {
            assert forall|k: Digest|
                (#[trigger] sts@.contains(k) && !anc.contains(k)) implies exists|ih: Digest|
                reshelved_ok(graph.spec_events(), k, ih) by {
                sts.lemma_contains(k);
                let m = choose|m: int| 0 <= m < sts.seq().len() && sts.seq()[m] == k;
                assert(anc.contains(sts.seq()[m]) || (exists|ih: Digest|
                    reshelved_ok(graph.spec_events(), sts.seq()[m], ih)));
            }
        }
        Ok(())
    }
}

/// The applied set after replaying one frontier member from nothing.
pub open spec fn single_replay_set(g: Map<Digest, EventV>, i: Digest) -> Set<Digest> {
    closure_except(
        g,
        replay_seeds(
            g,
            Map::<Digest, IncludeSpec>::empty().insert(i, IncludeSpec::IncludeAll),
            Set::empty(),
        ),
        Set::empty(),
    )
}

/// Every ordered pair of distinct frontier members replays, in either
/// order, to the one shared payload: each pairwise set has a valid replay
/// producing it.
pub open spec fn pairwise_agree<En: Engine>(
    en: &En,
    g: Map<Digest, EventV>,
    init: Seq<u8>,
    sts: Set<Digest>,
    common: Seq<u8>,
) -> bool {
    forall|i: Digest, j: Digest|
        (sts.contains(i) && sts.contains(j) && i != j) ==> #[trigger] entry_ok(
            en,
            g,
            init,
            pair_replay_set(g, i, j),
            common,
        )
}

/// The applied set after replaying `j` on top of `i`'s closure.
pub open spec fn pair_replay_set(g: Map<Digest, EventV>, i: Digest, j: Digest) -> Set<
    Digest,
> {
    single_replay_set(g, i).union(
        closure_except(
            g,
            replay_seeds(
                g,
                Map::<Digest, IncludeSpec>::empty().insert(j, IncludeSpec::IncludeAll),
                single_replay_set(g, i),
            ),
            single_replay_set(g, i),
        ),
    )
}

impl<'a, En: Engine> WorkCache<'a, En> {
    /// An exact copy of the cache, sharing the executor.
    fn duplicate(&self) -> (r: Self)
        ensures
            r.spec_engine() == self.spec_engine(),
            r.spec_init() == self.spec_init(),
            r.spec_cache() == self.spec_cache(),
            self.keys_wf() ==> r.keys_wf(),
    {
        let mut sts: Vec<(OrdSet<Digest>, Vec<u8>)> = Vec::new();
        let n = self.sts.len();
        for i in 0..n
            invariant
                n == self.sts@.len(),
                sts@.len() == i,
                forall|m: int|
                    0 <= m < i ==> ((#[trigger] sts@[m]).0.seq() == self.sts@[m].0.seq()
                        && sts@[m].0@ == self.sts@[m].0@ && sts@[m].1@ == self.sts@[m].1@),
        {
            sts.push((self.sts[i].0.clone(), clone_bytes(&self.sts[i].1)));
        }
        let r = WorkCache { engine: self.engine, sts, init: Ghost(self.init@) };
        proof {
            assert(r.spec_cache() =~= self.spec_cache());
            if self.keys_wf() {
                assert forall|i: int| 0 <= i < r.sts@.len() implies (
                #[trigger] r.sts@[i]).0.wf() by {
                    assert(self.sts@[i].0.wf());
                    assert(r.sts@[i].0.seq() == self.sts@[i].0.seq());
                }
            }
        }
        r
    }

    /// Merge eligibility: for every ordered pair of distinct frontier
    /// members, replaying one member's whole history on top of the
    /// other's must reach one common payload. Each pair is probed on its
    /// own copy of the cache; on agreement the shared base cache is
    /// returned, a disagreement yields nothing.
    pub fn check_if_mergable(&self, graph: &Graph, sts: OrdSet<Digest>) -> (r: Result<
        Option<WorkCache<'a, En>>,
        WorkCacheError<En::Error>,
    >)
        requires
            graph.wf(),
            self.wf(graph.spec_events()),
            sts.wf(),
        ensures
            match r {
                Ok(Some(w)) => {
                    &&& w.wf(graph.spec_events())
                    &&& w.spec_engine() == self.spec_engine()
                    &&& w.spec_init() == self.spec_init()
                    &&& forall|s: Set<Digest>, p: Seq<u8>|
                        self.has_entry(s, p) ==> #[trigger] w.has_entry(s, p)
                    &&& exists|common: Seq<u8>|
                        #[trigger] pairwise_agree(
                            self.spec_engine(),
                            graph.spec_events(),
                            self.spec_init(),
                            sts@,
                            common,
                        )
                },
                Ok(None) => exists|i: Digest, j: Digest, i2: Digest, j2: Digest, p: Seq<u8>, q: Seq<u8>|
                    {
                        &&& sts@.contains(i) && sts@.contains(j) && i != j
                        &&& sts@.contains(i2) && sts@.contains(j2) && i2 != j2
                        &&& #[trigger] entry_ok(
                            self.spec_engine(),
                            graph.spec_events(),
                            self.spec_init(),
                            pair_replay_set(graph.spec_events(), i, j),
                            p,
                        )
                        &&& #[trigger] entry_ok(
                            self.spec_engine(),
                            graph.spec_events(),
                            self.spec_init(),
                            pair_replay_set(graph.spec_events(), i2, j2),
                            q,
                        )
                        &&& p != q
                    },
                Err(e) => match e {
                    WorkCacheError::Engine(_) => true,
                    WorkCacheError::Graph(GraphError::DependencyNotFound(h)) => !graph
                        .spec_events().contains_key(h.spec_digest()) && sts@.contains(
                        h.spec_digest(),
                    ),
                    _ => false,
                },
            },
    {
        let ghost g = graph.spec_events();
        let ghost en0 = self.spec_engine();
        let ghost init0 = self.spec_init();
        let mut w = self.duplicate();
        proof {
            assert(w.wf(g));
        }
        // One base closure per member, shared through the cache.
        let mut bases: Vec<(Digest, OrdSet<Digest>, Vec<u8>)> = Vec::new();
        let sn = sts.len();
        for bi in 0..sn
            invariant
                sn == sts.seq().len(),
                sts.wf(),
                graph.wf(),
                g == graph.spec_events(),
                w.wf(g),
                w.spec_engine() == en0,
                w.spec_init() == init0,
                en0 == self.spec_engine(),
                init0 == self.spec_init(),
                forall|s: Set<Digest>, p: Seq<u8>|
                    self.has_entry(s, p) ==> #[trigger] w.has_entry(s, p),
                bases@.len() == bi,
                forall|m: int|
                    0 <= m < bi ==> ((#[trigger] bases@[m]).0 == sts.seq()[m]
                        && bases@[m].1.wf() && bases@[m].1@ == single_replay_set(
                        g,
                        sts.seq()[m],
                    ) && w.has_entry(bases@[m].1@, bases@[m].2@)),
        {
            let target = sts.get_at(bi);
            let e0: OrdSet<Digest> = OrdSet::new();
            let (p, tt) = match w.run_recursively(graph, e0, target, IncludeSpec::IncludeAll) {
                Ok(o) => o,
                Err(e) => {
                    proof {
                        match &e {
                            WorkCacheError::Graph(GraphError::DependencyNotFound(h)) => {
                                assert(sts@.contains(h.spec_digest()));
                            },
                            WorkCacheError::Graph(GraphError::DatasetNotFound) => {
                                assert(w.has_entry(Set::empty(), init0));
                                assert(false);
                            },
                            _ => {},
                        }
                    }
                    return Err(e);
                },
            };
            proof {
                assert(tt@ =~= single_replay_set(g, target));
            }
            bases.push((target, tt, p));
            proof {
                assert forall|m: int|
                    0 <= m < bi + 1 implies ((#[trigger] bases@[m]).0 == sts.seq()[m]
                    && bases@[m].1.wf() && bases@[m].1@ == single_replay_set(g, sts.seq()[m])
                    && w.has_entry(bases@[m].1@, bases@[m].2@)) by {
                }
            }
        }
        // The all-equal reduction over the pairwise probes, each probe on
        // its own copy of the cache so that the two orders of a pair stay
        // distinguishable.
        let mut common: Option<Vec<u8>> = None;
        let ghost mut cv = init0;
        let ghost mut cvi = Digest { w0: 0, w1: 0, w2: 0, w3: 0 };
        let ghost mut cvj = cvi;
        let mut bi: usize = 0;
        while bi < sn
            invariant
                sn == sts.seq().len(),
                sts.wf(),
                graph.wf(),
                g == graph.spec_events(),
                w.wf(g),
                w.spec_engine() == en0,
                w.spec_init() == init0,
                en0 == self.spec_engine(),
                init0 == self.spec_init(),
                forall|s: Set<Digest>, p: Seq<u8>|
                    self.has_entry(s, p) ==> #[trigger] w.has_entry(s, p),
                bases@.len() == sn,
                forall|m: int|
                    0 <= m < sn ==> ((#[trigger] bases@[m]).0 == sts.seq()[m]
                        && bases@[m].1.wf() && bases@[m].1@ == single_replay_set(
                        g,
                        sts.seq()[m],
                    ) && w.has_entry(bases@[m].1@, bases@[m].2@)),
                common matches Some(c) ==> c@ == cv,
                common is None ==> (bi == 0 || sn <= 1),
                common is Some ==> (sts@.contains(cvi) && sts@.contains(cvj) && cvi != cvj
                    && entry_ok(en0, g, init0, pair_replay_set(g, cvi, cvj), cv)),
                forall|a: int, b: int|
                    0 <= a < bi && 0 <= b < sn && sts.seq()[a] != sts.seq()[b]
                        ==> entry_ok(
                        en0,
                        g,
                        init0,
                        #[trigger] pair_replay_set(g, sts.seq()[a], sts.seq()[b]),
                        cv,
                    ),
            decreases sn - bi,
        {
            let mut j: usize = 0;
            while j < sn
                invariant
                    sn == sts.seq().len(),
                    sts.wf(),
                    graph.wf(),
                    g == graph.spec_events(),
                    w.wf(g),
                    w.spec_engine() == en0,
                    w.spec_init() == init0,
                    en0 == self.spec_engine(),
                    init0 == self.spec_init(),
                    bi < sn,
                    forall|s: Set<Digest>, p: Seq<u8>|
                        self.has_entry(s, p) ==> #[trigger] w.has_entry(s, p),
                    bases@.len() == sn,
                    forall|m: int|
                        0 <= m < sn ==> ((#[trigger] bases@[m]).0 == sts.seq()[m]
                            && bases@[m].1.wf() && bases@[m].1@ == single_replay_set(
                            g,
                            sts.seq()[m],
                        ) && w.has_entry(bases@[m].1@, bases@[m].2@)),
                    common matches Some(c) ==> c@ == cv,
                    common is None ==> (bi == 0 || sn <= 1),
                    common is Some ==> (sts@.contains(cvi) && sts@.contains(cvj) && cvi
                        != cvj && entry_ok(en0, g, init0, pair_replay_set(g, cvi, cvj), cv)),
                    common is None ==> forall|b: int|
                        0 <= b < j ==> sts.seq()[b] == sts.seq()[bi as int],
                    forall|a: int, b: int|
                        0 <= a < bi && 0 <= b < sn && sts.seq()[a] != sts.seq()[b]
                            ==> entry_ok(
                            en0,
                            g,
                            init0,
                            #[trigger] pair_replay_set(g, sts.seq()[a], sts.seq()[b]),
                            cv,
                        ),
                    forall|b: int|
                        0 <= b < j && sts.seq()[bi as int] != sts.seq()[b] ==> entry_ok(
                            en0,
                            g,
                            init0,
                            #[trigger] pair_replay_set(g, sts.seq()[bi as int], sts.seq()[b]),
                            cv,
                        ),
                decreases sn - j,
            {
                let i_dg = bases[bi].0;
                let j_dg = sts.get_at(j);
                if !i_dg.eq_key(j_dg) {
                    let mut wp = w.duplicate();
                    proof {
                        assert forall|s: Set<Digest>, p: Seq<u8>|
                            w.has_entry(s, p) implies #[trigger] wp.has_entry(s, p) by {
                        }
                        assert(wp.wf(g));
                        assert(wp.has_entry(bases@[bi as int].1@, bases@[bi as int].2@));
                    }
                    let base_tt = bases[bi].1.clone();
                    let (p, ptt) = match wp.run_recursively(
                        graph,
                        base_tt,
                        j_dg,
                        IncludeSpec::IncludeAll,
                    ) {
                        Ok(o) => o,
                        Err(e) => {
                            proof {
                                match &e {
                                    WorkCacheError::Graph(
                                        GraphError::DependencyNotFound(h),
                                    ) => {
                                        assert(sts@.contains(h.spec_digest()));
                                    },
                                    WorkCacheError::Graph(GraphError::DatasetNotFound) => {
                                        assert(w.has_entry(
                                            bases@[bi as int].1@,
                                            bases@[bi as int].2@,
                                        ));
                                        assert(false);
                                    },
                                    _ => {},
                                }
                            }
                            return Err(e);
                        },
                    };
                    proof {
                        assert(ptt@ == pair_replay_set(g, i_dg, j_dg));
                    }
                    let agreed = match &common {
                        None => {
                            proof {
                                cv = p@;
                                cvi = i_dg;
                                cvj = j_dg;
                            }
                            common = Some(p);
                            true
                        },
                        Some(c) => bytes_eq(c, &p),
                    };
                    if !agreed {
                        proof {
                            wp.lemma_cache_entry_replay(g, ptt@, p@);
                            assert(entry_ok(
                                en0,
                                g,
                                init0,
                                pair_replay_set(g, i_dg, j_dg),
                                p@,
                            ));
                            assert(entry_ok(en0, g, init0, pair_replay_set(g, cvi, cvj), cv));
                        }
                        return Ok(None);
                    }
                    proof {
                        wp.lemma_cache_entry_replay(g, ptt@, cv);
                        assert(entry_ok(en0, g, init0, pair_replay_set(g, i_dg, j_dg), cv));
                    }
                }
                j = j + 1;
            }
            proof {
                if common is None {
                    sts.lemma_no_duplicates();
                    if sn >= 2 {
                        if bi == 0 {
                            assert(sts.seq()[1] == sts.seq()[0]);
                        } else {
                            assert(sts.seq()[0] == sts.seq()[bi as int]);
                        }
                        assert(false);
                    }
                }
            }
            bi = bi + 1;
        }
        proof {
            assert forall|i: Digest, jx: Digest|
                (sts@.contains(i) && sts@.contains(jx) && i != jx) implies entry_ok(
                en0,
                g,
                init0,
                #[trigger] pair_replay_set(g, i, jx),
                cv,
            ) by {
                sts.lemma_contains(i);
                sts.lemma_contains(jx);
                let a = choose|a: int| 0 <= a < sts.seq().len() && sts.seq()[a] == i;
                let b = choose|b: int| 0 <= b < sts.seq().len() && sts.seq()[b] == jx;
                assert(entry_ok(en0, g, init0, pair_replay_set(g, sts.seq()[a], sts.seq()[b]), cv));
            }
            assert(pairwise_agree(en0, g, init0, sts@, cv));
        }
        Ok(Some(w))
    }
}

/// Clones an event, field by field.
fn clone_event(e: &Event) -> (r: Event)
    ensures
        r@ == e@,
        r.wf() == e.wf(),
{
    let arg = clone_bytes(&e.arg);
    let deps = e.deps.clone();
    Event { cmd: e.cmd, arg, deps }
}

/// The hard dependencies of two events agree, position by position.
fn hard_deps_eq(a: &Event, b: &Event) -> (r: bool)
    ensures
        r == (a@.hard_dep_seq() == b@.hard_dep_seq()),
{
    let ha = collect_hard(a);
    let hb = collect_hard(b);
    if ha.len() != hb.len() {
        proof {
            assert(a@.hard_dep_seq() != b@.hard_dep_seq());
        }
        return false;
    }
    let n = ha.len();
    for i in 0..n
        invariant
            n == ha@.len(),
            n == hb@.len(),
            ha@ == a@.hard_dep_seq(),
            hb@ == b@.hard_dep_seq(),
            forall|m: int| 0 <= m < i ==> ha@[m] == hb@[m],
    {
        if !ha[i].eq_key(hb[i]) {
            proof {
                assert(a@.hard_dep_seq()[i as int] != b@.hard_dep_seq()[i as int]);
            }
            return false;
        }
    }
    proof {
        assert(ha@ =~= hb@);
    }
    true
}

/// The digests of an event's hard edges, in stored order.
fn collect_hard(a: &Event) -> (r: Vec<Digest>)
    ensures
        r@ == a@.hard_dep_seq(),
{
    let mut out: Vec<Digest> = Vec::new();
    let n = a.deps.len();
    for i in 0..n
        invariant
            n == a.deps.seq().len(),
            out@ == crate::codec::hard_deps(a.deps.seq().take(i as int)),
    {
        let (d, hard) = a.deps.entry_at(i);
        proof {
            assert(a.deps.seq().take(i + 1).drop_last() =~= a.deps.seq().take(i as int));
            assert(a.deps.seq().take(i + 1).last() == a.deps.seq()[i as int]);
        }
        if hard {
            out.push(d);
        }
    }
    proof {
        assert(a.deps.seq().take(n as int) =~= a.deps.seq());
    }
    out
}

/// Keeps the candidates that no decision has been made about.
fn filter_unknown(seeds: &OrdSet<Digest>, m: &OrdMap<Digest, DepState>) -> (r: OrdSet<Digest>)
    requires
        seeds.wf(),
        m.wf(),
    ensures
        r.wf(),
        r@ == seeds@.difference(m@.dom()),
{
    let mut ks: OrdSet<Digest> = OrdSet::new();
    let n = m.len();
    for i in 0..n
        invariant
            n == m.seq().len(),
            m.wf(),
            ks.wf(),
            forall|q: int| 0 <= q < i ==> ks@.contains((#[trigger] m.seq()[q]).0),
            forall|d: Digest|
                ks@.contains(d) ==> exists|q: int|
                    0 <= q < i && (#[trigger] m.seq()[q]).0 == d,
    {
        let k = m.key_at(i);
        ks.insert(k);
        proof {
            assert forall|d: Digest| ks@.contains(d) implies exists|q: int|
                0 <= q < i + 1 && (#[trigger] m.seq()[q]).0 == d by {
                if d == k {
                    assert(m.seq()[i as int].0 == d);
                }
            }
        }
    }
    proof {
        assert(ks@ =~= m@.dom()) by {
            assert forall|d: Digest| ks@.contains(d) implies m@.dom().contains(d) by {
                let q = choose|q: int|
                    0 <= q < m.seq().len() && (#[trigger] m.seq()[q]).0 == d;
                m.lemma_at(q);
            }
            assert forall|d: Digest| m@.dom().contains(d) implies ks@.contains(d) by {
                m.lemma_contains_key(d);
                let q = choose|q: int|
                    0 <= q < m.seq().len() && (#[trigger] m.seq()[q]).0 == d;
            }
        }
    }
    seeds.difference(&ks)
}

/// Builds the replay request for a probing round: the given candidates
/// (optionally without the barred ones), plus every hard dependency found
/// so far; `except` is demoted to its own dependencies. Every requested
/// event is a candidate or a hard dependency; with nothing decided yet,
/// the request is exactly the candidate set, all replayed in full.
fn build_targets(
    seeds: &OrdSet<Digest>,
    skip_deny: bool,
    cur: &OrdMap<Digest, DepState>,
    except: Option<Digest>,
) -> (r: OrdMap<Digest, IncludeSpec>)
    requires
        seeds.wf(),
        cur.wf(),
    ensures
        r.wf(),
        match except {
            Some(c) => seeds@.contains(c) && !cur@.contains_key(c) ==> r@.contains_key(c),
            None => true,
        },
        forall|k: Digest|
            #[trigger] r@.contains_key(k) ==> (seeds@.contains(k) || (cur@.contains_key(k)
                && cur@[k] == DepState::Use)),
        forall|k: Digest|
            seeds@.contains(k) && !cur@.contains_key(k) ==> #[trigger] r@.contains_key(k),
        except is None ==> (forall|k: Digest|
            #[trigger] r@.contains_key(k) ==> r@[k] == IncludeSpec::IncludeAll),
        (cur@ =~= Map::<Digest, DepState>::empty() && except is None) ==> ((forall|k: Digest|
            #[trigger] r@.contains_key(k) <==> seeds@.contains(k)) && (forall|k: Digest|
            #[trigger] r@.contains_key(k) ==> r@[k] == IncludeSpec::IncludeAll)),
{
    let mut out: OrdMap<Digest, IncludeSpec> = OrdMap::new();
    let n = seeds.len();
    for i in 0..n
        invariant
            n == seeds.seq().len(),
            seeds.wf(),
            cur.wf(),
            out.wf(),
            forall|k: Digest| #[trigger] out@.contains_key(k) ==> seeds@.contains(k),
            forall|m: int|
                0 <= m < i && !cur@.contains_key(seeds.seq()[m]) ==> out@.contains_key(
                    #[trigger] seeds.seq()[m],
                ),
            except is None ==> (forall|k: Digest|
                #[trigger] out@.contains_key(k) ==> out@[k] == IncludeSpec::IncludeAll),
            (cur@ =~= Map::<Digest, DepState>::empty() && except is None) ==> ((forall|
                m: int,
            |
                0 <= m < i ==> out@.contains_key(#[trigger] seeds.seq()[m])) && (forall|
                k: Digest,
            |
                #[trigger] out@.contains_key(k) ==> out@[k] == IncludeSpec::IncludeAll)),
            match except {
                Some(c) => (exists|q: int|
                    0 <= q < i && #[trigger] seeds.seq()[q] == c) && !cur@.contains_key(c)
                    ==> out@.contains_key(c),
                None => true,
            },
    {
        let k = seeds.get_at(i);
        let barred = if skip_deny {
            match cur.get(k) {
                Some(st) => matches!(*st, DepState::Deny),
                None => false,
            }
        } else {
            false
        };
        if !barred {
            let incl = match except {
                Some(c) => {
                    if k.eq_key(c) {
                        IncludeSpec::IncludeOnlyDeps
                    } else {
                        IncludeSpec::IncludeAll
                    }
                },
                None => IncludeSpec::IncludeAll,
            };
            out.insert(k, incl);
        }
        proof {
            match except {
                Some(c) => {
                    if (exists|q: int| 0 <= q < i + 1 && #[trigger] seeds.seq()[q] == c)
                        && !cur@.contains_key(c) {
                        let q = choose|q: int|
                            0 <= q < i + 1 && #[trigger] seeds.seq()[q] == c;
                        if q == i {
                            assert(k == c);
                        }
                    }
                },
                None => {},
            }
        }
    }
    proof {
        assert forall|k: Digest|
            seeds@.contains(k) && !cur@.contains_key(k) implies #[trigger] out@.contains_key(
            k,
        ) by {
            seeds.lemma_contains(k);
            let m = choose|m: int| 0 <= m < seeds.seq().len() && seeds.seq()[m] == k;
            assert(out@.contains_key(seeds.seq()[m]));
        }
    }
    let cn = cur.len();
    for i in 0..cn
        invariant
            cn == cur.seq().len(),
            seeds.wf(),
            cur.wf(),
            out.wf(),
            forall|k: Digest|
                #[trigger] out@.contains_key(k) ==> (seeds@.contains(k) || (
                cur@.contains_key(k) && cur@[k] == DepState::Use)),
            forall|k: Digest|
                seeds@.contains(k) && !cur@.contains_key(k) ==> #[trigger] out@.contains_key(
                    k,
                ),
            except is None ==> (forall|k: Digest|
                #[trigger] out@.contains_key(k) ==> out@[k] == IncludeSpec::IncludeAll),
            (cur@ =~= Map::<Digest, DepState>::empty() && except is None) ==> ((forall|
                k: Digest,
            |
                #[trigger] out@.contains_key(k) <==> seeds@.contains(k)) && (forall|
                k: Digest,
            |
                #[trigger] out@.contains_key(k) ==> out@[k] == IncludeSpec::IncludeAll)),
            match except {
                Some(c) => seeds@.contains(c) && !cur@.contains_key(c) ==> out@.contains_key(
                    c,
                ),
                None => true,
            },
    {
        let (k, st) = cur.entry_at(i);
        proof {
            cur.lemma_at(i as int);
        }
        if matches!(st, DepState::Use) {
            proof {
                match except {
                    Some(c) => {
                        if seeds@.contains(c) && !cur@.contains_key(c) {
                            assert(k != c);
                        }
                    },
                    None => {},
                }
            }
            out.insert(k, IncludeSpec::IncludeAll);
        }
    }
    out
}

/// Byte-for-byte payload equality.
fn bytes_eq(a: &Vec<u8>, b: &Vec<u8>) -> (r: bool)
    ensures
        r == (a@ == b@),
{
    if a.len() != b.len() {
        return false;
    }
    let n = a.len();
    for i in 0..n
        invariant
            n == a@.len(),
            n == b@.len(),
            forall|m: int| 0 <= m < i ==> a@[m] == b@[m],
    {
        if a[i] != b[i] {
            return false;
        }
    }
    proof {
        assert(a@ =~= b@);
    }
    true
}

/// An exact copy of a byte vector.
fn clone_bytes(v: &Vec<u8>) -> (r: Vec<u8>)
    ensures
        r@ == v@,
{
    let mut out: Vec<u8> = Vec::new();
    let n = v.len();
    for i in 0..n
        invariant
            n == v@.len(),
            out@ == v@.take(i as int),
    {
        out.push(v[i]);
        proof {
            assert(out@ =~= v@.take(i + 1));
        }
    }
    proof {
        assert(out@ =~= v@);
    }
    out
}

} // verus!
