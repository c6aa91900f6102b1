//! State glue for callers that drive replay themselves: a state interface
//! over which events execute, and a high-level wrapper that tracks which
//! events ran and enforces dependency order.

use vstd::prelude::*;

use crate::apply::apply_tags_spec;
use crate::codec::Event;
use crate::codec::EventV;
use crate::ord::OrdSet;

verus! {

/// A materialized state that events execute against. `run_result` is the
/// implementation's mathematical meaning: the state (or failure) that
/// executing an event produces; `eq_spec` is what its equality decides.
/// `dup` and `eq_state` stand in for cloning and comparison, so that
/// commutativity of two events can be decided by running them in both
/// orders on copies.
pub trait State: Sized {
    type Error;

    spec fn run_result(&self, ev: EventV) -> Option<Self>;

    spec fn eq_spec(&self, other: &Self) -> bool;

    /// Executes one event, recording its results.
    fn run(&mut self, ev: &Event) -> (r: Result<(), Self::Error>)
        ensures
            match r {
                Ok(()) => old(self).run_result(ev@) == Some(*final(self)),
                Err(_) => old(self).run_result(ev@) is None,
            },
    ;

    fn dup(&self) -> (r: Self)
        ensures
            r == *self,
    ;

    fn eq_state(&self, other: &Self) -> (r: bool)
        ensures
            r == self.eq_spec(other),
    ;

    /// Whether the two events may sit on parallel branches: equal events
    /// trivially commute; otherwise applying them in either order must
    /// succeed and reach states the implementation calls equal.
    fn are_evs_commutative(&self, ev1: &Event, ev2: &Event) -> (r: Result<bool, Self::Error>)
        ensures
            match r {
                Ok(b) => {
                    if ev1@ == ev2@ {
                        b == true
                    } else {
                        match self.run_result(ev1@) {
                            Some(a1) => match a1.run_result(ev2@) {
                                Some(a2) => match self.run_result(ev2@) {
                                    Some(b1) => match b1.run_result(ev1@) {
                                        Some(b2) => b == a2.eq_spec(&b2),
                                        None => false,
                                    },
                                    None => false,
                                },
                                None => false,
                            },
                            None => false,
                        }
                    }
                },
                Err(_) => ev1@ != ev2@ && (match self.run_result(ev1@) {
                    None => true,
                    Some(a1) => match a1.run_result(ev2@) {
                        None => true,
                        Some(_) => match self.run_result(ev2@) {
                            None => true,
                            Some(b1) => b1.run_result(ev1@) is None,
                        },
                    },
                }),
            },
    {
        if crate::graph::event_eq(ev1, ev2) {
            return Ok(true);
        }
        let mut a = self.dup();
        match a.run(ev1) {
            Ok(()) => {
            },
            Err(e) => {
                return Err(e);
            },
        }
        match a.run(ev2) {
            Ok(()) => {
            },
            Err(e) => {
                return Err(e);
            },
        }
        let mut b = self.dup();
        match b.run(ev2) {
            Ok(()) => {
            },
            Err(e) => {
                return Err(e);
            },
        }
        match b.run(ev1) {
            Ok(()) => {
            },
            Err(e) => {
                return Err(e);
            },
        }
        Ok(a.eq_state(&b))
    }
}

#[derive(Debug)]
pub enum HiStateError<SE> {
    DependencyUnsatisfied(u128),
    RerunForbidden(u128),
    Inner(SE),
}

/// A state together with the set of event identifiers applied to it.
#[derive(Debug, PartialEq, Eq)]
pub struct HiState<S> {
    pub top: OrdSet<u128>,
    pub inner: S,
}

impl<S: State> HiState<S> {
    /// Runs one event after checking that it has not run and that all of
    /// its dependencies have.
    pub fn run(&mut self, nid: u128, deps: &OrdSet<u128>, ev: &Event) -> (r: Result<
        (),
        HiStateError<S::Error>,
    >)
        requires
            old(self).top.wf(),
            deps.wf(),
        ensures
            final(self).top.wf(),
            final(self).top@ == old(self).top@,
            match r {
                Ok(()) => !old(self).top@.contains(nid) && deps@.subset_of(old(self).top@)
                    && old(self).inner.run_result(ev@) == Some(final(self).inner),
                Err(HiStateError::RerunForbidden(n)) => n == nid && old(self).top@.contains(
                    nid,
                ) && final(self).inner == old(self).inner,
                Err(HiStateError::DependencyUnsatisfied(x)) => deps@.contains(x) && !old(
                    self,
                ).top@.contains(x) && final(self).inner == old(self).inner,
                Err(HiStateError::Inner(_)) => !old(self).top@.contains(nid)
                    && deps@.subset_of(old(self).top@) && old(self).inner.run_result(
                    ev@,
                ) is None,
            },
    {
        if self.top.contains(nid) {
            return Err(HiStateError::RerunForbidden(nid));
        }
        let missing = deps.difference(&self.top);
        if missing.len() > 0 {
            let x = missing.get_at(0);
            return Err(HiStateError::DependencyUnsatisfied(x));
        }
        proof {
            assert(deps@.subset_of(self.top@)) by {
                if !deps@.subset_of(self.top@) {
                    let w = choose|w: u128|
                        deps@.contains(w) && !#[trigger] self.top@.contains(w);
                    assert(missing@.contains(w));
                    missing.lemma_contains(w);
                }
            }
        }
        match self.inner.run(ev) {
            Ok(()) => Ok(()),
            Err(e) => Err(HiStateError::Inner(e)),
        }
    }
}

impl<S> HiState<S> {
    pub fn new(inner: S) -> (r: HiState<S>)
        ensures
            r.top.wf(),
            r.top@ == Set::<u128>::empty(),
            r.inner == inner,
    {
        HiState { top: OrdSet::new(), inner }
    }

    /// Compresses the applied set by the given tags: a tag replaces the
    /// events it covers when all of them ran and the tag itself did not,
    /// each tag judged against the set as it stood on entry.
    pub fn cleanup_top(&mut self, tags: &Vec<(u128, OrdSet<u128>)>)
        requires
            old(self).top.wf(),
            forall|i: int| 0 <= i < tags@.len() ==> (#[trigger] tags@[i]).1.wf(),
        ensures
            final(self).top.wf(),
            final(self).inner == old(self).inner,
            final(self).top@ == apply_tags_spec(
                old(self).top@,
                old(self).top@,
                Seq::new(tags@.len(), |i: int| (tags@[i].0, tags@[i].1@)),
            ),
    {
        let ghost top0 = self.top@;
        let ghost tseq = Seq::new(tags@.len(), |i: int| (tags@[i].0, tags@[i].1@));
        let orig = self.top.clone();
        let n = tags.len();
        proof {
            assert(tseq.skip(0) =~= tseq);
        }
        for i in 0..n
            invariant
                n == tags@.len(),
                tseq == Seq::new(tags@.len(), |q: int| (tags@[q].0, tags@[q].1@)),
                forall|q: int| 0 <= q < tags@.len() ==> (#[trigger] tags@[q]).1.wf(),
                orig.wf(),
                orig@ == top0,
                self.top.wf(),
                self.inner == old(self).inner,
                apply_tags_spec(top0, top0, tseq) == apply_tags_spec(
                    top0,
                    self.top@,
                    tseq.skip(i as int),
                ),
            decreases n - i,
        {
            let k = tags[i].0;
            proof {
                assert(tseq.skip(i as int)[0] == (tags@[i as int].0, tags@[i as int].1@));
                assert(tseq.skip(i as int).drop_first() =~= tseq.skip(i + 1));
            }
            if !orig.contains(k) && tags[i].1.is_subset_of(&orig) {
                let mut nt = self.top.difference(&tags[i].1);
                nt.insert(k);
                self.top = nt;
            }
        }
        proof {
            assert(tseq.skip(n as int) =~= Seq::<(u128, Set<u128>)>::empty());
        }
    }
}

} // verus!
