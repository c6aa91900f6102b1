//! A tracker for manually driven replay: which events have run, and which
//! saved tags may compress the applied set.

use vstd::prelude::*;

use crate::ord::OrdSet;

verus! {

#[derive(Clone, Copy, Debug, PartialEq, Eq, Structural)]
pub enum ApplyError {
    DependencyUnsatisfied(u128),
    RerunForbidden(u128),
}

/// Tracks the set of applied event identifiers.
#[derive(Debug, PartialEq, Eq)]
pub struct ApplyTracker {
    pub top: OrdSet<u128>,
}

/// Whether one tag rewrites the applied set: a tag replaces the events it
/// covers when all of them ran and the tag itself did not.
pub open spec fn tag_applies(top0: Set<u128>, k: u128, v: Set<u128>) -> bool {
    !top0.contains(k) && v.subset_of(top0)
}

/// The applied set after folding the tags in order; every tag is judged
/// against the set as it was before any tag ran.
pub open spec fn apply_tags_spec(
    top0: Set<u128>,
    run: Set<u128>,
    tags: Seq<(u128, Set<u128>)>,
) -> Set<u128>
    decreases tags.len(),
{
    if tags.len() == 0 {
        run
    } else {
        let k = tags[0].0;
        let v = tags[0].1;
        let next = if tag_applies(top0, k, v) {
            run.difference(v).insert(k)
        } else {
            run
        };
        apply_tags_spec(top0, next, tags.drop_first())
    }
}

impl ApplyTracker {
    pub fn new() -> (r: ApplyTracker)
        ensures
            r.top.wf(),
            r.top@ == Set::<u128>::empty(),
    {
        ApplyTracker { top: OrdSet::new() }
    }

    /// Whether the event `nid` with dependencies `deps` may run now: it
    /// must not have run already, and every dependency must have.
    pub fn can_run(&self, nid: u128, deps: &OrdSet<u128>) -> (r: Result<(), ApplyError>)
        requires
            self.top.wf(),
            deps.wf(),
        ensures
            r is Ok <==> (!self.top@.contains(nid) && deps@.subset_of(self.top@)),
            match r {
                Ok(()) => true,
                Err(ApplyError::RerunForbidden(n)) => n == nid && self.top@.contains(nid),
                Err(ApplyError::DependencyUnsatisfied(x)) => deps@.contains(x)
                    && !self.top@.contains(x),
            },
    {
        if self.top.contains(nid) {
            return Err(ApplyError::RerunForbidden(nid));
        }
        let missing = deps.difference(&self.top);
        if missing.len() > 0 {
            let x = missing.get_at(0);
            return Err(ApplyError::DependencyUnsatisfied(x));
        }
        proof {
            assert(deps@.subset_of(self.top@)) by {
                if !deps@.subset_of(self.top@) {
                    let w = choose|w: u128|
                        deps@.contains(w) && !#[trigger] self.top@.contains(w);
                    assert(missing@.contains(w));
                    missing.lemma_contains(w);
                }
            }
        }
        Ok(())
    }

    pub fn register_as_ran(&mut self, nid: u128)
        requires
            old(self).top.wf(),
        ensures
            final(self).top.wf(),
            final(self).top@ == old(self).top@.insert(nid),
    {
        self.top.insert(nid);
    }

    /// Rewrites the applied set by every tag whose covered events all ran:
    /// the covered events leave the set and the tag takes their place.
    /// Each tag is judged against the set as it stood on entry.
    pub fn apply_tags(&mut self, tags: &Vec<(u128, OrdSet<u128>)>)
        requires
            old(self).top.wf(),
            forall|i: int| 0 <= i < tags@.len() ==> (#[trigger] tags@[i]).1.wf(),
        ensures
            final(self).top.wf(),
            final(self).top@ == apply_tags_spec(
                old(self).top@,
                old(self).top@,
                Seq::new(tags@.len(), |i: int| (tags@[i].0, tags@[i].1@)),
            ),
    {
        let ghost top0 = self.top@;
        let ghost tseq = Seq::new(tags@.len(), |i: int| (tags@[i].0, tags@[i].1@));
        let orig = self.top.clone();
        let n = tags.len();
        proof {
            assert(tseq.skip(0) =~= tseq);
        }
        for i in 0..n
            invariant
                n == tags@.len(),
                tseq == Seq::new(tags@.len(), |q: int| (tags@[q].0, tags@[q].1@)),
                forall|q: int| 0 <= q < tags@.len() ==> (#[trigger] tags@[q]).1.wf(),
                orig.wf(),
                orig@ == top0,
                self.top.wf(),
                apply_tags_spec(top0, top0, tseq) == apply_tags_spec(
                    top0,
                    self.top@,
                    tseq.skip(i as int),
                ),
            decreases n - i,
        {
            let k = tags[i].0;
            proof {
                assert(tseq.skip(i as int)[0] == (tags@[i as int].0, tags@[i as int].1@));
                assert(tseq.skip(i as int).drop_first() =~= tseq.skip(i + 1));
            }
            if !orig.contains(k) && tags[i].1.is_subset_of(&orig) {
                let mut nt = self.top.difference(&tags[i].1);
                nt.insert(k);
                self.top = nt;
            }
        }
        proof {
            assert(tseq.skip(n as int) =~= Seq::<(u128, Set<u128>)>::empty());
        }
    }
}

impl Default for ApplyTracker {
    fn default() -> (r: ApplyTracker)
        ensures
            r.top.wf(),
            r.top@ == Set::<u128>::empty(),
    {
        ApplyTracker { top: OrdSet::new() }
    }
}

} // verus!
