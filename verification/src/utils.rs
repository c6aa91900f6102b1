//! Applicability of an event against a tracked frontier of hashes.

use vstd::prelude::*;

use crate::hash::Digest;
use crate::ord::OrdSet;

verus! {

#[derive(Clone, Copy, Debug, PartialEq, Eq, Structural)]
pub enum ApplyError {
    DependencyUnsatisfied(crate::hash::Hash),
    RerunForbidden(crate::hash::Hash),
}

/// Whether an event with hash `evid` and dependencies `deps` may run on a
/// state whose applied set is `trackertop`: it must not have run already,
/// and every dependency must have.
pub fn can_run(
    trackertop: &OrdSet<Digest>,
    evid: &crate::hash::Hash,
    deps: &OrdSet<Digest>,
) -> (r: Result<(), ApplyError>)
    requires
        trackertop.wf(),
        deps.wf(),
    ensures
        r is Ok <==> (!trackertop@.contains(evid.spec_digest()) && deps@.subset_of(
            trackertop@,
        )),
        match r {
            Ok(()) => true,
            Err(ApplyError::RerunForbidden(h)) => h == evid && trackertop@.contains(
                evid.spec_digest(),
            ),
            Err(ApplyError::DependencyUnsatisfied(x)) => deps@.contains(x.spec_digest())
                && !trackertop@.contains(x.spec_digest()),
        },
{
    if trackertop.contains(evid.digest()) {
        return Err(ApplyError::RerunForbidden(*evid));
    }
    let missing = deps.difference(trackertop);
    if missing.len() > 0 {
        let x = missing.get_at(0);
        return Err(ApplyError::DependencyUnsatisfied(crate::hash::Hash::from_digest(x)));
    }
    proof {
        assert(deps@.subset_of(trackertop@)) by {
            if !deps@.subset_of(trackertop@) {
                let w = choose|w: Digest|
                    deps@.contains(w) && !#[trigger] trackertop@.contains(w);
                assert(missing@.contains(w));
                missing.lemma_contains(w);
            }
        }
    }
    Ok(())
}

} // verus!
