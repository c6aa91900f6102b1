//! The executor contract: an external, pure, deterministic transformer
//! that applies one command to a payload. The core invokes it many times
//! with identical arguments and relies on its determinism for caching.

use vstd::prelude::*;

verus! {

/// An executor. `run_spec` is the implementation's mathematical meaning:
/// the payload (or failure) that applying `cmd` with argument `arg` to
/// payload `dat` produces; `run_event_bare` must compute exactly that.
/// Implementors decide both; the core is verified against whatever they
/// promise.
pub trait Engine: Sized {
    type Error;

    spec fn run_spec(&self, cmd: u32, arg: Seq<u8>, dat: Seq<u8>) -> Option<Seq<u8>>;

    /// Executes one event on the given payload, ignoring dependencies.
    fn run_event_bare(&self, cmd: u32, arg: &Vec<u8>, dat: &Vec<u8>) -> (r: Result<
        Vec<u8>,
        Self::Error,
    >)
        ensures
            match r {
                Ok(out) => self.run_spec(cmd, arg@, dat@) == Some(out@),
                Err(_) => self.run_spec(cmd, arg@, dat@) is None,
            },
    ;
}

} // verus!
