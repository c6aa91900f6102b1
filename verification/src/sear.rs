//! A reference executor: search-and-replace over a byte payload. One
//! command, whose argument carries the needle and the replacement; the
//! scan runs left to right without overlapping matches, exactly like a
//! plain sequential replace.

use vstd::prelude::*;

use crate::engine::Engine;
use crate::hash::be_bytes;
use crate::hash::be_val;
use crate::hash::be_val_n;
use crate::hash::lemma_be_val_of_be_bytes;
use crate::hash::push_be;
use crate::ord::OrdMap;

verus! {

/// Left-to-right, non-overlapping replacement of `pat` by `repl`. An
/// empty needle never matches, so it changes nothing.
pub open spec fn replace_bytes(dat: Seq<u8>, pat: Seq<u8>, repl: Seq<u8>) -> Seq<u8>
    decreases dat.len(),
{
    if pat.len() == 0 || dat.len() < pat.len() {
        dat
    } else if dat.take(pat.len() as int) == pat {
        repl + replace_bytes(dat.skip(pat.len() as int), pat, repl)
    } else {
        seq![dat[0]] + replace_bytes(dat.skip(1), pat, repl)
    }
}

/// The meaning of a search-and-replace argument: an 8-byte length header
/// for the needle, then the needle, then the replacement.
pub open spec fn sear_spec(arg: Seq<u8>, dat: Seq<u8>) -> Option<Seq<u8>> {
    if arg.len() >= 8 && 8 + be_val(arg.take(8)) <= arg.len() {
        let plen = be_val(arg.take(8));
        Some(replace_bytes(dat, arg.subrange(8, 8 + plen), arg.skip(8 + plen)))
    } else {
        None
    }
}

/// Packs a needle and a replacement into one argument blob.
pub fn sear_arg(pat: &[u8], repl: &[u8]) -> (r: Vec<u8>)
    ensures
        sear_spec(r@, Seq::<u8>::empty()) is Some,
        forall|dat: Seq<u8>| #[trigger] sear_spec(r@, dat) == Some(
            replace_bytes(dat, pat@, repl@),
        ),
{
    let mut out: Vec<u8> = Vec::new();
    let np: usize = pat.len();
    let nr: usize = repl.len();
    push_be(&mut out, np as u128, 8);
    let mut i: usize = 0;
    let ghost base = out@;
    while i < np
        invariant
            i <= np,
            np == pat@.len(),
            out@ == base + pat@.take(i as int),
        decreases np - i,
    {
        out.push(pat[i]);
        proof {
            assert(base + pat@.take(i + 1) =~= (base + pat@.take(i as int)).push(
                pat@[i as int],
            ));
        }
        i = i + 1;
    }
    let mut j: usize = 0;
    let ghost base2 = out@;
    while j < nr
        invariant
            j <= nr,
            nr == repl@.len(),
            out@ == base2 + repl@.take(j as int),
        decreases nr - j,
    {
        out.push(repl[j]);
        proof {
            assert(base2 + repl@.take(j + 1) =~= (base2 + repl@.take(j as int)).push(
                repl@[j as int],
            ));
        }
        j = j + 1;
    }
    proof {
        assert(pat@.take(np as int) =~= pat@);
        assert(repl@.take(nr as int) =~= repl@);
        crate::hash::lemma_be_bytes_len(np as int, 8);
        reveal_with_fuel(crate::hash::pow256, 9);
        lemma_be_val_of_be_bytes(np as int, 8);
        assert(out@.take(8) =~= be_bytes(np as int, 8));
        assert(out@.subrange(8, 8 + np as int) =~= pat@);
        assert(out@.skip(8 + np as int) =~= repl@);
        assert forall|dat: Seq<u8>| #[trigger] sear_spec(out@, dat) == Some(
            replace_bytes(dat, pat@, repl@),
        ) by {
        }
    }
    out
}

/// Left-to-right, non-overlapping search and replace.
pub fn replace_exec(dat: &Vec<u8>, pat: &[u8], repl: &[u8]) -> (r: Vec<u8>)
    ensures
        r@ == replace_bytes(dat@, pat@, repl@),
{
    let n = dat.len();
    let np = pat.len();
    let nr = repl.len();
    let mut out: Vec<u8> = Vec::new();
    let mut i: usize = 0;
    proof {
        assert(dat@.skip(0) =~= dat@);
        assert(out@ + replace_bytes(dat@, pat@, repl@) =~= replace_bytes(dat@, pat@, repl@));
    }
    while i < n
        invariant
            i <= n,
            n == dat@.len(),
            np == pat@.len(),
            nr == repl@.len(),
            replace_bytes(dat@, pat@, repl@) == out@ + replace_bytes(
                dat@.skip(i as int),
                pat@,
                repl@,
            ),
        decreases n - i,
    {
        let mut here = np > 0 && np <= n - i;
        if here {
            let mut k: usize = 0;
            while k < np
                invariant_except_break
                    here,
                invariant
                    k <= np,
                    np == pat@.len(),
                    n == dat@.len(),
                    i + np <= n,
                    forall|m: int| 0 <= m < k ==> dat@[i + m] == pat@[m],
                ensures
                    here ==> (k == np && forall|m: int| 0 <= m < np ==> dat@[i + m] == pat@[m]),
                    !here ==> exists|m: int| 0 <= m < np && dat@[i + m] != pat@[m],
                decreases np - k,
            {
                if dat[i + k] != pat[k] {
                    here = false;
                    proof {
                        assert(dat@[i + k] != pat@[k as int]);
                    }
                    break ;
                }
                k = k + 1;
            }
        }
        let ghost rest = dat@.skip(i as int);
        if here {
            proof {
                assert(rest.take(np as int) =~= pat@);
                assert(rest.skip(np as int) =~= dat@.skip(i + np));
                assert(replace_bytes(rest, pat@, repl@) == repl@ + replace_bytes(
                    dat@.skip(i + np),
                    pat@,
                    repl@,
                ));
            }
            let mut j: usize = 0;
            let ghost base = out@;
            while j < nr
                invariant
                    j <= nr,
                    nr == repl@.len(),
                    out@ == base + repl@.take(j as int),
                decreases nr - j,
            {
                out.push(repl[j]);
                proof {
                    assert(base + repl@.take(j + 1) =~= (base + repl@.take(j as int)).push(
                        repl@[j as int],
                    ));
                }
                j = j + 1;
            }
            proof {
                assert(repl@.take(nr as int) =~= repl@);
                assert((base + repl@) + replace_bytes(dat@.skip(i + np), pat@, repl@) =~= base
                    + (repl@ + replace_bytes(dat@.skip(i + np), pat@, repl@)));
            }
            i = i + np;
        } else {
            proof {
                if np > 0 && rest.len() >= np {
                    if rest.take(np as int) == pat@ {
                        let m = choose|m: int| 0 <= m < np && dat@[i + m] != pat@[m];
                        assert(rest.take(np as int)[m] == dat@[i + m]);
                    }
                }
                assert(rest.skip(1) =~= dat@.skip(i + 1));
                if np == 0 || rest.len() < np {
                    assert(replace_bytes(rest, pat@, repl@) == rest);
                    assert(rest =~= seq![dat@[i as int]] + replace_bytes(
                        rest.skip(1),
                        pat@,
                        repl@,
                    )) by {
                        if np == 0 || rest.skip(1).len() < np {
                            assert(replace_bytes(rest.skip(1), pat@, repl@) == rest.skip(1));
                            assert(rest =~= seq![dat@[i as int]] + rest.skip(1));
                        }
                    }
                } else {
                    assert(replace_bytes(rest, pat@, repl@) == seq![dat@[i as int]]
                        + replace_bytes(rest.skip(1), pat@, repl@));
                }
            }
            let ghost base = out@;
            out.push(dat[i]);
            proof {
                assert(out@ + replace_bytes(dat@.skip(i + 1), pat@, repl@) =~= base + (seq![
                    dat@[i as int],
                ] + replace_bytes(dat@.skip(i + 1), pat@, repl@)));
            }
            i = i + 1;
        }
    }
    proof {
        assert(dat@.skip(n as int) =~= Seq::<u8>::empty());
        assert(replace_bytes(Seq::<u8>::empty(), pat@, repl@) =~= Seq::<u8>::empty());
        assert(out@ =~= out@ + Seq::<u8>::empty());
    }
    out
}

/// The search-and-replace executor over byte payloads: command 0 replaces
/// every occurrence of the needle by the replacement.
pub struct SearEngine;

impl Engine for SearEngine {
    type Error = u32;

    open spec fn run_spec(&self, cmd: u32, arg: Seq<u8>, dat: Seq<u8>) -> Option<Seq<u8>> {
        if cmd == 0 {
            sear_spec(arg, dat)
        } else {
            None
        }
    }

    fn run_event_bare(&self, cmd: u32, arg: &Vec<u8>, dat: &Vec<u8>) -> (r: Result<
        Vec<u8>,
        u32,
    >) {
        if cmd != 0 {
            return Err(cmd);
        }
        let n = arg.len();
        if n < 8 {
            return Err(0);
        }
        let plen128 = be_val_n(arg.as_slice(), 0, 8);
        proof {
            crate::hash::lemma_be_val_bound(arg@.take(8));
            reveal_with_fuel(crate::hash::pow256, 9);
            assert(arg@.subrange(0, 8) =~= arg@.take(8));
        }
        if plen128 > (n - 8) as u128 {
            return Err(0);
        }
        let plen = plen128 as usize;
        let mut pat: Vec<u8> = Vec::new();
        let mut i: usize = 0;
        while i < plen
            invariant
                i <= plen,
                n == arg@.len(),
                8 + plen <= n,
                pat@ == arg@.subrange(8, 8 + i as int),
            decreases plen - i,
        {
            pat.push(arg[8 + i]);
            proof {
                assert(arg@.subrange(8, 8 + i + 1) =~= arg@.subrange(8, 8 + i as int).push(
                    arg@[8 + i],
                ));
            }
            i = i + 1;
        }
        let mut repl: Vec<u8> = Vec::new();
        let mut j: usize = 0;
        let nrep = n - 8 - plen;
        while j < nrep
            invariant
                j <= nrep,
                n == arg@.len(),
                nrep == n - 8 - plen,
                8 + plen <= n,
                repl@ == arg@.subrange(8 + plen as int, 8 + plen + j as int),
            decreases nrep - j,
        {
            repl.push(arg[8 + plen + j]);
            proof {
                assert(arg@.subrange(8 + plen as int, 8 + plen + j + 1) =~= arg@.subrange(
                    8 + plen as int,
                    8 + plen + j as int,
                ).push(arg@[8 + plen + j]));
            }
            j = j + 1;
        }
        let out = replace_exec(dat, pat.as_slice(), repl.as_slice());
        proof {
            assert(repl@ =~= arg@.skip(8 + plen as int));
        }
        Ok(out)
    }
}

/// An event for the search-and-replace executor, with no dependencies
/// filled in yet.
pub fn sear_event(pat: &[u8], repl: &[u8]) -> (r: crate::codec::Event)
    ensures
        r.cmd == 0,
        r.wf(),
        r@.deps == Seq::<(crate::hash::Digest, bool)>::empty(),
        forall|dat: Seq<u8>| #[trigger] sear_spec(r@.arg, dat) == Some(
            replace_bytes(dat, pat@, repl@),
        ),
{
    let arg = sear_arg(pat, repl);
    crate::codec::Event { cmd: 0, arg, deps: OrdMap::new() }
}

} // verus!
