//! The event record and its deterministic byte encoding. The encoding is
//! canonical — fixed field order, big-endian integers, dependencies sorted
//! by digest — because an event's content hash is the hash of its encoding,
//! so the encoding is frozen once chosen.

use vstd::prelude::*;

use crate::hash::be_bytes;
use crate::hash::be_val;
use crate::hash::be_val_n;
use crate::hash::digest_at;
use crate::hash::blake2b512_of;
use crate::hash::bytes_to_digest;
use crate::hash::digest_bytes;
use crate::hash::digest_of_bytes;
use crate::hash::lemma_be_bytes_len;
use crate::hash::lemma_be_bytes_of_be_val;
use crate::hash::lemma_be_val_bound;
use crate::hash::lemma_be_val_of_be_bytes;
use crate::hash::lemma_bytes_of_digest_roundtrip;
use crate::hash::lemma_digest_of_bytes_roundtrip;
use crate::hash::lemma_pow256_16;
use crate::hash::lemma_pow256_mono;
use crate::hash::pow256;
use crate::hash::push_be;
use crate::hash::Digest;
use crate::ord::OrdMap;
use crate::ord::OrderedKey;

verus! {

/// An immutable event: a command selector, an opaque argument, and the set
/// of direct causal predecessors, each edge marked hard (structural) or
/// soft (a hint kept when minimization stopped early).
pub struct Event {
    pub cmd: u32,
    pub arg: Vec<u8>,
    pub deps: OrdMap<Digest, bool>,
}

/// The mathematical view of an event: command, argument bytes, and the
/// ordered dependency list.
pub struct EventV {
    pub cmd: u32,
    pub arg: Seq<u8>,
    pub deps: Seq<(Digest, bool)>,
}

impl View for Event {
    type V = EventV;

    open spec fn view(&self) -> EventV {
        EventV { cmd: self.cmd, arg: self.arg@, deps: self.deps.seq() }
    }
}

impl EventV {
    /// The dependency digests, regardless of edge kind.
    pub open spec fn dep_set(self) -> Set<Digest> {
        Set::new(
            |d: Digest|
                exists|i: int| 0 <= i < self.deps.len() && (#[trigger] self.deps[i]).0 == d,
        )
    }

    /// The hard (structural) dependency digests, in stored order.
    pub open spec fn hard_dep_seq(self) -> Seq<Digest> {
        hard_deps(self.deps)
    }

    /// The hard (structural) dependency digests.
    pub open spec fn hard_dep_set(self) -> Set<Digest> {
        Set::new(
            |d: Digest|
                exists|i: int|
                    0 <= i < self.deps.len() && (#[trigger] self.deps[i]) == (d, true),
        )
    }

    pub open spec fn wf(self) -> bool {
        deps_sorted(self.deps)
    }
}

impl Event {
    pub open spec fn wf(self) -> bool {
        self.deps.wf()
    }
}

/// The digests of the hard edges of a dependency list, in order.
pub open spec fn hard_deps(ds: Seq<(Digest, bool)>) -> Seq<Digest>
    decreases ds.len(),
{
    if ds.len() == 0 {
        Seq::empty()
    } else if ds.last().1 {
        hard_deps(ds.drop_last()).push(ds.last().0)
    } else {
        hard_deps(ds.drop_last())
    }
}

/// The dependency digests seen through the event's map agree with the
/// digests seen through its view.
pub proof fn lemma_event_dep_set(ev: Event)
    ensures
        ev@.dep_set() == ev.deps@.dom(),
{
    assert forall|d: Digest| ev@.dep_set().contains(d) implies ev.deps@.dom().contains(d) by {
        let w = choose|w: int|
            0 <= w < ev.deps.seq().len() && (#[trigger] ev.deps.seq()[w]).0 == d;
        ev.deps.lemma_contains_key(d);
    }
    assert forall|d: Digest| ev.deps@.dom().contains(d) implies ev@.dep_set().contains(d) by {
        ev.deps.lemma_contains_key(d);
        let w = choose|w: int|
            0 <= w < ev.deps.seq().len() && (#[trigger] ev.deps.seq()[w]).0 == d;
    }
    assert(ev@.dep_set() =~= ev.deps@.dom());
}

/// One encoded dependency edge: algorithm tag, digest bytes, edge kind.
pub open spec fn dep_entry_bytes(d: Digest, hard: bool) -> Seq<u8> {
    seq![0u8] + digest_bytes(d) + seq![
        (if hard {
            1u8
        } else {
            0u8
        }),
    ]
}

pub open spec fn deps_bytes(ds: Seq<(Digest, bool)>) -> Seq<u8>
    decreases ds.len(),
{
    if ds.len() == 0 {
        Seq::empty()
    } else {
        deps_bytes(ds.drop_last()) + dep_entry_bytes(ds.last().0, ds.last().1)
    }
}

/// The canonical encoding of an event.
pub open spec fn event_bytes(cmd: u32, arg: Seq<u8>, ds: Seq<(Digest, bool)>) -> Seq<u8> {
    be_bytes(cmd as int, 4) + be_bytes(arg.len() as int, 8) + arg + be_bytes(
        ds.len() as int,
        8,
    ) + deps_bytes(ds)
}

/// The content hash of an event is the hash of its canonical encoding.
pub open spec fn event_digest(ev: EventV) -> Digest {
    digest_of_bytes(blake2b512_of(event_bytes(ev.cmd, ev.arg, ev.deps)))
}

pub proof fn lemma_deps_bytes_len(ds: Seq<(Digest, bool)>)
    ensures
        deps_bytes(ds).len() == 66 * ds.len(),
    decreases ds.len(),
{
    if ds.len() > 0 {
        lemma_deps_bytes_len(ds.drop_last());
        lemma_digest_of_bytes_roundtrip(ds.last().0);
    }
}

/// Each encoded dependency sits at its fixed offset.
pub proof fn lemma_deps_bytes_index(ds: Seq<(Digest, bool)>, i: int)
    requires
        0 <= i < ds.len(),
    ensures
        deps_bytes(ds).subrange(66 * i, 66 * i + 66) == dep_entry_bytes(ds[i].0, ds[i].1),
    decreases ds.len(),
{
    lemma_deps_bytes_len(ds);
    lemma_deps_bytes_len(ds.drop_last());
    lemma_digest_of_bytes_roundtrip(ds.last().0);
    if i == ds.len() - 1 {
        assert(deps_bytes(ds).subrange(66 * i, 66 * i + 66) =~= dep_entry_bytes(
            ds[i].0,
            ds[i].1,
        ));
    } else {
        lemma_deps_bytes_index(ds.drop_last(), i);
        assert(deps_bytes(ds).subrange(66 * i, 66 * i + 66) =~= deps_bytes(
            ds.drop_last(),
        ).subrange(66 * i, 66 * i + 66));
    }
}

proof fn lemma_deps_bytes_injective(d1: Seq<(Digest, bool)>, d2: Seq<(Digest, bool)>)
    requires
        d1.len() == d2.len(),
        deps_bytes(d1) == deps_bytes(d2),
    ensures
        d1 == d2,
    decreases d1.len(),
{
    if d1.len() > 0 {
        lemma_deps_bytes_len(d1.drop_last());
        lemma_deps_bytes_len(d2.drop_last());
        lemma_digest_of_bytes_roundtrip(d1.last().0);
        lemma_digest_of_bytes_roundtrip(d2.last().0);
        let e1 = dep_entry_bytes(d1.last().0, d1.last().1);
        let e2 = dep_entry_bytes(d2.last().0, d2.last().1);
        let n = deps_bytes(d1).len();
        assert(e1 =~= deps_bytes(d1).subrange(n - 66, n as int));
        assert(e2 =~= deps_bytes(d2).subrange(n - 66, n as int));
        assert(digest_bytes(d1.last().0) =~= e1.subrange(1, 65));
        assert(digest_bytes(d2.last().0) =~= e2.subrange(1, 65));
        assert(d1.last().0 == d2.last().0) by {
            assert(digest_of_bytes(digest_bytes(d1.last().0)) == digest_of_bytes(
                digest_bytes(d2.last().0),
            ));
        }
        assert(d1.last().1 == d2.last().1) by {
            assert(e1[65] == e2[65]);
        }
        assert(deps_bytes(d1.drop_last()) =~= deps_bytes(d2.drop_last())) by {
            assert(deps_bytes(d1.drop_last()) =~= deps_bytes(d1).subrange(0, n - 66));
            assert(deps_bytes(d2.drop_last()) =~= deps_bytes(d2).subrange(0, n - 66));
        }
        lemma_deps_bytes_injective(d1.drop_last(), d2.drop_last());
        assert(d1 =~= d1.drop_last().push(d1.last()));
        assert(d2 =~= d2.drop_last().push(d2.last()));
    } else {
        assert(d1 =~= d2);
    }
}

/// Hash stability: the canonical encoding is injective, so an event decoded
/// from an encoding re-encodes to the identical bytes, and distinct events
/// never collide in their encodings.
pub proof fn lemma_event_bytes_injective(
    c1: u32,
    a1: Seq<u8>,
    d1: Seq<(Digest, bool)>,
    c2: u32,
    a2: Seq<u8>,
    d2: Seq<(Digest, bool)>,
)
    requires
        event_bytes(c1, a1, d1) == event_bytes(c2, a2, d2),
        a1.len() <= u64::MAX,
        a2.len() <= u64::MAX,
        d1.len() <= u64::MAX,
        d2.len() <= u64::MAX,
    ensures
        c1 == c2,
        a1 == a2,
        d1 == d2,
{
    let s = event_bytes(c1, a1, d1);
    lemma_be_bytes_len(c1 as int, 4);
    lemma_be_bytes_len(c2 as int, 4);
    lemma_be_bytes_len(a1.len() as int, 8);
    lemma_be_bytes_len(a2.len() as int, 8);
    lemma_be_bytes_len(d1.len() as int, 8);
    lemma_be_bytes_len(d2.len() as int, 8);
    lemma_deps_bytes_len(d1);
    lemma_deps_bytes_len(d2);
    assert(be_bytes(c1 as int, 4) =~= s.subrange(0, 4));
    assert(be_bytes(c2 as int, 4) =~= s.subrange(0, 4));
    assert(c1 == c2) by {
        lemma_pow256_16();
        lemma_pow256_mono(4, 16);
        lemma_cast_fits_u32(c1);
        lemma_cast_fits_u32(c2);
        lemma_be_val_of_be_bytes(c1 as int, 4);
        lemma_be_val_of_be_bytes(c2 as int, 4);
    }
    assert(be_bytes(a1.len() as int, 8) =~= s.subrange(4, 12));
    assert(be_bytes(a2.len() as int, 8) =~= s.subrange(4, 12));
    assert(a1.len() == a2.len()) by {
        lemma_cast_fits_u64(a1.len() as int);
        lemma_cast_fits_u64(a2.len() as int);
        lemma_be_val_of_be_bytes(a1.len() as int, 8);
        lemma_be_val_of_be_bytes(a2.len() as int, 8);
    }
    let al = a1.len() as int;
    assert(a1 =~= s.subrange(12, 12 + al));
    assert(a2 =~= s.subrange(12, 12 + al));
    assert(be_bytes(d1.len() as int, 8) =~= s.subrange(12 + al, 20 + al));
    assert(be_bytes(d2.len() as int, 8) =~= s.subrange(12 + al, 20 + al));
    assert(d1.len() == d2.len()) by {
        lemma_cast_fits_u64(d1.len() as int);
        lemma_cast_fits_u64(d2.len() as int);
        lemma_be_val_of_be_bytes(d1.len() as int, 8);
        lemma_be_val_of_be_bytes(d2.len() as int, 8);
    }
    assert(deps_bytes(d1) =~= s.subrange(20 + al, s.len() as int));
    assert(deps_bytes(d2) =~= s.subrange(20 + al, s.len() as int));
    lemma_deps_bytes_injective(d1, d2);
}

proof fn lemma_cast_fits_u32(c: u32)
    ensures
        0 <= c as int && (c as int) < pow256(4),
{
    reveal_with_fuel(pow256, 5);
}

proof fn lemma_cast_fits_u64(x: int)
    requires
        0 <= x <= u64::MAX,
    ensures
        0 <= x && x < pow256(8),
{
    reveal_with_fuel(pow256, 9);
}

/// Keys strictly increase along a dependency list.
pub open spec fn deps_sorted(ds: Seq<(Digest, bool)>) -> bool {
    forall|i: int, j: int|
        0 <= i < j < ds.len() ==> (#[trigger] ds[i]).0.lt_spec((#[trigger] ds[j]).0)
}

pub proof fn lemma_deps_bytes_prefix(ds: Seq<(Digest, bool)>, i: int)
    requires
        0 <= i <= ds.len(),
    ensures
        deps_bytes(ds.take(i)) == deps_bytes(ds).subrange(0, 66 * i),
    decreases ds.len(),
{
    lemma_deps_bytes_len(ds);
    if i == ds.len() {
        assert(ds.take(i) =~= ds);
        assert(deps_bytes(ds).subrange(0, 66 * i) =~= deps_bytes(ds));
    } else {
        lemma_deps_bytes_len(ds.drop_last());
        lemma_digest_of_bytes_roundtrip(ds.last().0);
        lemma_deps_bytes_prefix(ds.drop_last(), i);
        assert(ds.take(i) =~= ds.drop_last().take(i));
        assert(deps_bytes(ds).subrange(0, 66 * i) =~= deps_bytes(ds.drop_last()).subrange(
            0,
            66 * i,
        ));
    }
}

/// How the fields of an event sit inside its encoding.
pub proof fn lemma_event_bytes_shape(c: u32, a: Seq<u8>, ds: Seq<(Digest, bool)>)
    requires
        a.len() <= u64::MAX,
        ds.len() <= u64::MAX,
    ensures
        event_bytes(c, a, ds).len() == 20 + a.len() + 66 * ds.len(),
        be_val(event_bytes(c, a, ds).subrange(0, 4)) == c,
        be_val(event_bytes(c, a, ds).subrange(4, 12)) == a.len(),
        event_bytes(c, a, ds).subrange(12, 12 + a.len() as int) == a,
        be_val(
            event_bytes(c, a, ds).subrange(12 + a.len() as int, 20 + a.len() as int),
        ) == ds.len(),
        event_bytes(c, a, ds).subrange(
            20 + a.len() as int,
            event_bytes(c, a, ds).len() as int,
        ) == deps_bytes(ds),
{
    let s = event_bytes(c, a, ds);
    lemma_cast_fits_u32(c);
    lemma_cast_fits_u64(a.len() as int);
    lemma_cast_fits_u64(ds.len() as int);
    lemma_be_val_of_be_bytes(c as int, 4);
    lemma_be_val_of_be_bytes(a.len() as int, 8);
    lemma_be_val_of_be_bytes(ds.len() as int, 8);
    lemma_deps_bytes_len(ds);
    let al = a.len() as int;
    assert(s.subrange(0, 4) =~= be_bytes(c as int, 4));
    assert(s.subrange(4, 12) =~= be_bytes(a.len() as int, 8));
    assert(s.subrange(12, 12 + al) =~= a);
    assert(s.subrange(12 + al, 20 + al) =~= be_bytes(ds.len() as int, 8));
    assert(s.subrange(20 + al, s.len() as int) =~= deps_bytes(ds));
}

/// Decodes the canonical byte form. Exactly the encodings of well-formed
/// events are accepted: decoding is sound (a success re-encodes to the
/// input, byte for byte) and complete (the encoding of any event with
/// sorted dependencies decodes).
#[verifier::rlimit(80)]
pub fn deserialize_event(b: &[u8]) -> (r: Option<Event>)
    ensures
        r matches Some(ev) ==> ev.wf() && b@ == event_bytes(ev.cmd, ev.arg@, ev.deps.seq()),
        forall|c: u32, a: Seq<u8>, ds: Seq<(Digest, bool)>|
            #![trigger event_bytes(c, a, ds)]
            (b@ == event_bytes(c, a, ds) && deps_sorted(ds) && a.len() <= u64::MAX && ds.len()
                <= u64::MAX) ==> r is Some,
{
    let n = b.len();
    if n < 20 {
        proof {
            assert forall|c: u32, a: Seq<u8>, ds: Seq<(Digest, bool)>|
                #![trigger event_bytes(c, a, ds)]
                (b@ == event_bytes(c, a, ds) && deps_sorted(ds) && a.len() <= u64::MAX
                    && ds.len() <= u64::MAX) implies false by {
                lemma_event_bytes_shape(c, a, ds);
            }
        }
        return None;
    }
    let cmd128 = be_val_n(b, 0, 4);
    proof {
        lemma_be_val_bound(b@.subrange(0, 4));
        reveal_with_fuel(pow256, 9);
    }
    let cmd = cmd128 as u32;
    let alen128 = be_val_n(b, 4, 8);
    proof {
        lemma_be_val_bound(b@.subrange(4, 12));
    }
    if alen128 > (n - 20) as u128 {
        proof {
            assert forall|c: u32, a: Seq<u8>, ds: Seq<(Digest, bool)>|
                #![trigger event_bytes(c, a, ds)]
                (b@ == event_bytes(c, a, ds) && deps_sorted(ds) && a.len() <= u64::MAX
                    && ds.len() <= u64::MAX) implies false by {
                lemma_event_bytes_shape(c, a, ds);
            }
        }
        return None;
    }
    let alen = alen128 as usize;
    let mut arg: Vec<u8> = Vec::new();
    for i in 0..alen
        invariant
            n == b@.len(),
            alen <= n - 20,
            arg@ == b@.subrange(12, 12 + i),
    {
        arg.push(b[12 + i]);
        proof {
            assert(b@.subrange(12, 12 + i + 1) =~= b@.subrange(12, 12 + i).push(
                b@[12 + i],
            ));
        }
    }
    let dcount128 = be_val_n(b, 12 + alen, 8);
    proof {
        lemma_be_val_bound(b@.subrange(12 + alen as int, 20 + alen as int));
    }
    let rem = (n - 20 - alen) as u128;
    if dcount128 * 66 != rem {
        proof {
            assert forall|c: u32, a: Seq<u8>, ds: Seq<(Digest, bool)>|
                #![trigger event_bytes(c, a, ds)]
                (b@ == event_bytes(c, a, ds) && deps_sorted(ds) && a.len() <= u64::MAX
                    && ds.len() <= u64::MAX) implies false by {
                lemma_event_bytes_shape(c, a, ds);
            }
        }
        return None;
    }
    proof {
        assert(dcount128 <= usize::MAX as u128) by {
            assert(dcount128 <= dcount128 * 66);
        }
    }
    let dcount = dcount128 as usize;
    let mut deps: OrdMap<Digest, bool> = OrdMap::new();
    let mut pos: usize = 20 + alen;
    let mut i: usize = 0;
    while i < dcount
        invariant
            n == b@.len(),
            alen <= n - 20,
            pos == 20 + alen + 66 * i,
            i <= dcount,
            66 * (dcount as int) == n - 20 - alen,
            (alen as int) == be_val(b@.subrange(4, 12)),
            deps.wf(),
            deps.seq().len() == i,
            deps_bytes(deps.seq()) == b@.subrange(20 + alen as int, pos as int),
        decreases dcount - i,
    {
        proof {
            lemma_deps_bytes_len(deps.seq());
        }
        if b[pos] != 0 {
            proof {
                assert forall|c: u32, a: Seq<u8>, ds: Seq<(Digest, bool)>|
                    #![trigger event_bytes(c, a, ds)]
                    (b@ == event_bytes(c, a, ds) && deps_sorted(ds) && a.len() <= u64::MAX
                        && ds.len() <= u64::MAX) implies false by {
                    lemma_event_bytes_shape(c, a, ds);
                    lemma_deps_bytes_index(ds, i as int);
                    lemma_digest_of_bytes_roundtrip(ds[i as int].0);
                    assert(deps_bytes(ds)[66 * i] == dep_entry_bytes(
                        ds[i as int].0,
                        ds[i as int].1,
                    )[0]);
                    assert(b@[pos as int] == deps_bytes(ds)[66 * i]);
                }
            }
            return None;
        }
        let d = digest_at(b, pos + 1);
        let fb = b[pos + 65];
        if fb > 1 {
            proof {
                assert forall|c: u32, a: Seq<u8>, ds: Seq<(Digest, bool)>|
                    #![trigger event_bytes(c, a, ds)]
                    (b@ == event_bytes(c, a, ds) && deps_sorted(ds) && a.len() <= u64::MAX
                        && ds.len() <= u64::MAX) implies false by {
                    lemma_event_bytes_shape(c, a, ds);
                    lemma_deps_bytes_index(ds, i as int);
                    lemma_digest_of_bytes_roundtrip(ds[i as int].0);
                    assert(deps_bytes(ds)[66 * i + 65] == dep_entry_bytes(
                        ds[i as int].0,
                        ds[i as int].1,
                    )[65]);
                    assert(b@[pos as int + 65] == deps_bytes(ds)[66 * i + 65]);
                }
            }
            return None;
        }
        let hard = fb == 1;
        if i > 0 {
            let prev = deps.key_at(i - 1);
            if !prev.lt(d) {
                proof {
                    assert forall|c: u32, a: Seq<u8>, ds: Seq<(Digest, bool)>|
                        #![trigger event_bytes(c, a, ds)]
                        (b@ == event_bytes(c, a, ds) && deps_sorted(ds) && a.len() <= u64::MAX
                            && ds.len() <= u64::MAX) implies false by {
                        lemma_event_bytes_shape(c, a, ds);
                        lemma_link_parsed_prefix(b@, deps.seq(), c, a, ds, alen as int, i as int);
                        lemma_deps_bytes_index(ds, i as int);
                        lemma_digest_of_bytes_roundtrip(ds[i as int].0);
                        assert(b@.subrange(pos as int + 1, pos as int + 65) =~= dep_entry_bytes(
                            ds[i as int].0,
                            ds[i as int].1,
                        ).subrange(1, 65));
                        assert(dep_entry_bytes(ds[i as int].0, ds[i as int].1).subrange(1, 65)
                            =~= digest_bytes(ds[i as int].0));
                        assert(d == ds[i as int].0);
                        assert(prev == ds[i as int - 1].0);
                        assert(ds[i as int - 1].0.lt_spec(ds[i as int].0));
                    }
                }
                return None;
            }
        }
        proof {
            assert forall|m: int| 0 <= m < i implies (#[trigger] deps.seq()[m]).0.lt_spec(
                d,
            ) by {
                if m < i - 1 {
                    assert(deps.seq()[m].0.lt_spec(deps.seq()[i - 1].0));
                    crate::hash::Digest::lemma_strict_total(
                        deps.seq()[m].0,
                        deps.seq()[i - 1].0,
                        d,
                    );
                }
            }
        }
        let ghost olddeps = deps.seq();
        deps.push_max(d, hard);
        proof {
            lemma_bytes_of_digest_roundtrip(b@.subrange(pos as int + 1, pos as int + 65));
            assert(dep_entry_bytes(d, hard) =~= b@.subrange(pos as int, pos as int + 66)) by {
                assert(digest_bytes(d) == b@.subrange(pos as int + 1, pos as int + 65));
                lemma_digest_of_bytes_roundtrip(d);
            }
            assert(deps.seq().drop_last() =~= olddeps);
            assert(deps_bytes(deps.seq()) =~= b@.subrange(
                20 + alen as int,
                pos as int + 66,
            ));
        }
        pos = pos + 66;
        i = i + 1;
    }
    let ev = Event { cmd, arg, deps };
    proof {
        lemma_be_bytes_of_be_val(b@.subrange(0, 4));
        lemma_be_bytes_of_be_val(b@.subrange(4, 12));
        lemma_be_bytes_of_be_val(b@.subrange(12 + alen as int, 20 + alen as int));
        assert(b@ =~= event_bytes(cmd, arg@, deps.seq()));
    }
    Some(ev)
}

/// If the bytes already parsed agree with the encoding of `ds`, the parsed
/// entries are the first `i` entries of `ds`.
proof fn lemma_link_parsed_prefix(
    b: Seq<u8>,
    parsed: Seq<(Digest, bool)>,
    c: u32,
    a: Seq<u8>,
    ds: Seq<(Digest, bool)>,
    alen: int,
    i: int,
)
    requires
        b == event_bytes(c, a, ds),
        a.len() <= u64::MAX,
        ds.len() <= u64::MAX,
        alen == a.len(),
        0 <= i <= ds.len(),
        parsed.len() == i,
        deps_bytes(parsed) == b.subrange(20 + alen, 20 + alen + 66 * i),
    ensures
        parsed == ds.take(i),
{
    lemma_event_bytes_shape(c, a, ds);
    lemma_deps_bytes_prefix(ds, i);
    lemma_deps_bytes_len(ds);
    assert(b.subrange(20 + alen, 20 + alen + 66 * i) =~= b.subrange(
        20 + alen,
        b.len() as int,
    ).subrange(0, 66 * i));
    lemma_deps_bytes_injective(parsed, ds.take(i));
}

/// Encodes an event into its canonical byte form.
pub fn serialize_event(ev: &Event) -> (r: Vec<u8>)
    ensures
        r@ == event_bytes(ev.cmd, ev.arg@, ev.deps.seq()),
{
    let mut out: Vec<u8> = Vec::new();
    push_be(&mut out, ev.cmd as u128, 4);
    push_be(&mut out, ev.arg.len() as u128, 8);
    let ghost header1 = out@;
    let alen = ev.arg.len();
    for i in 0..alen
        invariant
            alen == ev.arg@.len(),
            out@ == header1 + ev.arg@.take(i as int),
    {
        out.push(ev.arg[i]);
        proof {
            assert(header1 + ev.arg@.take(i + 1) =~= (header1 + ev.arg@.take(i as int)).push(
                ev.arg@[i as int],
            ));
        }
    }
    proof {
        assert(ev.arg@.take(alen as int) =~= ev.arg@);
    }
    push_be(&mut out, ev.deps.len() as u128, 8);
    let ghost header2 = out@;
    let dlen = ev.deps.len();
    for i in 0..dlen
        invariant
            dlen == ev.deps.seq().len(),
            out@ == header2 + deps_bytes(ev.deps.seq().take(i as int)),
    {
        let ghost before = out@;
        let (d, hard) = ev.deps.entry_at(i);
        out.push(0u8);
        push_be(&mut out, d.w0, 16);
        push_be(&mut out, d.w1, 16);
        push_be(&mut out, d.w2, 16);
        push_be(&mut out, d.w3, 16);
        out.push(if hard {
            1u8
        } else {
            0u8
        });
        proof {
            let ds = ev.deps.seq();
            assert(out@ =~= before + dep_entry_bytes(d, hard));
            assert(ds.take(i + 1).drop_last() =~= ds.take(i as int));
            assert(ds.take(i + 1).last() == ds[i as int]);
            assert(out@ =~= header2 + deps_bytes(ds.take(i + 1)));
        }
    }
    proof {
        assert(ev.deps.seq().take(dlen as int) =~= ev.deps.seq());
        assert(out@ =~= event_bytes(ev.cmd, ev.arg@, ev.deps.seq()));
    }
    out
}

} // verus!
