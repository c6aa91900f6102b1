//! A formatter that renders a graph into the `.dot` format, useful for
//! debugging and visualization: one node per event, labelled with its
//! hash and command; one edge per dependency; one cluster per saved
//! frontier.

use vstd::prelude::*;

use crate::graph::Graph;
use crate::hash::hash_chars;
use crate::hash::Digest;
use vstd::string::StrSliceExecFns;
use vstd::string::StringExecFns;

verus! {

/// A graph together with its rendering into `.dot` text.
pub struct Dot<'a>(pub &'a Graph);

/// A character, escaped for a quoted Graphviz string: quotes and
/// backslashes gain a backslash, a line break becomes the left-justified
/// break `\l`.
pub open spec fn dot_escaped_char(c: char) -> Seq<char> {
    if c == '"' {
        seq!['\\', '"']
    } else if c == '\\' {
        seq!['\\', '\\']
    } else if c == '\n' {
        seq!['\\', 'l']
    } else {
        seq![c]
    }
}

pub open spec fn dot_escaped(s: Seq<char>) -> Seq<char>
    decreases s.len(),
{
    if s.len() == 0 {
        Seq::empty()
    } else {
        dot_escaped_char(s[0]) + dot_escaped(s.skip(1))
    }
}

/// The decimal digits of a number.
pub open spec fn dec_chars(n: int) -> Seq<char>
    decreases n,
{
    if n < 10 {
        seq![((48 + (if n < 0 {
            0int
        } else {
            n
        }) % 10) as u8) as char]
    } else {
        dec_chars(n / 10) + seq![((48 + n % 10) as u8) as char]
    }
}

/// Appends the decimal form of `n`.
fn push_dec(out: &mut String, n: u32)
    ensures
        final(out)@ == old(out)@ + dec_chars(n as int),
    decreases n,
{
    if n >= 10 {
        push_dec(out, n / 10);
    }
    let d = n % 10;
    let s: &str = if d == 0 {
        "0"
    } else if d == 1 {
        "1"
    } else if d == 2 {
        "2"
    } else if d == 3 {
        "3"
    } else if d == 4 {
        "4"
    } else if d == 5 {
        "5"
    } else if d == 6 {
        "6"
    } else if d == 7 {
        "7"
    } else if d == 8 {
        "8"
    } else {
        "9"
    };
    proof {
        reveal_strlit("0");
        reveal_strlit("1");
        reveal_strlit("2");
        reveal_strlit("3");
        reveal_strlit("4");
        reveal_strlit("5");
        reveal_strlit("6");
        reveal_strlit("7");
        reveal_strlit("8");
        reveal_strlit("9");
        assert(s@ =~= seq![((48 + (n as int) % 10) as u8) as char]);
    }
    out.append(s);
    proof {
        if n < 10 {
            assert(out@ =~= old(out)@ + dec_chars(n as int));
        } else {
            assert(out@ =~= old(out)@ + dec_chars(n as int));
        }
    }
}

/// Appends `s` with every character escaped for a quoted string.
fn push_escaped(out: &mut String, s: &str)
    ensures
        final(out)@ == old(out)@ + dot_escaped(s@),
{
    let n = s.unicode_len();
    let mut i: usize = 0;
    proof {
        assert(s@.skip(0) =~= s@);
        assert(old(out)@ + dot_escaped(s@) =~= old(out)@ + dot_escaped(s@.skip(0)));
    }
    while i < n
        invariant
            i <= n,
            n == s@.len(),
            old(out)@ + dot_escaped(s@) == out@ + dot_escaped(s@.skip(i as int)),
        decreases n - i,
    {
        let c = s.get_char(i);
        let ghost before = out@;
        proof {
            assert(s@.skip(i as int)[0] == s@[i as int]);
            assert(s@.skip(i as int).skip(1) =~= s@.skip(i + 1));
        }
        if c == '"' {
            out.append("\\\"");
            proof {
                reveal_strlit("\\\"");
                assert(out@ =~= before + dot_escaped_char(c));
            }
        } else if c == '\\' {
            out.append("\\\\");
            proof {
                reveal_strlit("\\\\");
                assert(out@ =~= before + dot_escaped_char(c));
            }
        } else if c == '\n' {
            out.append("\\l");
            proof {
                reveal_strlit("\\l");
                assert(out@ =~= before + dot_escaped_char(c));
            }
        } else {
            out.append(s.substring_char(i, i + 1));
            proof {
                assert(s@.subrange(i as int, i + 1) =~= seq![s@[i as int]]);
                assert(out@ =~= before + dot_escaped_char(c));
            }
        }
        proof {
            assert(before + (dot_escaped_char(c) + dot_escaped(s@.skip(i + 1))) =~= out@
                + dot_escaped(s@.skip(i + 1)));
        }
        i = i + 1;
    }
    proof {
        assert(dot_escaped(s@.skip(n as int)) =~= Seq::<char>::empty());
        assert(out@ + Seq::<char>::empty() =~= out@);
    }
}

/// One node line: the event's hash, labelled with the hash and command.
pub open spec fn dot_node_line(g: crate::graph::Graph, d: Digest) -> Seq<char> {
    let h = hash_chars(crate::hash::Hash::Blake2b512(d));
    "  \""@ + h + "\" [label=\""@ + h + "\\n"@ + dec_chars(g.spec_events()[d].cmd as int)
        + "\"];\n"@
}

/// The edge lines of one event: an arrow to each dependency.
pub open spec fn dot_edge_lines(g: crate::graph::Graph, d: Digest, i: int) -> Seq<char>
    decreases i,
{
    if i <= 0 {
        Seq::empty()
    } else {
        dot_edge_lines(g, d, i - 1) + "  \""@ + hash_chars(crate::hash::Hash::Blake2b512(d))
            + "\" -> \""@ + hash_chars(
            crate::hash::Hash::Blake2b512(g.spec_events()[d].deps[i - 1].0),
        ) + "\";\n"@
    }
}

impl<'a> Dot<'a> {
    /// Renders the graph. The node and edge sections are pinned exactly by
    /// the specification functions above, in stored digest order; the
    /// saved-frontier clusters follow, before the closing brace.
    pub fn to_dot_string(&self) -> (r: String)
        requires
            self.0.wf(),
        ensures
            ({
                let ks = self.0.spec_event_keys();
                exists|clusters: Seq<char>|
                    r@ == "digraph {\n"@ + #[trigger] dot_nodes(*self.0, ks, ks.len() as int)
                        + dot_edges(*self.0, ks, ks.len() as int) + clusters + "}\n"@
            }),
    {
        let g = self.0;
        let mut out = String::from_str("digraph {\n");
        proof {
            reveal_strlit("digraph {\n");
        }
        let keys = g.event_digests();
        let n = keys.len();
        // Labels.
        let ghost ks = g.spec_event_keys();
        for i in 0..n
            invariant
                n == keys@.len(),
                keys@ == ks,
                g.wf(),
                ks == g.spec_event_keys(),
                forall|m: int|
                    0 <= m < n ==> g.spec_events().contains_key(#[trigger] keys@[m]),
                out@ == "digraph {\n"@ + dot_nodes(*g, ks, i as int),
        {
            let d = keys[i];
            let ghost before = out@;
            out.append("  \"");
            let h = crate::hash::Hash::from_digest(d);
            let txt = h.format();
            out.append(txt.as_str());
            out.append("\" [label=\"");
            out.append(txt.as_str());
            out.append("\\n");
            let ev = match g.get_event(d) {
                Some(e) => e,
                None => {
                    proof {
                        assert(false);
                    }
                    return out;
                },
            };
            push_dec(&mut out, ev.cmd);
            out.append("\"];\n");
            proof {
                reveal_strlit("  \"");
                reveal_strlit("\" [label=\"");
                reveal_strlit("\\n");
                reveal_strlit("\"];\n");
                assert(out@ =~= before + dot_node_line(*g, d));
                assert(out@ =~= "digraph {\n"@ + dot_nodes(*g, ks, i + 1));
            }
        }
        // Edges.
        let ghost mid0 = out@;
        for i in 0..n
            invariant
                n == keys@.len(),
                keys@ == ks,
                g.wf(),
                ks == g.spec_event_keys(),
                forall|m: int|
                    0 <= m < n ==> g.spec_events().contains_key(#[trigger] keys@[m]),
                mid0 == "digraph {\n"@ + dot_nodes(*g, ks, ks.len() as int),
                out@ == mid0 + dot_edges(*g, ks, i as int),
        {
            let d = keys[i];
            let ev = match g.get_event(d) {
                Some(e) => e,
                None => {
                    proof {
                        assert(false);
                    }
                    return out;
                },
            };
            let txt = crate::hash::Hash::from_digest(d).format();
            let nd = ev.deps.len();
            let ghost emid = out@;
            for j in 0..nd
                invariant
                    nd == ev.deps.seq().len(),
                    g.wf(),
                    g.spec_events().contains_key(d),
                    ev@ == g.spec_events()[d],
                    txt@ == hash_chars(crate::hash::Hash::Blake2b512(d)),
                    out@ == emid + dot_edge_lines(*g, d, j as int),
            {
                let ghost b2 = out@;
                out.append("  \"");
                out.append(txt.as_str());
                out.append("\" -> \"");
                let (dep, _hard) = ev.deps.entry_at(j);
                let dtxt = crate::hash::Hash::from_digest(dep).format();
                out.append(dtxt.as_str());
                out.append("\";\n");
                proof {
                    reveal_strlit("  \"");
                    reveal_strlit("\" -> \"");
                    reveal_strlit("\";\n");
                    assert(dep == g.spec_events()[d].deps[j as int].0);
                    assert(out@ =~= emid + dot_edge_lines(*g, d, j + 1));
                }
            }
            proof {
                assert(out@ =~= mid0 + dot_edges(*g, ks, i + 1));
            }
        }
        // Clusters: one per saved frontier.
        let cn = g.nstates_len();
        let ghost cl0 = out@;
        for i in 0..cn
            invariant
                cn == g.spec_nstates().len(),
                g.wf(),
                out@.len() >= cl0.len(),
                out@.subrange(0, cl0.len() as int) == cl0,
        {
            let ghost b3 = out@;
            out.append("  subgraph \"cluster_");
            let name = g.nstate_name_at(i);
            push_escaped(&mut out, name.as_str());
            out.append("\" {\n");
            let fr = g.nstate_frontier_at(i);
            let fn_ = fr.len();
            let ghost b4 = out@;
            let mut k: usize = 0;
            while k < fn_
                invariant
                    fn_ == fr.seq().len(),
                    out@.len() >= b4.len(),
                    out@.subrange(0, b4.len() as int) == b4,
                    b4.len() >= b3.len(),
                    b4.subrange(0, b3.len() as int) == b3,
                decreases fn_ - k,
            {
                let ghost b5 = out@;
                out.append("  \"");
                let htxt = crate::hash::Hash::from_digest(fr.get_at(k)).format();
                out.append(htxt.as_str());
                out.append("\";\n");
                proof {
                    assert(out@.subrange(0, b5.len() as int) =~= b5);
                    assert(out@.subrange(0, b4.len() as int) =~= b4);
                }
                k = k + 1;
            }
            out.append("  }\n");
            proof {
                assert(out@.subrange(0, b4.len() as int) =~= b4);
                assert(out@.subrange(0, b3.len() as int) =~= b3);
                assert(out@.subrange(0, cl0.len() as int) =~= cl0);
            }
        }
        out.append("}\n");
        proof {
            reveal_strlit("}\n");
            assert(out@.subrange(0, cl0.len() as int) =~= cl0);
            let total = out@;
            let head = "digraph {\n"@ + dot_nodes(*g, ks, ks.len() as int) + dot_edges(
                *g,
                ks,
                ks.len() as int,
            );
            let clusters = total.subrange(head.len() as int, total.len() as int - 2);
            assert(total =~= head + clusters + "}\n"@);
        }
        out
    }
}

/// The edge lines of the first `i` stored events.
pub open spec fn dot_edges(g: crate::graph::Graph, ks: Seq<Digest>, i: int) -> Seq<char>
    decreases i,
{
    if i <= 0 {
        Seq::empty()
    } else {
        dot_edges(g, ks, i - 1) + dot_edge_lines(
            g,
            ks[i - 1],
            g.spec_events()[ks[i - 1]].deps.len() as int,
        )
    }
}

/// The node lines of the first `i` stored events.
pub open spec fn dot_nodes(g: crate::graph::Graph, ks: Seq<Digest>, i: int) -> Seq<char>
    decreases i,
{
    if i <= 0 {
        Seq::empty()
    } else {
        dot_nodes(g, ks, i - 1) + dot_node_line(g, ks[i - 1])
    }
}

} // verus!
