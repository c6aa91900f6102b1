//! The event codec: serialization round-trips, distinct commands hash
//! apart, and folding is idempotent on a concrete graph.

fn sev(pat: &str, repl: &str) -> esvc::codec::Event {
    esvc::sear::sear_event(pat.as_bytes(), repl.as_bytes())
}

#[test]
fn event_codec_round_trip() {
    let e = esvc::sear::SearEngine;
    let mut g = esvc::graph::Graph::new();
    let mut w = esvc::workcache::WorkCache::new(&e, b"ab".to_vec());
    let mut xs: esvc::ord::OrdSet<esvc::hash::Digest> = esvc::ord::OrdSet::new();
    let h1 = w
        .shelve_event(&mut g, xs.clone(), sev("a", "b"))
        .unwrap()
        .unwrap();
    xs.insert(h1.digest());
    let h2 = w
        .shelve_event(&mut g, xs.clone(), sev("bb", "c"))
        .unwrap()
        .unwrap();
    // The second event depends on the first; its encoding must decode to
    // itself and re-encode byte for byte.
    let ev = g.get_event(h2.digest()).unwrap();
    let bytes = esvc::codec::serialize_event(ev);
    let back = esvc::codec::deserialize_event(bytes.as_slice()).unwrap();
    let bytes2 = esvc::codec::serialize_event(&back);
    assert_eq!(bytes, bytes2);
    assert_eq!(esvc::hash::calculate_hash(bytes2.as_slice()), h2);
}

#[test]
fn same_arg_different_cmd_hashes_apart() {
    let a1 = esvc::sear::sear_arg(b"x", b"y");
    let a2 = a1.clone();
    let e1 = esvc::codec::Event { cmd: 0, arg: a1, deps: esvc::ord::OrdMap::new() };
    let e2 = esvc::codec::Event { cmd: 1, arg: a2, deps: esvc::ord::OrdMap::new() };
    let b1 = esvc::codec::serialize_event(&e1);
    let b2 = esvc::codec::serialize_event(&e2);
    assert_ne!(b1, b2);
    assert_ne!(
        esvc::hash::calculate_hash(b1.as_slice()),
        esvc::hash::calculate_hash(b2.as_slice())
    );
}

#[test]
fn fold_state_expand_idempotent() {
    let e = esvc::sear::SearEngine;
    let mut g = esvc::graph::Graph::new();
    let mut w = esvc::workcache::WorkCache::new(&e, b"x".to_vec());
    let mut xs: esvc::ord::OrdSet<esvc::hash::Digest> = esvc::ord::OrdSet::new();
    for (p, r) in [("x", "xx"), ("x", "y")] {
        if let Some(h) = w.shelve_event(&mut g, xs.clone(), sev(p, r)).unwrap() {
            xs.insert(h.digest());
        }
    }
    let mut fm: esvc::ord::OrdMap<esvc::hash::Digest, bool> = esvc::ord::OrdMap::new();
    for i in 0..xs.len() {
        fm.insert(xs.get_at(i), false);
    }
    let once = g.fold_state(fm.clone(), true).unwrap();
    let twice = g.fold_state(once.clone(), true).unwrap();
    assert_eq!(once, twice);

    let compressed = g.fold_state(fm, false).unwrap();
    let compressed2 = g.fold_state(compressed.clone(), false).unwrap();
    assert_eq!(compressed, compressed2);
}

#[test]
fn named_states_round_trip() {
    let mut g = esvc::graph::Graph::new();
    let mut fr = esvc::ord::OrdSet::new();
    fr.insert(esvc::hash::calculate_hash(b"tip").digest());
    g.nstate_set("work".to_string(), fr.clone());
    assert!(g.nstate_get("work").unwrap().eq_set(&fr));
    assert!(g.nstate_get("other").is_none());
    let empty = esvc::ord::OrdSet::new();
    g.nstate_set("work".to_string(), empty.clone());
    assert!(g.nstate_get("work").unwrap().eq_set(&empty));
}

#[test]
fn fold_state_missing_dep_fails() {
    let g = esvc::graph::Graph::new();
    let mut fm: esvc::ord::OrdMap<esvc::hash::Digest, bool> = esvc::ord::OrdMap::new();
    fm.insert(esvc::hash::calculate_hash(b"missing").digest(), false);
    assert!(g.fold_state(fm, true).is_none());
}

#[test]
fn dot_rendering_lists_events_and_edges() {
    let e = esvc::sear::SearEngine;
    let mut g = esvc::graph::Graph::new();
    let mut w = esvc::workcache::WorkCache::new(&e, b"ab".to_vec());
    let mut xs: esvc::ord::OrdSet<esvc::hash::Digest> = esvc::ord::OrdSet::new();
    let h1 = w
        .shelve_event(&mut g, xs.clone(), sev("a", "b"))
        .unwrap()
        .unwrap();
    xs.insert(h1.digest());
    let h2 = w
        .shelve_event(&mut g, xs.clone(), sev("bb", "c"))
        .unwrap()
        .unwrap();
    let mut fr: esvc::ord::OrdSet<esvc::hash::Digest> = esvc::ord::OrdSet::new();
    fr.insert(h2.digest());
    g.nstate_set("tip".to_string(), fr);
    let text = esvc::dot::Dot(&g).to_dot_string();
    assert!(text.starts_with("digraph {\n"));
    assert!(text.ends_with("}\n"));
    let t1 = h1.format();
    let t2 = h2.format();
    // Each event is a labelled node carrying its hash and command number.
    assert!(text.contains(&format!("  \"{}\" [label=\"{}\\n0\"];\n", t1, t1)));
    assert!(text.contains(&format!("  \"{}\" [label=\"{}\\n0\"];\n", t2, t2)));
    // The second event's dependency on the first is an arrow.
    assert!(text.contains(&format!("  \"{}\" -> \"{}\";\n", t2, t1)));
    // The saved frontier appears as a named cluster.
    assert!(text.contains("tip"));
}
