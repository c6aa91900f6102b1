//! Dependency discovery keeps every non-commuting pair ordered: replaying
//! the minimized frontier must match the plain sequential fold.

fn sev(pat: &str, repl: &str) -> esvc::codec::Event {
    esvc::sear::sear_event(pat.as_bytes(), repl.as_bytes())
}

fn assert_no_reorder(start: &str, sears: Vec<(&str, &str)>) {
    let expected = sears
        .iter()
        .fold(start.to_string(), |acc, item| acc.replace(item.0, item.1));
    let e = esvc::sear::SearEngine;
    let mut g = esvc::graph::Graph::new();
    let mut w = esvc::workcache::WorkCache::new(&e, start.as_bytes().to_vec());
    let mut xs: esvc::ord::OrdSet<esvc::hash::Digest> = esvc::ord::OrdSet::new();
    for (p, r) in sears {
        if let Some(h) = w
            .shelve_event(&mut g, xs.clone(), sev(p, r))
            .expect("unable to shelve event")
        {
            xs.insert(h.digest());
        }
    }

    let mut fm: esvc::ord::OrdMap<esvc::hash::Digest, bool> = esvc::ord::OrdMap::new();
    for i in 0..xs.len() {
        fm.insert(xs.get_at(i), false);
    }
    let minx = g.fold_state(fm, false).unwrap();

    let mut evs: esvc::ord::OrdMap<esvc::hash::Digest, esvc::graph::IncludeSpec> =
        esvc::ord::OrdMap::new();
    for i in 0..minx.len() {
        evs.insert(minx.key_at(i), esvc::graph::IncludeSpec::IncludeAll);
    }

    let (got, tt) = w.run_foreach_recursively(&g, evs).unwrap();
    assert!(tt.eq_set(&xs));
    assert_eq!(got, expected.as_bytes().to_vec());
}

#[test]
fn equal_but_non_idempotent() {
    assert_no_reorder("x", vec![("x", "xx"), ("x", "xx"), ("x", "y")]);
}

#[test]
fn indirect_dep() {
    assert_no_reorder(
        "Hi, what's up??",
        vec![
            ("Hi", "Hello UwU"),
            ("UwU", "World"),
            ("what", "wow"),
            ("s up", "sup"),
            ("??", "!"),
            ("sup!", "soap?"),
            ("p", "np"),
        ],
    );
}

#[test]
fn revert_then() {
    assert_no_reorder("a", vec![("a", "xaa"), ("xa", ""), ("a", "bbbbb")]);
}

#[test]
fn diverg_mult_steps() {
    assert_no_reorder(
        "XXXXX",
        vec![
            ("X", "XXXX"),
            ("X", "XXXXXXXXXXXXXXXXXXXXXXXXXXXXXXXXXXXXXXXXXXXXXX"),
            ("XXXXXXXXXX", "XXXXXXXXXXXXXX"),
        ],
    );
}

#[test]
fn diverg_mult_steps2() {
    assert_no_reorder(
        "\0\0\0\0\0",
        vec![
            ("\0", "\0\0\0\0"),
            (
                "\0",
                "\0\0\0\0\0\0\0\0\0\0\0\0\0\0\0\0\0\0\0\0\0\0\0\0\0\0\0\0\0\0\0\0\0\0\0\0\0\0\0\0\0\0\0\0\0\0",
            ),
            ("\0\0\0\0\0\0\0\0\0\0", "\0\0\0\0\0\0\0\0\0\0\0\0\0\0"),
        ],
    );
}

fn hard_deps_of(g: &esvc::graph::Graph, d: esvc::hash::Digest) -> Vec<esvc::hash::Digest> {
    let ev = g.get_event(d).unwrap();
    let mut out = Vec::new();
    for i in 0..ev.deps.len() {
        let (dep, hard) = ev.deps.entry_at(i);
        if hard {
            out.push(dep);
        }
    }
    out
}

#[test]
fn self_repeat_dep_chain() {
    // Two equal, non-idempotent events must chain, and the third must sit
    // after them; the earlier link is covered transitively, not repeated.
    let e = esvc::sear::SearEngine;
    let mut g = esvc::graph::Graph::new();
    let mut w = esvc::workcache::WorkCache::new(&e, b"x".to_vec());
    let mut xs: esvc::ord::OrdSet<esvc::hash::Digest> = esvc::ord::OrdSet::new();
    let mut hs = Vec::new();
    for (p, r) in [("x", "xx"), ("x", "xx"), ("x", "y")] {
        let h = w
            .shelve_event(&mut g, xs.clone(), sev(p, r))
            .unwrap()
            .unwrap();
        xs.insert(h.digest());
        hs.push(h.digest());
    }
    assert_eq!(hard_deps_of(&g, hs[0]), Vec::new());
    assert_eq!(hard_deps_of(&g, hs[1]), vec![hs[0]]);
    assert_eq!(hard_deps_of(&g, hs[2]), vec![hs[1]]);
}

#[test]
fn revert_is_a_dependency() {
    // A partial revert must be ordered before what recreates the text.
    let e = esvc::sear::SearEngine;
    let mut g = esvc::graph::Graph::new();
    let mut w = esvc::workcache::WorkCache::new(&e, b"a".to_vec());
    let mut xs: esvc::ord::OrdSet<esvc::hash::Digest> = esvc::ord::OrdSet::new();
    let mut hs = Vec::new();
    for (p, r) in [("a", "xaa"), ("xa", ""), ("a", "bbbbb")] {
        let h = w
            .shelve_event(&mut g, xs.clone(), sev(p, r))
            .unwrap()
            .unwrap();
        xs.insert(h.digest());
        hs.push(h.digest());
    }
    assert!(hard_deps_of(&g, hs[2]).contains(&hs[1]));
}

#[test]
fn noop_on_empty_payload() {
    // An event that cannot change the empty payload is refused as a no-op.
    let e = esvc::sear::SearEngine;
    let mut g = esvc::graph::Graph::new();
    let mut w = esvc::workcache::WorkCache::new(&e, Vec::new());
    let xs: esvc::ord::OrdSet<esvc::hash::Digest> = esvc::ord::OrdSet::new();
    let r = w.shelve_event(&mut g, xs, sev("x", "y")).unwrap();
    assert!(r.is_none());
}
