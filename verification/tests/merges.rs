//! Merging foreign frontiers: re-shelving must preserve hard causality,
//! and the merged replay must equal the expected fold.

fn sev(pat: &str, repl: &str) -> esvc::codec::Event {
    esvc::sear::sear_event(pat.as_bytes(), repl.as_bytes())
}

fn replay_all(
    w: &mut esvc::workcache::WorkCache<'_, esvc::sear::SearEngine>,
    g: &esvc::graph::Graph,
    xs: &esvc::ord::OrdSet<esvc::hash::Digest>,
) -> Vec<u8> {
    let mut evs: esvc::ord::OrdMap<esvc::hash::Digest, esvc::graph::IncludeSpec> =
        esvc::ord::OrdMap::new();
    for i in 0..xs.len() {
        evs.insert(xs.get_at(i), esvc::graph::IncludeSpec::IncludeAll);
    }
    let (got, _tt) = w
        .run_foreach_recursively(g, evs)
        .expect("unable to compute final result");
    got
}

fn assert_simple_merge(
    start: &str,
    dest: &str,
    common_sears: Vec<(&str, &str)>,
    tomerge_sears: Vec<(&str, &str)>,
) {
    let e = esvc::sear::SearEngine;
    let mut g = esvc::graph::Graph::new();
    let mut w = esvc::workcache::WorkCache::new(&e, start.as_bytes().to_vec());
    let mut xs: esvc::ord::OrdSet<esvc::hash::Digest> = esvc::ord::OrdSet::new();
    for (p, r) in common_sears {
        let x = w
            .shelve_event(&mut g, xs.clone(), sev(p, r))
            .unwrap()
            .unwrap();
        xs.insert(x.digest());
    }
    let oldxs = xs.clone();
    for (p, r) in tomerge_sears {
        let x = w
            .shelve_event(&mut g, oldxs.clone(), sev(p, r))
            .unwrap()
            .unwrap();
        xs.insert(x.digest());
    }

    if let Err(e) = w.try_merge(&mut g, xs.clone()) {
        panic!("merge failed: {:?}", e);
    }

    assert_eq!(replay_all(&mut w, &g, &xs), dest.as_bytes().to_vec());
}

#[test]
fn mergable_pairwise_agreement() {
    // Two events touching disjoint text commute: every pairwise replay
    // reaches the same payload.
    let e = esvc::sear::SearEngine;
    let mut g = esvc::graph::Graph::new();
    let mut w = esvc::workcache::WorkCache::new(&e, b"A|B".to_vec());
    let empty: esvc::ord::OrdSet<esvc::hash::Digest> = esvc::ord::OrdSet::new();
    let h1 = w.shelve_event(&mut g, empty.clone(), sev("A", "X")).unwrap().unwrap();
    let h2 = w.shelve_event(&mut g, empty.clone(), sev("B", "Y")).unwrap().unwrap();
    let mut sts = esvc::ord::OrdSet::new();
    sts.insert(h1.digest());
    sts.insert(h2.digest());
    assert!(w.check_if_mergable(&g, sts).unwrap().is_some());

    // Two conflicting rewrites of the same text do not.
    let mut g2 = esvc::graph::Graph::new();
    let mut w2 = esvc::workcache::WorkCache::new(&e, b"x".to_vec());
    let c1 = w2.shelve_event(&mut g2, empty.clone(), sev("x", "a")).unwrap().unwrap();
    let c2 = w2.shelve_event(&mut g2, empty.clone(), sev("x", "b")).unwrap().unwrap();
    let mut sts2 = esvc::ord::OrdSet::new();
    sts2.insert(c1.digest());
    sts2.insert(c2.digest());
    assert!(w2.check_if_mergable(&g2, sts2).unwrap().is_none());
}

#[test]
fn basic_merge() {
    assert_simple_merge(
        "A|B|C",
        "E|D|F",
        vec![("B", "D")],
        vec![("A|D", "E|D"), ("D|C", "D|F")],
    );
}

#[test]
fn merge2() {
    assert_simple_merge(
        "XXXX",
        "fn main() {\n    println!(\"Hewwo UwU!\");\n    println!(\"Hello World!\");\n}",
        vec![(
            "XXXX",
            "fn main() {\n    println!(\"Hewwo!\");\n    println!(\"Hello Wrold!\");\n}",
        )],
        vec![("o!", "o UwU!"), ("Wrold", "World")],
    );
}

#[test]
fn merge_after_clear() {
    let e = esvc::sear::SearEngine;
    let mut g = esvc::graph::Graph::new();
    let mut w = esvc::workcache::WorkCache::new(&e, b"X".to_vec());
    let mut xs: esvc::ord::OrdSet<esvc::hash::Digest> = esvc::ord::OrdSet::new();
    for (p, r) in [("X", "XXX"), ("X", "")] {
        let x = w
            .shelve_event(&mut g, xs.clone(), sev(p, r))
            .unwrap()
            .unwrap();
        xs.insert(x.digest());
    }

    if let Err(e) = w.try_merge(&mut g, xs.clone()) {
        panic!("merge failed: {:?}", e);
    }

    assert_eq!(replay_all(&mut w, &g, &xs), Vec::<u8>::new());
}

#[test]
fn merge_after_clear2() {
    let e = esvc::sear::SearEngine;
    let mut g = esvc::graph::Graph::new();
    let mut w = esvc::workcache::WorkCache::new(&e, b"\0".to_vec());
    let mut xs: esvc::ord::OrdSet<esvc::hash::Digest> = esvc::ord::OrdSet::new();
    for (p, r) in [
        (
            "\0",
            "\0\0\0\0\0\0\0\0\0\0\0\0\0\0\0\0\0\0\0\0\0\0\0\0\0\0\0\0\0\0\0\0\0\0\0\0\0\0\0\0\0\0\0\0\0\0\0\0\0\0\0\0\0\0\0\0\0\0\0\0\0\0\0\0\0\0\0\0\0\0\0\0\0\0",
        ),
        ("\0", ""),
    ] {
        let x = w
            .shelve_event(&mut g, xs.clone(), sev(p, r))
            .unwrap()
            .unwrap();
        xs.insert(x.digest());
    }

    if let Err(e) = w.try_merge(&mut g, xs.clone()) {
        panic!("merge failed: {:?}", e);
    }

    assert_eq!(replay_all(&mut w, &g, &xs), Vec::<u8>::new());
}
