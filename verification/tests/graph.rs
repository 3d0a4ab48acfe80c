use n2::graph::{Build, FileLoc, Graph, MTime, State};
use std::rc::Rc;

fn loc() -> FileLoc {
    FileLoc { filename: Rc::new(String::from("build.ninja")), line: 1 }
}

fn touch_build(ins: Vec<n2::graph::FileId>, outs: Vec<n2::graph::FileId>) -> Build {
    let explicit_ins = ins.len();
    let explicit_outs = outs.len();
    Build {
        location: loc(),
        cmdline: Some(String::from("touch out")),
        explicit_ins,
        implicit_ins: 0,
        ins,
        explicit_outs,
        outs,
    }
}

#[test]
fn add_file_allocates_dense_ids() {
    let mut g = Graph::new();
    let a = g.add_file(String::from("in"));
    let b = g.add_file(String::from("out"));
    assert_ne!(a, b);
    assert_eq!(g.file(a).name, "in");
    assert_eq!(g.file(b).name, "out");
    assert!(g.file(a).input.is_none());
    assert!(g.file(a).dependents.is_empty());
}

#[test]
fn add_build_links_both_directions() {
    let mut g = Graph::new();
    let a = g.add_file(String::from("in"));
    let b = g.add_file(String::from("out"));
    g.add_build(touch_build(vec![a], vec![b]));
    let produced = g.file(b).input.expect("out must have a producer");
    assert_eq!(g.build(produced).outs, vec![b]);
    assert_eq!(g.build(produced).ins, vec![a]);
    assert_eq!(g.file(a).dependents.len(), 1);
    assert_eq!(g.file(a).dependents[0], produced);
    assert!(g.file(a).input.is_none());
}

#[test]
fn hash_todo_is_placeholder() {
    assert_eq!(n2::graph::Hash::todo(), n2::graph::Hash::todo());
}

#[test]
fn fresh_state_has_nothing_statted() {
    let mut g = Graph::new();
    let a = g.add_file(String::from("in"));
    let b = g.add_file(String::from("out"));
    g.add_build(touch_build(vec![a], vec![b]));
    let s = State::new(&g);
    assert!(s.file(a).mtime.is_none());
    assert!(s.file(b).hash.is_none());
    let produced = g.file(b).input.unwrap();
    assert!(s.get_hash(produced).is_none());
}

#[test]
fn record_stat_sets_mtime_once() {
    let mut g = Graph::new();
    let a = g.add_file(String::from("in"));
    let mut s = State::new(&g);
    s.record_stat(a, MTime::Stamp(100));
    assert_eq!(s.file(a).mtime, Some(MTime::Stamp(100)));
}

#[test]
fn hash_is_memoized() {
    let mut g = Graph::new();
    let a = g.add_file(String::from("in"));
    let b = g.add_file(String::from("out"));
    g.add_build(touch_build(vec![a], vec![b]));
    let e = g.file(b).input.unwrap();
    let mut s = State::new(&g);
    s.record_stat(a, MTime::Stamp(100));
    let h1 = s.hash(&g, e);
    assert_eq!(s.get_hash(e), Some(h1));
    let h2 = s.hash(&g, e);
    assert_eq!(h1, h2);
}

#[test]
fn same_inputs_same_fingerprint_across_runs() {
    // Two runs over the same graph with identical stat results compute the
    // same fingerprint, so a second run with no filesystem changes finds
    // every logged edge clean.
    let mut g = Graph::new();
    let a = g.add_file(String::from("in"));
    let b = g.add_file(String::from("out"));
    g.add_build(touch_build(vec![a], vec![b]));
    let e = g.file(b).input.unwrap();

    let mut run1 = State::new(&g);
    run1.record_stat(a, MTime::Stamp(77));
    let logged = run1.hash(&g, e);

    let mut run2 = State::new(&g);
    run2.record_stat(a, MTime::Stamp(77));
    assert!(run2.is_clean(&g, Some(logged), e, true));
}

#[test]
fn changed_mtime_changes_fingerprint() {
    let mut g = Graph::new();
    let a = g.add_file(String::from("in"));
    let b = g.add_file(String::from("out"));
    g.add_build(touch_build(vec![a], vec![b]));
    let e = g.file(b).input.unwrap();

    let mut run1 = State::new(&g);
    run1.record_stat(a, MTime::Stamp(77));
    let logged = run1.hash(&g, e);

    let mut run2 = State::new(&g);
    run2.record_stat(a, MTime::Stamp(78));
    assert!(!run2.is_clean(&g, Some(logged), e, true));
    assert!(!run2.is_clean(&g, None, e, true));
}

#[test]
fn missing_and_stamp_zero_do_not_collide() {
    let mut g = Graph::new();
    let a = g.add_file(String::from("in"));
    let b = g.add_file(String::from("out"));
    g.add_build(touch_build(vec![a], vec![b]));
    let e = g.file(b).input.unwrap();

    let mut missing = State::new(&g);
    missing.record_stat(a, MTime::Missing);
    let h_missing = missing.hash(&g, e);

    let mut zero = State::new(&g);
    zero.record_stat(a, MTime::Stamp(0));
    let h_zero = zero.hash(&g, e);

    assert_ne!(h_missing, h_zero);
}

#[test]
fn largest_stamp_is_accepted() {
    let mut g = Graph::new();
    let a = g.add_file(String::from("in"));
    let b = g.add_file(String::from("out"));
    g.add_build(touch_build(vec![a], vec![b]));
    let e = g.file(b).input.unwrap();
    let mut s = State::new(&g);
    s.record_stat(a, MTime::Stamp(u32::MAX));
    let h1 = s.hash(&g, e);
    assert_eq!(s.get_hash(e), Some(h1));
}

#[test]
fn order_only_inputs_do_not_affect_fingerprint() {
    // Same edge shape twice, except run2 stats the order-only input with a
    // different mtime: the fingerprint must not change.
    let mut g = Graph::new();
    let a = g.add_file(String::from("in"));
    let oo = g.add_file(String::from("order-only"));
    let b = g.add_file(String::from("out"));
    let build = Build {
        location: loc(),
        cmdline: Some(String::from("touch out")),
        ins: vec![a, oo],
        explicit_ins: 1,
        implicit_ins: 0,
        outs: vec![b],
        explicit_outs: 1,
    };
    g.add_build(build);
    let e = g.file(b).input.unwrap();

    let mut run1 = State::new(&g);
    run1.record_stat(a, MTime::Stamp(5));
    run1.record_stat(oo, MTime::Stamp(100));
    let h1 = run1.hash(&g, e);

    let mut run2 = State::new(&g);
    run2.record_stat(a, MTime::Stamp(5));
    run2.record_stat(oo, MTime::Stamp(200));
    let h2 = run2.hash(&g, e);

    assert_eq!(h1, h2);
}

#[test]
fn acyclic_chain_passes_check() {
    let mut g = Graph::new();
    let a = g.add_file(String::from("a"));
    let b = g.add_file(String::from("b"));
    let c = g.add_file(String::from("c"));
    g.add_build(touch_build(vec![a], vec![b]));
    g.add_build(touch_build(vec![b], vec![c]));
    assert!(g.check_acyclic().is_ok());
}

#[test]
fn cyclic_graph_is_rejected() {
    let mut g = Graph::new();
    let a = g.add_file(String::from("a"));
    let b = g.add_file(String::from("b"));
    g.add_build(touch_build(vec![a], vec![b]));
    g.add_build(touch_build(vec![b], vec![a]));
    let err = g.check_acyclic().expect_err("cycle must be reported");
    let n2::graph::GraphError::Cycle(member) = err;
    // both edges lie on the cycle; the reported one must be one of them
    let e_b = g.file(b).input.unwrap();
    let e_a = g.file(a).input.unwrap();
    assert!(member == e_a || member == e_b);
}

#[test]
fn empty_graph_is_acyclic() {
    let g = Graph::new();
    assert!(g.check_acyclic().is_ok());
}

#[test]
fn clean_chain_stays_clean_downstream() {
    // a -> out1 -> out2: when nothing changes between runs, the upstream
    // edge is clean, its output is observed unchanged, and the downstream
    // edge is clean in turn.
    let mut g = Graph::new();
    let a = g.add_file(String::from("a"));
    let out1 = g.add_file(String::from("out1"));
    let out2 = g.add_file(String::from("out2"));
    g.add_build(touch_build(vec![a], vec![out1]));
    g.add_build(touch_build(vec![out1], vec![out2]));
    let e1 = g.file(out1).input.unwrap();
    let e2 = g.file(out2).input.unwrap();

    let mut run1 = State::new(&g);
    run1.record_stat(a, MTime::Stamp(10));
    run1.record_stat(out1, MTime::Stamp(11));
    let log1 = run1.hash(&g, e1);
    let log2 = run1.hash(&g, e2);

    let mut run2 = State::new(&g);
    run2.record_stat(a, MTime::Stamp(10));
    assert!(run2.is_clean(&g, Some(log1), e1, true));
    // e1 clean means out1 was not rewritten: its stat is unchanged
    run2.record_stat(out1, MTime::Stamp(11));
    assert!(run2.is_clean(&g, Some(log2), e2, true));
}

#[test]
fn missing_output_forces_dirty() {
    let mut g = Graph::new();
    let a = g.add_file(String::from("in"));
    let b = g.add_file(String::from("out"));
    g.add_build(touch_build(vec![a], vec![b]));
    let e = g.file(b).input.unwrap();

    let mut run1 = State::new(&g);
    run1.record_stat(a, MTime::Stamp(42));
    let logged = run1.hash(&g, e);

    let mut run2 = State::new(&g);
    run2.record_stat(a, MTime::Stamp(42));
    assert!(!run2.is_clean(&g, Some(logged), e, false));
}

#[test]
fn discovered_input_extends_implicit_region() {
    let mut g = Graph::new();
    let a = g.add_file(String::from("in"));
    let b = g.add_file(String::from("out"));
    let dep = g.add_file(String::from("discovered.h"));
    g.add_build(touch_build(vec![a], vec![b]));
    let e = g.file(b).input.unwrap();

    g.discover_input(e, dep);
    assert_eq!(g.build(e).ins, vec![a, dep]);
    assert_eq!(g.build(e).explicit_ins, 1);
    assert_eq!(g.build(e).implicit_ins, 1);
    assert_eq!(g.file(dep).dependents, vec![e]);

    // a duplicate of an existing explicit/implicit input is dropped silently
    g.discover_input(e, dep);
    g.discover_input(e, a);
    assert_eq!(g.build(e).ins, vec![a, dep]);
    assert_eq!(g.build(e).implicit_ins, 1);
}

#[test]
fn discovered_input_changes_fingerprint_after_clear() {
    let mut g = Graph::new();
    let a = g.add_file(String::from("in"));
    let b = g.add_file(String::from("out"));
    let dep = g.add_file(String::from("discovered.h"));
    g.add_build(touch_build(vec![a], vec![b]));
    let e = g.file(b).input.unwrap();

    let mut s = State::new(&g);
    s.record_stat(a, MTime::Stamp(1));
    s.record_stat(dep, MTime::Stamp(2));
    let before = s.hash(&g, e);

    g.discover_input(e, dep);
    s.clear_hash(e);
    let after = s.hash(&g, e);
    assert_ne!(before, after);
    // and the recomputed value is memoized again
    assert_eq!(s.get_hash(e), Some(after));
}

#[test]
fn output_restat_goes_through_invalidation() {
    // an output is statted before the build and, after its producing edge
    // ran, invalidated and statted once more: two stats at most
    let mut g = Graph::new();
    let a = g.add_file(String::from("in"));
    let b = g.add_file(String::from("out"));
    g.add_build(touch_build(vec![a], vec![b]));
    let mut s = State::new(&g);
    s.record_stat(b, MTime::Missing);
    assert_eq!(s.file(b).mtime, Some(MTime::Missing));
    s.invalidate_stat(b);
    assert_eq!(s.file(b).mtime, None);
    s.record_stat(b, MTime::Stamp(9));
    assert_eq!(s.file(b).mtime, Some(MTime::Stamp(9)));
}
