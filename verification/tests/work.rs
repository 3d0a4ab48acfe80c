use n2::graph::Graph;
use n2::work::{select_targets, Pool};

#[test]
fn pool_respects_depth() {
    let mut p = Pool::new(2);
    assert!(p.try_start());
    assert!(p.try_start());
    assert!(!p.try_start());
    p.finish();
    assert!(p.try_start());
    assert!(!p.try_start());
}

#[test]
fn zero_depth_pool_never_runs() {
    let mut p = Pool::new(0);
    assert!(!p.try_start());
}

#[test]
fn requested_targets_win_over_default() {
    let mut g = Graph::new();
    let a = g.add_file(String::from("a"));
    let b = g.add_file(String::from("b"));
    assert_eq!(select_targets(vec![a], vec![b]), Some(vec![a]));
}

#[test]
fn default_targets_fill_in() {
    let mut g = Graph::new();
    let b = g.add_file(String::from("b"));
    assert_eq!(select_targets(vec![], vec![b]), Some(vec![b]));
}

#[test]
fn no_targets_and_no_default_is_an_error() {
    // the caller reports: no path specified and no default
    assert_eq!(select_targets(vec![], vec![]), None);
}
