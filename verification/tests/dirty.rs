use cache_core::clock::{Moment, Span};
use cache_core::DirtySet;

fn at(millis: u64) -> Moment {
    Moment { nanos: 0 }.plus(Span::from_millis(millis))
}

#[test]
fn mark_keeps_max_observed() {
    let mut d = DirtySet::new();
    d.mark("ut", "src/X.bsl", 100);
    d.mark("ut", "src/X.bsl", 90);
    assert_eq!(d.observed("ut", "src/X.bsl"), Some(100));
    d.mark("ut", "src/X.bsl", 150);
    assert_eq!(d.observed("ut", "src/X.bsl"), Some(150));
}

#[test]
fn scope_isolation() {
    let mut d = DirtySet::new();
    d.mark("ut", "src/X.bsl", 100);
    assert!(d.any_dirty("ut", &["src/X.bsl".into()]));
    assert!(!d.any_dirty("bp-ss", &["src/X.bsl".into()]));
    assert_eq!(d.observed("bp-ss", "src/X.bsl"), None);
}

#[test]
fn any_dirty_empty_is_false_fast() {
    let d = DirtySet::new();
    assert!(!d.any_dirty("ut", &["a".into(), "b".into()]));
}

#[test]
fn any_dirty_looks_at_every_path() {
    let mut d = DirtySet::new();
    d.mark("ut", "b", 1);
    assert!(d.any_dirty("ut", &["a".into(), "b".into()]));
    assert!(!d.any_dirty("ut", &["a".into(), "c".into()]));
    assert!(!d.any_dirty("ut", &[]));
}

#[test]
fn clear_if_caught_up_respects_observed() {
    let mut d = DirtySet::new();
    d.mark("ut", "src/X.bsl", 100);
    d.clear_if_caught_up("ut", "src/X.bsl", 99);
    assert_eq!(d.observed("ut", "src/X.bsl"), Some(100));
    d.clear_if_caught_up("ut", "src/X.bsl", 100);
    assert_eq!(d.observed("ut", "src/X.bsl"), None);
}

#[test]
fn prune_removes_old_entries() {
    let mut d = DirtySet::new();
    d.mark("ut", "src/X.bsl", 100);
    let removed = d.prune_older_than(Span::from_millis(0));
    assert_eq!(removed, 1);
    assert!(d.is_empty());
}

#[test]
fn prune_keeps_young_marks() {
    let mut d = DirtySet::new();
    d.mark_at("ut", "old", 1, at(0));
    d.mark_at("ut", "young", 1, at(50));
    d.mark_at("ut", "again", 5, at(0));
    d.mark_at("ut", "again", 3, at(60));
    assert_eq!(d.prune_older_than_at(Span::from_millis(100), at(100)), 1);
    assert_eq!(d.len(), 2);
    assert_eq!(d.observed("ut", "old"), None);
    assert_eq!(d.observed("ut", "young"), Some(1));
    assert_eq!(d.observed("ut", "again"), Some(5));
}
