use cache_core::clock::{Moment, Span};
use cache_core::FreezeController;

fn at(millis: u64) -> Moment {
    Moment { nanos: 0 }.plus(Span::from_millis(millis))
}

#[test]
fn freeze_then_is_frozen_returns_some() {
    let mut ctrl = FreezeController::new();
    ctrl.freeze("ut", Span::from_secs(60));
    assert!(ctrl.is_frozen("ut").is_some());
    assert!(ctrl.is_frozen("bp-ss").is_none());
}

#[test]
fn global_freeze_covers_any_scope() {
    let mut ctrl = FreezeController::new();
    ctrl.freeze("", Span::from_secs(60));
    assert!(ctrl.is_frozen("ut").is_some());
    assert!(ctrl.is_frozen("anything").is_some());
    assert!(ctrl.is_frozen("").is_some());
}

#[test]
fn thaw_removes_only_specified_scope() {
    let mut ctrl = FreezeController::new();
    ctrl.freeze("ut", Span::from_secs(60));
    ctrl.freeze("bp-ss", Span::from_secs(60));
    ctrl.thaw("ut");
    assert!(ctrl.is_frozen("ut").is_none());
    assert!(ctrl.is_frozen("bp-ss").is_some());
}

#[test]
fn thaw_all_clears_everything() {
    let mut ctrl = FreezeController::new();
    ctrl.freeze("ut", Span::from_secs(60));
    ctrl.freeze("", Span::from_secs(60));
    ctrl.thaw_all();
    assert!(ctrl.is_frozen("ut").is_none());
    assert!(ctrl.is_frozen("any").is_none());
}

#[test]
fn expired_freeze_is_ignored() {
    let mut ctrl = FreezeController::new();
    ctrl.freeze_at("ut", Span::from_millis(20), at(0));
    assert!(ctrl.is_frozen_at("ut", at(50)).is_none());
    let active = ctrl.list_active_at(at(50));
    assert!(active.is_empty(), "an expired freeze is not listed");
}

#[test]
fn freeze_takes_max_ttl_on_overlap() {
    let mut ctrl = FreezeController::new();
    ctrl.freeze("ut", Span::from_secs(10));
    ctrl.freeze("ut", Span::from_secs(60));
    let ttl = ctrl.is_frozen("ut").unwrap();
    assert!(ttl.as_secs() > 30, "the longer freeze wins, got {ttl:?}");
}

#[test]
fn shorter_freeze_does_not_shrink_existing() {
    let mut ctrl = FreezeController::new();
    ctrl.freeze("ut", Span::from_secs(60));
    ctrl.freeze("ut", Span::from_secs(5));
    let ttl = ctrl.is_frozen("ut").unwrap();
    assert!(ttl.as_secs() > 30, "a short freeze does not cut a long one, got {ttl:?}");
}

#[test]
fn freeze_lasts_exactly_its_time() {
    let mut ctrl = FreezeController::new();
    ctrl.freeze_at("ut", Span::from_secs(10), at(500));
    assert_eq!(ctrl.is_frozen_at("ut", at(500)), Some(Span::from_secs(10)));
    assert_eq!(ctrl.is_frozen_at("ut", at(9_500)), Some(Span::from_secs(1)));
    assert_eq!(ctrl.is_frozen_at("ut", at(10_499)), Some(Span::from_millis(1)));
    assert_eq!(ctrl.is_frozen_at("ut", at(10_500)), None);
}

#[test]
fn freeze_of_all_scopes_counts_first() {
    let mut ctrl = FreezeController::new();
    ctrl.freeze_at("ut", Span::from_secs(60), at(0));
    ctrl.freeze_at("", Span::from_secs(5), at(0));
    assert_eq!(ctrl.is_frozen_at("ut", at(0)), Some(Span::from_secs(5)));
    assert_eq!(ctrl.is_frozen_at("ut", at(5_000)), Some(Span::from_secs(55)));
    assert_eq!(ctrl.is_frozen_at("", at(5_000)), None);
}

#[test]
fn list_names_scopes_with_whole_seconds() {
    let mut ctrl = FreezeController::new();
    ctrl.freeze_at("ut", Span::from_millis(2_900), at(0));
    ctrl.freeze_at("", Span::from_millis(10), at(0));
    ctrl.freeze_at("zup", Span::from_secs(7), at(0));
    ctrl.thaw("none");
    let active = ctrl.list_active_at(at(100));
    assert_eq!(active.len(), 2);
    assert_eq!(active[0].scope, "ut");
    assert_eq!(active[0].ttl_remaining_seconds, 2);
    assert_eq!(active[1].scope, "zup");
    assert_eq!(active[1].ttl_remaining_seconds, 6);
    assert_eq!(ctrl.list_active().len() <= 3, true);
}
