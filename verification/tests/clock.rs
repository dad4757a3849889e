use cache_core::clock::{Clock, Moment, Span, NANOS_PER_SECOND};

#[test]
fn readings_leave_room_for_every_ttl() {
    let clock = Clock::new();
    let now = clock.now();
    assert!(now.nanos / NANOS_PER_SECOND <= u64::MAX as u128);
    let end = now.plus(Span::from_secs(u64::MAX));
    assert_eq!(end.nanos, now.nanos + u64::MAX as u128 * NANOS_PER_SECOND);
    assert!(clock.now().nanos >= now.nanos);
}

#[test]
fn moments_and_spans_stop_at_their_limits() {
    let last = Moment { nanos: u128::MAX };
    assert_eq!(last.plus(Span::from_millis(1)), last);
    assert_eq!(Moment { nanos: 3 }.elapsed_since(Moment { nanos: 5 }), Span { nanos: 0 });
    assert_eq!(Moment { nanos: 5 }.elapsed_since(Moment { nanos: 3 }), Span { nanos: 2 });
    assert_eq!(Span::from_millis(2_900).as_secs(), 2);
    assert_eq!(Span { nanos: u128::MAX }.as_secs(), u64::MAX);
}
