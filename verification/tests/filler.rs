//! One fill per object, and those who wait for it.
use cachic::orchestrator::filler::{abandoned, wait_for, Fill, FillRegistry, Progress, Role, Wait};
use cachic::store::slice::object_id;

#[test]
fn the_first_caller_fills_and_the_rest_subscribe() {
    let mut registry = FillRegistry::new();
    let object = object_id("/a");
    assert!(matches!(registry.claim(object), Role::Filler));
    assert!(matches!(registry.claim(object), Role::Subscriber));
    assert!(matches!(registry.claim(object), Role::Subscriber));
    assert_eq!(registry.active(), 1);
}

#[test]
fn distinct_objects_fill_independently() {
    let mut registry = FillRegistry::new();
    assert!(matches!(registry.claim(object_id("/a")), Role::Filler));
    assert!(matches!(registry.claim(object_id("/b")), Role::Filler));
    assert_eq!(registry.active(), 2);
}

#[test]
fn releasing_lets_a_later_request_fill_again() {
    let mut registry = FillRegistry::new();
    let object = object_id("/a");
    let _ = registry.claim(object);
    registry.release(&object);
    assert!(matches!(registry.claim(object), Role::Filler));
}

#[test]
fn a_subscriber_wakes_when_its_slice_lands_not_at_completion() {
    let mut fill = Fill::new();
    // Slices 0 and 1 land; the waiter for slice 2 must still be waiting.
    fill.publish(1);
    assert_eq!(wait_for(&fill.progress, 2), Wait::Pending);
    fill.publish(2);
    assert_eq!(wait_for(&fill.progress, 2), Wait::Pending);
    // Slice 2 lands. The waiter must wake now, long before the fill completes.
    fill.publish(3);
    assert_eq!(wait_for(&fill.progress, 2), Wait::Ready);
    assert!(!fill.progress.is_terminal(), "the fill has not finished");
}

#[test]
fn progress_published_before_anyone_subscribes_is_not_lost() {
    let mut fill = Fill::new();
    fill.publish(7);
    assert_eq!(fill.progress, Progress::Ready { count: 7 });
}

#[test]
fn an_already_available_slice_returns_immediately() {
    let mut fill = Fill::new();
    fill.publish(10);
    assert_eq!(wait_for(&fill.progress, 3), Wait::Ready);
}

#[test]
fn a_failed_fill_wakes_subscribers_with_the_reason() {
    let mut fill = Fill::new();
    fill.fail("upstream returned 503".to_string());
    assert_eq!(
        wait_for(&fill.progress, 5),
        Wait::Failed("upstream returned 503".into())
    );
}

#[test]
fn completion_short_of_the_requested_slice_is_an_error_not_a_hang() {
    let mut fill = Fill::new();
    fill.complete(4);
    match wait_for(&fill.progress, 9) {
        Wait::Failed(reason) => assert!(reason.contains("never produced"), "{reason}"),
        other => panic!("{other:?}"),
    }
    assert_eq!(wait_for(&fill.progress, 3), Wait::Ready);
}

#[test]
fn an_abandoned_fill_does_not_hang_subscribers_forever() {
    assert!(abandoned().contains("abandoned"));
}

#[test]
fn progress_covers_only_slices_that_have_landed() {
    assert!(Progress::Ready { count: 3 }.covers(2));
    assert!(!Progress::Ready { count: 3 }.covers(3));
    assert!(Progress::Complete { count: 3 }.covers(0));
    assert!(!Progress::Failed { reason: "x".into() }.covers(0));
}
