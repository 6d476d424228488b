use darwin_notify::NotifyError;
use darwin_notify::registry::Registry;

#[test]
fn state_round_trips_for_every_value_shape() {
    let mut reg = Registry::new();
    let token = reg.register(b"a.b.c").unwrap();
    for v in [0u64, 1, 42, u64::MAX - 1, u64::MAX] {
        assert_eq!(reg.set_state(token, v), Ok(()));
        assert_eq!(reg.get_state(token), Ok(v));
    }
}

#[test]
fn state_defaults_to_zero_after_registration() {
    let mut reg = Registry::new();
    let token = reg.register(b"a.b.c").unwrap();
    assert_eq!(reg.get_state(token), Ok(0));
}

#[test]
fn operations_on_unknown_tokens_fail_with_invalid_token() {
    let mut reg = Registry::new();
    assert_eq!(reg.get_state(5), Err(NotifyError::InvalidToken));
    assert_eq!(reg.set_state(5, 1), Err(NotifyError::InvalidToken));
    assert_eq!(reg.suspend(5), Err(NotifyError::InvalidToken));
    assert_eq!(reg.resume(5), Err(NotifyError::InvalidToken));
    assert_eq!(reg.cancel(5), Err(NotifyError::InvalidToken));
    assert_eq!(reg.check(5), Err(NotifyError::InvalidToken));
}

#[test]
fn post_with_no_subscribers_is_success() {
    let mut reg = Registry::new();
    assert_eq!(reg.post(b"a.b.c"), Ok(()));
    assert_eq!(reg.drain_deliveries(), Vec::<i32>::new());
}

#[test]
fn post_delivers_exactly_once_per_subscriber() {
    let mut reg = Registry::new();
    let token = reg.register(b"a.b.c").unwrap();
    assert_eq!(reg.post(b"a.b.c"), Ok(()));
    assert_eq!(reg.drain_deliveries(), vec![token]);
    // nothing further is owed until the next post
    assert_eq!(reg.drain_deliveries(), Vec::<i32>::new());
}

#[test]
fn post_under_another_name_is_not_delivered() {
    let mut reg = Registry::new();
    let _token = reg.register(b"a.b.c").unwrap();
    assert_eq!(reg.post(b"x.y.z"), Ok(()));
    assert_eq!(reg.drain_deliveries(), Vec::<i32>::new());
}

#[test]
fn cancel_stops_delivery() {
    let mut reg = Registry::new();
    let token = reg.register(b"a.b.c").unwrap();
    assert_eq!(reg.post(b"a.b.c"), Ok(()));
    assert_eq!(reg.drain_deliveries(), vec![token]);
    assert_eq!(reg.cancel(token), Ok(()));
    assert_eq!(reg.post(b"a.b.c"), Ok(()));
    assert_eq!(reg.drain_deliveries(), Vec::<i32>::new());
    assert_eq!(reg.cancel(token), Err(NotifyError::InvalidToken));
}

#[test]
fn double_suspend_needs_double_resume() {
    let mut reg = Registry::new();
    let token = reg.register(b"a.b.c").unwrap();
    assert_eq!(reg.suspend(token), Ok(()));
    assert_eq!(reg.suspend(token), Ok(()));
    assert_eq!(reg.post(b"a.b.c"), Ok(()));
    // two levels down: nothing may be delivered
    assert_eq!(reg.drain_deliveries(), Vec::<i32>::new());
    assert_eq!(reg.resume(token), Ok(()));
    // one suspend still unmatched: still nothing
    assert_eq!(reg.drain_deliveries(), Vec::<i32>::new());
    assert_eq!(reg.resume(token), Ok(()));
    // fully resumed: the coalesced post is owed exactly once
    assert_eq!(reg.drain_deliveries(), vec![token]);
}

#[test]
fn posts_while_suspended_coalesce_into_one_delivery() {
    let mut reg = Registry::new();
    let token = reg.register(b"a.b.c").unwrap();
    assert_eq!(reg.suspend(token), Ok(()));
    assert_eq!(reg.post(b"a.b.c"), Ok(()));
    assert_eq!(reg.post(b"a.b.c"), Ok(()));
    assert_eq!(reg.post(b"a.b.c"), Ok(()));
    assert_eq!(reg.resume(token), Ok(()));
    assert_eq!(reg.drain_deliveries(), vec![token]);
}

#[test]
fn resume_without_suspend_changes_nothing() {
    let mut reg = Registry::new();
    let token = reg.register(b"a.b.c").unwrap();
    assert_eq!(reg.resume(token), Ok(()));
    assert_eq!(reg.post(b"a.b.c"), Ok(()));
    assert_eq!(reg.drain_deliveries(), vec![token]);
}

#[test]
fn two_subscribers_each_get_one_delivery() {
    let mut reg = Registry::new();
    let t1 = reg.register(b"a.b.c").unwrap();
    let t2 = reg.register(b"a.b.c").unwrap();
    assert_ne!(t1, t2);
    assert_eq!(reg.post(b"a.b.c"), Ok(()));
    assert_eq!(reg.drain_deliveries(), vec![t1, t2]);
}

#[test]
fn check_reports_true_once_after_registration_and_after_posts() {
    let mut reg = Registry::new();
    let token = reg.register(b"a.b.c").unwrap();
    assert_eq!(reg.check(token), Ok(true));
    assert_eq!(reg.check(token), Ok(false));
    assert_eq!(reg.post(b"a.b.c"), Ok(()));
    assert_eq!(reg.check(token), Ok(true));
    assert_eq!(reg.check(token), Ok(false));
}
