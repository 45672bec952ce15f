use foldquery::sidecar::{
    after_attempt, is_restartable, match_response, wait_failure, CallNext, RequestCounter, ResponseAction,
    WaitFailure,
};

#[test]
fn requests_are_numbered_from_zero() {
    let mut c = RequestCounter::new();
    assert_eq!(c.issue(), 0);
    assert_eq!(c.issue(), 1);
    assert_eq!(c.issue(), 2);
}

#[test]
fn responses_match_their_request() {
    assert!(matches!(match_response(3, 2, None), ResponseAction::Stale));
    assert!(matches!(match_response(3, 2, Some("old".to_string())), ResponseAction::Stale));
    assert!(matches!(match_response(3, 3, None), ResponseAction::Accept));
    assert!(matches!(match_response(3, 3, Some("bad".to_string())), ResponseAction::Fail(e) if e == "bad"));
}

#[test]
fn waits_that_end_without_a_response() {
    assert_eq!(wait_failure(WaitFailure::TimedOut, true), "sidecar request timed out");
    assert_eq!(wait_failure(WaitFailure::TimedOut, false), "sidecar process exited");
    assert_eq!(wait_failure(WaitFailure::ReaderStopped, true), "sidecar reader stopped");
}

#[test]
fn a_gone_sidecar_is_restarted_once() {
    assert!(is_restartable("sidecar process exited"));
    assert!(is_restartable("x: sidecar reader stopped!"));
    assert!(!is_restartable("sidecar request timed out"));
    assert!(matches!(after_attempt(true, Ok::<u32, String>(5)), CallNext::Finish(Ok(5))));
    assert!(matches!(after_attempt::<u32>(true, Err("sidecar process exited".to_string())), CallNext::Respawn));
    assert!(matches!(
        after_attempt::<u32>(false, Err("sidecar process exited".to_string())),
        CallNext::Finish(Err(e)) if e == "sidecar process exited"
    ));
    assert!(matches!(
        after_attempt::<u32>(true, Err("NameError".to_string())),
        CallNext::Finish(Err(e)) if e == "NameError"
    ));
}
