use anki_creator::error::{AttemptError, CallError};
use anki_creator::retry::{RetryDriver, RetryPolicy, RetryStep};

fn run(policy: RetryPolicy, outcomes: Vec<Result<u32, AttemptError>>) -> (Result<u32, CallError>, u32, Vec<u64>) {
    let mut driver = RetryDriver::new(policy);
    let mut waits = Vec::new();
    let mut made = 0;
    for outcome in outcomes {
        made += 1;
        match driver.record(outcome) {
            RetryStep::Done(v) => return (Ok(v), made, waits),
            RetryStep::GiveUp(e) => return (Err(e), made, waits),
            RetryStep::RetryAfter(ms) => waits.push(ms),
        }
    }
    panic!("the call did not end");
}

fn net(msg: &str) -> AttemptError {
    AttemptError::Network(msg.to_string())
}

#[test]
fn all_attempts_failing_gives_all_attempts_failed() {
    let policy = RetryPolicy { max_retries: 2, base_delay_ms: 100 };
    let outcomes = vec![Err(net("a")), Err(net("b")), Err(net("c")), Ok(9)];
    let (result, made, waits) = run(policy, outcomes);
    assert_eq!(result, Err(CallError::AllAttemptsFailed(net("c"))));
    assert_eq!(made, 3);
    assert_eq!(waits, vec![100, 200]);
}

#[test]
fn success_on_third_attempt_stops_retrying() {
    let policy = RetryPolicy { max_retries: 3, base_delay_ms: 50 };
    let outcomes = vec![Err(net("a")), Err(AttemptError::Status(500, "busy".to_string())), Ok(7), Ok(8)];
    let (result, made, waits) = run(policy, outcomes);
    assert_eq!(result, Ok(7));
    assert_eq!(made, 3);
    assert_eq!(waits, vec![50, 100]);
}

#[test]
fn no_retries_means_one_attempt() {
    let policy = RetryPolicy { max_retries: 0, base_delay_ms: 50 };
    let (result, made, waits) = run(policy, vec![Err(net("x"))]);
    assert_eq!(result, Err(CallError::AllAttemptsFailed(net("x"))));
    assert_eq!(made, 1);
    assert!(waits.is_empty());
}

#[test]
fn retry_delay_grows_linearly_and_saturates() {
    let policy = RetryPolicy { max_retries: 5, base_delay_ms: 250 };
    assert_eq!(policy.delay_before_retry(0), 250);
    assert_eq!(policy.delay_before_retry(3), 1000);
    let huge = RetryPolicy { max_retries: 5, base_delay_ms: u64::MAX / 2 };
    assert_eq!(huge.delay_before_retry(4), u64::MAX);
}

#[test]
fn driver_tracks_attempts() {
    let mut driver = RetryDriver::new(RetryPolicy { max_retries: 1, base_delay_ms: 10 });
    assert_eq!(driver.attempt(), 0);
    assert!(!driver.is_finished());
    assert_eq!(driver.record::<u8>(Err(net("a"))), RetryStep::RetryAfter(10));
    assert_eq!(driver.attempt(), 1);
    assert_eq!(driver.record(Ok(3u8)), RetryStep::Done(3));
    assert!(driver.is_finished());
}
