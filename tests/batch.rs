use anki_creator::batch::{summarize, BatchRun, Limiter};
use anki_creator::error::ConfigError;

#[test]
fn zero_concurrency_is_refused() {
    assert!(matches!(Limiter::new(0), Err(ConfigError::ZeroConcurrency)));
}

#[test]
fn limiter_caps_slots() {
    let mut l = Limiter::new(2).unwrap();
    assert!(l.try_acquire());
    assert!(l.try_acquire());
    assert!(!l.try_acquire());
    assert_eq!(l.in_flight(), 2);
    l.release();
    assert!(l.try_acquire());
    assert_eq!(l.capacity(), 2);
}

#[test]
fn batch_returns_one_result_per_item_at_its_index() {
    let items = vec!["a", "b", "c", "d", "e"];
    let mut run: BatchRun<Result<String, String>> = BatchRun::new(items.len(), Limiter::new(2).unwrap());
    let mut running: Vec<usize> = Vec::new();
    let mut max_running = 0;
    loop {
        while let Some(i) = run.start_next() {
            running.push(i);
        }
        max_running = max_running.max(running.len());
        if running.is_empty() {
            break;
        }
        // complete the most recently started item first
        let i = running.pop().unwrap();
        let outcome = if items[i] == "c" { Err(format!("failed {}", items[i])) } else { Ok(items[i].to_uppercase()) };
        run.complete(i, outcome);
    }
    assert!(run.is_done());
    assert_eq!(max_running, 2);
    let results = run.finish();
    assert_eq!(results.len(), 5);
    assert_eq!(results[0], Ok("A".to_string()));
    assert_eq!(results[2], Err("failed c".to_string()));
    assert_eq!(results[4], Ok("E".to_string()));
    let (ok, report) = summarize(results);
    assert_eq!(report.attempted, 5);
    assert_eq!(report.succeeded, 4);
    assert_eq!(report.failed, 1);
    assert_eq!(report.failures, vec![(2, "failed c".to_string())]);
    assert_eq!(ok[2], (3, "D".to_string()));
}

#[test]
fn empty_batch_is_done_at_once() {
    let mut run: BatchRun<u8> = BatchRun::new(0, Limiter::new(3).unwrap());
    assert_eq!(run.start_next(), None);
    assert!(run.is_done());
    assert!(run.finish().is_empty());
}
