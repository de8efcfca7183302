use itf_trace::runner::{settle, start, Check, Progress, Runner, Verdict};

/// Counts the calls, and fails the checks at the indices it is told to.
struct Counter {
    inits: usize,
    steps: usize,
    state_checks: std::cell::Cell<usize>,
    bad_state: Option<i64>,
    bad_result: Option<i64>,
    step_error: Option<i64>,
}

fn counter() -> Counter {
    Counter {
        inits: 0,
        steps: 0,
        state_checks: std::cell::Cell::new(0),
        bad_state: None,
        bad_result: None,
        step_error: None,
    }
}

impl Counter {
    fn state_checks_made(&self) -> usize {
        self.state_checks.get()
    }
}

impl Runner for Counter {
    type ActualState = i64;
    type Result = i64;
    type ExpectedState = i64;
    type Error = String;

    fn init(&mut self, expected: &i64) -> Result<i64, String> {
        self.inits += 1;
        Ok(*expected)
    }

    fn step(&mut self, actual: &mut i64, expected: &i64) -> Result<i64, String> {
        self.steps += 1;
        if self.step_error == Some(*expected) {
            return Err(format!("step to {} failed", expected));
        }
        *actual = *expected;
        Ok(*expected)
    }

    fn result_invariant(&self, result: &i64, expected: &i64) -> Result<bool, String> {
        Ok(result == expected && self.bad_result != Some(*expected))
    }

    fn state_invariant(&self, actual: &i64, expected: &i64) -> Result<bool, String> {
        self.state_checks.set(self.state_checks.get() + 1);
        Ok(actual == expected && self.bad_state != Some(*expected))
    }
}

#[test]
fn empty_trace_completes_without_calls() {
    let mut r = counter();
    assert_eq!(r.test(&[]), Ok(Verdict::Completed));
    assert_eq!(r.inits, 0);
    assert_eq!(r.steps, 0);
}

#[test]
fn conforming_trace_completes() {
    let mut r = counter();
    assert_eq!(r.test(&[10, 20, 30]), Ok(Verdict::Completed));
    assert_eq!(r.inits, 1);
    assert_eq!(r.steps, 2);
}

#[test]
fn single_state_trace_only_initialises() {
    let mut r = counter();
    assert_eq!(r.test(&[10]), Ok(Verdict::Completed));
    assert_eq!(r.inits, 1);
    assert_eq!(r.steps, 0);
}

#[test]
fn state_failure_at_second_state_stops_the_run() {
    let mut r = counter();
    r.bad_state = Some(20);
    assert_eq!(
        r.test(&[10, 20, 30]),
        Ok(Verdict::Failed { step: 1, check: Check::State })
    );
    assert_eq!(r.inits, 1);
    assert_eq!(r.steps, 1);
}

#[test]
fn state_failure_at_initialisation() {
    let mut r = counter();
    r.bad_state = Some(10);
    assert_eq!(
        r.test(&[10, 20, 30]),
        Ok(Verdict::Failed { step: 0, check: Check::State })
    );
    assert_eq!(r.steps, 0);
}

#[test]
fn result_failure_comes_before_the_state_check() {
    let mut r = counter();
    r.bad_result = Some(30);
    r.bad_state = Some(30);
    assert_eq!(
        r.test(&[10, 20, 30, 40]),
        Ok(Verdict::Failed { step: 2, check: Check::Result })
    );
    assert_eq!(r.steps, 2);
}

#[test]
fn error_of_a_step_ends_the_run() {
    let mut r = counter();
    r.step_error = Some(20);
    assert_eq!(r.test(&[10, 20, 30]), Err("step to 20 failed".to_string()));
    assert_eq!(r.steps, 1);
}

#[test]
fn moves_after_a_check() {
    assert_eq!(start(0), Progress::Halt(Verdict::Completed));
    assert_eq!(start(3), Progress::CheckState(0));
    assert_eq!(settle(3, 1, Check::Result, true), Progress::CheckState(1));
    assert_eq!(
        settle(3, 1, Check::Result, false),
        Progress::Halt(Verdict::Failed { step: 1, check: Check::Result })
    );
    assert_eq!(settle(3, 1, Check::State, true), Progress::Step(2));
    assert_eq!(settle(3, 2, Check::State, true), Progress::Halt(Verdict::Completed));
    assert_eq!(
        settle(3, 2, Check::State, false),
        Progress::Halt(Verdict::Failed { step: 2, check: Check::State })
    );
}

#[test]
fn log_of_a_completed_run() {
    let mut r = counter();
    let (verdict, log) = r.test_logged(&[10, 20, 30]);
    assert_eq!(verdict, Ok(Verdict::Completed));
    assert_eq!(log, vec![(true, true), (true, true), (true, true)]);
}

#[test]
fn log_ends_at_the_failed_check() {
    let mut r = counter();
    r.bad_state = Some(20);
    let (verdict, log) = r.test_logged(&[10, 20, 30]);
    assert_eq!(verdict, Ok(Verdict::Failed { step: 1, check: Check::State }));
    assert_eq!(log, vec![(true, true), (true, false)]);

    let mut r = counter();
    r.bad_result = Some(20);
    let (verdict, log) = r.test_logged(&[10, 20, 30]);
    assert_eq!(verdict, Ok(Verdict::Failed { step: 1, check: Check::Result }));
    assert_eq!(log, vec![(true, true), (false, false)]);
    assert_eq!(r.state_checks_made(), 1);
}

#[test]
fn log_of_a_run_that_ended_in_an_error() {
    let mut r = counter();
    r.step_error = Some(30);
    let (verdict, log) = r.test_logged(&[10, 20, 30]);
    assert_eq!(verdict, Err("step to 30 failed".to_string()));
    assert_eq!(log, vec![(true, true), (true, true)]);
    let mut empty = counter();
    let (verdict, log) = empty.test_logged(&[]);
    assert_eq!(verdict, Ok(Verdict::Completed));
    assert!(log.is_empty());
    assert_eq!(empty.inits, 0);
}
