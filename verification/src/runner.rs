//! Replaying an expected trace against an implementation, step by step.

use vstd::prelude::*;

verus! {

/// Which of the two invariants a check is about.
#[derive(Clone, Copy, Debug, PartialEq, Eq, Structural)]
pub enum Check {
    /// The outcome of the step agrees with the expected state.
    Result,
    /// The actual state agrees with the expected state.
    State,
}

/// How a run ended.
#[derive(Clone, Copy, Debug, PartialEq, Eq, Structural)]
pub enum Verdict {
    /// Every check of every state held.
    Completed,
    /// The check `check` did not hold at index `step` of the trace; nothing
    /// after it was run.
    Failed { step: usize, check: Check },
}

/// What the runner does after a check.
#[derive(Clone, Copy, Debug, PartialEq, Eq, Structural)]
pub enum Progress {
    /// Stop, with this verdict.
    Halt(Verdict),
    /// Check the state invariant at this index.
    CheckState(usize),
    /// Take the step to this index.
    Step(usize),
}

/// What follows a check at index `step` of a trace of `len` states, given
/// whether the check held.
pub open spec fn settle_spec(len: usize, step: usize, check: Check, holds: bool) -> Progress {
    if !holds {
        Progress::Halt(Verdict::Failed { step, check })
    } else if check == Check::Result {
        Progress::CheckState(step)
    } else if step + 1 < len {
        Progress::Step((step + 1) as usize)
    } else {
        Progress::Halt(Verdict::Completed)
    }
}

/// What a run of a trace of `len` states starts with: nothing to do on an
/// empty trace, else the state check of index 0 once the implementation is
/// initialised.
pub open spec fn start_spec(len: usize) -> Progress {
    if len == 0 {
        Progress::Halt(Verdict::Completed)
    } else {
        Progress::CheckState(0)
    }
}

/// The first move of a run.
pub fn start(len: usize) -> (next: Progress)
    ensures
        next == start_spec(len),
{
    if len == 0 {
        Progress::Halt(Verdict::Completed)
    } else {
        Progress::CheckState(0)
    }
}

/// The move after a check: a failed check halts the run at its index, a
/// result check that held is followed by the state check of the same index,
/// and a state check that held by the next step, or by the end of the run
/// after the last state.
pub fn settle(len: usize, step: usize, check: Check, holds: bool) -> (next: Progress)
    requires
        step < len,
    ensures
        next == settle_spec(len, step, check, holds),
{
    if !holds {
        Progress::Halt(Verdict::Failed { step, check })
    } else {
        match check {
            Check::Result => Progress::CheckState(step),
            Check::State => {
                if step + 1 < len {
                    Progress::Step(step + 1)
                } else {
                    Progress::Halt(Verdict::Completed)
                }
            },
        }
    }
}

/// The verdict that the checks of a run give. Entry `i` of `checks` holds how
/// the result check and the state check of index `i` came out; the result
/// check of index 0 is not made and does not count. The checks are read up to
/// the first that failed.
pub open spec fn verdict_of(checks: Seq<(bool, bool)>) -> Verdict
    decreases checks.len(),
{
    if checks.len() == 0 {
        Verdict::Completed
    } else {
        let rest = verdict_of(checks.drop_last());
        let step = (checks.len() - 1) as usize;
        if rest != Verdict::Completed {
            rest
        } else if checks.len() > 1 && !checks.last().0 {
            Verdict::Failed { step, check: Check::Result }
        } else if !checks.last().1 {
            Verdict::Failed { step, check: Check::State }
        } else {
            Verdict::Completed
        }
    }
}

/// A run fails at the first index with a failed check, whatever the checks
/// after it would have said.
pub proof fn lemma_fail_fast(checks: Seq<(bool, bool)>, more: Seq<(bool, bool)>)
    requires
        verdict_of(checks) != Verdict::Completed,
    ensures
        verdict_of(checks + more) == verdict_of(checks),
    decreases more.len(),
{
    if more.len() == 0 {
        assert(checks + more =~= checks);
    } else {
        lemma_fail_fast(checks, more.drop_last());
        assert((checks + more).drop_last() =~= checks + more.drop_last());
    }
}

/// A failed run names an index of the trace, and at index 0 only the state
/// check can fail.
pub proof fn lemma_failure_is_in_trace(checks: Seq<(bool, bool)>)
    requires
        checks.len() <= usize::MAX,
    ensures
        verdict_of(checks) matches Verdict::Failed { step, check } ==> step < checks.len() && (step
            == 0 ==> check == Check::State),
    decreases checks.len(),
{
    if checks.len() > 0 {
        lemma_failure_is_in_trace(checks.drop_last());
    }
}

/// A run of the empty trace is complete.
pub proof fn lemma_empty_trace_completes()
    ensures
        verdict_of(Seq::empty()) == Verdict::Completed,
        start_spec(0) == Progress::Halt(Verdict::Completed),
{
}

/// Whether a run that stands before the state check of index `i`, with the
/// runner as `runner` and the implementation's state as `actual`, may end
/// with the runner as `end` and with `r`: the check may fail with an error,
/// which ends the run; where it does not hold, the run has failed at `i`;
/// where it holds, the run goes on after index `i`. The three relations say
/// what a step, a result check and a state check may do.
pub open spec fn may_check_state<S, A, O, X, E>(
    stepping: spec_fn(S, A, X, S, A, Result<O, E>) -> bool,
    result_check: spec_fn(S, O, X, Result<bool, E>) -> bool,
    state_check: spec_fn(S, A, X, Result<bool, E>) -> bool,
    runner: S,
    actual: A,
    trace: Seq<X>,
    i: int,
    end: S,
    r: Result<Verdict, E>,
) -> bool
    decreases trace.len() - i, 0nat,
{
    0 <= i < trace.len() && exists|c: Result<bool, E>| #[trigger]
        state_check(runner, actual, trace[i], c) && match c {
            Err(e) => end == runner && r == Err::<Verdict, E>(e),
            Ok(false) => end == runner && r == Ok::<Verdict, E>(
                Verdict::Failed { step: i as usize, check: Check::State },
            ),
            Ok(true) => may_run_from(
                stepping,
                result_check,
                state_check,
                runner,
                actual,
                trace,
                i + 1,
                end,
                r,
            ),
        }
}

/// Whether a run that has done with the states before index `i`, with the
/// runner as `runner` and the implementation's state as `actual`, may end
/// with the runner as `end` and with `r`. After the last state the run is
/// complete. Before that it takes the step to `trace[i]`, checks the result
/// invariant on what the step returned, and then the state invariant; an
/// error of any of them ends the run, and so does the first check that does
/// not hold.
pub open spec fn may_run_from<S, A, O, X, E>(
    stepping: spec_fn(S, A, X, S, A, Result<O, E>) -> bool,
    result_check: spec_fn(S, O, X, Result<bool, E>) -> bool,
    state_check: spec_fn(S, A, X, Result<bool, E>) -> bool,
    runner: S,
    actual: A,
    trace: Seq<X>,
    i: int,
    end: S,
    r: Result<Verdict, E>,
) -> bool
    decreases trace.len() - i, 2nat,
{
    if i < 0 {
        false
    } else if i >= trace.len() {
        end == runner && r == Ok::<Verdict, E>(Verdict::Completed)
    } else {
        exists|mid: S, next: A, s: Result<O, E>| #[trigger]
            stepping(runner, actual, trace[i], mid, next, s) && match s {
                Err(e) => end == mid && r == Err::<Verdict, E>(e),
                Ok(out) => may_check_result(
                    stepping,
                    result_check,
                    state_check,
                    mid,
                    next,
                    out,
                    trace,
                    i,
                    end,
                    r,
                ),
            }
    }
}

/// Whether a run that stands before the result check of index `i`, the step
/// having returned `out`, may end with the runner as `end` and with `r`.
pub open spec fn may_check_result<S, A, O, X, E>(
    stepping: spec_fn(S, A, X, S, A, Result<O, E>) -> bool,
    result_check: spec_fn(S, O, X, Result<bool, E>) -> bool,
    state_check: spec_fn(S, A, X, Result<bool, E>) -> bool,
    runner: S,
    actual: A,
    out: O,
    trace: Seq<X>,
    i: int,
    end: S,
    r: Result<Verdict, E>,
) -> bool
    decreases trace.len() - i, 1nat,
{
    0 <= i < trace.len() && exists|c: Result<bool, E>| #[trigger]
        result_check(runner, out, trace[i], c) && match c {
            Err(e) => end == runner && r == Err::<Verdict, E>(e),
            Ok(false) => end == runner && r == Ok::<Verdict, E>(
                Verdict::Failed { step: i as usize, check: Check::Result },
            ),
            Ok(true) => may_check_state(
                stepping,
                result_check,
                state_check,
                runner,
                actual,
                trace,
                i,
                end,
                r,
            ),
        }
}

/// Whether a run that has done with the states before index `i` may end with
/// the runner as `end` and with `r`: at index 0 the implementation has been
/// initialised and the state check is next, later the step is.
pub open spec fn may_go_on<S, A, O, X, E>(
    stepping: spec_fn(S, A, X, S, A, Result<O, E>) -> bool,
    result_check: spec_fn(S, O, X, Result<bool, E>) -> bool,
    state_check: spec_fn(S, A, X, Result<bool, E>) -> bool,
    runner: S,
    actual: A,
    trace: Seq<X>,
    i: int,
    end: S,
    r: Result<Verdict, E>,
) -> bool {
    if i == 0 {
        may_check_state(stepping, result_check, state_check, runner, actual, trace, i, end, r)
    } else {
        may_run_from(stepping, result_check, state_check, runner, actual, trace, i, end, r)
    }
}

/// Whether a run of `trace` that starts with the runner as `pre` may end with
/// the runner as `end` and with `r`, where the four relations say what each
/// operation may do. On the empty trace nothing is called: the runner stays
/// as it is and the run is complete. Else the implementation is initialised
/// for the first state, whose state invariant is checked, and each further
/// state is stepped to and checked in turn.
pub open spec fn may_run<S, A, O, X, E>(
    starting: spec_fn(S, X, S, Result<A, E>) -> bool,
    stepping: spec_fn(S, A, X, S, A, Result<O, E>) -> bool,
    result_check: spec_fn(S, O, X, Result<bool, E>) -> bool,
    state_check: spec_fn(S, A, X, Result<bool, E>) -> bool,
    pre: S,
    trace: Seq<X>,
    end: S,
    r: Result<Verdict, E>,
) -> bool {
    if trace.len() == 0 {
        end == pre && r == Ok::<Verdict, E>(Verdict::Completed)
    } else {
        exists|mid: S, made: Result<A, E>| #[trigger]
            starting(pre, trace[0], mid, made) && match made {
                Err(e) => end == mid && r == Err::<Verdict, E>(e),
                Ok(actual) => may_check_state(
                    stepping,
                    result_check,
                    state_check,
                    mid,
                    actual,
                    trace,
                    0,
                    end,
                    r,
                ),
            }
    }
}

/// An implementation under test, and the checks that relate it to the
/// expected states of a trace.
///
/// Each operation comes with a relation of the same name and `_ensures`, in
/// which an implementation says what the operation may do. An implementation
/// that says nothing leaves them as they are, true of everything. The
/// relations promise nothing by themselves: what `test` returns is stated
/// over them.
pub trait Runner: Sized {
    /// The state of the implementation.
    type ActualState;

    /// What a step of the implementation returns.
    type Result;

    /// A state of the expected trace.
    type ExpectedState;

    /// The error of the implementation or of the harness round it.
    type Error;

    /// Whether `init`, called on the runner `pre` with `expected`, may leave
    /// the runner as `post` and return `r`.
    open spec fn init_ensures(
        pre: Self,
        expected: Self::ExpectedState,
        post: Self,
        r: Result<Self::ActualState, Self::Error>,
    ) -> bool {
        true
    }

    /// Whether `step`, called on the runner `pre` with the state `actual` and
    /// with `expected`, may leave the runner as `post` and the state as
    /// `next`, and return `r`.
    open spec fn step_ensures(
        pre: Self,
        actual: Self::ActualState,
        expected: Self::ExpectedState,
        post: Self,
        next: Self::ActualState,
        r: Result<Self::Result, Self::Error>,
    ) -> bool {
        true
    }

    /// Whether `result_invariant`, called with `result` and `expected`, may
    /// return `r`.
    open spec fn result_invariant_ensures(
        &self,
        result: Self::Result,
        expected: Self::ExpectedState,
        r: Result<bool, Self::Error>,
    ) -> bool {
        true
    }

    /// Whether `state_invariant`, called with `actual` and `expected`, may
    /// return `r`.
    open spec fn state_invariant_ensures(
        &self,
        actual: Self::ActualState,
        expected: Self::ExpectedState,
        r: Result<bool, Self::Error>,
    ) -> bool {
        true
    }

    /// Builds the implementation's state for the first expected state.
    fn init(&mut self, expected: &Self::ExpectedState) -> (r: Result<
        Self::ActualState,
        Self::Error,
    >)
        ensures
            Self::init_ensures(*old(self), *expected, *final(self), r),
    ;

    /// Advances the implementation by one transition, towards `expected`.
    fn step(&mut self, actual: &mut Self::ActualState, expected: &Self::ExpectedState) -> (r:
        Result<Self::Result, Self::Error>)
        ensures
            Self::step_ensures(
                *old(self),
                *old(actual),
                *expected,
                *final(self),
                *final(actual),
                r,
            ),
    ;

    /// Whether the outcome of the last step agrees with the expected state.
    fn result_invariant(&self, result: &Self::Result, expected: &Self::ExpectedState) -> (r:
        Result<bool, Self::Error>)
        ensures
            self.result_invariant_ensures(*result, *expected, r),
    ;

    /// Whether the implementation's state agrees with the expected state.
    fn state_invariant(&self, actual: &Self::ActualState, expected: &Self::ExpectedState) -> (r:
        Result<bool, Self::Error>)
        ensures
            self.state_invariant_ensures(*actual, *expected, r),
    ;

    /// Replays `trace`: initialises the implementation for the first state and
    /// checks the state invariant, then for each further state takes a step
    /// and checks the result invariant and the state invariant. The run stops
    /// at the first check that does not hold, and at the first error.
    ///
    /// On an empty trace nothing is called: the run is complete and the runner
    /// is as it was. A failure names an index of the trace, and at index 0 it
    /// is the state invariant that failed. What is returned, and how the
    /// runner is left, is what `may_run` allows of the four operations, called
    /// in the order of the trace.
    fn test(&mut self, trace: &[Self::ExpectedState]) -> (r: Result<Verdict, Self::Error>)
        ensures
            may_run(
                |pre: Self, x: Self::ExpectedState, post: Self, got: Result<Self::ActualState, Self::Error>|
                    Self::init_ensures(pre, x, post, got),
                |
                    pre: Self,
                    a: Self::ActualState,
                    x: Self::ExpectedState,
                    post: Self,
                    next: Self::ActualState,
                    got: Result<Self::Result, Self::Error>,
                | Self::step_ensures(pre, a, x, post, next, got),
                |me: Self, out: Self::Result, x: Self::ExpectedState, got: Result<bool, Self::Error>|
                    me.result_invariant_ensures(out, x, got),
                |me: Self, a: Self::ActualState, x: Self::ExpectedState, got: Result<bool, Self::Error>|
                    me.state_invariant_ensures(a, x, got),
                *old(self),
                trace@,
                *final(self),
                r,
            ),
            trace@.len() == 0 ==> r == Ok::<Verdict, Self::Error>(Verdict::Completed) && *final(self)
                == *old(self),
            r matches Ok(Verdict::Failed { step, check }) ==> step < trace@.len() && (step == 0
                ==> check == Check::State),
    {
        let (r, log) = self.test_logged(trace);
        proof {
            assert(log@.len() <= usize::MAX) by {
                assert(log@.len() == log.len());
            }
            lemma_failure_is_in_trace(log@);
        }
        r
    }

    /// Replays `trace` as `test` does, and hands out with the result the
    /// checks that were made: entry `i` holds how the result check and the
    /// state check of index `i` came out. The result check of index 0 is not
    /// made and stands as `true`; a state check that was not made because the
    /// result check failed stands as `false`.
    ///
    /// The result is one that `may_run` allows, as for `test`, and the verdict
    /// is the one that the checks say. A completed run has made the checks of
    /// every state; a failed run those up to the index that failed and none
    /// after it; a run that ended in an error had seen no check fail.
    fn test_logged(&mut self, trace: &[Self::ExpectedState]) -> (r: (
        Result<Verdict, Self::Error>,
        Vec<(bool, bool)>,
    ))
        ensures
            may_run(
                |pre: Self, x: Self::ExpectedState, post: Self, got: Result<Self::ActualState, Self::Error>|
                    Self::init_ensures(pre, x, post, got),
                |
                    pre: Self,
                    a: Self::ActualState,
                    x: Self::ExpectedState,
                    post: Self,
                    next: Self::ActualState,
                    got: Result<Self::Result, Self::Error>,
                | Self::step_ensures(pre, a, x, post, next, got),
                |me: Self, out: Self::Result, x: Self::ExpectedState, got: Result<bool, Self::Error>|
                    me.result_invariant_ensures(out, x, got),
                |me: Self, a: Self::ActualState, x: Self::ExpectedState, got: Result<bool, Self::Error>|
                    me.state_invariant_ensures(a, x, got),
                *old(self),
                trace@,
                *final(self),
                r.0,
            ),
            trace@.len() == 0 ==> r.0 == Ok::<Verdict, Self::Error>(Verdict::Completed),
            trace@.len() == 0 ==> *final(self) == *old(self),
            r.1@.len() <= trace@.len(),
            match r.0 {
                Ok(v) => v == verdict_of(r.1@) && match v {
                    Verdict::Completed => r.1@.len() == trace@.len(),
                    Verdict::Failed { step, check } => r.1@.len() == step + 1,
                },
                Err(_) => verdict_of(r.1@) == Verdict::Completed,
            },
    {
        let ghost starting =
            |pre: Self, x: Self::ExpectedState, post: Self, got: Result<Self::ActualState, Self::Error>|
                Self::init_ensures(pre, x, post, got);
        let ghost stepping =
            |
                pre: Self,
                a: Self::ActualState,
                x: Self::ExpectedState,
                post: Self,
                next: Self::ActualState,
                got: Result<Self::Result, Self::Error>,
            | Self::step_ensures(pre, a, x, post, next, got);
        let ghost result_check =
            |me: Self, out: Self::Result, x: Self::ExpectedState, got: Result<bool, Self::Error>|
                me.result_invariant_ensures(out, x, got);
        let ghost state_check =
            |me: Self, a: Self::ActualState, x: Self::ExpectedState, got: Result<bool, Self::Error>|
                me.state_invariant_ensures(a, x, got);
        let len = trace.len();
        let mut log: Vec<(bool, bool)> = Vec::new();
        let mut i: usize = match start(len) {
            Progress::Halt(v) => {
                return (Ok(v), log);
            },
            Progress::CheckState(i) => i,
            Progress::Step(i) => i,
        };
        let made = self.init(&trace[0]);
        let mut actual = match made {
            Ok(a) => a,
            Err(e) => {
                assert(starting(*old(self), trace@[0], *self, made));
                return (Err(e), log);
            },
        };
        assert forall|end: Self, r: Result<Verdict, Self::Error>| #[trigger]
            may_go_on(stepping, result_check, state_check, *self, actual, trace@, 0, end, r) implies may_run(starting, stepping, result_check, state_check, *old(self),
            trace@,
            end,
            r,
        ) by {
            assert(starting(*old(self), trace@[0], *self, made));
        }
        while i < len
            invariant
                len == trace@.len(),
                i <= len,
                starting == |
                    pre: Self,
                    x: Self::ExpectedState,
                    post: Self,
                    got: Result<Self::ActualState, Self::Error>,
                | Self::init_ensures(pre, x, post, got),
                stepping == |
                    pre: Self,
                    a: Self::ActualState,
                    x: Self::ExpectedState,
                    post: Self,
                    next: Self::ActualState,
                    got: Result<Self::Result, Self::Error>,
                | Self::step_ensures(pre, a, x, post, next, got),
                result_check == |
                    me: Self,
                    out: Self::Result,
                    x: Self::ExpectedState,
                    got: Result<bool, Self::Error>,
                | me.result_invariant_ensures(out, x, got),
                state_check == |
                    me: Self,
                    a: Self::ActualState,
                    x: Self::ExpectedState,
                    got: Result<bool, Self::Error>,
                | me.state_invariant_ensures(a, x, got),
                log@.len() == i,
                verdict_of(log@) == Verdict::Completed,
                forall|end: Self, r: Result<Verdict, Self::Error>| #[trigger]
                    may_go_on(stepping, result_check, state_check, *self, actual, trace@, i as int, end, r) ==> may_run(starting, stepping, result_check, state_check, *old(self),
                        trace@,
                        end,
                        r,
                    ),
            decreases len - i,
        {
            let ghost before = log@;
            let ghost at_head = *self;
            let ghost actual_at_head = actual;
            let mut result_holds = true;
            if i > 0 {
                let stepped = self.step(&mut actual, &trace[i]);
                let result = match stepped {
                    Ok(x) => x,
                    Err(e) => {
                        assert(may_run_from(stepping, result_check, state_check, at_head,
                            actual_at_head,
                            trace@,
                            i as int,
                            *self,
                            Err::<Verdict, Self::Error>(e),
                        )) by {
                            assert(stepping(
                                at_head,
                                actual_at_head,
                                trace@[i as int],
                                *self,
                                actual,
                                stepped,
                            ));
                        }
                        assert(may_go_on(stepping, result_check, state_check, at_head,
                            actual_at_head,
                            trace@,
                            i as int,
                            *self,
                            Err::<Verdict, Self::Error>(e),
                        ));
                        return (Err(e), log);
                    },
                };
                let checked = self.result_invariant(&result, &trace[i]);
                proof {
                    assert forall|end: Self, r: Result<Verdict, Self::Error>| #[trigger]
                        may_check_result(stepping, result_check, state_check, *self,
                            actual,
                            result,
                            trace@,
                            i as int,
                            end,
                            r,
                        ) implies may_run(starting, stepping, result_check, state_check, *old(self), trace@, end, r) by {
                        assert(stepping(
                            at_head,
                            actual_at_head,
                            trace@[i as int],
                            *self,
                            actual,
                            stepped,
                        ));
                        assert(may_run_from(stepping, result_check, state_check, at_head, actual_at_head, trace@, i as int, end, r));
                        assert(may_go_on(stepping, result_check, state_check, at_head, actual_at_head, trace@, i as int, end, r));
                    }
                    assert(result_check(*self, result, trace@[i as int], checked));
                }
                result_holds = match checked {
                    Ok(b) => b,
                    Err(e) => {
                        assert(may_check_result(stepping, result_check, state_check, *self,
                            actual,
                            result,
                            trace@,
                            i as int,
                            *self,
                            Err::<Verdict, Self::Error>(e),
                        ));
                        return (Err(e), log);
                    },
                };
                match settle(len, i, Check::Result, result_holds) {
                    Progress::Halt(v) => {
                        log.push((false, false));
                        assert(log@.drop_last() =~= before);
                        assert(may_check_result(stepping, result_check, state_check, *self,
                            actual,
                            result,
                            trace@,
                            i as int,
                            *self,
                            Ok::<Verdict, Self::Error>(v),
                        ));
                        return (Ok(v), log);
                    },
                    _ => {},
                }
                assert forall|end: Self, r: Result<Verdict, Self::Error>| #[trigger]
                    may_check_state(stepping, result_check, state_check, *self, actual, trace@, i as int, end, r) implies may_run(starting, stepping, result_check, state_check, *old(self),
                    trace@,
                    end,
                    r,
                ) by {
                    assert(may_check_result(stepping, result_check, state_check, *self, actual, result, trace@, i as int, end, r));
                }
            } else {
                assert forall|end: Self, r: Result<Verdict, Self::Error>| #[trigger]
                    may_check_state(stepping, result_check, state_check, *self, actual, trace@, i as int, end, r) implies may_run(starting, stepping, result_check, state_check, *old(self),
                    trace@,
                    end,
                    r,
                ) by {
                    assert(may_go_on(stepping, result_check, state_check, *self, actual, trace@, i as int, end, r));
                }
            }
            let checked = self.state_invariant(&actual, &trace[i]);
            assert(state_check(*self, actual, trace@[i as int], checked));
            let state_holds = match checked {
                Ok(b) => b,
                Err(e) => {
                    assert(may_check_state(stepping, result_check, state_check, *self,
                        actual,
                        trace@,
                        i as int,
                        *self,
                        Err::<Verdict, Self::Error>(e),
                    ));
                    return (Err(e), log);
                },
            };
            log.push((result_holds, state_holds));
            assert(log@.drop_last() =~= before);
            match settle(len, i, Check::State, state_holds) {
                Progress::Halt(v) => {
                    assert(may_check_state(stepping, result_check, state_check, *self,
                        actual,
                        trace@,
                        i as int,
                        *self,
                        Ok::<Verdict, Self::Error>(v),
                    )) by {
                        if state_holds {
                            assert(may_run_from(stepping, result_check, state_check, *self,
                                actual,
                                trace@,
                                i + 1,
                                *self,
                                Ok::<Verdict, Self::Error>(v),
                            ));
                        }
                    }
                    return (Ok(v), log);
                },
                Progress::Step(j) => {
                    assert forall|end: Self, r: Result<Verdict, Self::Error>| #[trigger]
                        may_go_on(stepping, result_check, state_check, *self, actual, trace@, j as int, end, r) implies may_run(starting, stepping, result_check, state_check, *old(self),
                        trace@,
                        end,
                        r,
                    ) by {
                        assert(may_run_from(stepping, result_check, state_check, *self, actual, trace@, i + 1, end, r));
                        assert(may_check_state(stepping, result_check, state_check, *self, actual, trace@, i as int, end, r));
                    }
                    i = j;
                },
                Progress::CheckState(j) => {
                    i = j;
                },
            }
        }
        assert(may_go_on(stepping, result_check, state_check, *self,
            actual,
            trace@,
            i as int,
            *self,
            Ok::<Verdict, Self::Error>(Verdict::Completed),
        ));
        (Ok(Verdict::Completed), log)
    }
}

} // verus!
