use crate::ast::{Call, Command, Node, AST};
use crate::machine::{begins_on, fits, pending, resume_run, resumes_on, shift, Place, Progress};
use crate::semantics::{lemma_run_balanced, run, Outcome, Run};
use crate::status::{ExecError, Success};
use vstd::prelude::*;

verus! {

/// An evaluation that waits for one program to be run.
pub struct Suspended<'a, S: Success> {
    root: &'a AST,
    place: Place<S>,
    command: &'a Command,
    replies: Ghost<Seq<Result<S, ExecError>>>,
    started: Ghost<Seq<Call>>,
}

/// An evaluation, as far as it can go without running a program.
pub enum Execution<'a, S: Success> {
    /// A program is to be run, and its reply handed back.
    Pending(Suspended<'a, S>),
    /// The evaluation is over: the last status observed, if any, or the error that ended it.
    Done(Result<Option<S>, ExecError>),
}

/// From `place`, with `replies` taken and `started` begun before, `root` goes on as the
/// evaluation from its start does on `replies` followed by `more`.
pub open spec fn continues_on<S: Success>(
    root: Node,
    replies: Seq<Result<S, ExecError>>,
    started: Seq<Call>,
    place: Place<S>,
    more: Seq<Result<S, ExecError>>,
) -> bool {
    let rest = resume_run(root, place, more);
    run(root, replies + more) == Run {
        calls: started + rest.calls,
        used: replies.len() + rest.used,
        outcome: rest.outcome,
    }
}

/// With no reply at hand, a suspended evaluation waits for the program running at its place.
proof fn lemma_resume_waits<S: Success>(node: Node, place: Place<S>)
    requires
        fits(place, node),
    ensures
        resume_run(node, place, Seq::<Result<S, ExecError>>::empty()) == (Run {
            calls: seq![pending(node, place)],
            used: 0,
            outcome: Outcome::<S>::Waiting,
        }),
    decreases place,
{
    let none = Seq::<Result<S, ExecError>>::empty();
    match place {
        Place::Call => {},
        Place::Predicate => {},
        Place::Then(inner) => {
            lemma_resume_waits(*node->If_1, *inner);
        },
        Place::Otherwise(inner) => {
            lemma_resume_waits(*node->If_2->0, *inner);
        },
        Place::Statement { index, last, inner } => {
            lemma_resume_waits(node->Block_0[index as int], *inner);
        },
        Place::Check { last } => {},
        Place::Body { last, inner } => {
            lemma_resume_waits(*node->While_1, *inner);
        },
    }
}

impl<'a, S: Success> Suspended<'a, S> {
    #[verifier::type_invariant]
    spec fn wf(&self) -> bool {
        &&& fits(self.place, self.root@)
        &&& self.command@ == pending(self.root@, self.place)
        &&& forall|more: Seq<Result<S, ExecError>>| #[trigger]
            continues_on(self.root@, self.replies@, self.started@, self.place, more)
    }

    /// The statement under evaluation.
    pub closed spec fn root(&self) -> Node {
        self.root@
    }

    /// The replies handed in so far, in order.
    pub closed spec fn replies(&self) -> Seq<Result<S, ExecError>> {
        self.replies@
    }

    /// The program to run.
    pub closed spec fn program(&self) -> Call {
        self.command@
    }

    /// The program to run: the one that the statement starts next, given the replies so far.
    pub fn command(&self) -> (command: &'a Command)
        ensures
            command@ == self.program(),
            self.program() == run(self.root(), self.replies()).calls.last(),
            run(self.root(), self.replies()).outcome is Waiting,
            run(self.root(), self.replies()).used == self.replies().len(),
    {
        proof {
            use_type_invariant(self);
            let none = Seq::<Result<S, ExecError>>::empty();
            assert(continues_on(self.root@, self.replies@, self.started@, self.place, none));
            assert(self.replies@ + none =~= self.replies@);
            lemma_resume_waits(self.root@, self.place);
        }
        self.command
    }

    /// Takes the reply to the program that was to be run, and evaluates on: to the next
    /// program to run, or to the end.
    pub fn resume(self, reply: Result<S, ExecError>) -> (next: Execution<'a, S>)
        ensures
            next.agrees(self.root(), self.replies().push(reply)),
    {
        proof {
            use_type_invariant(&self);
        }
        let ghost root = self.root@;
        let ghost before = self.place;
        let ghost taken = self.replies@;
        let ghost begun = self.started@;
        let ghost fed = self.replies@.push(reply);
        let ghost calls = self.started@.push(self.command@);
        let ghost none = Seq::<Result<S, ExecError>>::empty();
        let tree = self.root;
        let progress = tree.resume(self.place, reply);
        proof {
            let one = seq![reply];
            assert(continues_on(root, taken, begun, before, one));
            assert(resumes_on(root, before, reply, progress, one));
            assert(one.skip(1) =~= none);
            assert(taken + one =~= fed);
            let rest = progress.rest(root, none);
            if progress is Suspended {
                lemma_resume_waits(root, progress->Suspended_0);
            }
            assert(rest.used == 0);
            assert(run(root, fed).outcome == rest.outcome);
            assert(run(root, fed).calls =~= calls + rest.calls);
            assert(run(root, fed).used == fed.len());
        }
        match progress {
            Progress::Suspended(place, command) => {
                proof {
                    lemma_resume_waits(root, place);
                    assert forall|more: Seq<Result<S, ExecError>>| #[trigger]
                        continues_on(root, fed, calls, place, more) by {
                        let all = seq![reply] + more;
                        assert(continues_on(root, taken, begun, before, all));
                        assert(resumes_on(root, before, reply, progress, all));
                        assert(all.skip(1) =~= more);
                        assert(taken + all =~= fed + more);
                        let rest = resume_run(root, place, more);
                        assert(begun + shift(pending(root, before), rest).calls =~= calls
                            + rest.calls);
                    }
                }
                Execution::Pending(
                    Suspended {
                        root: tree,
                        place,
                        command,
                        replies: Ghost(fed),
                        started: Ghost(calls),
                    },
                )
            },
            Progress::Finished(value) => Execution::Done(Ok(value)),
            Progress::Failed(e) => Execution::Done(Err(e)),
        }
    }
}

impl<'a, S: Success> Execution<'a, S> {
    /// This is where the evaluation of `root` stands once it has taken `replies`, each of
    /// them in answer to a program that it had started: waiting for the program that `root`
    /// starts next, or done with what `root` ends in.
    pub open spec fn agrees(self, root: Node, replies: Seq<Result<S, ExecError>>) -> bool {
        &&& run(root, replies).used == replies.len()
        &&& match run(root, replies).outcome {
            Outcome::Waiting => self matches Execution::Pending(s) && s.root() == root
                && s.replies() == replies && s.program() == run(root, replies).calls.last(),
            Outcome::Finished(value) => self == Execution::<S>::Done(Ok(value)),
            Outcome::Aborted(e) => self == Execution::<S>::Done(Err(e)),
        }
    }
}

impl AST {
    /// Starts evaluating the statement, up to the first program it runs or, if it runs none,
    /// to its end. Run that program, hand its reply to `resume`, and so on until `Done`.
    pub fn execute<'a, S: Success>(&'a self) -> (start: Execution<'a, S>)
        ensures
            start.agrees(self@, Seq::empty()),
    {
        let ghost none = Seq::<Result<S, ExecError>>::empty();
        let ghost no_calls = Seq::<Call>::empty();
        let progress = self.begin();
        proof {
            assert(begins_on(self@, progress, none));
            lemma_run_balanced(self@, none);
        }
        match progress {
            Progress::Suspended(place, command) => {
                proof {
                    lemma_resume_waits(self@, place);
                    assert forall|more: Seq<Result<S, ExecError>>| #[trigger]
                        continues_on(self@, none, no_calls, place, more) by {
                        assert(begins_on(self@, progress, more));
                        assert(none + more =~= more);
                        let rest = resume_run(self@, place, more);
                        assert(no_calls + rest.calls =~= rest.calls);
                    }
                }
                Execution::Pending(
                    Suspended {
                        root: self,
                        place,
                        command,
                        replies: Ghost(none),
                        started: Ghost(no_calls),
                    },
                )
            },
            Progress::Finished(value) => Execution::Done(Ok(value)),
            Progress::Failed(e) => Execution::Done(Err(e)),
        }
    }
}

/// Whatever runs programs: it starts one with its arguments, waits for it to end, and
/// reports how it ended, or that it could not be run.
pub trait Executor {
    /// What a program that ran reports.
    type ExitStatus: Success;

    /// What this executor says of a reply: that, asked as `self` to run `call`, it may
    /// answer `reply` and go on as `after`. An executor that says nothing of its replies
    /// allows every one.
    open spec fn answers(
        &self,
        after: &Self,
        call: Call,
        reply: Result<Self::ExitStatus, ExecError>,
    ) -> bool {
        true
    }

    /// Runs `command` with `args` to its end, and answers as `answers` allows.
    fn execute(&mut self, command: &str, args: &[&str]) -> (reply: Result<
        Self::ExitStatus,
        ExecError,
    >)
        ensures
            old(self).answers(final(self), Call { name: command@, args: words(args@) }, reply),
    ;
}

/// The texts of a list of string slices.
pub open spec fn words(args: Seq<&str>) -> Seq<Seq<char>> {
    Seq::new(args.len(), |i: int| args[i]@)
}

impl Command {
    /// The arguments as they are handed to an executor: the same texts, in the same order.
    pub fn arguments(&self) -> (args: Vec<&str>)
        ensures
            args@.len() == self.args@.len(),
            forall|k: int| 0 <= k < args@.len() ==> (#[trigger] args@[k])@ == self.args@[k]@,
    {
        let mut args: Vec<&str> = Vec::new();
        let mut i: usize = 0;
        while i < self.args.len()
            invariant
                i <= self.args@.len(),
                args@.len() == i,
                forall|k: int| 0 <= k < i ==> (#[trigger] args@[k])@ == self.args@[k]@,
            decreases self.args@.len() - i,
        {
            args.push(self.args[i].as_str());
            i += 1;
        }
        args
    }

    /// Hands the command to `executor`: its name, and its arguments in their order. The
    /// reply is the executor's answer to this command, as it stands.
    pub fn execute<E: Executor>(&self, executor: &mut E) -> (reply: Result<
        E::ExitStatus,
        ExecError,
    >)
        ensures
            old(executor).answers(final(executor), self@, reply),
    {
        let args = self.arguments();
        proof {
            assert(words(args@) =~= self@.args);
        }
        executor.execute(self.command.as_str(), args.as_slice())
    }
}

/// The executor was asked to run the program that the evaluation of `root` was waiting for
/// after the replies `before` and the first `i` of `given`, as `states[i]`; it answered with
/// `given[i]` and went on as `states[i + 1]`.
pub open spec fn asked_at<E: Executor>(
    root: Node,
    before: Seq<Result<E::ExitStatus, ExecError>>,
    given: Seq<Result<E::ExitStatus, ExecError>>,
    states: Seq<E>,
    i: int,
) -> bool {
    states[i].answers(
        &states[i + 1],
        run(root, before + given.take(i)).calls.last(),
        given[i],
    )
}

/// The replies `given` are the executor's, one after the other: each is its answer to the
/// program that the evaluation of `root` was waiting for once the replies before it were
/// taken. `states` are the executor before the first of these programs, between them, and
/// after the last.
pub open spec fn asked<E: Executor>(
    root: Node,
    before: Seq<Result<E::ExitStatus, ExecError>>,
    given: Seq<Result<E::ExitStatus, ExecError>>,
    states: Seq<E>,
) -> bool {
    &&& states.len() == given.len() + 1
    &&& forall|i: int| 0 <= i < given.len() ==> #[trigger] asked_at(root, before, given, states, i)
}

impl<'a, S: Success> Execution<'a, S> {
    /// This is where the evaluation `start` stands after an executor that was `before` ran
    /// at most `limit` more programs and is now `after`. The executor was asked for each
    /// program that the evaluation waited for, in turn, and for no other; the evaluation
    /// took each reply, and is done, or is waiting after exactly `limit` of them. Where
    /// `start` was done already, nothing was run.
    pub open spec fn advanced<E: Executor<ExitStatus = S>>(
        self,
        start: Execution<'a, S>,
        limit: nat,
        before: E,
        after: E,
    ) -> bool {
        match start {
            Execution::Done(_) => self == start && after == before,
            Execution::Pending(from) => exists|given: Seq<Result<S, ExecError>>, states: Seq<E>|
                #[trigger] asked(from.root(), from.replies(), given, states) && given.len()
                    <= limit && states[0] == before && states.last() == after && self.agrees(
                    from.root(),
                    from.replies() + given,
                ) && (self is Pending ==> given.len() == limit),
        }
    }

    /// Runs the programs that the evaluation asks for with `executor`, handing each reply
    /// back to it, until the evaluation is done or `limit` programs were run. Whatever the
    /// executor replies, the evaluation then stands where those replies take it.
    pub fn run<E: Executor<ExitStatus = S>>(self, executor: &mut E, limit: u64) -> (end:
        Execution<'a, S>)
        ensures
            end.advanced(self, limit as nat, *old(executor), *final(executor)),
    {
        let ghost start = self;
        let ghost mut given = Seq::<Result<S, ExecError>>::empty();
        let ghost mut states = seq![*executor];
        let mut left: u64 = limit;
        let mut state = self;
        match &state {
            Execution::Pending(from) => {
                let _ = from.command();
                assert(from.replies() + given =~= from.replies());
            },
            Execution::Done(_) => {},
        }
        while left > 0
            invariant
                start == self,
                given.len() + left == limit,
                states.len() == given.len() + 1,
                states[0] == *old(executor),
                states.last() == *executor,
                match start {
                    Execution::Done(_) => state == start && given.len() == 0,
                    Execution::Pending(from) => state.agrees(
                        from.root(),
                        from.replies() + given,
                    ) && asked(from.root(), from.replies(), given, states),
                },
            decreases left,
        {
            match state {
                Execution::Done(result) => {
                    let end = Execution::Done(result);
                    proof {
                        if start is Pending {
                            let from = start->Pending_0;
                            assert(end.agrees(from.root(), from.replies() + given));
                            assert(asked(from.root(), from.replies(), given, states));
                        }
                    }
                    return end;
                },
                Execution::Pending(suspended) => {
                    let ghost from = start->Pending_0;
                    let ghost taken = from.replies() + given;
                    let ghost earlier = given;
                    let ghost passed = states;
                    let command = suspended.command();
                    let reply = command.execute(executor);
                    proof {
                        assert(taken.push(reply) =~= from.replies() + given.push(reply));
                        given = given.push(reply);
                        states = states.push(*executor);
                        assert forall|i: int| 0 <= i < given.len() implies #[trigger] asked_at(
                            from.root(),
                            from.replies(),
                            given,
                            states,
                            i,
                        ) by {
                            assert(given.take(i) =~= earlier.take(i));
                            if i < earlier.len() {
                                assert(asked_at(from.root(), from.replies(), earlier, passed, i));
                            } else {
                                assert(earlier.take(i) =~= earlier);
                            }
                        }
                    }
                    state = suspended.resume(reply);
                    left = left - 1;
                },
            }
        }
        proof {
            if start is Pending {
                let from = start->Pending_0;
                assert(state.agrees(from.root(), from.replies() + given));
                assert(asked(from.root(), from.replies(), given, states));
            }
        }
        state
    }
}

impl AST {
    /// Evaluates the statement with `executor`, until it is done or `limit` programs were
    /// run. The executor is asked for each program that the statement starts, in turn, and
    /// for no other.
    pub fn execute_with<'a, E: Executor>(&'a self, executor: &mut E, limit: u64) -> (end:
        Execution<'a, E::ExitStatus>)
        ensures
            exists|given: Seq<Result<E::ExitStatus, ExecError>>, states: Seq<E>|
                #[trigger] asked(self@, Seq::empty(), given, states) && given.len() <= limit
                    && states[0] == *old(executor) && states.last() == *final(executor)
                    && end.agrees(self@, given) && (end is Pending ==> given.len() == limit),
    {
        let start = self.execute::<E::ExitStatus>();
        let ghost first = start;
        let ghost before = *executor;
        let ghost none = Seq::<Result<E::ExitStatus, ExecError>>::empty();
        let end = start.run(executor, limit);
        proof {
            match first {
                Execution::Done(_) => {
                    let states = seq![before];
                    assert(end.agrees(self@, none));
                    assert(asked(self@, none, none, states));
                },
                Execution::Pending(from) => {
                    let (given, states) = choose|
                        given: Seq<Result<E::ExitStatus, ExecError>>,
                        states: Seq<E>,
                    |
                        #[trigger] asked(from.root(), from.replies(), given, states)
                            && given.len() <= limit && states[0] == before && states.last()
                            == *executor && end.agrees(from.root(), from.replies() + given)
                            && (end is Pending ==> given.len() == limit);
                    assert(from.replies() + given =~= given);
                    assert(from.replies() =~= none);
                },
            }
        }
        end
    }
}

} // verus!
