use crate::ast::{Call, Node};
use crate::status::{ExecError, Success};
use vstd::prelude::*;

verus! {

/// How an evaluation stands once the replies at hand are used up.
pub enum Outcome<S> {
    /// It ended, with the last status observed, if there was one.
    Finished(Option<S>),
    /// A program could not be run; nothing ran after it.
    Aborted(ExecError),
    /// The last program in `calls` was started and its reply is not at hand.
    Waiting,
}

/// An evaluation against a list of replies: the programs started, in order, how many replies
/// were used, and how it stands.
pub struct Run<S> {
    pub calls: Seq<Call>,
    pub used: nat,
    pub outcome: Outcome<S>,
}

/// The status to remember after a statement: its own if it has one, else the one before.
pub open spec fn latest<S>(fresh: Option<S>, last: Option<S>) -> Option<S> {
    if fresh is Some {
        fresh
    } else {
        last
    }
}

/// No status was seen yet, or the last one seen was a success.
pub open spec fn passing<S: Success>(last: Option<S>) -> bool {
    last matches Some(s) ==> s.succeeded()
}

/// The replies left once `n` of them are used.
pub open spec fn after<S>(replies: Seq<Result<S, ExecError>>, n: nat) -> Seq<Result<S, ExecError>> {
    if n <= replies.len() {
        replies.skip(n as int)
    } else {
        Seq::empty()
    }
}

/// `first`, then `rest` on the replies that `first` left.
pub open spec fn chain<S>(first: Run<S>, rest: Run<S>) -> Run<S> {
    Run { calls: first.calls + rest.calls, used: first.used + rest.used, outcome: rest.outcome }
}

/// An evaluation that ended with `value` and started nothing.
pub open spec fn done<S>(value: Option<S>) -> Run<S> {
    Run { calls: Seq::empty(), used: 0, outcome: Outcome::Finished(value) }
}

/// `run` with its outcome replaced by `Finished(value)`.
pub open spec fn ended<S>(run: Run<S>, value: Option<S>) -> Run<S> {
    Run { calls: run.calls, used: run.used, outcome: Outcome::Finished(value) }
}

/// Starting one program: it takes the first reply, if there is one.
pub open spec fn ask<S>(call: Call, replies: Seq<Result<S, ExecError>>) -> Run<S> {
    Run {
        calls: seq![call],
        used: if replies.len() == 0 { 0 } else { 1 },
        outcome: if replies.len() == 0 {
            Outcome::Waiting
        } else {
            match replies[0] {
                Ok(status) => Outcome::Finished(Some(status)),
                Err(e) => Outcome::Aborted(e),
            }
        },
    }
}

/// Evaluating `node` when the programs it starts are answered by `replies`, in order.
pub open spec fn run<S: Success>(node: Node, replies: Seq<Result<S, ExecError>>) -> Run<S>
    decreases replies.len(), node, 0nat,
{
    match node {
        Node::Comment(_) => done(None),
        Node::Command(call) => ask(call, replies),
        Node::If(predicate, then, otherwise) => {
            let check = ask(predicate, replies);
            match check.outcome {
                Outcome::Finished(Some(status)) => if status.succeeded() {
                    chain(check, run(*then, after(replies, 1)))
                } else {
                    match otherwise {
                        Some(other) => chain(check, run(*other, after(replies, 1))),
                        None => ended(check, None),
                    }
                },
                _ => check,
            }
        },
        Node::Block(statements) => run_block(statements, 0, None, replies),
        Node::While(predicate, body) => run_while(predicate, *body, None, replies),
    }
}

/// Evaluating the statements of a block from index `from` on, `last` being the status
/// remembered so far.
pub open spec fn run_block<S: Success>(
    statements: Seq<Node>,
    from: nat,
    last: Option<S>,
    replies: Seq<Result<S, ExecError>>,
) -> Run<S>
    decreases replies.len(), statements, 2 * (statements.len() - from) + 2,
{
    if from >= statements.len() {
        done(last)
    } else {
        block_then(statements, from, last, run(statements[from as int], replies), replies)
    }
}

/// What a block does once its statement at index `at` has run as `ran`: it stops where the
/// statement stopped or left a failure, and goes on with the next statement otherwise.
pub open spec fn block_then<S: Success>(
    statements: Seq<Node>,
    at: nat,
    last: Option<S>,
    ran: Run<S>,
    replies: Seq<Result<S, ExecError>>,
) -> Run<S>
    decreases replies.len(), statements, 2 * (statements.len() - at) + 1,
{
    match ran.outcome {
        Outcome::Finished(value) => {
            let now = latest(value, last);
            if passing(now) && at < statements.len() {
                chain(ran, run_block(statements, at + 1, now, after(replies, ran.used)))
            } else {
                ended(ran, now)
            }
        },
        _ => ran,
    }
}

/// Evaluating a loop from a check of its predicate on, `last` being the status remembered
/// from the rounds before.
pub open spec fn run_while<S: Success>(
    predicate: Call,
    body: Node,
    last: Option<S>,
    replies: Seq<Result<S, ExecError>>,
) -> Run<S>
    decreases replies.len(), body, 2nat,
{
    let check = ask(predicate, replies);
    match check.outcome {
        Outcome::Finished(Some(status)) => if status.succeeded() {
            chain(
                check,
                while_then(predicate, body, last, run(body, after(replies, 1)), after(replies, 1)),
            )
        } else {
            ended(check, last)
        },
        _ => check,
    }
}

/// What a loop does once its body has run as `ran`: it stops where the body stopped or left
/// a failure, and checks its predicate again otherwise.
pub open spec fn while_then<S: Success>(
    predicate: Call,
    body: Node,
    last: Option<S>,
    ran: Run<S>,
    replies: Seq<Result<S, ExecError>>,
) -> Run<S>
    decreases replies.len(), body, 3nat,
{
    match ran.outcome {
        Outcome::Finished(value) => {
            let now = latest(value, last);
            if passing(now) {
                chain(ran, run_while(predicate, body, now, after(replies, ran.used)))
            } else {
                ended(ran, now)
            }
        },
        _ => ran,
    }
}

/// Each reply that was used answers one program that was started, no more replies are used
/// than there are, and an evaluation waits only once all of them are used.
pub open spec fn balanced<S>(run: Run<S>, replies: Seq<Result<S, ExecError>>) -> bool {
    &&& run.used <= replies.len()
    &&& run.calls.len() == run.used + if run.outcome is Waiting {
        1nat
    } else {
        0nat
    }
    &&& run.outcome is Waiting ==> run.used == replies.len()
}

/// One evaluation after another is balanced where each of the two is.
proof fn lemma_chain_balanced<S>(
    first: Run<S>,
    rest: Run<S>,
    replies: Seq<Result<S, ExecError>>,
)
    requires
        balanced(first, replies),
        !(first.outcome is Waiting),
        balanced(rest, after(replies, first.used)),
    ensures
        balanced(chain(first, rest), replies),
{
}

/// Every evaluation is balanced: it starts one program for each reply it uses, and one more
/// where it waits.
pub proof fn lemma_run_balanced<S: Success>(node: Node, replies: Seq<Result<S, ExecError>>)
    ensures
        balanced(run(node, replies), replies),
    decreases replies.len(), node, 0nat,
{
    match node {
        Node::Comment(_) => {},
        Node::Command(call) => {},
        Node::If(predicate, then, otherwise) => {
            let check = ask(predicate, replies);
            match check.outcome {
                Outcome::Finished(Some(status)) => {
                    if status.succeeded() {
                        lemma_run_balanced(*then, after(replies, 1));
                        lemma_chain_balanced(check, run(*then, after(replies, 1)), replies);
                    } else {
                        match otherwise {
                            Some(other) => {
                                lemma_run_balanced(*other, after(replies, 1));
                                lemma_chain_balanced(
                                    check,
                                    run(*other, after(replies, 1)),
                                    replies,
                                );
                            },
                            None => {},
                        }
                    }
                },
                _ => {},
            }
        },
        Node::Block(statements) => {
            lemma_block_balanced(statements, 0, None, replies);
        },
        Node::While(predicate, body) => {
            lemma_while_balanced(predicate, *body, None, replies);
        },
    }
}

/// The statements of a block from any index on are evaluated in balance.
proof fn lemma_block_balanced<S: Success>(
    statements: Seq<Node>,
    from: nat,
    last: Option<S>,
    replies: Seq<Result<S, ExecError>>,
)
    ensures
        balanced(run_block(statements, from, last, replies), replies),
    decreases replies.len(), statements, 2 * (statements.len() - from) + 2,
{
    if from < statements.len() {
        let ran = run(statements[from as int], replies);
        lemma_run_balanced(statements[from as int], replies);
        match ran.outcome {
            Outcome::Finished(value) => {
                let now = latest(value, last);
                if passing(now) {
                    lemma_block_balanced(statements, from + 1, now, after(replies, ran.used));
                    lemma_chain_balanced(
                        ran,
                        run_block(statements, from + 1, now, after(replies, ran.used)),
                        replies,
                    );
                }
            },
            _ => {},
        }
    }
}

/// A loop is evaluated in balance.
proof fn lemma_while_balanced<S: Success>(
    predicate: Call,
    body: Node,
    last: Option<S>,
    replies: Seq<Result<S, ExecError>>,
)
    ensures
        balanced(run_while(predicate, body, last, replies), replies),
    decreases replies.len(), body, 2nat,
{
    let check = ask(predicate, replies);
    match check.outcome {
        Outcome::Finished(Some(status)) => {
            if status.succeeded() {
                let left = after(replies, 1);
                let ran = run(body, left);
                lemma_run_balanced(body, left);
                let then = while_then(predicate, body, last, ran, left);
                match ran.outcome {
                    Outcome::Finished(value) => {
                        let now = latest(value, last);
                        if passing(now) {
                            lemma_while_balanced(predicate, body, now, after(left, ran.used));
                            lemma_chain_balanced(
                                ran,
                                run_while(predicate, body, now, after(left, ran.used)),
                                left,
                            );
                        }
                    },
                    _ => {},
                }
                assert(balanced(then, left));
                lemma_chain_balanced(check, then, replies);
            }
        },
        _ => {},
    }
}

/// A block stops at the first statement that leaves a failure: nothing after it runs, and
/// that failure is the block's status.
pub proof fn lemma_block_stops_on_failure<S: Success>(
    statements: Seq<Node>,
    at: nat,
    last: Option<S>,
    replies: Seq<Result<S, ExecError>>,
)
    requires
        at < statements.len(),
        run(statements[at as int], replies).outcome matches Outcome::Finished(Some(status))
            && !status.succeeded(),
    ensures
        run_block(statements, at, last, replies).calls == run(statements[at as int], replies).calls,
        run_block(statements, at, last, replies).used == run(statements[at as int], replies).used,
        run_block(statements, at, last, replies).outcome == run(
            statements[at as int],
            replies,
        ).outcome,
{
}

/// Of two commands in a block, the second never runs when the first fails, and the first's
/// status is the block's.
pub proof fn lemma_failed_command_ends_block<S: Success>(
    first: Call,
    second: Call,
    replies: Seq<Result<S, ExecError>>,
)
    requires
        replies.len() > 0,
        replies[0] matches Ok(status) && !status.succeeded(),
    ensures
        run(Node::Block(seq![Node::Command(first), Node::Command(second)]), replies) == (Run {
            calls: seq![first],
            used: 1,
            outcome: Outcome::Finished(Some(replies[0]->Ok_0)),
        }),
{
    let statements = seq![Node::Command(first), Node::Command(second)];
    assert(statements[0] == Node::Command(first));
    lemma_block_stops_on_failure(statements, 0, None, replies);
    let whole = run(Node::Block(statements), replies);
    assert(whole == run_block(statements, 0, None, replies));
}

/// A conditional runs its predicate once and then exactly one thing: the first branch when
/// the predicate succeeded, the second when it did not, and nothing where there is no second.
/// The predicate's own status is not the result.
pub proof fn lemma_conditional_takes_one_branch<S: Success>(
    predicate: Call,
    then: Node,
    otherwise: Option<Box<Node>>,
    replies: Seq<Result<S, ExecError>>,
)
    requires
        replies.len() > 0,
        replies[0] is Ok,
    ensures
        ({
            let whole = run(Node::If(predicate, Box::new(then), otherwise), replies);
            let taken = if replies[0]->Ok_0.succeeded() {
                run(then, replies.skip(1))
            } else {
                match otherwise {
                    Some(other) => run(*other, replies.skip(1)),
                    None => done(None),
                }
            };
            &&& whole.calls == seq![predicate] + taken.calls
            &&& whole.used == 1 + taken.used
            &&& whole.outcome == taken.outcome
        }),
{
    let whole = run(Node::If(predicate, Box::new(then), otherwise), replies);
    let taken = if replies[0]->Ok_0.succeeded() {
        run(then, replies.skip(1))
    } else {
        match otherwise {
            Some(other) => run(*other, replies.skip(1)),
            None => done(None),
        }
    };
    assert(whole.calls =~= seq![predicate] + taken.calls);
}

/// A conditional whose predicate could not be run runs neither branch.
pub proof fn lemma_conditional_aborts<S: Success>(
    predicate: Call,
    then: Node,
    otherwise: Option<Box<Node>>,
    replies: Seq<Result<S, ExecError>>,
)
    requires
        replies.len() > 0,
        replies[0] is Err,
    ensures
        run(Node::If(predicate, Box::new(then), otherwise), replies) == (Run {
            calls: seq![predicate],
            used: 1,
            outcome: Outcome::<S>::Aborted(replies[0]->Err_0),
        }),
{
}

/// A loop whose predicate fails ends at once, with the status remembered from the rounds
/// before: none, if there was no round.
pub proof fn lemma_while_ends<S: Success>(
    predicate: Call,
    body: Node,
    last: Option<S>,
    replies: Seq<Result<S, ExecError>>,
)
    requires
        replies.len() > 0,
        replies[0] matches Ok(status) && !status.succeeded(),
    ensures
        run_while(predicate, body, last, replies) == (Run {
            calls: seq![predicate],
            used: 1,
            outcome: Outcome::Finished(last),
        }),
{
}

/// One round of a loop: when the predicate succeeds and the body ends without a failure, the
/// loop is the predicate, the body, and the loop again on the replies that are left.
pub proof fn lemma_while_round<S: Success>(
    predicate: Call,
    body: Node,
    last: Option<S>,
    replies: Seq<Result<S, ExecError>>,
)
    requires
        replies.len() > 0,
        replies[0] matches Ok(status) && status.succeeded(),
        run(body, replies.skip(1)).outcome matches Outcome::Finished(value) && passing(
            latest(value, last),
        ),
    ensures
        ({
            let round = run(body, replies.skip(1));
            let next = run_while(
                predicate,
                body,
                latest(round.outcome->Finished_0, last),
                after(replies.skip(1), round.used),
            );
            let whole = run_while(predicate, body, last, replies);
            &&& whole.calls == seq![predicate] + round.calls + next.calls
            &&& whole.used == 1 + round.used + next.used
            &&& whole.outcome == next.outcome
        }),
{
    let round = run(body, replies.skip(1));
    let next = run_while(
        predicate,
        body,
        latest(round.outcome->Finished_0, last),
        after(replies.skip(1), round.used),
    );
    let whole = run_while(predicate, body, last, replies);
    assert(whole.calls =~= seq![predicate] + round.calls + next.calls);
}

/// A loop stops in the round in which its body leaves a failure: the predicate is not checked
/// again, and that failure is the loop's status.
pub proof fn lemma_while_stops_on_failure<S: Success>(
    predicate: Call,
    body: Node,
    last: Option<S>,
    replies: Seq<Result<S, ExecError>>,
)
    requires
        replies.len() > 0,
        replies[0] matches Ok(status) && status.succeeded(),
        run(body, replies.skip(1)).outcome matches Outcome::Finished(value) && !passing(
            latest(value, last),
        ),
    ensures
        ({
            let round = run(body, replies.skip(1));
            let whole = run_while(predicate, body, last, replies);
            &&& whole.calls == seq![predicate] + round.calls
            &&& whole.used == 1 + round.used
            &&& whole.outcome == Outcome::Finished(latest(round.outcome->Finished_0, last))
        }),
{
    let round = run(body, replies.skip(1));
    let whole = run_while(predicate, body, last, replies);
    assert(whole.calls =~= seq![predicate] + round.calls);
}

/// The replies take a loop through exactly `n` rounds: `n` times the predicate succeeds and
/// the body ends without a failure, and then the predicate fails.
pub open spec fn goes_rounds<S: Success>(
    body: Node,
    last: Option<S>,
    replies: Seq<Result<S, ExecError>>,
    n: nat,
) -> bool
    decreases n,
{
    replies.len() > 0 && match replies[0] {
        Ok(status) => if n == 0 {
            !status.succeeded()
        } else {
            status.succeeded() && match run(body, replies.skip(1)).outcome {
                Outcome::Finished(value) => passing(latest(value, last)) && goes_rounds(
                    body,
                    latest(value, last),
                    after(replies.skip(1), run(body, replies.skip(1)).used),
                    (n - 1) as nat,
                ),
                _ => false,
            }
        },
        Err(_) => false,
    }
}

/// The programs started in `n` rounds of a loop and the check that ends it: in each round the
/// predicate and then whatever the body starts, and the predicate once more at the end.
pub open spec fn round_calls<S: Success>(
    predicate: Call,
    body: Node,
    replies: Seq<Result<S, ExecError>>,
    n: nat,
) -> Seq<Call>
    decreases n,
{
    if n == 0 {
        seq![predicate]
    } else {
        seq![predicate] + run(body, replies.skip(1)).calls + round_calls(
            predicate,
            body,
            after(replies.skip(1), run(body, replies.skip(1)).used),
            (n - 1) as nat,
        )
    }
}

/// The status remembered after `n` rounds of a loop: that of the last round whose body had
/// one, or `last` where none had.
pub open spec fn round_status<S: Success>(
    body: Node,
    last: Option<S>,
    replies: Seq<Result<S, ExecError>>,
    n: nat,
) -> Option<S>
    decreases n,
{
    if n == 0 {
        last
    } else {
        round_status(
            body,
            latest(run(body, replies.skip(1)).outcome->Finished_0, last),
            after(replies.skip(1), run(body, replies.skip(1)).used),
            (n - 1) as nat,
        )
    }
}

/// A loop whose predicate succeeds `n` times and then fails, no body leaving a failure, runs
/// its body exactly `n` times, between `n + 1` checks of the predicate, and ends with the
/// status remembered from the rounds.
pub proof fn lemma_while_goes_rounds<S: Success>(
    predicate: Call,
    body: Node,
    last: Option<S>,
    replies: Seq<Result<S, ExecError>>,
    n: nat,
)
    requires
        goes_rounds(body, last, replies, n),
    ensures
        run_while(predicate, body, last, replies).calls == round_calls(
            predicate,
            body,
            replies,
            n,
        ),
        run_while(predicate, body, last, replies).outcome == Outcome::Finished(
            round_status(body, last, replies, n),
        ),
    decreases n,
{
    if n == 0 {
        lemma_while_ends(predicate, body, last, replies);
    } else {
        let round = run(body, replies.skip(1));
        let now = latest(round.outcome->Finished_0, last);
        let left = after(replies.skip(1), round.used);
        lemma_while_round(predicate, body, last, replies);
        lemma_while_goes_rounds(predicate, body, now, left, (n - 1) as nat);
    }
}

/// `n` rounds of a loop whose body is one command: predicate and body in turn.
pub open spec fn rounds(predicate: Call, body: Call, n: nat) -> Seq<Call> {
    Seq::new(2 * n, |i: int| if i % 2 == 0 { predicate } else { body })
}

/// How often `call` occurs in `calls`.
pub open spec fn count(calls: Seq<Call>, call: Call) -> nat
    decreases calls.len(),
{
    if calls.len() == 0 {
        0
    } else {
        count(calls.drop_last(), call) + if calls.last() == call {
            1nat
        } else {
            0nat
        }
    }
}

/// A loop over one command whose predicate succeeds `n` times and then fails, the command
/// succeeding each time, runs the command exactly `n` times, between `n + 1` checks of the
/// predicate, and ends with the command's last status.
pub proof fn lemma_while_runs_body_n_times<S: Success>(
    predicate: Call,
    body: Call,
    last: Option<S>,
    replies: Seq<Result<S, ExecError>>,
    n: nat,
)
    requires
        replies.len() > 2 * n,
        forall|i: int| 0 <= i < 2 * n ==> (#[trigger] replies[i] matches Ok(status)
            && status.succeeded()),
        replies[(2 * n) as int] matches Ok(status) && !status.succeeded(),
    ensures
        run_while(predicate, Node::Command(body), last, replies) == (Run {
            calls: rounds(predicate, body, n).push(predicate),
            used: 2 * n + 1,
            outcome: Outcome::Finished(
                if n == 0 {
                    last
                } else {
                    Some(replies[2 * n - 1]->Ok_0)
                },
            ),
        }),
    decreases n,
{
    let whole = run_while(predicate, Node::Command(body), last, replies);
    if n == 0 {
        assert(whole.calls =~= rounds(predicate, body, 0).push(predicate));
    } else {
        let left = replies.skip(1);
        let round = run(Node::Command(body), left);
        assert(replies[0] matches Ok(status) && status.succeeded());
        assert(left[0] == replies[1]);
        assert(replies[1] matches Ok(status) && status.succeeded());
        assert(round == Run {
            calls: seq![body],
            used: 1,
            outcome: Outcome::Finished(Some(replies[1]->Ok_0)),
        });
        let now = Some(replies[1]->Ok_0);
        let more = replies.skip(2);
        assert(after(left, 1) =~= more);
        assert forall|i: int| 0 <= i < 2 * (n - 1) implies (#[trigger] more[i] matches Ok(status)
            && status.succeeded()) by {
            assert(more[i] == replies[i + 2]);
        }
        assert(more[2 * (n - 1)] == replies[(2 * n) as int]);
        lemma_while_runs_body_n_times(predicate, body, now, more, (n - 1) as nat);
        lemma_while_round(predicate, Node::Command(body), last, replies);
        let next = run_while(predicate, Node::Command(body), now, more);
        assert(whole.calls =~= rounds(predicate, body, n).push(predicate));
        if n > 1 {
            assert(more[2 * (n - 1) - 1] == replies[2 * n - 1]);
        }
    }
}

/// In `n` rounds of predicate and body and one more check, the body occurs `n` times and the
/// predicate `n + 1` times, where the two differ.
pub proof fn lemma_rounds_count(predicate: Call, body: Call, n: nat)
    requires
        predicate != body,
    ensures
        count(rounds(predicate, body, n).push(predicate), body) == n,
        count(rounds(predicate, body, n).push(predicate), predicate) == n + 1,
    decreases n,
{
    let all = rounds(predicate, body, n);
    lemma_rounds_end(predicate, body, n);
    assert(all.push(predicate).drop_last() =~= all);
}

/// In `n` rounds of predicate and body, each occurs `n` times, where the two differ.
proof fn lemma_rounds_end(predicate: Call, body: Call, n: nat)
    requires
        predicate != body,
    ensures
        count(rounds(predicate, body, n), body) == n,
        count(rounds(predicate, body, n), predicate) == n,
    decreases n,
{
    if n > 0 {
        let all = rounds(predicate, body, n);
        let fewer = rounds(predicate, body, (n - 1) as nat);
        let mid = fewer.push(predicate);
        lemma_rounds_end(predicate, body, (n - 1) as nat);
        assert(all.drop_last() =~= mid);
        assert(all.last() == body);
        assert(mid.drop_last() =~= fewer);
        assert(mid.last() == predicate);
        assert(count(mid, body) == count(fewer, body));
        assert(count(mid, predicate) == count(fewer, predicate) + 1);
        assert(count(all, body) == count(mid, body) + 1);
        assert(count(all, predicate) == count(mid, predicate));
    }
}

} // verus!
