use crate::ast::{nodes, Block, Call, Command, Conditional, Node, While, AST};
use crate::semantics::{
    after, ask, block_then, chain, done, ended, run, run_block, run_while, while_then, Outcome,
    Run,
};
use crate::status::{ExecError, Success};
use vstd::prelude::*;

verus! {

/// Where an evaluation stands inside a statement while one program is running.
pub enum Place<S> {
    /// The statement is a command, and it is the one running.
    Call,
    /// The predicate of a conditional is running.
    Predicate,
    /// Evaluation stands inside the branch taken on success.
    Then(Box<Place<S>>),
    /// Evaluation stands inside the branch taken on failure.
    Otherwise(Box<Place<S>>),
    /// Evaluation stands inside the statement at `index` of a block.
    Statement { index: usize, last: Option<S>, inner: Box<Place<S>> },
    /// The predicate of a loop is running.
    Check { last: Option<S> },
    /// Evaluation stands inside the body of a loop.
    Body { last: Option<S>, inner: Box<Place<S>> },
}

/// `place` is a place inside `node`.
pub open spec fn fits<S>(place: Place<S>, node: Node) -> bool
    decreases place,
{
    match place {
        Place::Call => node is Command,
        Place::Predicate => node is If,
        Place::Then(inner) => node matches Node::If(_, then, _) && fits(*inner, *then),
        Place::Otherwise(inner) => node matches Node::If(_, _, Some(other)) && fits(
            *inner,
            *other,
        ),
        Place::Statement { index, last, inner } => node matches Node::Block(statements)
            && index < statements.len() && fits(*inner, statements[index as int]),
        Place::Check { last } => node is While,
        Place::Body { last, inner } => node matches Node::While(_, body) && fits(*inner, *body),
    }
}

/// The program that is running when evaluation of `node` stands at `place`.
pub open spec fn pending<S>(node: Node, place: Place<S>) -> Call
    recommends
        fits(place, node),
    decreases place,
{
    match place {
        Place::Call => node->Command_0,
        Place::Predicate => node->If_0,
        Place::Then(inner) => pending(*node->If_1, *inner),
        Place::Otherwise(inner) => pending(*node->If_2->0, *inner),
        Place::Statement { index, last, inner } => pending(node->Block_0[index as int], *inner),
        Place::Check { last } => node->While_0,
        Place::Body { last, inner } => pending(*node->While_1, *inner),
    }
}

/// Evaluating `node` from `place` on: the program that is running takes the first reply.
pub open spec fn resume_run<S: Success>(
    node: Node,
    place: Place<S>,
    replies: Seq<Result<S, ExecError>>,
) -> Run<S>
    recommends
        fits(place, node),
    decreases place,
{
    match place {
        Place::Call => run(node, replies),
        Place::Predicate => run(node, replies),
        Place::Then(inner) => resume_run(*node->If_1, *inner, replies),
        Place::Otherwise(inner) => resume_run(*node->If_2->0, *inner, replies),
        Place::Statement { index, last, inner } => block_then(
            node->Block_0,
            index as nat,
            last,
            resume_run(node->Block_0[index as int], *inner, replies),
            replies,
        ),
        Place::Check { last } => run_while(node->While_0, *node->While_1, last, replies),
        Place::Body { last, inner } => while_then(
            node->While_0,
            *node->While_1,
            last,
            resume_run(*node->While_1, *inner, replies),
            replies,
        ),
    }
}

/// How far evaluation of a statement got: up to the next program to run, or to its end.
pub enum Progress<'a, S> {
    /// `1` is to be run; evaluation goes on from `0` with its reply.
    Suspended(Place<S>, &'a Command),
    /// Evaluation ended with this status.
    Finished(Option<S>),
    /// A program could not be run.
    Failed(ExecError),
}

impl<'a, S: Success> Progress<'a, S> {
    /// A suspension names a place inside `node` and the program that is running there.
    pub open spec fn sound(self, node: Node) -> bool {
        self matches Progress::Suspended(place, command) ==> fits(place, node) && command@
            == pending(node, place)
    }

    /// What remains of the evaluation of `node` from here on.
    pub open spec fn rest(self, node: Node, replies: Seq<Result<S, ExecError>>) -> Run<S> {
        match self {
            Progress::Suspended(place, _) => resume_run(node, place, replies),
            Progress::Finished(value) => done(value),
            Progress::Failed(e) => Run {
                calls: Seq::empty(),
                used: 0,
                outcome: Outcome::Aborted(e),
            },
        }
    }
}

/// `run`, after `call` was started and answered.
pub open spec fn shift<S>(call: Call, run: Run<S>) -> Run<S> {
    Run { calls: seq![call] + run.calls, used: 1 + run.used, outcome: run.outcome }
}

/// On `replies`, evaluation of `node` from its start is what `progress` says.
pub open spec fn begins_on<S: Success>(
    node: Node,
    progress: Progress<S>,
    replies: Seq<Result<S, ExecError>>,
) -> bool {
    run(node, replies) == progress.rest(node, replies)
}

/// Evaluation of `node` from its start is `progress`, whatever the replies.
pub open spec fn begins<S: Success>(node: Node, progress: Progress<S>) -> bool {
    &&& progress.sound(node)
    &&& !(progress is Failed)
    &&& forall|replies: Seq<Result<S, ExecError>>| #[trigger] begins_on(node, progress, replies)
}

/// On `replies`, if they start with `reply`, evaluation of `node` from `place` is the program
/// running there and then what `progress` says.
pub open spec fn resumes_on<S: Success>(
    node: Node,
    place: Place<S>,
    reply: Result<S, ExecError>,
    progress: Progress<S>,
    replies: Seq<Result<S, ExecError>>,
) -> bool {
    replies.len() > 0 && replies[0] == reply ==> resume_run(node, place, replies) == shift(
        pending(node, place),
        progress.rest(node, replies.skip(1)),
    )
}

/// Evaluation of `node` from `place`, once the program running there is answered by `reply`,
/// is `progress`, whatever the replies after it.
pub open spec fn resumes<S: Success>(
    node: Node,
    place: Place<S>,
    reply: Result<S, ExecError>,
    progress: Progress<S>,
) -> bool {
    &&& progress.sound(node)
    &&& forall|replies: Seq<Result<S, ExecError>>| #[trigger]
        resumes_on(node, place, reply, progress, replies)
}

/// Using `n` replies after one is using `n + 1`.
proof fn lemma_after_one<S>(replies: Seq<Result<S, ExecError>>, n: nat)
    requires
        replies.len() > 0,
    ensures
        after(replies, 1) == replies.skip(1),
        after(replies.skip(1), n) == after(replies, n + 1),
        after(replies.skip(1), 0) == replies.skip(1),
{
    assert(replies.skip(1).skip(0) =~= replies.skip(1));
    if n + 1 <= replies.len() {
        assert(replies.skip(1).skip(n as int) =~= replies.skip((n + 1) as int));
    }
}

/// A run that starts nothing changes nothing in what follows it.
proof fn lemma_chain_done<S>(value: Option<S>, rest: Run<S>)
    ensures
        chain(done(value), rest) == rest,
{
    assert(chain(done(value), rest).calls =~= rest.calls);
}

/// One program, then `rest`, is `rest` after that program was started and answered.
proof fn lemma_chain_ask<S>(call: Call, replies: Seq<Result<S, ExecError>>, rest: Run<S>)
    requires
        replies.len() > 0,
    ensures
        chain(ask(call, replies), rest) == shift(call, rest),
        ask(call, replies).calls == seq![call],
        ask(call, replies).used == 1,
{
}

/// A block goes on in the same way after a statement whose run began one reply earlier.
proof fn lemma_block_then_shift<S: Success>(
    statements: Seq<Node>,
    at: nat,
    last: Option<S>,
    call: Call,
    ran: Run<S>,
    replies: Seq<Result<S, ExecError>>,
)
    requires
        replies.len() > 0,
    ensures
        block_then(statements, at, last, shift(call, ran), replies) == shift(
            call,
            block_then(statements, at, last, ran, replies.skip(1)),
        ),
{
    lemma_after_one(replies, ran.used);
    let a = block_then(statements, at, last, shift(call, ran), replies);
    let b = shift(call, block_then(statements, at, last, ran, replies.skip(1)));
    assert(a.calls =~= b.calls);
}

/// A loop goes on in the same way after a body whose run began one reply earlier.
proof fn lemma_while_then_shift<S: Success>(
    predicate: Call,
    body: Node,
    last: Option<S>,
    call: Call,
    ran: Run<S>,
    replies: Seq<Result<S, ExecError>>,
)
    requires
        replies.len() > 0,
    ensures
        while_then(predicate, body, last, shift(call, ran), replies) == shift(
            call,
            while_then(predicate, body, last, ran, replies.skip(1)),
        ),
{
    lemma_after_one(replies, ran.used);
    let a = while_then(predicate, body, last, shift(call, ran), replies);
    let b = shift(call, while_then(predicate, body, last, ran, replies.skip(1)));
    assert(a.calls =~= b.calls);
}

/// The tree at an index of a list of statements is the tree of the statement there.
proof fn lemma_nodes_index(v: Seq<AST>, i: int)
    ensures
        nodes(v).len() == v.len(),
        0 <= i < v.len() ==> nodes(v)[i] == v[i]@,
{
}

impl Command {
    /// Starts the command: it is the program to run.
    pub(crate) fn begin<'a, S: Success>(&'a self) -> (progress: Progress<'a, S>)
        ensures
            begins(Node::Command(self@), progress),
    {
        Progress::Suspended(Place::Call, self)
    }

    /// Takes the command's reply: its status, or the error.
    pub(crate) fn resume<'a, S: Success>(&'a self, reply: Result<S, ExecError>) -> (progress: Progress<
        'a,
        S,
    >)
        ensures
            resumes(Node::Command(self@), Place::Call, reply, progress),
    {
        let ghost node = Node::Command(self@);
        let progress = match reply {
            Ok(status) => Progress::Finished(Some(status)),
            Err(e) => Progress::Failed(e),
        };
        proof {
            assert forall|replies: Seq<Result<S, ExecError>>| #[trigger]
                resumes_on(node, Place::Call, reply, progress, replies) by {
                if replies.len() > 0 && replies[0] == reply {
                    let a = resume_run(node, Place::<S>::Call, replies);
                    let b = shift(self@, progress.rest(node, replies.skip(1)));
                    assert(a.calls =~= b.calls);
                }
            }
        }
        progress
    }
}

impl AST {
    /// Evaluates the statement up to the first program it runs, or to its end if it runs none.
    pub(crate) fn begin<'a, S: Success>(&'a self) -> (progress: Progress<'a, S>)
        ensures
            begins(self@, progress),
        decreases self,
    {
        match self {
            AST::Comment(_) => {
                let progress = Progress::Finished(None);
                assert forall|replies: Seq<Result<S, ExecError>>| #[trigger]
                    begins_on(self@, progress, replies) by {}
                progress
            },
            AST::Command(c) => c.begin(),
            AST::If(c) => c.begin(),
            AST::Block(b) => b.begin(),
            AST::While(w) => w.begin(),
        }
    }

    /// Takes the reply to the program that is running at `place` and evaluates on, up to the
    /// next program or to the end.
    pub(crate) fn resume<'a, S: Success>(&'a self, place: Place<S>, reply: Result<S, ExecError>) -> (
        progress: Progress<'a, S>
    )
        requires
            fits(place, self@),
        ensures
            resumes(self@, place, reply, progress),
        decreases self,
    {
        match self {
            AST::Comment(_) => Progress::Finished(None),
            AST::Command(c) => c.resume(reply),
            AST::If(c) => c.resume(place, reply),
            AST::Block(b) => b.resume(place, reply),
            AST::While(w) => w.resume(place, reply),
        }
    }
}

impl Conditional {
    /// Starts the conditional: its predicate is the program to run.
    pub(crate) fn begin<'a, S: Success>(&'a self) -> (progress: Progress<'a, S>)
        ensures
            begins(self@, progress),
    {
        let progress = Progress::Suspended(Place::Predicate, &self.predicate);
        assert forall|replies: Seq<Result<S, ExecError>>| #[trigger]
            begins_on(self@, progress, replies) by {}
        progress
    }

    /// What the conditional does once the branch it took got as far as `ran`: the same, seen
    /// from the conditional.
    pub(crate) fn within<'a, S: Success>(&'a self, ran: Progress<'a, S>, then: bool) -> (progress:
        Progress<'a, S>)
        requires
            !then ==> self.else_block is Some,
            ran.sound(if then { self.if_block@ } else { self.else_block->0@ }),
        ensures
            progress.sound(self@),
            forall|replies: Seq<Result<S, ExecError>>|
                ran.rest(if then { self.if_block@ } else { self.else_block->0@ }, replies)
                    == #[trigger] progress.rest(self@, replies),
    {
        match ran {
            Progress::Suspended(p, c) => if then {
                Progress::Suspended(Place::Then(Box::new(p)), c)
            } else {
                Progress::Suspended(Place::Otherwise(Box::new(p)), c)
            },
            Progress::Finished(v) => Progress::Finished(v),
            Progress::Failed(e) => Progress::Failed(e),
        }
    }

    /// Takes a reply. The predicate's decides which branch runs, and is itself forgotten;
    /// a branch's is handed to that branch.
    pub(crate) fn resume<'a, S: Success>(&'a self, place: Place<S>, reply: Result<S, ExecError>) -> (
        progress: Progress<'a, S>
    )
        requires
            fits(place, self@),
        ensures
            resumes(self@, place, reply, progress),
        decreases self,
    {
        let ghost node = self@;
        let ghost at = place;
        match place {
            Place::Predicate => match reply {
                Err(e) => {
                    let progress = Progress::Failed(e);
                    proof {
                        assert forall|replies: Seq<Result<S, ExecError>>| #[trigger]
                            resumes_on(node, at, reply, progress, replies) by {
                            if replies.len() > 0 && replies[0] == reply {
                                let a = resume_run(node, at, replies);
                                let b = shift(
                                    pending(node, at),
                                    progress.rest(node, replies.skip(1)),
                                );
                                assert(a.calls =~= b.calls);
                            }
                        }
                    }
                    progress
                },
                Ok(status) => {
                    if status.success() {
                        let ran = self.if_block.begin();
                        let progress = self.within(ran, true);
                        proof {
                            assert forall|replies: Seq<Result<S, ExecError>>| #[trigger]
                                resumes_on(node, at, reply, progress, replies) by {
                                if replies.len() > 0 && replies[0] == reply {
                                    let left = replies.skip(1);
                                    lemma_after_one(replies, 0);
                                    assert(begins_on(self.if_block@, ran, left));
                                    lemma_chain_ask(
                                        self.predicate@,
                                        replies,
                                        progress.rest(node, left),
                                    );
                                }
                            }
                        }
                        progress
                    } else {
                        match &self.else_block {
                            None => {
                                let progress = Progress::Finished(None);
                                proof {
                                    assert forall|replies: Seq<Result<S, ExecError>>| #[trigger]
                                        resumes_on(node, at, reply, progress, replies) by {
                                        if replies.len() > 0 && replies[0] == reply {
                                            let a = resume_run(node, at, replies);
                                            let b = shift(
                                                pending(node, at),
                                                progress.rest(node, replies.skip(1)),
                                            );
                                            assert(a.calls =~= b.calls);
                                        }
                                    }
                                }
                                progress
                            },
                            Some(other) => {
                                let ran = other.begin();
                                let progress = self.within(ran, false);
                                proof {
                                    assert forall|replies: Seq<Result<S, ExecError>>| #[trigger]
                                        resumes_on(node, at, reply, progress, replies) by {
                                        if replies.len() > 0 && replies[0] == reply {
                                            let left = replies.skip(1);
                                            lemma_after_one(replies, 0);
                                            assert(begins_on(other@, ran, left));
                                            lemma_chain_ask(
                                                self.predicate@,
                                                replies,
                                                progress.rest(node, left),
                                            );
                                        }
                                    }
                                }
                                progress
                            },
                        }
                    }
                },
            },
            Place::Then(inner) => {
                let ran = self.if_block.resume(*inner, reply);
                let progress = self.within(ran, true);
                proof {
                    assert forall|replies: Seq<Result<S, ExecError>>| #[trigger]
                        resumes_on(node, at, reply, progress, replies) by {
                        assert(resumes_on(self.if_block@, *inner, reply, ran, replies));
                    }
                }
                progress
            },
            Place::Otherwise(inner) => match &self.else_block {
                Some(other) => {
                    let ran = other.resume(*inner, reply);
                    let progress = self.within(ran, false);
                    proof {
                        assert forall|replies: Seq<Result<S, ExecError>>| #[trigger]
                            resumes_on(node, at, reply, progress, replies) by {
                            assert(resumes_on(other@, *inner, reply, ran, replies));
                        }
                    }
                    progress
                },
                None => Progress::Finished(None),
            },
            _ => Progress::Finished(None),
        }
    }
}

impl Block {
    /// Starts the block: its statements run in order up to the first program.
    pub(crate) fn begin<'a, S: Success>(&'a self) -> (progress: Progress<'a, S>)
        ensures
            begins(self@, progress),
        decreases self, 1nat,
    {
        let progress = self.proceed(0, None);
        assert forall|replies: Seq<Result<S, ExecError>>| #[trigger]
            begins_on(self@, progress, replies) by {
            assert(proceeds_on(self@, 0, None, progress, replies));
        }
        progress
    }

    /// Runs the statements from index `from` on, `last` being the status remembered so far,
    /// up to the first program, the first failure or the end of the block.
    pub(crate) fn proceed<'a, S: Success>(&'a self, from: usize, last: Option<S>) -> (progress: Progress<
        'a,
        S,
    >)
        requires
            from <= self.0@.len(),
        ensures
            progress.sound(self@),
            !(progress is Failed),
            forall|replies: Seq<Result<S, ExecError>>| #[trigger]
                proceeds_on(self@, from as nat, last, progress, replies),
        decreases self, 0nat,
    {
        let ghost node = self@;
        let ghost statements = nodes(self.0@);
        let mut i: usize = from;
        let mut seen = last;
        while i < self.0.len()
            invariant
                i <= self.0@.len(),
                node == self@,
                statements == nodes(self.0@),
                forall|replies: Seq<Result<S, ExecError>>| #[trigger]
                    run_block(statements, from as nat, last, replies) == run_block(
                        statements,
                        i as nat,
                        seen,
                        replies,
                    ),
            decreases self.0@.len() - i,
        {
            proof {
                lemma_nodes_index(self.0@, i as int);
            }
            let ghost child = statements[i as int];
            let ran = self.0[i].begin();
            match ran {
                Progress::Suspended(place, command) => {
                    let progress = Progress::Suspended(
                        Place::Statement { index: i, last: seen, inner: Box::new(place) },
                        command,
                    );
                    proof {
                        assert forall|replies: Seq<Result<S, ExecError>>| #[trigger]
                            proceeds_on(node, from as nat, last, progress, replies) by {
                            assert(begins_on(child, ran, replies));
                        }
                    }
                    return progress;
                },
                Progress::Finished(value) => {
                    let now = match value {
                        Some(status) => Some(status),
                        None => seen,
                    };
                    let go = match &now {
                        Some(status) => status.success(),
                        None => true,
                    };
                    if !go {
                        let progress = Progress::Finished(now);
                        proof {
                            assert forall|replies: Seq<Result<S, ExecError>>| #[trigger]
                                proceeds_on(node, from as nat, last, progress, replies) by {
                                assert(begins_on(child, ran, replies));
                            }
                        }
                        return progress;
                    }
                    proof {
                        assert forall|replies: Seq<Result<S, ExecError>>| #[trigger]
                            run_block(statements, from as nat, last, replies) == run_block(
                                statements,
                                (i + 1) as nat,
                                now,
                                replies,
                            ) by {
                            assert(begins_on(child, ran, replies));
                            assert(replies.skip(0) =~= replies);
                            lemma_chain_done(
                                value,
                                run_block(statements, (i + 1) as nat, now, replies),
                            );
                        }
                    }
                    seen = now;
                    i += 1;
                },
                Progress::Failed(e) => {
                    return Progress::Failed(e);
                },
            }
        }
        let progress = Progress::Finished(seen);
        proof {
            assert forall|replies: Seq<Result<S, ExecError>>| #[trigger]
                proceeds_on(node, from as nat, last, progress, replies) by {}
        }
        progress
    }

    /// Hands a reply to the statement that is running, and goes on with the statements after
    /// it once that one has ended without a failure.
    pub(crate) fn resume<'a, S: Success>(&'a self, place: Place<S>, reply: Result<S, ExecError>) -> (
        progress: Progress<'a, S>
    )
        requires
            fits(place, self@),
        ensures
            resumes(self@, place, reply, progress),
        decreases self, 1nat,
    {
        let ghost node = self@;
        let ghost at = place;
        let ghost statements = nodes(self.0@);
        match place {
            Place::Statement { index, last, inner } => {
                proof {
                    lemma_nodes_index(self.0@, index as int);
                }
                let ghost child = statements[index as int];
                let ghost call = pending(child, *inner);
                let ran = self.0[index].resume(*inner, reply);
                match ran {
                    Progress::Suspended(p, c) => {
                        let progress = Progress::Suspended(
                            Place::Statement { index, last, inner: Box::new(p) },
                            c,
                        );
                        proof {
                            assert forall|replies: Seq<Result<S, ExecError>>| #[trigger]
                                resumes_on(node, at, reply, progress, replies) by {
                                if replies.len() > 0 && replies[0] == reply {
                                    assert(resumes_on(child, *inner, reply, ran, replies));
                                    lemma_block_then_shift(
                                        statements,
                                        index as nat,
                                        last,
                                        call,
                                        ran.rest(child, replies.skip(1)),
                                        replies,
                                    );
                                }
                            }
                        }
                        progress
                    },
                    Progress::Finished(value) => {
                        let now = match value {
                            Some(status) => Some(status),
                            None => last,
                        };
                        let go = match &now {
                            Some(status) => status.success(),
                            None => true,
                        };
                        assert(index < self.0.len());
                        let progress = if go {
                            self.proceed(index + 1, now)
                        } else {
                            Progress::Finished(now)
                        };
                        proof {
                            assert forall|replies: Seq<Result<S, ExecError>>| #[trigger]
                                resumes_on(node, at, reply, progress, replies) by {
                                if replies.len() > 0 && replies[0] == reply {
                                    let left = replies.skip(1);
                                    assert(resumes_on(child, *inner, reply, ran, replies));
                                    lemma_block_then_shift(
                                        statements,
                                        index as nat,
                                        last,
                                        call,
                                        ran.rest(child, left),
                                        replies,
                                    );
                                    assert(left.skip(0) =~= left);
                                    if go {
                                        assert(proceeds_on(
                                            node,
                                            (index + 1) as nat,
                                            now,
                                            progress,
                                            left,
                                        ));
                                        lemma_chain_done(
                                            value,
                                            run_block(statements, (index + 1) as nat, now, left),
                                        );
                                    }
                                }
                            }
                        }
                        progress
                    },
                    Progress::Failed(e) => {
                        let progress = Progress::Failed(e);
                        proof {
                            assert forall|replies: Seq<Result<S, ExecError>>| #[trigger]
                                resumes_on(node, at, reply, progress, replies) by {
                                if replies.len() > 0 && replies[0] == reply {
                                    assert(resumes_on(child, *inner, reply, ran, replies));
                                    lemma_block_then_shift(
                                        statements,
                                        index as nat,
                                        last,
                                        call,
                                        ran.rest(child, replies.skip(1)),
                                        replies,
                                    );
                                }
                            }
                        }
                        progress
                    },
                }
            },
            _ => Progress::Finished(None),
        }
    }
}

/// On `replies`, the statements of the block `node` from index `from` on, with `last`
/// remembered, evaluate to what `progress` says.
pub open spec fn proceeds_on<S: Success>(
    node: Node,
    from: nat,
    last: Option<S>,
    progress: Progress<S>,
    replies: Seq<Result<S, ExecError>>,
) -> bool {
    run_block(node->Block_0, from, last, replies) == progress.rest(node, replies)
}

/// On `replies`, a loop whose body got as far as `ran` goes on to what `progress` says.
pub open spec fn loops_on<S: Success>(
    node: Node,
    last: Option<S>,
    ran: Progress<S>,
    progress: Progress<S>,
    replies: Seq<Result<S, ExecError>>,
) -> bool {
    while_then(
        node->While_0,
        *node->While_1,
        last,
        ran.rest(*node->While_1, replies),
        replies,
    ) == progress.rest(node, replies)
}

impl While {
    /// Starts the loop: its predicate is the program to run.
    pub(crate) fn begin<'a, S: Success>(&'a self) -> (progress: Progress<'a, S>)
        ensures
            begins(self@, progress),
    {
        let progress = Progress::Suspended(Place::Check { last: None }, &self.predicate);
        assert forall|replies: Seq<Result<S, ExecError>>| #[trigger]
            begins_on(self@, progress, replies) by {}
        progress
    }

    /// What the loop does once its body got as far as `ran`: it waits with the body, ends on a
    /// failure or an error, and checks its predicate again otherwise.
    pub(crate) fn after_body<'a, S: Success>(&'a self, ran: Progress<'a, S>, last: Option<S>) -> (progress:
        Progress<'a, S>)
        requires
            ran.sound(self.block@),
        ensures
            progress.sound(self@),
            forall|replies: Seq<Result<S, ExecError>>| #[trigger]
                loops_on(self@, last, ran, progress, replies),
    {
        let ghost node = self@;
        match ran {
            Progress::Suspended(p, c) => {
                let progress = Progress::Suspended(Place::Body { last, inner: Box::new(p) }, c);
                assert forall|replies: Seq<Result<S, ExecError>>| #[trigger]
                    loops_on(node, last, ran, progress, replies) by {}
                progress
            },
            Progress::Finished(value) => {
                let now = match value {
                    Some(status) => Some(status),
                    None => last,
                };
                let go = match &now {
                    Some(status) => status.success(),
                    None => true,
                };
                if go {
                    let progress = Progress::Suspended(
                        Place::Check { last: now },
                        &self.predicate,
                    );
                    proof {
                        assert forall|replies: Seq<Result<S, ExecError>>| #[trigger]
                            loops_on(node, last, ran, progress, replies) by {
                            assert(replies.skip(0) =~= replies);
                            lemma_chain_done(
                                value,
                                run_while(self.predicate@, self.block@, now, replies),
                            );
                        }
                    }
                    progress
                } else {
                    let progress = Progress::Finished(now);
                    assert forall|replies: Seq<Result<S, ExecError>>| #[trigger]
                        loops_on(node, last, ran, progress, replies) by {}
                    progress
                }
            },
            Progress::Failed(e) => {
                let progress = Progress::Failed(e);
                assert forall|replies: Seq<Result<S, ExecError>>| #[trigger]
                    loops_on(node, last, ran, progress, replies) by {}
                progress
            },
        }
    }

    /// Takes a reply. The predicate's decides whether another round starts; the body's is
    /// handed to the body.
    pub(crate) fn resume<'a, S: Success>(&'a self, place: Place<S>, reply: Result<S, ExecError>) -> (
        progress: Progress<'a, S>
    )
        requires
            fits(place, self@),
        ensures
            resumes(self@, place, reply, progress),
        decreases self,
    {
        let ghost node = self@;
        let ghost at = place;
        let ghost body = self.block@;
        match place {
            Place::Check { last } => match reply {
                Err(e) => {
                    let progress = Progress::Failed(e);
                    proof {
                        assert forall|replies: Seq<Result<S, ExecError>>| #[trigger]
                            resumes_on(node, at, reply, progress, replies) by {
                            if replies.len() > 0 && replies[0] == reply {
                                let a = resume_run(node, at, replies);
                                let b = shift(
                                    pending(node, at),
                                    progress.rest(node, replies.skip(1)),
                                );
                                assert(a.calls =~= b.calls);
                            }
                        }
                    }
                    progress
                },
                Ok(status) => {
                    if status.success() {
                        let ran = self.block.begin();
                        let progress = self.after_body(ran, last);
                        proof {
                            assert forall|replies: Seq<Result<S, ExecError>>| #[trigger]
                                resumes_on(node, at, reply, progress, replies) by {
                                if replies.len() > 0 && replies[0] == reply {
                                    let left = replies.skip(1);
                                    lemma_after_one(replies, 0);
                                    assert(begins_on(body, ran, left));
                                    assert(loops_on(node, last, ran, progress, left));
                                    lemma_chain_ask(
                                        self.predicate@,
                                        replies,
                                        progress.rest(node, left),
                                    );
                                }
                            }
                        }
                        progress
                    } else {
                        let progress = Progress::Finished(last);
                        proof {
                            assert forall|replies: Seq<Result<S, ExecError>>| #[trigger]
                                resumes_on(node, at, reply, progress, replies) by {
                                if replies.len() > 0 && replies[0] == reply {
                                    let a = resume_run(node, at, replies);
                                    let b = shift(
                                        pending(node, at),
                                        progress.rest(node, replies.skip(1)),
                                    );
                                    assert(a.calls =~= b.calls);
                                }
                            }
                        }
                        progress
                    }
                },
            },
            Place::Body { last, inner } => {
                let ghost call = pending(body, *inner);
                let ran = self.block.resume(*inner, reply);
                let progress = self.after_body(ran, last);
                proof {
                    assert forall|replies: Seq<Result<S, ExecError>>| #[trigger]
                        resumes_on(node, at, reply, progress, replies) by {
                        if replies.len() > 0 && replies[0] == reply {
                            let left = replies.skip(1);
                            assert(resumes_on(body, *inner, reply, ran, replies));
                            lemma_while_then_shift(
                                self.predicate@,
                                body,
                                last,
                                call,
                                ran.rest(body, left),
                                replies,
                            );
                            assert(loops_on(node, last, ran, progress, left));
                        }
                    }
                }
                progress
            },
            _ => Progress::Finished(None),
        }
    }
}

} // verus!
