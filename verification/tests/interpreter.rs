use cinnamon::ast::{Block, Command, Conditional, While, AST};
use cinnamon::execution::{Execution, Executor};
use cinnamon::status::{ExecError, Exit, Success};
use std::collections::VecDeque;

fn run<E: Executor>(ast: &AST, executor: &mut E) -> Result<Option<E::ExitStatus>, ExecError> {
    match ast.execute_with(executor, u64::MAX) {
        Execution::Done(result) => result,
        Execution::Pending(_) => panic!("the limit cannot be reached"),
    }
}

struct TestExecutor {
    history: Vec<(String, Vec<String>)>,
    future: VecDeque<Future>,
}

impl TestExecutor {
    fn new() -> TestExecutor {
        TestExecutor {
            history: Vec::new(),
            future: VecDeque::new(),
        }
    }

    fn last(&self) -> Option<(&str, Vec<&str>)> {
        self.history
            .last()
            .map(|(s, a)| (s.as_ref(), a.iter().map(|s| s.as_ref()).collect()))
    }

    fn will_fail(&mut self) {
        self.future.push_back(Future::Fail);
    }

    fn will_succeed(&mut self) {
        self.future.push_back(Future::Success);
    }

    fn will_error(&mut self, error: ExecError) {
        self.future.push_back(Future::Error(error));
    }

    fn count(&self, cmd: &str) -> usize {
        self.history.iter().filter(|(c, _)| c == cmd).count()
    }

    fn names(&self) -> Vec<&str> {
        self.history.iter().map(|(c, _)| c.as_str()).collect()
    }
}

enum Future {
    Fail,
    Success,
    Error(ExecError),
}

impl Executor for TestExecutor {
    type ExitStatus = bool;

    fn execute(&mut self, command: &str, args: &[&str]) -> Result<Self::ExitStatus, ExecError> {
        self.history.push((
            command.to_string(),
            args.iter().map(|s| s.to_string()).collect(),
        ));
        match self.future.pop_front() {
            None => Ok(true),
            Some(Future::Fail) => Ok(false),
            Some(Future::Success) => Ok(true),
            Some(Future::Error(e)) => Err(e),
        }
    }
}

fn cmd(s: &str) -> Command {
    Command::no_args(s)
}

#[test]
fn executes_using_the_provided_executor() {
    let mut executor = TestExecutor::new();
    let command = Command::no_args("foo");

    command.execute(&mut executor).unwrap();

    assert_eq!(executor.last(), Some(("foo", vec![])));
}

#[test]
fn executes_if_block_if_predicate_is_true() {
    let mut executor = TestExecutor::new();
    let conditional = Conditional::new(cmd("foo"), AST::Command(cmd("bar")), None);

    run(&AST::If(conditional), &mut executor).unwrap();

    assert_eq!(executor.last(), Some(("bar", vec![])));
}

#[test]
fn does_not_execute_if_block_if_predicate_is_false() {
    let mut executor = TestExecutor::new();
    let conditional = Conditional::new(cmd("foo"), AST::Command(cmd("bar")), None);

    executor.will_fail();
    run(&AST::If(conditional), &mut executor).unwrap();

    assert_eq!(executor.last(), Some(("foo", vec![])));
}

#[test]
fn executes_else_block_if_predicate_fails() {
    let mut executor = TestExecutor::new();
    let conditional = Conditional::new(
        cmd("foo"),
        AST::Command(cmd("bar")),
        Some(AST::Command(cmd("baz"))),
    );

    executor.will_fail();
    run(&AST::If(conditional), &mut executor).unwrap();

    assert_eq!(executor.last(), Some(("baz", vec![])));
}

#[test]
fn returns_ok_none_with_empty_block() {
    let mut executor = TestExecutor::new();
    let block = Block(vec![]);

    assert_eq!(run(&AST::Block(block), &mut executor).unwrap(), None);
}

#[test]
fn returns_ok_true_if_one_success() {
    let mut executor = TestExecutor::new();
    let block = Block(vec![AST::Command(cmd("foo"))]);

    assert_eq!(run(&AST::Block(block), &mut executor).unwrap(), Some(true));
}

#[test]
fn returns_ok_false_if_first_fails() {
    let mut executor = TestExecutor::new();
    let block = Block(vec![AST::Command(cmd("foo")), AST::Command(cmd("bar"))]);

    executor.will_fail();

    assert_eq!(run(&AST::Block(block), &mut executor).unwrap(), Some(false));
}

#[test]
fn returns_ok_false_if_second_fails() {
    let mut executor = TestExecutor::new();
    let block = Block(vec![AST::Command(cmd("foo")), AST::Command(cmd("bar"))]);

    executor.will_succeed();
    executor.will_fail();

    assert_eq!(run(&AST::Block(block), &mut executor).unwrap(), Some(false));
}

#[test]
fn returns_ok_none_if_only_comment() {
    let mut executor = TestExecutor::new();
    let block = Block(vec![AST::Comment(String::from("comment"))]);

    assert_eq!(run(&AST::Block(block), &mut executor).unwrap(), None);
}

#[test]
fn returns_err_if_command_errors() {
    let mut executor = TestExecutor::new();
    let block = Block(vec![AST::Command(cmd("foo"))]);

    executor.will_error(ExecError::new("error"));

    assert!(run(&AST::Block(block), &mut executor).is_err());
}

#[test]
fn returns_ok_none_if_predicate_fails() {
    let mut executor = TestExecutor::new();
    let while_ = While::new(cmd("foo"), AST::Block(Block(vec![])));

    executor.will_fail();

    assert_eq!(run(&AST::While(while_), &mut executor).unwrap(), None);
}

#[test]
fn executes_block_once() {
    let mut executor = TestExecutor::new();
    let while_ = While::new(cmd("foo"), AST::Command(cmd("bar")));

    executor.will_succeed();
    executor.will_succeed();
    executor.will_fail();

    run(&AST::While(while_), &mut executor).unwrap();

    assert_eq!(executor.count("bar"), 1);
}

#[test]
fn executes_block_thrice() {
    let mut executor = TestExecutor::new();
    let while_ = While::new(cmd("foo"), AST::Command(cmd("bar")));

    executor.will_succeed();
    executor.will_succeed();

    executor.will_succeed();
    executor.will_succeed();

    executor.will_succeed();
    executor.will_succeed();

    executor.will_fail();

    run(&AST::While(while_), &mut executor).unwrap();

    assert_eq!(executor.count("bar"), 3);
}

#[test]
fn block_failure_breaks_loop() {
    let mut executor = TestExecutor::new();
    let while_ = While::new(cmd("foo"), AST::Command(cmd("bar")));

    executor.will_succeed();
    executor.will_fail();

    assert_eq!(run(&AST::While(while_), &mut executor).unwrap(), Some(false));
}

#[test]
fn one_loop_returns_last() {
    let mut executor = TestExecutor::new();
    let while_ = While::new(cmd("foo"), AST::Command(cmd("bar")));

    executor.will_succeed();
    executor.will_succeed();
    executor.will_fail();

    assert_eq!(run(&AST::While(while_), &mut executor).unwrap(), Some(true));
}

#[test]
fn error_in_predicate_breaks() {
    let mut executor = TestExecutor::new();
    let while_ = While::new(cmd("foo"), AST::Command(cmd("bar")));

    executor.will_error(ExecError::new("err"));

    assert!(run(&AST::While(while_), &mut executor).is_err());
}

#[test]
fn comment_starts_nothing() {
    let mut executor = TestExecutor::new();

    assert_eq!(run(&AST::Comment(" hello".to_owned()), &mut executor), Ok(None));
    assert_eq!(executor.last(), None);
}

#[test]
fn command_is_started_with_its_arguments() {
    let mut executor = TestExecutor::new();
    let command = Command::new("echo", vec!["foo", "bar"]);

    assert_eq!(run(&AST::Command(command), &mut executor), Ok(Some(true)));
    assert_eq!(executor.history, vec![("echo".to_owned(), vec!["foo".to_owned(), "bar".to_owned()])]);
}

#[test]
fn failed_command_ends_block_before_the_next() {
    let mut executor = TestExecutor::new();
    let block = Block(vec![AST::Command(cmd("a")), AST::Command(cmd("b"))]);

    executor.will_fail();

    assert_eq!(run(&AST::Block(block), &mut executor), Ok(Some(false)));
    assert_eq!(executor.names(), vec!["a"]);
}

#[test]
fn conditional_runs_predicate_once_and_one_branch() {
    let conditional = |with_else: bool| {
        AST::If(Conditional::new(
            cmd("p"),
            AST::Command(cmd("yes")),
            if with_else { Some(AST::Command(cmd("no"))) } else { None },
        ))
    };

    let mut executor = TestExecutor::new();
    assert_eq!(run(&conditional(true), &mut executor), Ok(Some(true)));
    assert_eq!(executor.names(), vec!["p", "yes"]);

    let mut executor = TestExecutor::new();
    executor.will_fail();
    executor.will_fail();
    assert_eq!(run(&conditional(true), &mut executor), Ok(Some(false)));
    assert_eq!(executor.names(), vec!["p", "no"]);

    let mut executor = TestExecutor::new();
    executor.will_fail();
    assert_eq!(run(&conditional(false), &mut executor), Ok(None));
    assert_eq!(executor.names(), vec!["p"]);

    let mut executor = TestExecutor::new();
    executor.will_error(ExecError::new("no such file"));
    assert_eq!(
        run(&conditional(true), &mut executor),
        Err(ExecError::new("no such file"))
    );
    assert_eq!(executor.names(), vec!["p"]);
}

#[test]
fn predicate_status_is_not_the_result() {
    let mut executor = TestExecutor::new();
    let conditional = Conditional::new(cmd("p"), AST::Command(cmd("yes")), None);

    executor.will_succeed();
    executor.will_fail();

    assert_eq!(run(&AST::If(conditional), &mut executor), Ok(Some(false)));
}

#[test]
fn loop_runs_body_as_often_as_the_predicate_succeeds() {
    for n in 0..6usize {
        let mut executor = TestExecutor::new();
        let while_ = AST::While(While::new(cmd("p"), AST::Command(cmd("b"))));
        for _ in 0..n {
            executor.will_succeed();
            executor.will_succeed();
        }
        executor.will_fail();

        let result = run(&while_, &mut executor);

        assert_eq!(result, Ok(if n == 0 { None } else { Some(true) }));
        assert_eq!(executor.count("b"), n);
        assert_eq!(executor.count("p"), n + 1);
    }
}

#[test]
fn body_failure_ends_loop_without_another_check() {
    let mut executor = TestExecutor::new();
    let while_ = AST::While(While::new(cmd("p"), AST::Command(cmd("b"))));

    executor.will_succeed();
    executor.will_succeed();
    executor.will_succeed();
    executor.will_fail();

    assert_eq!(run(&while_, &mut executor), Ok(Some(false)));
    assert_eq!(executor.names(), vec!["p", "b", "p", "b"]);
}

#[test]
fn loop_over_comments_keeps_no_status() {
    let mut executor = TestExecutor::new();
    let while_ = AST::While(While::new(
        cmd("p"),
        AST::Block(Block(vec![AST::Comment("nothing".to_owned())])),
    ));

    executor.will_succeed();
    executor.will_succeed();
    executor.will_fail();

    assert_eq!(run(&while_, &mut executor), Ok(None));
    assert_eq!(executor.names(), vec!["p", "p", "p"]);
}

#[test]
fn error_in_body_ends_everything() {
    let mut executor = TestExecutor::new();
    let script = AST::Block(Block(vec![
        AST::While(While::new(cmd("p"), AST::Command(cmd("b")))),
        AST::Command(cmd("after")),
    ]));

    executor.will_succeed();
    executor.will_error(ExecError::new("gone"));

    assert_eq!(run(&script, &mut executor), Err(ExecError::new("gone")));
    assert_eq!(executor.names(), vec!["p", "b"]);
}

#[test]
fn comments_in_a_block_do_not_change_its_status() {
    let mut executor = TestExecutor::new();
    let block = AST::Block(Block(vec![
        AST::Comment("first".to_owned()),
        AST::Command(cmd("a")),
        AST::Comment("last".to_owned()),
        AST::Block(Block(vec![])),
    ]));

    assert_eq!(run(&block, &mut executor), Ok(Some(true)));
    assert_eq!(executor.names(), vec!["a"]);
}

#[test]
fn failure_inside_ends_the_outer_block_too() {
    let mut executor = TestExecutor::new();
    let script = AST::Block(Block(vec![
        AST::Block(Block(vec![AST::Command(cmd("a")), AST::Command(cmd("b"))])),
        AST::Command(cmd("c")),
    ]));

    executor.will_fail();

    assert_eq!(run(&script, &mut executor), Ok(Some(false)));
    assert_eq!(executor.names(), vec!["a"]);
}

#[test]
fn nested_loops() {
    let mut executor = TestExecutor::new();
    let inner = AST::While(While::new(cmd("q"), AST::Command(cmd("b"))));
    let outer = AST::While(While::new(cmd("p"), inner));

    executor.will_succeed(); // p
    executor.will_succeed(); // q
    executor.will_succeed(); // b
    executor.will_fail(); // q
    executor.will_succeed(); // p
    executor.will_fail(); // q
    executor.will_fail(); // p

    assert_eq!(run(&outer, &mut executor), Ok(Some(true)));
    assert_eq!(executor.names(), vec!["p", "q", "b", "q", "p", "q", "p"]);
}

#[test]
fn pending_names_the_next_program() {
    let script = AST::Block(Block(vec![
        AST::Command(Command::new("a", vec!["1"])),
        AST::Command(Command::new("b", vec!["2"])),
    ]));

    let first = match script.execute::<bool>() {
        Execution::Pending(s) => s,
        Execution::Done(_) => panic!("nothing to run"),
    };
    assert_eq!(first.command(), &Command::new("a", vec!["1"]));
    let second = match first.resume(Ok(true)) {
        Execution::Pending(s) => s,
        Execution::Done(_) => panic!("ended early"),
    };
    assert_eq!(second.command(), &Command::new("b", vec!["2"]));
    match second.resume(Ok(false)) {
        Execution::Pending(_) => panic!("nothing is left"),
        Execution::Done(result) => assert_eq!(result, Ok(Some(false))),
    }
}

#[test]
fn bool_is_its_own_success() {
    assert!(true.success());
    assert!(!false.success());
}

#[test]
fn error_keeps_its_message() {
    assert_eq!(ExecError::new("spawn failed").message, "spawn failed");
}

#[test]
fn recorded_success_is_what_counts() {
    let script = AST::Block(Block(vec![AST::Command(cmd("a")), AST::Command(cmd("b"))]));
    let first = match script.execute::<Exit<i32>>() {
        Execution::Pending(s) => s,
        Execution::Done(_) => panic!("nothing to run"),
    };
    let second = match first.resume(Ok(Exit { status: 7, success: true })) {
        Execution::Pending(s) => s,
        Execution::Done(_) => panic!("ended early"),
    };
    assert_eq!(second.command(), &cmd("b"));
    match second.resume(Ok(Exit { status: 0, success: false })) {
        Execution::Pending(_) => panic!("nothing is left"),
        Execution::Done(result) => {
            assert_eq!(result, Ok(Some(Exit { status: 0, success: false })))
        }
    }
    assert!(Exit { status: 1, success: true }.success());
    assert!(!Exit { status: 0, success: false }.success());
}

#[test]
fn limit_stops_a_loop_that_would_not_end() {
    let mut executor = TestExecutor::new();
    let forever = AST::While(While::new(cmd("p"), AST::Command(cmd("b"))));

    let after_five = forever.execute_with(&mut executor, 5);

    assert_eq!(executor.names(), vec!["p", "b", "p", "b", "p"]);
    let suspended = match after_five {
        Execution::Pending(s) => s,
        Execution::Done(_) => panic!("the loop cannot end"),
    };
    assert_eq!(suspended.command(), &cmd("b"));

    executor.will_succeed();
    executor.will_fail();
    let end = Execution::Pending(suspended).run(&mut executor, 5);

    assert_eq!(executor.names(), vec!["p", "b", "p", "b", "p", "b", "p"]);
    match end {
        Execution::Pending(_) => panic!("the predicate failed"),
        Execution::Done(result) => assert_eq!(result, Ok(Some(true))),
    }
}

#[test]
fn limit_of_nothing_runs_nothing() {
    let mut executor = TestExecutor::new();
    let script = AST::Block(Block(vec![AST::Command(cmd("a"))]));

    match script.execute_with(&mut executor, 0) {
        Execution::Pending(s) => assert_eq!(s.command(), &cmd("a")),
        Execution::Done(_) => panic!("nothing was run"),
    }
    assert_eq!(executor.last(), None);

    match AST::Comment("c".to_owned()).execute_with(&mut executor, 0) {
        Execution::Pending(_) => panic!("a comment runs nothing"),
        Execution::Done(result) => assert_eq!(result, Ok(None)),
    }
}

#[test]
fn run_on_what_is_done_changes_nothing() {
    let mut executor = TestExecutor::new();
    let done: Execution<bool> = Execution::Done(Ok(Some(false)));

    match done.run(&mut executor, 3) {
        Execution::Pending(_) => panic!("it was done"),
        Execution::Done(result) => assert_eq!(result, Ok(Some(false))),
    }
    assert_eq!(executor.last(), None);
}

#[test]
fn command_hands_over_name_and_arguments() {
    let mut executor = TestExecutor::new();
    let command = Command::new("echo", vec!["a b", "", "c"]);

    executor.will_fail();

    assert_eq!(command.execute(&mut executor), Ok(false));
    assert_eq!(executor.last(), Some(("echo", vec!["a b", "", "c"])));
    executor.will_error(ExecError::new("no"));
    assert_eq!(command.execute(&mut executor), Err(ExecError::new("no")));
}

#[test]
fn arguments_are_the_texts_in_order() {
    let command = Command::new("echo", vec!["a b", "", "c"]);

    assert_eq!(command.arguments(), vec!["a b", "", "c"]);
    assert!(cmd("true").arguments().is_empty());
}
