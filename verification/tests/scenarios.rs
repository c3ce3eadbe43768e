use cinnamon::ast::AST;
use cinnamon::execution::Execution;
use cinnamon::parse::{script, Parse};
use cinnamon::status::ExecError;

fn run_all(statements: &[AST], replies: &[Result<bool, ExecError>]) -> (Vec<Vec<String>>, Vec<Result<Option<bool>, ExecError>>) {
    let mut spawned = Vec::new();
    let mut results = Vec::new();
    let mut next = 0;
    for statement in statements {
        let mut execution = statement.execute::<bool>();
        loop {
            match execution {
                Execution::Done(result) => {
                    results.push(result);
                    break;
                }
                Execution::Pending(suspended) => {
                    let command = suspended.command();
                    let mut line = vec![command.command.clone()];
                    line.extend(command.args.iter().cloned());
                    spawned.push(line);
                    let reply = if next < replies.len() {
                        match &replies[next] {
                            Ok(status) => Ok(*status),
                            Err(e) => Err(ExecError::new(&e.message)),
                        }
                    } else {
                        Ok(true)
                    };
                    next += 1;
                    execution = suspended.resume(reply);
                }
            }
        }
    }
    (spawned, results)
}

fn words(line: &[&str]) -> Vec<String> {
    line.iter().map(|s| s.to_string()).collect()
}

#[test]
fn comment_script_spawns_nothing() {
    let tree = script(&b"# hello\n"[..]).unwrap();
    let (spawned, results) = run_all(&tree, &[]);

    assert!(spawned.is_empty());
    assert_eq!(results, vec![Ok(None)]);
}

#[test]
fn command_script_spawns_the_command() {
    let tree = script(&b"echo foo bar;"[..]).unwrap();
    let (spawned, results) = run_all(&tree, &[]);

    assert_eq!(spawned, vec![words(&["echo", "foo", "bar"])]);
    assert_eq!(results, vec![Ok(Some(true))]);
}

#[test]
fn true_predicate_spawns_only_the_first_branch() {
    let tree = script(&b"if true {echo yes;} else {echo no;}"[..]).unwrap();
    let (spawned, _) = run_all(&tree, &[Ok(true)]);

    assert_eq!(spawned, vec![words(&["true"]), words(&["echo", "yes"])]);
}

#[test]
fn false_predicate_spawns_only_the_second_branch() {
    let tree = script(&b"if true {echo yes;} else {echo no;}"[..]).unwrap();
    let (spawned, _) = run_all(&tree, &[Ok(false)]);

    assert_eq!(spawned, vec![words(&["true"]), words(&["echo", "no"])]);
}

#[test]
fn loop_with_two_rounds() {
    let tree = script(&b"while true {echo x;}"[..]).unwrap();
    let (spawned, results) = run_all(&tree, &[Ok(true), Ok(true), Ok(true), Ok(true), Ok(false)]);

    assert_eq!(
        spawned,
        vec![
            words(&["true"]),
            words(&["echo", "x"]),
            words(&["true"]),
            words(&["echo", "x"]),
            words(&["true"]),
        ]
    );
    assert_eq!(results, vec![Ok(Some(true))]);
}

#[test]
fn quoted_blank_reaches_the_program() {
    let tree = script(&b"echo \"a b\";"[..]).unwrap();
    let (spawned, _) = run_all(&tree, &[]);

    assert_eq!(spawned, vec![words(&["echo", "a b"])]);
}

#[test]
fn invalid_script_runs_nothing() {
    let file: Vec<u8> = vec![0x7f];

    assert!(file.parse().is_err());
}

#[test]
fn statements_run_in_file_order() {
    let tree = script(&b"a 1;\n# note\nb 2;\n{ c; d; }\n"[..]).unwrap();
    let (spawned, results) = run_all(&tree, &[Ok(true), Ok(false), Ok(false)]);

    assert_eq!(
        spawned,
        vec![words(&["a", "1"]), words(&["b", "2"]), words(&["c"])]
    );
    assert_eq!(
        results,
        vec![Ok(Some(true)), Ok(None), Ok(Some(false)), Ok(Some(false))]
    );
}
