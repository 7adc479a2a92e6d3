use rush::parser::{parse_line, Ast, DisplayAst};
use rush::runner::plan::{pipe_count, pipeline_group};
use rush::runner::{advance, argv_of, plan, wire, Error, Progress, Step};

#[test]
fn argv_starts_with_the_program_name() {
    let source = "echo  hi there";
    let Ast::Command(cmd) = parse_line(source).unwrap() else { panic!() };
    assert_eq!(argv_of(&cmd, source), vec!["echo", "hi", "there"]);
    let source = "ls";
    let Ast::Command(cmd) = parse_line(source).unwrap() else { panic!() };
    assert_eq!(argv_of(&cmd, source), vec!["ls"]);
}

#[test]
fn pipeline_stages_are_wired_in_a_row() {
    let source = "echo hello | tr a-z A-Z | wc -l";
    let Ast::Pipeline(commands) = parse_line(source).unwrap() else { panic!() };
    let stages = wire(&commands, source);
    assert_eq!(stages.len(), 3);
    assert_eq!(pipe_count(stages.len()), 2);
    assert_eq!(stages[0].argv, vec!["echo", "hello"]);
    assert_eq!(stages[0].stdin_pipe, None);
    assert_eq!(stages[0].stdout_pipe, Some(0));
    assert_eq!(stages[1].argv, vec!["tr", "a-z", "A-Z"]);
    assert_eq!(stages[1].stdin_pipe, Some(0));
    assert_eq!(stages[1].stdout_pipe, Some(1));
    assert_eq!(stages[2].argv, vec!["wc", "-l"]);
    assert_eq!(stages[2].stdin_pipe, Some(1));
    assert_eq!(stages[2].stdout_pipe, None);
}

#[test]
fn two_stage_pipeline_needs_one_pipe() {
    let source = "echo hello | wc -l";
    let Ast::Pipeline(commands) = parse_line(source).unwrap() else { panic!() };
    let stages = wire(&commands, source);
    assert_eq!(pipe_count(stages.len()), 1);
    assert_eq!(stages[0].stdout_pipe, Some(0));
    assert_eq!(stages[1].stdin_pipe, Some(0));
    assert_eq!(stages[1].stdout_pipe, None);
}

#[test]
fn pipe_counts() {
    assert_eq!(pipe_count(0), 0);
    assert_eq!(pipe_count(1), 0);
    assert_eq!(pipe_count(2), 1);
    assert_eq!(pipe_count(9), 8);
}

#[test]
fn first_child_leads_the_group() {
    assert_eq!(pipeline_group(None, 500), 500);
    assert_eq!(pipeline_group(Some(500), 501), 500);
    assert_eq!(pipeline_group(Some(500), 502), 500);
}

#[test]
fn single_command_is_one_step() {
    let source = "echo hi";
    let tree = parse_line(source).unwrap();
    let steps = plan(&tree, source);
    assert_eq!(steps.len(), 1);
    let Step::Command(argv) = &steps[0] else { panic!() };
    assert_eq!(argv, &vec!["echo".to_string(), "hi".to_string()]);
}

#[test]
fn sequence_gives_its_steps_in_order() {
    let source = "a 1; b | c; d &; e";
    let tree = parse_line(source).unwrap();
    let steps = plan(&tree, source);
    assert_eq!(steps.len(), 4);
    let Step::Command(argv) = &steps[0] else { panic!() };
    assert_eq!(argv, &vec!["a".to_string(), "1".to_string()]);
    let Step::Pipeline(stages) = &steps[1] else { panic!() };
    assert_eq!(stages.len(), 2);
    assert_eq!(stages[1].argv, vec!["c"]);
    let Step::Background { tree: inner, command } = &steps[2] else { panic!() };
    assert_eq!(command, "d");
    assert_eq!(inner.to_string(source), "d");
    let Step::Command(argv) = &steps[3] else { panic!() };
    assert_eq!(argv, &vec!["e".to_string()]);
}

#[test]
fn background_job_keeps_its_tree_and_text() {
    let source = "sleep 2|cat &";
    let tree = parse_line(source).unwrap();
    let steps = plan(&tree, source);
    assert_eq!(steps.len(), 1);
    let Step::Background { tree: inner, command } = &steps[0] else { panic!() };
    assert_eq!(command, "sleep 2 | cat");
    assert!(matches!(inner, Ast::Pipeline(_)));
    let inner_steps = plan(inner, source);
    assert_eq!(inner_steps.len(), 1);
    assert!(matches!(inner_steps[0], Step::Pipeline(_)));
}

#[test]
fn nested_sequences_are_walked_through() {
    let source = "a b c";
    let Ast::Command(cmd) = parse_line(source).unwrap() else { panic!() };
    let tree = Ast::Sequence(vec![
        Ast::Sequence(vec![Ast::Command(cmd.clone()), Ast::Pipeline(vec![])]),
        Ast::Command(cmd.clone()),
        Ast::Sequence(vec![]),
    ]);
    let steps = plan(&tree, source);
    assert_eq!(steps.len(), 2);
    assert!(matches!(steps[0], Step::Command(_)));
    assert!(matches!(steps[1], Step::Command(_)));
}

#[test]
fn empty_pipeline_is_no_step() {
    assert_eq!(plan(&Ast::Pipeline(vec![]), "").len(), 0);
}

#[test]
fn steps_are_taken_in_order_until_one_fails() {
    assert_eq!(advance(3, 0, Ok(())), Progress::Perform(0));
    assert_eq!(advance(3, 1, Ok(())), Progress::Perform(1));
    assert_eq!(advance(3, 2, Ok(())), Progress::Perform(2));
    assert_eq!(advance(3, 3, Ok(())), Progress::Finished(Ok(())));
    assert_eq!(advance(0, 0, Ok(())), Progress::Finished(Ok(())));
    assert_eq!(advance(3, 1, Err(Error::Unix(11))), Progress::Finished(Err(Error::Unix(11))));
    assert_eq!(advance(3, 3, Err(Error::Unix(2))), Progress::Finished(Err(Error::Unix(2))));
}

#[test]
fn trees_know_whether_they_fit_a_source() {
    let source = "caf\u{e9} x | y";
    let tree = parse_line(source).unwrap();
    assert!(tree.fits_in(source));
    assert!(!tree.fits_in("caf"));
    assert!(!tree.fits_in("\u{4e16}\u{754c}\u{4e16}\u{754c}"));
    let Ast::Pipeline(commands) = &tree else { panic!() };
    assert!(commands[0].fits_in(source));
    assert!(commands[0].program.fits_in(source));
    assert!(!commands[0].program.fits_in("ab\u{e9}\u{e9}"));
}
