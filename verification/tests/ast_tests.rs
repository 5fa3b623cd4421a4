use wash::ast::{load_handlers, AST};
use wash::input::InputLine;
use wash::runner::{Event, Runner};
use wash::types::{Action, InputValue, SectionType, WashArgs};

fn line_value(line: &str) -> InputValue {
    let mut input = InputLine::new();
    for ch in line.chars() {
        assert!(input.push(ch), "refused {:?} in {:?}", ch, line);
    }
    input.process().expect("line has a value")
}

fn flat(s: &str) -> WashArgs {
    WashArgs::Flat(s.to_string())
}

fn call(s: &str) -> Action {
    Action::Call(s.to_string())
}

fn run_section(ast: &AST, k: SectionType) -> Vec<Action> {
    let mut out = vec![];
    let mut i = 0;
    while let Some(a) = ast.action_at(k, i) {
        out.push(a);
        i += 1;
    }
    out
}

#[test]
fn plain_command_compiles_to_a_run() {
    let mut ast = AST::new();
    load_handlers(&mut ast);
    assert!(ast.add_line(&line_value("echo hi")).is_ok());
    assert_eq!(
        run_section(&ast, SectionType::Run),
        vec![
            Action::Assign(flat("echo")),
            Action::Temp,
            Action::Assign(flat("hi")),
            Action::Temp,
            Action::Join(2),
            call("run"),
            call("describe_process_output"),
        ]
    );
}

#[test]
fn single_word_line_runs_the_word() {
    let mut ast = AST::new();
    assert!(ast.add_line(&line_value("ls")).is_ok());
    assert_eq!(
        run_section(&ast, SectionType::Run),
        vec![Action::Assign(flat("ls")), Action::Temp, Action::Pull, call("run"), call("describe_process_output")]
    );
}

#[test]
fn variable_word_is_loaded() {
    let mut ast = AST::new();
    assert!(ast.add_line(&line_value("$x")).is_ok());
    assert_eq!(
        run_section(&ast, SectionType::Run),
        vec![
            Action::Assign(flat("$x")),
            Action::Load,
            Action::Temp,
            Action::Pull,
            call("run"),
            call("describe_process_output")
        ]
    );
}

#[test]
fn optimize_combines_actions() {
    let mut ast = AST::new();
    load_handlers(&mut ast);
    assert!(ast.add_line(&line_value("echo hi")).is_ok());
    assert_eq!(ast.opcombine(), Ok(true));
    assert_eq!(
        run_section(&ast, SectionType::Run),
        vec![
            Action::Insert(flat("echo")),
            Action::Insert(flat("hi")),
            Action::Proc("run".to_string(), 2),
            Action::Proc("describe_process_output".to_string(), 1),
            Action::Pull,
        ]
    );
    assert_eq!(ast.opcombine(), Ok(false));
    assert_eq!(ast.jumpreduce(), Ok(false));
}

#[test]
fn optimize_turns_variable_load_into_stack() {
    let mut ast = AST::new();
    assert!(ast.add_line(&line_value("echo $p:x")).is_ok());
    assert!(ast.optimize().is_ok());
    let acts = run_section(&ast, SectionType::Run);
    assert_eq!(acts[0], Action::Insert(flat("echo")));
    assert_eq!(acts[1], Action::Stack("x".to_string(), "p".to_string()));
}

#[test]
fn optimize_reports_missing_section() {
    let mut ast = AST::new();
    assert_eq!(ast.opcombine(), Err("Section not found: .run".to_string()));
}

#[test]
fn evaluate_asks_for_calls_and_finishes() {
    let mut ast = AST::new();
    load_handlers(&mut ast);
    assert!(ast.add_line(&line_value("echo hi")).is_ok());
    assert!(ast.optimize().is_ok());
    let mut runner = ast.evaluate().expect("no block is open");
    let mut calls = vec![];
    let result = loop {
        match runner.step(&ast) {
            Event::Continue => {}
            Event::Finished(v) => break Ok(v),
            Event::Failed(e) => break Err(e),
            Event::Call(name, args) => {
                calls.push((name.clone(), args.clone()));
                let reply = if name == "run" {
                    Ok(WashArgs::Long(vec![flat("status"), flat("0")]))
                } else {
                    Ok(WashArgs::Empty)
                };
                assert!(runner.resume(reply).is_none());
            }
            Event::GetVar(..) | Event::SetVar(..) => panic!("no variable is used"),
        }
    };
    assert_eq!(result, Ok(WashArgs::Empty));
    assert_eq!(
        calls,
        vec![
            ("run".to_string(), WashArgs::Long(vec![flat("echo"), flat("hi")])),
            ("describe_process_output".to_string(), WashArgs::Long(vec![flat("status"), flat("0")])),
        ]
    );
}

#[test]
fn failed_call_ends_the_run() {
    let mut runner = Runner::new();
    let mut ast = AST::new();
    assert!(ast.add_line(&line_value("ls")).is_ok());
    loop {
        match runner.step(&ast) {
            Event::Continue => {}
            Event::Call(name, _) => {
                assert_eq!(name, "run");
                assert_eq!(runner.resume(Err("Command Failed".to_string())), Some("Command Failed".to_string()));
                break;
            }
            other => panic!("unexpected {:?}", other),
        }
    }
}

#[test]
fn evaluate_refuses_open_block() {
    let mut ast = AST::new();
    load_handlers(&mut ast);
    assert!(ast.add_line(&line_value("if! x {")).is_ok());
    assert!(ast.in_block());
    assert_eq!(ast.evaluate().err(), Some("Tried to evaluate while in block".to_string()));
}

#[test]
fn assignment_compiles_to_store() {
    let mut ast = AST::new();
    load_handlers(&mut ast);
    assert!(ast.add_line(&line_value("$x = hi")).is_ok());
    let acts = run_section(&ast, SectionType::Run);
    assert!(acts.contains(&Action::Store));
    assert!(ast.optimize().is_ok());
    let mut runner = ast.evaluate().unwrap();
    let mut set = None;
    loop {
        match runner.step(&ast) {
            Event::Continue => {}
            Event::SetVar(n, p, v) => {
                set = Some((n, p, v));
                assert!(runner.resume(Ok(flat("hi"))).is_none());
            }
            Event::Finished(_) => break,
            other => panic!("unexpected {:?}", other),
        }
    }
    assert_eq!(set, Some(("x".to_string(), None, flat("hi"))));
}

#[test]
fn end_block_without_block_fails() {
    let mut ast = AST::new();
    assert_eq!(ast.end_block(), Err("No block to end".to_string()));
    let k = ast.new_section();
    assert_eq!(k, SectionType::Run);
    assert_eq!(ast.get_position(), SectionType::Number(0));
}

#[test]
fn clear_forgets_sections() {
    let mut ast = AST::new();
    assert!(ast.add_line(&line_value("ls")).is_ok());
    ast.clear();
    assert!(ast.action_at(SectionType::Run, 0).is_none());
    assert!(!ast.has_section(SectionType::Run));
}

fn words(parts: &[&str]) -> InputValue {
    let mut v = vec![];
    for (i, p) in parts.iter().enumerate() {
        if i > 0 {
            v.push(InputValue::Split(" ".to_string()));
        }
        v.push(InputValue::Short(p.to_string()));
    }
    InputValue::Long(v)
}

fn refusal_of(line: InputValue) -> String {
    let mut ast = AST::new();
    load_handlers(&mut ast);
    ast.add_line(&line).err().expect("the line is refused")
}

#[test]
fn assignment_needs_a_name() {
    assert_eq!(refusal_of(words(&["=", "hi"])), "Nothing to assign to");
}

#[test]
fn comparison_needs_a_right_side() {
    let mut line = match words(&["a", "=="]) {
        InputValue::Long(v) => v,
        _ => unreachable!(),
    };
    line.push(InputValue::Split(" ".to_string()));
    assert_eq!(refusal_of(InputValue::Long(line)), "Nothing to compare with");
}

#[test]
fn join_needs_a_left_side() {
    assert_eq!(refusal_of(words(&[".", "x"])), "Nothing to join with");
}

#[test]
fn redirect_needs_a_file_name() {
    assert_eq!(refusal_of(words(&["ls", ">"])), "No file name given");
    assert_eq!(refusal_of(words(&["cat", "<"])), "No file name given");
}

#[test]
fn elif_and_else_need_an_if() {
    assert_eq!(refusal_of(words(&["elif!", "x", "{"])), "No proceeding if block for elif");
    assert_eq!(refusal_of(words(&["else!", "{"])), "No proceeding if block for else");
}

#[test]
fn closing_brace_needs_a_block() {
    assert_eq!(refusal_of(words(&["}"])), "No block to end");
}

#[test]
fn if_block_opens_and_closes() {
    let mut ast = AST::new();
    load_handlers(&mut ast);
    assert!(ast.add_line(&words(&["if!", "x", "{"])).is_ok());
    assert!(ast.in_block());
    assert!(ast.add_line(&words(&["ls"])).is_ok());
    assert!(ast.add_line(&words(&["}"])).is_ok());
    assert!(!ast.in_block());
    let run = run_section(&ast, SectionType::Run);
    assert!(run.contains(&Action::Branch(0)));
    assert!(run.contains(&Action::Jump(2)));
}

#[test]
fn jumpreduce_removes_empty_sections() {
    let mut ast = AST::new();
    load_handlers(&mut ast);
    assert!(ast.add_line(&words(&["act!", "{"])).is_ok());
    assert!(ast.add_line(&words(&["ls"])).is_ok());
    assert!(ast.add_line(&words(&["}"])).is_ok());
    assert!(ast.has_section(SectionType::Number(1)));
    assert_eq!(ast.jumpreduce(), Ok(true));
    assert!(!ast.has_section(SectionType::Number(0)));
    assert!(!ast.has_section(SectionType::Number(1)));
    assert_eq!(run_section(&ast, SectionType::Run)[0], Action::Assign(flat("ls")));
    assert_eq!(ast.jumpreduce(), Ok(false));
}

#[test]
fn jumpreduce_empties_a_block_with_nothing_in_it() {
    let mut ast = AST::new();
    load_handlers(&mut ast);
    assert!(ast.add_line(&words(&["act!", "{"])).is_ok());
    assert!(ast.add_line(&words(&["}"])).is_ok());
    assert_eq!(ast.jumpreduce(), Ok(true));
    assert!(run_section(&ast, SectionType::Run).is_empty());
    assert_eq!(ast.jumpreduce(), Ok(false));
}

#[test]
fn debug_text_lists_the_sections() {
    let mut ast = AST::new();
    load_handlers(&mut ast);
    assert!(ast.add_line(&words(&["ls"])).is_ok());
    let mut expected = String::from("\nPosition: .run\nExtra section number: 0\n\n.run\n");
    for a in run_section(&ast, SectionType::Run) {
        expected.push_str(&a.debug_text());
        expected.push('\n');
    }
    expected.push('\n');
    assert_eq!(ast.debug_text(), expected);
    assert!(expected.contains("Set(Flat(ls))"));
}

#[test]
fn jumpreduce_reports_missing_section() {
    let mut ast = AST::new();
    assert_eq!(ast.jumpreduce(), Err("Section not found: .run".to_string()));
}

fn run_plain(ast: &mut AST) -> Result<WashArgs, String> {
    let mut runner = ast.evaluate().expect("no block is open");
    loop {
        match runner.step(ast) {
            Event::Continue => {}
            Event::Finished(v) => return Ok(v),
            Event::Failed(e) => return Err(e),
            _ => panic!("no outside work is asked for"),
        }
    }
}

#[test]
fn branch_is_taken_when_the_front_value_is_not_empty() {
    let mut a = AST::new();
    a.push_current(Action::Assign(flat("x")));
    a.push_current(Action::Branch(0));
    a.push_current(Action::Assign(flat("fell")));
    a.move_to(SectionType::Number(0));
    a.push_current(Action::Assign(flat("taken")));
    assert_eq!(run_plain(&mut a), Ok(flat("taken")));
}

#[test]
fn branch_falls_through_on_an_empty_front_value() {
    let mut a = AST::new();
    a.push_current(Action::Branch(0));
    a.push_current(Action::Assign(flat("fell")));
    a.move_to(SectionType::Number(0));
    a.push_current(Action::Assign(flat("taken")));
    assert_eq!(run_plain(&mut a), Ok(flat("fell")));
    a.move_to(SectionType::Run);
    assert_eq!(a.opcombine(), Ok(true));
    assert_eq!(run_section(&a, SectionType::Run), vec![Action::Assign(flat("fell"))]);
}

#[test]
fn set_then_temp_keeps_the_front_value() {
    let mut a = AST::new();
    a.push_current(Action::Assign(flat("x")));
    a.push_current(Action::Assign(flat("y")));
    a.push_current(Action::Temp);
    assert_eq!(run_plain(&mut a), Ok(WashArgs::Empty));
    assert!(a.opcombine().is_ok());
    assert_eq!(run_plain(&mut a), Ok(WashArgs::Empty));
}

#[test]
fn set_then_temp_becomes_insert_on_an_empty_front_value() {
    let mut a = AST::new();
    a.push_current(Action::Assign(flat("y")));
    a.push_current(Action::Temp);
    assert_eq!(a.opcombine(), Ok(true));
    assert_eq!(run_section(&a, SectionType::Run), vec![Action::Insert(flat("y"))]);
    assert_eq!(run_plain(&mut a), Ok(WashArgs::Empty));
}

#[test]
fn jumpreduce_inlines_a_section_jumped_to_once() {
    let mut a = AST::new();
    a.push_current(Action::Assign(flat("x")));
    a.push_current(Action::Jump(0));
    a.move_to(SectionType::Number(0));
    a.push_current(Action::Assign(flat("y")));
    a.move_to(SectionType::Run);
    assert_eq!(a.jumpreduce(), Ok(true));
    assert_eq!(run_section(&a, SectionType::Run), vec![Action::Assign(flat("x")), Action::Assign(flat("y"))]);
    assert!(!a.has_section(SectionType::Number(0)));
}

#[test]
fn stack_actions_fold_into_the_result() {
    let mut a = AST::new();
    a.push_current(Action::Assign(flat("x")));
    a.push_current(Action::Temp);
    a.push_current(Action::Insert(flat("y")));
    a.push_current(Action::ReInsert);
    a.push_current(Action::Pull);
    a.push_current(Action::Swap);
    a.push_current(Action::Join(5));
    assert_eq!(run_plain(&mut a), Ok(WashArgs::Long(vec![flat("x"), flat("y")])));
}

#[test]
fn pull_then_temp_kept_when_the_front_value_may_be_set() {
    let mut a = AST::new();
    a.push_current(Action::Assign(flat("x")));
    a.push_current(Action::Pull);
    a.push_current(Action::Temp);
    assert_eq!(run_plain(&mut a), Ok(WashArgs::Empty));
    assert_eq!(a.opcombine(), Ok(false));
    assert_eq!(run_plain(&mut a), Ok(WashArgs::Empty));
}

#[test]
fn jumpreduce_leaves_a_section_jumped_to_twice() {
    let mut a = AST::new();
    a.push_current(Action::Assign(flat("x")));
    a.push_current(Action::Branch(1));
    a.push_current(Action::Jump(0));
    a.move_to(SectionType::Number(1));
    a.push_current(Action::Assign(flat("y")));
    a.push_current(Action::Jump(0));
    a.move_to(SectionType::Number(0));
    a.push_current(Action::Assign(flat("z")));
    a.move_to(SectionType::Run);
    assert_eq!(a.jumpreduce(), Ok(false));
    assert!(a.has_section(SectionType::Number(0)));
    assert!(a.has_section(SectionType::Number(1)));
}

#[test]
fn jumpreduce_leaves_an_empty_run() {
    let mut a = AST::new();
    a.move_to(SectionType::Run);
    assert_eq!(a.jumpreduce(), Ok(false));
    assert!(a.has_section(SectionType::Run));
}

#[test]
fn opcombine_does_not_carry_the_empty_front_value_into_a_branch() {
    let mut a = AST::new();
    a.push_current(Action::Assign(flat("x")));
    a.push_current(Action::Branch(1));
    a.push_current(Action::Temp);
    a.move_to(SectionType::Number(1));
    a.push_current(Action::Assign(flat("y")));
    a.push_current(Action::Temp);
    assert_eq!(run_plain(&mut a), Ok(WashArgs::Empty));
    assert!(a.opcombine().is_ok());
    assert_eq!(run_plain(&mut a), Ok(WashArgs::Empty));
    assert_eq!(run_section(&a, SectionType::Number(1)), vec![Action::Assign(flat("y")), Action::Temp]);
}

#[test]
fn jumpreduce_keeps_what_a_run_gives() {
    let mut a = AST::new();
    a.push_current(Action::Insert(flat("a")));
    a.push_current(Action::Jump(0));
    a.move_to(SectionType::Number(0));
    a.push_current(Action::Insert(flat("b")));
    a.push_current(Action::Jump(1));
    a.move_to(SectionType::Number(1));
    a.move_to(SectionType::Run);
    let before = run_plain(&mut a);
    assert_eq!(before, Ok(WashArgs::Empty));
    let mut joined = AST::new();
    joined.push_current(Action::Insert(flat("a")));
    joined.push_current(Action::Jump(0));
    joined.move_to(SectionType::Number(0));
    joined.push_current(Action::Insert(flat("b")));
    joined.push_current(Action::Join(2));
    joined.move_to(SectionType::Run);
    let joined_before = run_plain(&mut joined);
    assert_eq!(joined_before, Ok(WashArgs::Long(vec![flat("a"), flat("b")])));
    assert_eq!(a.jumpreduce(), Ok(true));
    assert_eq!(run_plain(&mut a), before);
    assert_eq!(joined.jumpreduce(), Ok(true));
    assert_eq!(run_section(&joined, SectionType::Run), vec![
        Action::Insert(flat("a")),
        Action::Insert(flat("b")),
        Action::Join(2)
    ]);
    assert_eq!(run_plain(&mut joined), joined_before);
}
