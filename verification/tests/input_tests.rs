use wash::input::InputLine;
use wash::types::InputValue;
use wash::types::InputValue::{Function, Literal, Long, Short, Split};

fn test_input_against(line: String, against: InputValue) -> bool {
    // type the line one character at a time; after each character, removing
    // it and typing it again must lead back to the same states
    let mut input = InputLine::new();
    let mut st = line.clone();
    let mut bst = String::new();
    let mut out = String::new();
    let mut bout = String::new();
    loop {
        match st.pop() {
            Some(ch) => bst.push(ch),
            None => break,
        }
    }
    loop {
        match bst.pop() {
            None => break,
            Some(ch) => {
                let ooinput = input.clone();
                if !input.push(ch) {
                    println!("Refused to push character: \"{}\"", ch);
                    return false;
                }
                let oinput = input.clone();
                let popped = input.pop();
                if popped != Some(ch) {
                    println!("Didn't pop out the same character: pushed \"{}\" got {:?}", ch, popped);
                    return false;
                }
                if input.back != ooinput.back || input.front != ooinput.front || input.part != ooinput.part {
                    println!("Popping didn't return to state before pushing: \"{}\"", ch);
                    return false;
                }
                input.push(ch);
                if input.back != oinput.back || input.front != oinput.front || input.part != oinput.part {
                    println!("Pushing didn't return to state before popping: \"{}\"", ch);
                    return false;
                }
            }
        }
    }
    match input.process() {
        Some(ref v) if v.clone() == against => {}
        Some(ref v) => {
            println!("{:?}", v);
            return false;
        }
        _ => return false,
    };
    loop {
        match input.pop() {
            Some(ch) => out.push(ch),
            None => break,
        }
    }
    loop {
        match out.pop() {
            Some(ch) => bout.push(ch),
            None => break,
        }
    }
    if bout != line {
        println!("Out: {}", bout);
        return false;
    }
    true
}

#[test]
fn test_input() {
    // test short
    assert!(test_input_against("hello_world".to_string(), Long(vec![Short("hello_world".to_string())])));

    // test literal
    assert!(test_input_against("\"hello world\"".to_string(), Long(vec![Literal("hello world".to_string())])));

    // test arg list
    assert!(test_input_against(
        "hello_world, \"hello world\", another arg".to_string(),
        Long(vec![
            Short("hello_world".to_string()),
            Split(", ".to_string()),
            Literal("hello world".to_string()),
            Split(", ".to_string()),
            Short("another".to_string()),
            Split(" ".to_string()),
            Short("arg".to_string())
        ])
    ));

    // test function
    assert!(test_input_against(
        "test_func(hello_world, \"hello world\", \"another arg\")".to_string(),
        Long(vec![Function(
            "test_func".to_string(),
            vec![
                Short("hello_world".to_string()),
                Split(", ".to_string()),
                Literal("hello world".to_string()),
                Split(", ".to_string()),
                Literal("another arg".to_string()),
            ]
        )])
    ));

    // test function
    assert!(test_input_against(
        "test_func(\"hello world\")".to_string(),
        Long(vec![Function("test_func".to_string(), vec![Literal("hello world".to_string()),])])
    ));

    // test nested lists
    assert!(test_input_against(
        "list (within (lists (within lists)))".to_string(),
        Long(vec![
            Short("list".to_string()),
            Split(" ".to_string()),
            Long(vec![
                Short("within".to_string()),
                Split(" ".to_string()),
                Long(vec![
                    Short("lists".to_string()),
                    Split(" ".to_string()),
                    Long(vec![Short("within".to_string()), Split(" ".to_string()), Short("lists".to_string())])
                ])
            ])
        ])
    ));

    // more complex list testing
    assert!(test_input_against(
        "((((()))))".to_string(),
        Long(vec![Long(vec![Long(vec![Long(vec![Long(vec![Long(vec![])])])])])])
    ));

    // more complex list testing
    assert!(test_input_against(
        "(((((\"test arg\")))))".to_string(),
        Long(vec![Long(vec![Long(vec![Long(vec![Long(vec![Long(vec![Literal("test arg".to_string())])])])])])])
    ));

    // test nested functions
    assert!(test_input_against(
        "functions(calling functions(calling functions(with args)))".to_string(),
        Long(vec![Function(
            "functions".to_string(),
            vec![
                Short("calling".to_string()),
                Split(" ".to_string()),
                Function(
                    "functions".to_string(),
                    vec![
                        Short("calling".to_string()),
                        Split(" ".to_string()),
                        Function(
                            "functions".to_string(),
                            vec![Short("with".to_string()), Split(" ".to_string()), Short("args".to_string())]
                        )
                    ]
                )
            ]
        )])
    ));

    // harder test
    assert!(test_input_against(
        "function(with, (more \"args\"))".to_string(),
        Long(vec![Function(
            "function".to_string(),
            vec![
                Short("with".to_string()),
                Split(", ".to_string()),
                Long(vec![Short("more".to_string()), Split(" ".to_string()), Literal("args".to_string())])
            ]
        )])
    ));
}

fn typed(line: &str) -> InputLine {
    let mut input = InputLine::new();
    for ch in line.chars() {
        assert!(input.push(ch));
    }
    input
}

#[test]
fn pop_undoes_push_in_literal() {
    let mut input = typed("\"a b");
    let before = input.clone();
    assert!(input.push('('));
    assert_eq!(input.pop(), Some('('));
    assert!(input.back == before.back && input.front == before.front && input.fpart == before.fpart);
}

#[test]
fn pop_undoes_separator_after_word() {
    let mut input = typed("abc");
    let before = input.clone();
    assert!(input.push(','));
    assert_eq!(input.front, Split(",".to_string()));
    assert_eq!(input.pop(), Some(','));
    assert!(input.back == before.back && input.front == before.front);
}

#[test]
fn pop_undoes_call_opening() {
    let mut input = typed("f");
    let before = input.clone();
    assert!(input.push('('));
    assert_eq!(input.front, Short(String::new()));
    assert_eq!(input.pop(), Some('('));
    assert!(input.back == before.back && input.front == before.front);
}

#[test]
fn separator_at_line_start_cannot_be_removed() {
    // the structure cannot be unwound: the character is dropped and None returned
    let mut input = InputLine::new();
    assert!(input.push(' '));
    assert_eq!(input.pop(), None);
}

#[test]
fn closing_an_unopened_list_is_refused() {
    let mut input = typed("a)");
    assert!(!input.push(')'));
    assert_eq!(input.fpart, "a)".to_string());
}

#[test]
fn cursor_moves_keep_the_value() {
    let mut input = typed("f(a, b)");
    assert!(input.left());
    assert!(input.left());
    assert_eq!(input.part, ")b".to_string());
    let v = input.process();
    assert!(input.right());
    assert!(input.right());
    assert!(!input.right());
    assert_eq!(v, input.process());
}

#[test]
fn unbalanced_line_has_no_value_when_closed_too_often() {
    let input = typed("a");
    assert_eq!(input.process(), Some(Long(vec![Short("a".to_string())])));
    let mut empty = InputLine::new();
    assert!(empty.is_empty());
    assert!(empty.push('x'));
    assert!(!empty.is_empty());
    empty.clear();
    assert!(empty.is_empty());
}

#[test]
fn opening_parenthesis_at_the_start_is_undone() {
    let mut input = InputLine::new();
    let fresh = input.clone();
    assert!(input.push('('));
    assert_eq!(input.pop(), Some('('));
    assert!(input.back == fresh.back && input.front == fresh.front && input.fpart == fresh.fpart);
}

#[test]
fn moving_left_and_right_keeps_the_line() {
    let mut input = InputLine::new();
    assert!(input.push('a'));
    assert!(input.push('b'));
    let typed = input.clone();
    let value = typed.process();
    assert!(input.left());
    assert_eq!(input.fpart, "a".to_string());
    assert_eq!(input.process(), value);
    assert!(input.right());
    assert!(input.back == typed.back && input.front == typed.front && input.fpart == typed.fpart);
    assert_eq!(input.part, typed.part);
}

fn undo_each_character(line: &str) -> bool {
    let mut input = InputLine::new();
    for ch in line.chars() {
        let before = input.clone();
        if !input.push(ch) {
            return false;
        }
        let after = input.clone();
        if input.pop() != Some(ch) || input.back != before.back || input.front != before.front {
            return false;
        }
        if !input.push(ch) || input.back != after.back || input.front != after.front {
            return false;
        }
    }
    true
}

#[test]
fn typing_is_undone_character_by_character() {
    for line in ["ab cd", "f(a, b)", "\"x y\" z", "(a) (b)", "a,b", "(\"q\")", "g(h(x) y)"] {
        assert!(undo_each_character(line), "{:?}", line);
    }
    // a space where no word has begun, and an empty literal, are not undone
    assert!(!undo_each_character(" a"));
    assert!(!undo_each_character("\"\""));
}

fn same_line(a: &InputLine, b: &InputLine) -> bool {
    a.back == b.back && a.front == b.front && a.fpart == b.fpart && a.part == b.part
}

#[test]
fn cursor_moves_over_a_whole_line_are_undone() {
    for line in ["ab cd", "f(a, b)", "\"x y\" z", "(a) (b)", "g(h(x) y)"] {
        let mut input = typed(line);
        let value = input.process();
        while !input.fpart.is_empty() {
            let here = input.clone();
            assert!(input.left(), "{:?}", line);
            assert_eq!(input.process(), value, "{:?}", line);
            let moved = input.clone();
            assert!(input.right());
            assert!(same_line(&input, &here), "{:?}", line);
            input = moved;
        }
        assert!(!input.left());
        while input.right() {}
        assert_eq!(input.fpart, line.to_string());
        assert_eq!(input.process(), value);
    }
}

#[test]
fn typing_in_the_middle_of_a_line_is_undone() {
    let mut input = typed("ab cd");
    assert!(input.left());
    assert!(input.left());
    let here = input.clone();
    assert!(input.push('x'));
    assert_eq!(input.pop(), Some('x'));
    assert!(same_line(&input, &here));
    assert!(input.push('x'));
    assert_eq!(input.part, "dc".to_string());
    assert!(input.right());
    assert!(input.right());
    assert_eq!(input.fpart, "ab xcd".to_string());
    assert_eq!(input.process(), typed("ab xcd").process());
}

#[test]
fn removal_after_a_closed_literal_reopens_it() {
    // a character typed right after a literal closed: its removal reopens the literal
    let mut input = typed("\"a\"");
    let before = input.clone();
    assert!(input.push('b'));
    assert_eq!(input.pop(), Some('b'));
    assert_eq!(input.front, Literal("a".to_string()));
    assert!(input.front != before.front);
    // a closing parenthesis right after an opening one that follows a word
    let mut call = typed("f(");
    let before = call.clone();
    assert!(call.push(')'));
    assert_eq!(call.pop(), Some(')'));
    assert!(!same_line(&call, &before));
}
