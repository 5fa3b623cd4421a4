use wash::trans::{process_line, process_lvalue, process_rvalue};

fn rv(s: &str) -> String {
    process_rvalue(s).expect("translated")
}

#[test]
fn quoted_strings() {
    assert_eq!(rv("\"hello\""), "\"hello\".to_string()");
    assert_eq!(rv("  \"hi there\"\n"), "\"hi there\".to_string()");
    assert_eq!(rv("\"a\" x"), "");
}

#[test]
fn variables() {
    assert_eq!(rv("$env:HOME\n"), "sgetenv(\"HOME\")");
    assert_eq!(rv(" $x "), "WashEnv::getv(env, \"x\".to_string())");
    assert_eq!(rv("$a:"), "WashEnv::getv(env, \"a:\".to_string())");
    assert_eq!(process_rvalue("$env:a:b"), None);
    assert_eq!(process_rvalue("$sys:login"), None);
}

#[test]
fn calls() {
    assert_eq!(
        rv("foo(\"a\", $b)"),
        "WashEnv::getf(env, \"foo\".to_string())(&vec![\"a\".to_string(), WashEnv::getv(env, \"b\".to_string())], env);"
    );
    assert_eq!(rv("f()"), "WashEnv::getf(env, \"f\".to_string())(&vec![], env);");
    assert_eq!(rv("f(g(x))"), "WashEnv::getf(env, \"f\".to_string())(&vec![, ], env);");
    assert_eq!(process_rvalue("f($p:x)"), None);
}

#[test]
fn other_values_become_nothing() {
    assert_eq!(rv("plain words"), "");
    assert_eq!(rv(""), "");
}

#[test]
fn left_sides() {
    assert_eq!(
        process_lvalue("$env:PATH "),
        Some(vec!["std::os::setenv(\"PATH\", ".to_string(), ".as_slice());".to_string()])
    );
    assert_eq!(process_lvalue("$x "), Some(vec!["env.insv(\"x\".to_string(), ".to_string(), ");".to_string()]));
    assert_eq!(process_lvalue("x "), Some(vec![]));
    assert_eq!(process_lvalue("$p:x"), None);
}

#[test]
fn whole_lines() {
    assert_eq!(process_line("$x = \"hi\"\n"), Some("env.insv(\"x\".to_string(), \"hi\".to_string());".to_string()));
    assert_eq!(
        process_line("$env:A = $b\n"),
        Some("std::os::setenv(\"A\", WashEnv::getv(env, \"b\".to_string()).as_slice());".to_string())
    );
    assert_eq!(
        process_line("print($x)\n"),
        Some("WashEnv::getf(env, \"print\".to_string())(&vec![WashEnv::getv(env, \"x\".to_string())], env);".to_string())
    );
    assert_eq!(process_line("x = 1"), Some(String::new()));
    assert_eq!(process_line("$sys:a = 1"), None);
    assert_eq!(process_line("$x = $p:y"), None);
}
