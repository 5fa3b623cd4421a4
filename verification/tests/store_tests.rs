use wash::builtins::{
    builtins_func, describe_process_output, dot_func, equal_func, flatten_eqlist_func, get_func, getall_func,
    not_func, re_equal_func, run_failed_func, subprompt_func,
};
use wash::store::{EnvChange, VarStore};
use wash::types::WashArgs;
use wash::types::WashArgs::{Empty, Flat, Long};

fn flat(s: &str) -> WashArgs {
    Flat(s.to_string())
}

fn pair(a: &str, b: WashArgs) -> WashArgs {
    Long(vec![flat(a), b])
}

#[test]
fn set_and_read_variables() {
    let mut store = VarStore::new();
    assert_eq!(store.insv("x", flat("1")).0, Ok(flat("1")));
    assert!(store.hasv("x"));
    assert_eq!(store.getv("x"), Some(Ok(flat("1"))));
    assert_eq!(store.insvp("y", "p", flat("2")).0, Ok(flat("2")));
    assert_eq!(store.getvp("y", "p"), Some(Ok(flat("2"))));
    assert_eq!(store.getvp("z", "p"), Some(Err("Variable not found".to_string())));
    assert_eq!(store.getvp("y", "q"), Some(Err("Path not found".to_string())));
    // a second write replaces the value
    store.insvp("y", "p", flat("3"));
    assert_eq!(store.getallp("p"), Some(Ok(Long(vec![pair("y", flat("3"))]))));
}

#[test]
fn unset_removes_variable() {
    let mut store = VarStore::new();
    store.insv("x", flat("1"));
    assert_eq!(store.insv("x", Empty).0, Ok(Empty));
    assert!(!store.hasv("x"));
    assert_eq!(store.insvp("x", "nowhere", Empty).0, Ok(Empty));
    assert!(!store.hasp("nowhere"));
}

#[test]
fn special_paths() {
    let mut store = VarStore::new();
    assert_eq!(store.insvp("a", "sys", flat("1")).0, Err("System variables are read-only".to_string()));
    assert_eq!(store.insvp("a", "pipe", flat("1")).0, Err("Pipes are read-only variales".to_string()));
    assert_eq!(store.insvp("a", "pipe", Empty).0, Err("Pipes are read-only variables".to_string()));
    let (r, c) = store.insvp("HOME2", "env", flat("/x"));
    assert_eq!(r, Ok(flat("/x")));
    assert!(matches!(c, Some(EnvChange::Assign(ref n, ref v)) if n == "HOME2" && v == "/x"));
    let (r, c) = store.insvp("HOME2", "env", Long(vec![]));
    assert_eq!(r, Err("Environment variables can only be flat".to_string()));
    assert!(c.is_none());
    assert!(store.getvp("login", "sys").is_none());
    assert_eq!(store.getvp("nothing", "sys"), Some(Err("System variable not found".to_string())));
    assert!(store.getvp("PATH", "env").is_none());
    assert_eq!(store.getallp("sys"), Some(Err("Cannot get all system variables".to_string())));
}

#[test]
fn getall_lists_current_then_unshadowed() {
    let mut store = VarStore::new();
    store.insv("a", flat("1"));
    store.insv("b", flat("2"));
    assert_eq!(store.setp(&flat("p")), Ok(Empty));
    store.insv("b", flat("3"));
    assert_eq!(store.getall(), Ok(Long(vec![pair("b", flat("3")), pair("a", flat("1"))])));
    // a name that the current path lacks is read from the path ""
    assert_eq!(store.getv("a"), Some(Ok(flat("1"))));
    assert_eq!(store.setp(&flat("sys")), Err("Cannot set variable path to system variables".to_string()));
    assert_eq!(store.setp(&flat("cfg")), Err("Cannot set variable path to configuration variables".to_string()));
    assert_eq!(store.setp(&Long(vec![Long(vec![])])), Err("Variable paths can only be flat".to_string()));
    assert_eq!(store.setp(&Empty), Ok(Empty));
    assert_eq!(store.current_path(), String::new());
}

#[test]
fn get_builtin_reads_names() {
    let mut store = VarStore::new();
    store.insv("x", flat("1"));
    store.insvp("y", "p", flat("2"));
    assert_eq!(get_func(&flat("x"), &store), Some(Ok(flat("1"))));
    assert_eq!(get_func(&flat("p:y"), &store), Some(Ok(flat("2"))));
    assert_eq!(get_func(&flat(":x"), &store), Some(Ok(flat("1"))));
    assert_eq!(get_func(&Empty, &store), Some(Err("No variable name given".to_string())));
    assert_eq!(
        get_func(&flat("a b"), &store),
        Some(Err("Varibale names cannot contain whitespace, quotes, or parentheses".to_string()))
    );
    assert_eq!(getall_func(&flat("p"), &store), Some(Ok(Long(vec![pair("y", flat("2"))]))));
    assert_eq!(getall_func(&Long(vec![]), &store), Some(Err("Path must be Flat or Empty".to_string())));
}

#[test]
fn comparison_builtins() {
    let two = |a: WashArgs, b: WashArgs| Long(vec![a, b]);
    assert_eq!(equal_func(&two(flat("a"), flat("a"))), Ok(Empty));
    assert_eq!(equal_func(&two(flat("a"), flat("b"))), Ok(flat("not equal")));
    assert_eq!(equal_func(&flat("a")), Err("Invalid arguments to equals?".to_string()));
    assert_eq!(
        equal_func(&Long(vec![flat("a"), flat("a"), flat("a")])),
        Err("Invalid arguments to equals?".to_string())
    );
    assert_eq!(re_equal_func(&Long(vec![flat("a")])), Err("Invalid arguments to equals?".to_string()));
    assert_eq!(re_equal_func(&two(flat("hello"), flat("^h.*o$"))), Ok(Empty));
    assert_eq!(re_equal_func(&two(flat("hello"), flat("^x"))), Ok(flat("not equal")));
    assert!(re_equal_func(&two(flat("hello"), flat("("))).is_err());
    assert_eq!(
        re_equal_func(&two(flat("hello"), Long(vec![]))),
        Err("Right-hand side must be flat (regex)".to_string())
    );
    assert_eq!(not_func(&Empty), Ok(flat("empty")));
    assert_eq!(not_func(&flat("x")), Ok(Empty));
}

#[test]
fn text_builtins() {
    assert_eq!(dot_func(&Long(vec![flat("a"), Long(vec![flat("b"), flat("c")])])), Ok(flat("abc")));
    assert_eq!(
        flatten_eqlist_func(&Long(vec![pair("a", flat("1")), pair("b", flat("2"))])),
        Ok(flat("a=1\nb=2"))
    );
    assert_eq!(subprompt_func(), Ok(flat(" => $(")));
    match builtins_func() {
        Ok(Long(v)) => {
            assert_eq!(v.len(), 10);
            assert_eq!(v[0], flat("$"));
            assert_eq!(v[9], flat("source"));
        }
        _ => panic!("not a list"),
    }
}

#[test]
fn process_results() {
    let status = |s: &str| Long(vec![flat("status"), flat(s)]);
    assert_eq!(describe_process_output(&status("0")), Ok(Empty));
    assert_eq!(describe_process_output(&status("1")), Err("Command failed with status 1".to_string()));
    assert_eq!(
        describe_process_output(&Long(vec![flat("signal"), flat("19")])),
        Err("Command stopped".to_string())
    );
    assert_eq!(describe_process_output(&Empty), Err("Command Failed".to_string()));
    assert_eq!(describe_process_output(&flat("x")), Err("Command failed: x".to_string()));
    assert_eq!(run_failed_func(&status("0")), Ok(flat("succeeded")));
    assert_eq!(run_failed_func(&status("2")), Ok(Empty));
}
