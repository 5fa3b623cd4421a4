use wash::launch::{command_request, fd_parts, job_args, temp_parts, CommandRequest, JobRequest};
use wash::types::WashArgs;
use wash::types::WashArgs::{Empty, Flat, Long};

fn flat(s: &str) -> WashArgs {
    Flat(s.to_string())
}

fn directed(args: WashArgs) -> JobRequest {
    match command_request(&args) {
        Ok(CommandRequest::Directed(j)) => j,
        Ok(_) => panic!("not a directed command"),
        Err(e) => panic!("refused: {}", e),
    }
}

fn refusal(args: WashArgs) -> String {
    match command_request(&args) {
        Err(e) => e,
        Ok(_) => panic!("accepted"),
    }
}

#[test]
fn request_needs_arguments() {
    assert_eq!(refusal(Empty), "No arguments given");
    assert_eq!(refusal(Long(vec![])), "No arguments given");
}

#[test]
fn request_flat_name_alone() {
    match command_request(&flat("ls")) {
        Ok(CommandRequest::Bare(n)) => assert_eq!(n, "ls"),
        _ => panic!("expected a bare name"),
    }
}

#[test]
fn request_first_value_must_be_flat() {
    assert_eq!(refusal(Long(vec![Long(vec![flat("a")]), flat("b")])), "Can only run flat names");
}

#[test]
fn request_plain_command() {
    match command_request(&Long(vec![flat("ls"), flat("-l"), flat("/tmp")])) {
        Ok(CommandRequest::Plain(n, rest)) => {
            assert_eq!(n, "ls");
            assert_eq!(rest.flatten_vec(), vec!["-l".to_string(), "/tmp".to_string()]);
        },
        _ => panic!("expected a plain command"),
    }
}

#[test]
fn request_output_descriptor() {
    let j = directed(Long(vec![flat("@out:5"), flat("ls"), flat("-l")]));
    assert_eq!(j.stdin, None);
    assert_eq!(j.stdout, Some(5));
    assert_eq!(j.stderr, None);
    assert_eq!(j.name, "ls");
    assert_eq!(j.args, vec!["-l".to_string()]);
    assert!(j.envs.is_empty());
}

#[test]
fn request_input_and_error_descriptors() {
    let j = directed(Long(vec![flat("@3"), flat("@err:7"), flat("@in:4"), flat("cat")]));
    assert_eq!(j.stdin, Some(4));
    assert_eq!(j.stderr, Some(7));
    assert_eq!(j.stdout, None);
    assert_eq!(j.name, "cat");
    assert!(j.args.is_empty());
}

#[test]
fn request_skips_empty_values() {
    let j = directed(Long(vec![flat("@out:1"), Empty, flat("ls"), Long(vec![flat("a"), flat("b")])]));
    assert_eq!(j.name, "ls");
    assert_eq!(j.args, vec!["a".to_string(), "b".to_string()]);
}

#[test]
fn request_bad_stream_path() {
    assert_eq!(refusal(Long(vec![flat("@log:3"), flat("cat")])), "log is not a valid standard output");
}

#[test]
fn request_descriptor_too_large() {
    assert_eq!(
        refusal(Long(vec![flat("@out:2147483648"), flat("cat")])),
        "2147483648 could not be turned into usize: number too large to fit in target type"
    );
    let j = directed(Long(vec![flat("@out:2147483647"), flat("cat")]));
    assert_eq!(j.stdout, Some(2147483647));
}

#[test]
fn request_environment_variables() {
    let j = directed(Long(vec![flat("env:FOO="), flat("bar"), flat("env:OLD="), Empty, flat("printenv")]));
    assert_eq!(j.envs, vec![("FOO".to_string(), Some("bar".to_string())), ("OLD".to_string(), None)]);
    assert_eq!(j.name, "printenv");
}

#[test]
fn request_environment_errors() {
    assert_eq!(
        refusal(Long(vec![flat("sys:FOO="), flat("bar"), flat("cmd")])),
        "Can only set environment variables on commands"
    );
    assert_eq!(refusal(Long(vec![flat("env:FOO=")])), "Incomplete temporary variable decleration");
    assert_eq!(
        refusal(Long(vec![flat("env:FOO="), Long(vec![flat("x")]), flat("cmd")])),
        "Environment variables can only be flat"
    );
}

#[test]
fn request_without_command() {
    assert_eq!(refusal(Long(vec![flat("@out:1"), Empty])), "No command given");
}

#[test]
fn job_args_needs_a_list() {
    match job_args(&flat("@out:1")) {
        Err(e) => assert_eq!(e, "Not given Long"),
        Ok(_) => panic!("accepted"),
    }
}

#[test]
fn descriptor_and_temporary_words() {
    assert_eq!(fd_parts("@out:12"), Some(("out".to_string(), "12".to_string())));
    assert_eq!(fd_parts("@12"), Some(("".to_string(), "12".to_string())));
    assert_eq!(fd_parts("@out:"), None);
    assert_eq!(fd_parts("@1a"), None);
    assert_eq!(fd_parts("out:1"), None);
    assert_eq!(temp_parts("env:PATH="), Some(("env".to_string(), "PATH".to_string())));
    assert_eq!(temp_parts("env:="), None);
    assert_eq!(temp_parts("PATH="), None);
    assert_eq!(temp_parts("env:PATH"), None);
}
