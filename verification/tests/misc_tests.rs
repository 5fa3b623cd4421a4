use wash::jobs::{
    check_exit, clean_jobs, remove_if_done, exit_value, find_jobs_hole, job_entry_text, job_output_reply, job_report_text, signed_text, ProcessExit,
};
use wash::script::{script_hash, script_object_path, to_hex};
use wash::text::decimal_text;
use wash::types::{Action, HandlerResult, InputValue, SectionType, WashArgs};

#[test]
fn decimal_numbers() {
    assert_eq!(decimal_text(0), "0");
    assert_eq!(decimal_text(1207), "1207");
    assert_eq!(signed_text(-45), "-45");
    assert_eq!(signed_text(isize::MIN), isize::MIN.to_string());
}

#[test]
fn job_numbers() {
    assert_eq!(find_jobs_hole(&vec![]), 1);
    assert_eq!(find_jobs_hole(&vec![1, 2, 3]), 4);
    assert_eq!(find_jobs_hole(&vec![1, 3]), 2);
    assert_eq!(find_jobs_hole(&vec![4]), 3);
}

#[test]
fn job_exits() {
    assert!(check_exit(Some(ProcessExit::ExitStatus(1))));
    assert!(check_exit(Some(ProcessExit::ExitSignal(9))));
    assert!(!check_exit(Some(ProcessExit::ExitSignal(19))));
    assert!(!check_exit(None));
    assert_eq!(
        exit_value(ProcessExit::ExitStatus(0)),
        WashArgs::Long(vec![WashArgs::Flat("status".to_string()), WashArgs::Flat("0".to_string())])
    );
    assert_eq!(job_report_text(2, "sleep 1", ProcessExit::ExitStatus(0)), "Job 2 (sleep 1) finished");
    assert_eq!(job_report_text(2, "x", ProcessExit::ExitSignal(9)), "Job 2 (x) failed: signal 9");
    assert_eq!(job_report_text(3, "x", ProcessExit::ExitStatus(1)), "Job 3 (x) failed: status 1");
    assert_eq!(job_entry_text(1, "top", true), "top: background job 1");
    assert_eq!(job_entry_text(1, "top", false), "top: job 1");
}

#[test]
fn script_names() {
    assert_eq!(to_hex(&[0x00, 0xff, 0x1a]), "00ff1a");
    assert_eq!(script_hash(b"abc"), "ba7816bf8f01cfea414140de5dae2223b00361a396177a9cb410ff61f20015ad");
    assert_eq!(
        script_object_path(b"abc"),
        "/tmp/wash/ba7816bf8f01cfea414140de5dae2223b00361a396177a9cb410ff61f20015ad.wo"
    );
}

#[test]
fn debug_texts() {
    let v = WashArgs::Long(vec![WashArgs::Flat("a".to_string()), WashArgs::Empty]);
    assert_eq!(v.debug_text(), "Long(Flat(a) Empty )");
    assert_eq!(SectionType::Number(3).debug_text(), ".3");
    assert_eq!(SectionType::Run.debug_text(), ".run");
    assert_eq!(HandlerResult::More(SectionType::Load).debug_text(), "More(.load)");
    assert_eq!(Action::Proc("run".to_string(), 2).debug_text(), "Proc(run, 2)");
    assert_eq!(Action::Assign(WashArgs::Empty).debug_text(), "Set(Empty)");
    let i = InputValue::Function("f".to_string(), vec![InputValue::Short("x".to_string())]);
    assert_eq!(i.debug_text(), "Function(f, Long(Short(x) ))");
}

#[test]
fn job_output_reply_drops_one_line_break() {
    match job_output_reply(true, "out\n\n".to_string()) {
        Ok(WashArgs::Flat(s)) => assert_eq!(s, "out\n"),
        _ => panic!("expected the output"),
    }
    match job_output_reply(true, "out".to_string()) {
        Ok(WashArgs::Flat(s)) => assert_eq!(s, "out"),
        _ => panic!("expected the output"),
    }
    match job_output_reply(false, "bad\n".to_string()) {
        Err(e) => assert_eq!(e, "bad"),
        Ok(_) => panic!("expected the error"),
    }
    match job_output_reply(true, String::new()) {
        Ok(WashArgs::Flat(s)) => assert_eq!(s, ""),
        _ => panic!("expected the output"),
    }
}

#[test]
fn clean_jobs_takes_out_the_ended() {
    let mut table = vec![
        (1usize, Some(ProcessExit::ExitStatus(0))),
        (2usize, None),
        (3usize, Some(ProcessExit::ExitSignal(20))),
        (4usize, Some(ProcessExit::ExitSignal(9))),
    ];
    let done = clean_jobs(&mut table);
    assert_eq!(done, vec![(1usize, Some(ProcessExit::ExitStatus(0))), (4usize, Some(ProcessExit::ExitSignal(9)))]);
    assert_eq!(table, vec![(2usize, None), (3usize, Some(ProcessExit::ExitSignal(20)))]);
    assert_eq!(remove_if_done(&mut table, 7), Err("Job not found".to_string()));
    assert_eq!(remove_if_done(&mut table, 2), Ok(false));
    table[0].1 = Some(ProcessExit::ExitStatus(1));
    assert_eq!(remove_if_done(&mut table, 2), Ok(true));
    assert_eq!(table, vec![(3usize, Some(ProcessExit::ExitSignal(20)))]);
}
