use vstd::prelude::*;

use crate::strings::append_str;
use crate::text::{decimal, decimal_text};
use crate::types::{ArgsV, WashArgs, args_views};

verus! {

/// How a process ended: with an exit status, or by a signal.
#[derive(Clone, Copy, PartialEq, Eq, Structural, Debug)]
pub enum ProcessExit {
    ExitStatus(isize),
    ExitSignal(isize),
}

/// The signal that stops a process from the terminal.
pub const SIGTSTP: isize = 20;
/// The signal that stops a process.
pub const SIGSTOP: isize = 19;
/// The signal that continues a stopped process.
pub const SIGCONT: isize = 18;

/// Whether a job has really ended: it has an exit, and that exit is not a
/// stop or a continue.
pub open spec fn exited(exit: Option<ProcessExit>) -> bool {
    match exit {
        Some(ProcessExit::ExitSignal(v)) => !(v == SIGTSTP || v == SIGSTOP || v == SIGCONT),
        Some(_) => true,
        None => false,
    }
}

/// Whether a job has really ended (see `exited`).
pub fn check_exit(exit: Option<ProcessExit>) -> (res: bool)
    ensures
        res == exited(exit),
{
    match exit {
        Some(ProcessExit::ExitSignal(v)) => !(v == SIGTSTP || v == SIGSTOP || v == SIGCONT),
        Some(_) => true,
        None => false,
    }
}

/// Whether the job numbers are in increasing order and start above 0.
pub open spec fn ids_ordered(keys: Seq<usize>) -> bool {
    &&& forall|i: int, j: int| 0 <= i < j < keys.len() ==> keys[i] < keys[j]
    &&& keys.len() > 0 ==> keys[0] > 0
}

/// The first free job number: the one before the first number that does
/// not follow its predecessor (counting from 0), or the one after the last.
pub open spec fn first_hole(keys: Seq<usize>, last: int) -> int
    decreases keys.len(),
{
    if keys.len() == 0 {
        last + 1
    } else if keys[0] - last != 1 {
        keys[0] - 1
    } else {
        first_hole(keys.subrange(1, keys.len() as int), keys[0] as int)
    }
}

/// The first free job number among the job numbers in use (see `first_hole`).
pub fn find_jobs_hole(keys: &Vec<usize>) -> (res: usize)
    requires
        ids_ordered(keys@),
        keys@.len() > 0 ==> keys@.last() < usize::MAX,
    ensures
        res == first_hole(keys@, 0),
{
    let mut last: usize = 0;
    let mut i: usize = 0;
    proof {
        assert(keys@.subrange(0, keys@.len() as int) =~= keys@);
    }
    while i < keys.len()
        invariant
            i <= keys.len(),
            ids_ordered(keys@),
            keys@.len() > 0 ==> keys@.last() < usize::MAX,
            i == 0 ==> last == 0,
            i > 0 ==> last == keys@[i - 1],
            first_hole(keys@.subrange(i as int, keys@.len() as int), last as int) == first_hole(keys@, 0),
        decreases keys.len() - i,
    {
        let key = keys[i];
        let ghost rest = keys@.subrange(i as int, keys@.len() as int);
        proof {
            assert(rest[0] == key);
            assert(rest.subrange(1, rest.len() as int) =~= keys@.subrange(i + 1, keys@.len() as int));
            if i > 0 {
                assert(keys@[i - 1] < keys@[i as int]);
            }
        }
        if key - last != 1 {
            return key - 1;
        }
        last = key;
        i = i + 1;
    }
    proof {
        if keys@.len() > 0 {
            assert(last == keys@.last());
        }
    }
    last + 1
}

/// The decimal text of a signed number.
pub open spec fn signed_decimal(n: int) -> Seq<char> {
    if n < 0 {
        seq!['-'] + decimal((-n) as nat)
    } else {
        decimal(n as nat)
    }
}

/// The decimal text of `n`.
pub fn signed_text(n: isize) -> (res: String)
    ensures
        res@ == signed_decimal(n as int),
{
    if n < 0 {
        let m: usize = if n == isize::MIN {
            (isize::MAX as usize) + 1
        } else {
            (-n) as usize
        };
        let mut out = String::new();
        out.push('-');
        let d = decimal_text(m);
        append_str(&mut out, d.as_str());
        proof {
            assert(out@ =~= seq!['-'] + decimal((-n) as nat));
        }
        out
    } else {
        decimal_text(n as usize)
    }
}

/// A process exit as a value: `(status n)` or `(signal n)`.
pub open spec fn exit_args(e: ProcessExit) -> ArgsV {
    match e {
        ProcessExit::ExitSignal(s) => ArgsV::Long(seq![ArgsV::Flat("signal"@), ArgsV::Flat(signed_decimal(s as int))]),
        ProcessExit::ExitStatus(s) => ArgsV::Long(seq![ArgsV::Flat("status"@), ArgsV::Flat(signed_decimal(s as int))]),
    }
}

/// A process exit as a value (see `exit_args`).
pub fn exit_value(e: ProcessExit) -> (res: WashArgs)
    ensures
        res@ == exit_args(e),
{
    let (word, n) = match e {
        ProcessExit::ExitSignal(s) => ("signal".to_owned(), s),
        ProcessExit::ExitStatus(s) => ("status".to_owned(), s),
    };
    let mut v: Vec<WashArgs> = Vec::new();
    v.push(WashArgs::Flat(word));
    v.push(WashArgs::Flat(signed_text(n)));
    proof {
        assert(args_views(v@) =~= seq![v@[0]@, v@[1]@]);
    }
    WashArgs::Long(v)
}

/// What is said of a job that has ended.
pub open spec fn job_report(id: usize, command: Seq<char>, e: ProcessExit) -> Seq<char> {
    let head = "Job "@ + decimal(id as nat) + " ("@ + command + ")"@;
    match e {
        ProcessExit::ExitStatus(0) => head + " finished"@,
        ProcessExit::ExitSignal(s) => head + " failed: signal "@ + signed_decimal(s as int),
        ProcessExit::ExitStatus(s) => head + " failed: status "@ + signed_decimal(s as int),
    }
}

/// What is said of a job that has ended (see `job_report`).
pub fn job_report_text(id: usize, command: &str, e: ProcessExit) -> (res: String)
    ensures
        res@ == job_report(id, command@, e),
{
    let mut out = "Job ".to_owned();
    append_str(&mut out, decimal_text(id).as_str());
    append_str(&mut out, " (");
    append_str(&mut out, command);
    append_str(&mut out, ")");
    match e {
        ProcessExit::ExitStatus(0) => {
            append_str(&mut out, " finished");
        },
        ProcessExit::ExitSignal(s) => {
            append_str(&mut out, " failed: signal ");
            append_str(&mut out, signed_text(s).as_str());
        },
        ProcessExit::ExitStatus(s) => {
            append_str(&mut out, " failed: status ");
            append_str(&mut out, signed_text(s).as_str());
        },
    }
    out
}

/// How a job is listed: its command and number, and whether it runs in
/// the background.
pub open spec fn job_entry(id: usize, command: Seq<char>, background: bool) -> Seq<char> {
    command + (if background {
        ": background job "@
    } else {
        ": job "@
    }) + decimal(id as nat)
}

/// How a job is listed (see `job_entry`).
pub fn job_entry_text(id: usize, command: &str, background: bool) -> (res: String)
    ensures
        res@ == job_entry(id, command@, background),
{
    let mut out = command.to_owned();
    if background {
        append_str(&mut out, ": background job ");
    } else {
        append_str(&mut out, ": job ");
    }
    append_str(&mut out, decimal_text(id).as_str());
    out
}

/// A job's output as the shell gives it back: without one final line
/// break; its output text when it succeeded, its error text as the error
/// otherwise.
pub open spec fn output_reply(success: bool, text: Seq<char>) -> Result<ArgsV, Seq<char>> {
    let t = if text.len() > 0 && text.last() == '\n' {
        text.drop_last()
    } else {
        text
    };
    if success {
        Ok(ArgsV::Flat(t))
    } else {
        Err(t)
    }
}

/// What a job's output gives back (see `output_reply`).
pub fn job_output_reply(success: bool, text: String) -> (res: Result<WashArgs, String>)
    ensures
        match res {
            Ok(v) => output_reply(success, text@) == Ok::<ArgsV, Seq<char>>(v@),
            Err(e) => output_reply(success, text@) == Err::<ArgsV, Seq<char>>(e@),
        },
{
    let mut s = text;
    match s.pop() {
        Some(v) => {
            if v != '\n' {
                s.push(v);
            }
        },
        None => {},
    }
    proof {
        if text@.len() > 0 && text@.last() != '\n' {
            assert(s@ =~= text@);
        }
    }
    if success {
        Ok(WashArgs::Flat(s))
    } else {
        Err(s)
    }
}


// ---------------------------------------------------------------------
// The table of jobs: each job's number and how it ended, if it has.
// ---------------------------------------------------------------------

/// The jobs of `jobs` that have ended, in table order.
pub open spec fn ended_jobs(jobs: Seq<(usize, Option<ProcessExit>)>) -> Seq<(usize, Option<ProcessExit>)>
    decreases jobs.len(),
{
    if jobs.len() == 0 {
        seq![]
    } else if exited(jobs.last().1) {
        ended_jobs(jobs.drop_last()).push(jobs.last())
    } else {
        ended_jobs(jobs.drop_last())
    }
}

/// The jobs of `jobs` that have not ended, in table order.
pub open spec fn running_jobs(jobs: Seq<(usize, Option<ProcessExit>)>) -> Seq<(usize, Option<ProcessExit>)>
    decreases jobs.len(),
{
    if jobs.len() == 0 {
        seq![]
    } else if exited(jobs.last().1) {
        running_jobs(jobs.drop_last())
    } else {
        running_jobs(jobs.drop_last()).push(jobs.last())
    }
}

/// Whether the job numbers increase along the table (each number once).
pub open spec fn jobs_ordered(jobs: Seq<(usize, Option<ProcessExit>)>) -> bool {
    forall|i: int, j: int| 0 <= i < j < jobs.len() ==> (#[trigger] jobs[i]).0 < (#[trigger] jobs[j]).0
}

/// The ended jobs, or those still running.
spec fn picked(jobs: Seq<(usize, Option<ProcessExit>)>, ended: bool) -> Seq<(usize, Option<ProcessExit>)> {
    if ended {
        ended_jobs(jobs)
    } else {
        running_jobs(jobs)
    }
}

proof fn lemma_picked_ordered(jobs: Seq<(usize, Option<ProcessExit>)>, ended: bool)
    requires
        jobs_ordered(jobs),
    ensures
        jobs_ordered(picked(jobs, ended)),
        forall|x: (usize, Option<ProcessExit>)| #[trigger] picked(jobs, ended).contains(x) ==> jobs.contains(x),
    decreases jobs.len(),
{
    if jobs.len() > 0 {
        let w = jobs.drop_last();
        assert(jobs_ordered(w)) by {
            assert forall|i: int, j: int| 0 <= i < j < w.len() implies (#[trigger] w[i]).0 < (#[trigger] w[j]).0 by {
                assert(w[i] == jobs[i] && w[j] == jobs[j]);
            }
        }
        lemma_picked_ordered(w, ended);
        let r = picked(w, ended);
        assert forall|x: (usize, Option<ProcessExit>)| r.contains(x) implies jobs.contains(x) && x.0 < jobs.last().0 by {
            let q = choose|q: int| 0 <= q < w.len() && w[q] == x;
            assert(jobs[q] == x);
            assert(jobs[q].0 < jobs[jobs.len() - 1].0);
        }
        let full = picked(jobs, ended);
        if full != r {
            assert(full == r.push(jobs.last()));
            assert forall|i: int, j: int| 0 <= i < j < full.len() implies (#[trigger] full[i]).0 < (#[trigger] full[j]).0 by {
                if j == full.len() - 1 {
                    assert(r.contains(full[i]));
                } else {
                    assert(full[i] == r[i] && full[j] == r[j]);
                }
            }
            assert forall|x: (usize, Option<ProcessExit>)| #[trigger] full.contains(x) implies jobs.contains(x) by {
                let q = choose|q: int| 0 <= q < full.len() && full[q] == x;
                if q < r.len() {
                    assert(r[q] == x);
                } else {
                    assert(jobs[jobs.len() - 1] == x);
                }
            }
        }
    }
}

/// Takes the jobs that have ended out of the table and returns them; the
/// others stay, in their order.  The table, like the map of jobs it stands
/// for, holds each job number once, in increasing order, and so do both
/// parts.
pub fn clean_jobs(jobs: &mut Vec<(usize, Option<ProcessExit>)>) -> (res: Vec<(usize, Option<ProcessExit>)>)
    requires
        jobs_ordered(old(jobs)@),
    ensures
        res@ == ended_jobs(old(jobs)@),
        final(jobs)@ == running_jobs(old(jobs)@),
        jobs_ordered(res@),
        jobs_ordered(final(jobs)@),
{
    proof {
        lemma_picked_ordered(jobs@, true);
        lemma_picked_ordered(jobs@, false);
    }
    let mut done: Vec<(usize, Option<ProcessExit>)> = Vec::new();
    let mut keep: Vec<(usize, Option<ProcessExit>)> = Vec::new();
    let mut i: usize = 0;
    proof {
        assert(jobs@.take(0) =~= Seq::<(usize, Option<ProcessExit>)>::empty());
    }
    while i < jobs.len()
        invariant
            i <= jobs.len(),
            jobs@ == old(jobs)@,
            done@ == ended_jobs(jobs@.take(i as int)),
            keep@ == running_jobs(jobs@.take(i as int)),
        decreases jobs.len() - i,
    {
        let j = jobs[i];
        proof {
            assert(jobs@.take(i + 1).drop_last() =~= jobs@.take(i as int));
            assert(jobs@.take(i + 1).last() == j);
        }
        if check_exit(j.1) {
            done.push(j);
        } else {
            keep.push(j);
        }
        i = i + 1;
    }
    proof {
        assert(jobs@.take(jobs@.len() as int) =~= jobs@);
    }
    *jobs = keep;
    done
}

/// Whether some job has the number `id`.
pub open spec fn has_job(jobs: Seq<(usize, Option<ProcessExit>)>, id: usize) -> bool {
    exists|i: int| 0 <= i < jobs.len() && (#[trigger] jobs[i]).0 == id
}

/// The place of the first job numbered `id`.
pub open spec fn job_index(jobs: Seq<(usize, Option<ProcessExit>)>, id: usize) -> int {
    choose|i: int| 0 <= i < jobs.len() && jobs[i].0 == id && forall|j: int| 0 <= j < i ==> (#[trigger] jobs[j]).0 != id
}

/// Removes job `id` if it has ended: `Ok(true)` when it was removed,
/// `Ok(false)` when it is still running, and an error when there is no such job.
pub fn remove_if_done(jobs: &mut Vec<(usize, Option<ProcessExit>)>, id: usize) -> (res: Result<bool, String>)
    ensures
        !has_job(old(jobs)@, id) ==> (res matches Err(e) && e@ == "Job not found"@) && final(jobs)@ == old(jobs)@,
        has_job(old(jobs)@, id) && exited(old(jobs)@[job_index(old(jobs)@, id)].1) ==> res == Ok::<bool, String>(true)
            && final(jobs)@ == old(jobs)@.remove(job_index(old(jobs)@, id)),
        has_job(old(jobs)@, id) && !exited(old(jobs)@[job_index(old(jobs)@, id)].1) ==> res == Ok::<bool, String>(
            false,
        ) && final(jobs)@ == old(jobs)@,
{
    let mut i: usize = 0;
    while i < jobs.len()
        invariant
            i <= jobs.len(),
            jobs@ == old(jobs)@,
            forall|j: int| 0 <= j < i ==> (#[trigger] jobs@[j]).0 != id,
        decreases jobs.len() - i,
    {
        if jobs[i].0 == id {
            proof {
                assert(has_job(jobs@, id));
                let c = job_index(jobs@, id);
                if c > i {
                    assert(jobs@[i as int].0 != id);
                }
                assert(c == i);
            }
            if check_exit(jobs[i].1) {
                jobs.remove(i);
                return Ok(true);
            } else {
                return Ok(false);
            }
        }
        i = i + 1;
    }
    Err("Job not found".to_owned())
}

} // verus!
