use vstd::prelude::*;

use crate::builtins::{find_colon, first_colon, sub_text};
use crate::editor::{digits_value, is_digit, lemma_digits_grow};
use crate::strings::concat;
use crate::types::{
    ArgsV, WashArgs, args_get, args_len, args_slice, args_views, flat_list, flat_list_seq, flat_with, strs_view,
};

verus! {

// ---------------------------------------------------------------------
// Words that set up a command before its name.
// ---------------------------------------------------------------------

/// One or more decimal digits.
pub open spec fn all_digits(s: Seq<char>) -> bool {
    s.len() > 0 && forall|i: int| 0 <= i < s.len() ==> is_digit(s[i])
}

/// A descriptor word, `@digits` or `@path:digits`: its path (empty in the
/// first form) and its digits.
pub open spec fn fd_word(w: Seq<char>) -> Option<(Seq<char>, Seq<char>)> {
    if w.len() > 0 && w[0] == '@' {
        let body = w.subrange(1, w.len() as int);
        let (path, digits) = match first_colon(body) {
            Some(i) => (body.subrange(0, i), body.subrange(i + 1, body.len() as int)),
            None => (Seq::<char>::empty(), body),
        };
        if all_digits(digits) {
            Some((path, digits))
        } else {
            None
        }
    } else {
        None
    }
}

/// A temporary variable word, `path:name=`, whose value is the next
/// argument: its path and its name.
pub open spec fn temp_word(w: Seq<char>) -> Option<(Seq<char>, Seq<char>)> {
    if w.len() > 0 && w.last() == '=' {
        let body = w.drop_last();
        match first_colon(body) {
            Some(i) => if i + 1 < body.len() {
                Some((body.subrange(0, i), body.subrange(i + 1, body.len() as int)))
            } else {
                None
            },
            None => None,
        }
    } else {
        None
    }
}

/// Whether a first argument asks for the full argument set to be read.
pub open spec fn is_setup_word(w: Seq<char>) -> bool {
    fd_word(w) is Some || temp_word(w) is Some
}

/// The descriptors for standard input, output and error.
pub type StreamsV = (Option<i32>, Option<i32>, Option<i32>);

/// The streams with descriptor `fd` given to the one that `path` names
/// (input when it is empty); `None` for another path.
pub open spec fn set_stream(fds: StreamsV, path: Seq<char>, fd: i32) -> Option<StreamsV> {
    if path.len() == 0 || path == "in"@ {
        Some((Some(fd), fds.1, fds.2))
    } else if path == "out"@ {
        Some((fds.0, Some(fd), fds.2))
    } else if path == "err"@ {
        Some((fds.0, fds.1, Some(fd)))
    } else {
        None
    }
}

/// A command to start, with the descriptors of its standard streams and
/// the environment variables to set (`Some`) or remove (`None`) for it.
pub struct JobRequest {
    pub stdin: Option<i32>,
    pub stdout: Option<i32>,
    pub stderr: Option<i32>,
    pub name: String,
    pub args: Vec<String>,
    pub envs: Vec<(String, Option<String>)>,
}

pub struct JobRequestV {
    pub stdin: Option<i32>,
    pub stdout: Option<i32>,
    pub stderr: Option<i32>,
    pub name: Seq<char>,
    pub args: Seq<Seq<char>>,
    pub envs: Seq<(Seq<char>, Option<Seq<char>>)>,
}

pub open spec fn opt_str_view(o: Option<String>) -> Option<Seq<char>> {
    match o {
        Some(s) => Some(s@),
        None => None,
    }
}

pub open spec fn envs_view(v: Seq<(String, Option<String>)>) -> Seq<(Seq<char>, Option<Seq<char>>)> {
    Seq::new(v.len(), |i: int| (v[i].0@, opt_str_view(v[i].1)))
}

impl JobRequest {
    pub open spec fn view(&self) -> JobRequestV {
        JobRequestV {
            stdin: self.stdin,
            stdout: self.stdout,
            stderr: self.stderr,
            name: self.name@,
            args: strs_view(self.args@),
            envs: envs_view(self.envs@),
        }
    }
}

/// Reads the arguments `rest` of a command: empty values are passed over,
/// descriptor words set a stream, temporary variable words take the next
/// argument as their value; the first other argument is the command's name,
/// and the flat strings after it its arguments.
pub open spec fn job_args_spec(rest: Seq<ArgsV>, fds: StreamsV, envs: Seq<(Seq<char>, Option<Seq<char>>)>) -> Result<
    JobRequestV,
    Seq<char>,
>
    decreases rest.len(),
{
    if rest.len() == 0 {
        Err("No command given"@)
    } else {
        let arg = rest[0];
        let more = rest.subrange(1, rest.len() as int);
        let word = flat_with(arg, seq!['\n']);
        if arg is Empty {
            job_args_spec(more, fds, envs)
        } else {
            match fd_word(word) {
                Some((path, digits)) => if digits_value(digits) > i32::MAX {
                    Err(digits + " could not be turned into usize: number too large to fit in target type"@)
                } else {
                    match set_stream(fds, path, digits_value(digits) as i32) {
                        Some(f2) => job_args_spec(more, f2, envs),
                        None => Err(path + " is not a valid standard output"@),
                    }
                },
                None => match temp_word(word) {
                    Some((path, name)) => if path != "env"@ {
                        Err("Can only set environment variables on commands"@)
                    } else if more.len() == 0 {
                        Err("Incomplete temporary variable decleration"@)
                    } else {
                        let after = more.subrange(1, more.len() as int);
                        match more[0] {
                            ArgsV::Empty => job_args_spec(after, fds, envs.push((name, None))),
                            ArgsV::Flat(s) => job_args_spec(after, fds, envs.push((name, Some(s)))),
                            ArgsV::Long(_) => Err("Environment variables can only be flat"@),
                        }
                    },
                    None => Ok(
                        JobRequestV {
                            stdin: fds.0,
                            stdout: fds.1,
                            stderr: fds.2,
                            name: word,
                            args: flat_list_seq(more),
                            envs,
                        },
                    ),
                },
            }
        }
    }
}

pub open spec fn job_res_view(r: Result<JobRequest, String>) -> Result<JobRequestV, Seq<char>> {
    match r {
        Ok(j) => Ok(j@),
        Err(e) => Err(e@),
    }
}

// ---------------------------------------------------------------------
// Reading the words.
// ---------------------------------------------------------------------

fn text(s: &str) -> (res: String)
    ensures
        res@ == s@,
{
    s.to_owned()
}

fn digits_only(s: &str, from: usize, to: usize) -> (res: bool)
    requires
        from <= to <= s@.len(),
    ensures
        res == all_digits(s@.subrange(from as int, to as int)),
{
    if from == to {
        return false;
    }
    let mut i = from;
    while i < to
        invariant
            from <= i <= to,
            to <= s@.len(),
            forall|j: int| from <= j < i ==> is_digit(s@[j]),
        decreases to - i,
    {
        let c = s.get_char(i);
        if !('0' <= c && c <= '9') {
            proof {
                assert(s@.subrange(from as int, to as int)[i - from] == c);
            }
            return false;
        }
        i = i + 1;
    }
    proof {
        let t = s@.subrange(from as int, to as int);
        assert forall|j: int| 0 <= j < t.len() implies is_digit(t[j]) by {
            assert(t[j] == s@[from + j]);
        }
    }
    true
}

/// The parts of a descriptor word (see `fd_word`).
pub fn fd_parts(w: &str) -> (res: Option<(String, String)>)
    ensures
        match res {
            Some((p, d)) => fd_word(w@) == Some((p@, d@)),
            None => fd_word(w@) is None,
        },
{
    let n = w.unicode_len();
    if n == 0 || w.get_char(0) != '@' {
        return None;
    }
    let body = sub_text(w, 1, n);
    let m = body.as_str().unicode_len();
    let (path, digits) = match find_colon(body.as_str()) {
        Some(i) => (sub_text(body.as_str(), 0, i), sub_text(body.as_str(), i + 1, m)),
        None => (String::new(), body.clone()),
    };
    proof {
        assert(w@.subrange(1, w@.len() as int) == body@);
    }
    let dn = digits.as_str().unicode_len();
    if digits_only(digits.as_str(), 0, dn) {
        proof {
            assert(digits@.subrange(0, dn as int) =~= digits@);
        }
        Some((path, digits))
    } else {
        proof {
            assert(digits@.subrange(0, dn as int) =~= digits@);
        }
        None
    }
}

/// The parts of a temporary variable word (see `temp_word`).
pub fn temp_parts(w: &str) -> (res: Option<(String, String)>)
    ensures
        match res {
            Some((p, nm)) => temp_word(w@) == Some((p@, nm@)),
            None => temp_word(w@) is None,
        },
{
    let n = w.unicode_len();
    if n == 0 || w.get_char(n - 1) != '=' {
        return None;
    }
    let body = sub_text(w, 0, n - 1);
    proof {
        assert(body@ =~= w@.drop_last());
    }
    let m = body.as_str().unicode_len();
    match find_colon(body.as_str()) {
        Some(i) => if i + 1 < m {
            Some((sub_text(body.as_str(), 0, i), sub_text(body.as_str(), i + 1, m)))
        } else {
            None
        },
        None => None,
    }
}

/// The number written by the digits `s`, if it fits a descriptor.
fn descriptor(s: &str) -> (res: Option<i32>)
    requires
        all_digits(s@),
    ensures
        res is Some <==> digits_value(s@) <= i32::MAX,
        res matches Some(n) ==> n == digits_value(s@),
{
    let n = s.unicode_len();
    let mut v: u64 = 0;
    let mut i: usize = 0;
    while i < n
        invariant
            i <= n,
            n == s@.len(),
            all_digits(s@),
            v == digits_value(s@.subrange(0, i as int)),
            v <= i32::MAX,
        decreases n - i,
    {
        let c = s.get_char(i);
        let d = (c as u32 - 48) as u64;
        proof {
            assert(is_digit(s@[i as int]));
            let t = s@.subrange(0, i + 1);
            assert(t.drop_last() =~= s@.subrange(0, i as int));
            assert(t.last() == c);
        }
        let w = v * 10 + d;
        if w > 2147483647u64 {
            proof {
                lemma_digits_grow(s@, i + 1);
                assert(s@.subrange(0, n as int) =~= s@);
            }
            return None;
        }
        v = w;
        i = i + 1;
    }
    proof {
        assert(s@.subrange(0, n as int) =~= s@);
    }
    Some(v as i32)
}

/// The flat strings of the values of `v` from index `from` on.
fn flat_rest(v: &Vec<WashArgs>, from: usize) -> (res: Vec<String>)
    requires
        from <= v@.len(),
    ensures
        strs_view(res@) == flat_list_seq(args_views(v@).subrange(from as int, v@.len() as int)),
{
    let ghost t = args_views(v@).subrange(from as int, v@.len() as int);
    let mut out: Vec<String> = Vec::new();
    let mut j = from;
    proof {
        assert(t.subrange(0, 0) =~= Seq::<ArgsV>::empty());
        assert(strs_view(out@) =~= Seq::<Seq<char>>::empty());
    }
    while j < v.len()
        invariant
            from <= j <= v@.len(),
            t == args_views(v@).subrange(from as int, v@.len() as int),
            strs_view(out@) == flat_list_seq(t.subrange(0, j - from)),
        decreases v@.len() - j,
    {
        let mut part = v[j].flatten_vec();
        let ghost before = out@;
        out.append(&mut part);
        proof {
            let u = t.subrange(0, j + 1 - from);
            assert(u.subrange(0, u.len() - 1) =~= t.subrange(0, j - from));
            assert(u[u.len() - 1] == v@[j as int]@);
            assert(strs_view(out@) =~= strs_view(before) + flat_list(v@[j as int]@));
        }
        j = j + 1;
    }
    proof {
        assert(t.subrange(0, v@.len() - from) =~= t);
    }
    out
}

fn push_env(envs: &mut Vec<(String, Option<String>)>, name: String, value: Option<String>)
    ensures
        envs_view(final(envs)@) == envs_view(old(envs)@).push((name@, opt_str_view(value))),
{
    envs.push((name, value));
    proof {
        assert(envs_view(envs@) =~= envs_view(old(envs)@).push((name@, opt_str_view(value))));
    }
}

/// Reads the arguments of a command whose first argument sets it up (see
/// `job_args_spec`); they must be a list.
#[verifier::rlimit(50)]
pub fn job_args(args: &WashArgs) -> (res: Result<JobRequest, String>)
    ensures
        job_res_view(res) == (match args@ {
            ArgsV::Long(v) => job_args_spec(v, (None, None, None), seq![]),
            _ => Err("Not given Long"@),
        }),
{
    let v = match args {
        WashArgs::Long(v) => v,
        _ => return Err(text("Not given Long")),
    };
    let ghost vv = args_views(v@);
    let ghost goal = job_args_spec(vv, (None, None, None), seq![]);
    let mut stdin: Option<i32> = None;
    let mut stdout: Option<i32> = None;
    let mut stderr: Option<i32> = None;
    let mut envs: Vec<(String, Option<String>)> = Vec::new();
    let mut i: usize = 0;
    proof {
        assert(vv.subrange(0, vv.len() as int) =~= vv);
        assert(envs_view(envs@) =~= Seq::<(Seq<char>, Option<Seq<char>>)>::empty());
    }
    loop
        invariant
            i <= v@.len(),
            vv == args_views(v@),
            args@ == ArgsV::Long(vv),
            goal == job_args_spec(vv, (None, None, None), seq![]),
            job_args_spec(vv.subrange(i as int, vv.len() as int), (stdin, stdout, stderr), envs_view(envs@)) == goal,
        decreases v@.len() - i,
    {
        let ghost rest = vv.subrange(i as int, vv.len() as int);
        if i >= v.len() {
            return Err(text("No command given"));
        }
        let arg = &v[i];
        i = i + 1;
        proof {
            assert(rest[0] == arg@);
            assert(rest.subrange(1, rest.len() as int) =~= vv.subrange(i as int, vv.len() as int));
        }
        if arg.is_empty() {
            continue;
        }
        let word = arg.flatten();
        match fd_parts(word.as_str()) {
            Some((path, digits)) => {
                let fd = match descriptor(digits.as_str()) {
                    Some(fd) => fd,
                    None => {
                        return Err(
                            concat(digits.as_str(), " could not be turned into usize: number too large to fit in target type"),
                        );
                    },
                };
                let p = path.as_str();
                if p.unicode_len() == 0 || crate::vars::str_eq(p, "in") {
                    stdin = Some(fd);
                } else if crate::vars::str_eq(p, "out") {
                    stdout = Some(fd);
                } else if crate::vars::str_eq(p, "err") {
                    stderr = Some(fd);
                } else {
                    return Err(concat(p, " is not a valid standard output"));
                }
            },
            None => match temp_parts(word.as_str()) {
                Some((path, name)) => {
                    if !crate::vars::str_eq(path.as_str(), "env") {
                        return Err(text("Can only set environment variables on commands"));
                    }
                    if i >= v.len() {
                        return Err(text("Incomplete temporary variable decleration"));
                    }
                    let value = match &v[i] {
                        WashArgs::Empty => None,
                        WashArgs::Flat(s) => Some(s.clone()),
                        WashArgs::Long(_) => return Err(text("Environment variables can only be flat")),
                    };
                    proof {
                        let more = rest.subrange(1, rest.len() as int);
                        assert(more[0] == v@[i as int]@);
                        assert(more.subrange(1, more.len() as int) =~= vv.subrange(i + 1, vv.len() as int));
                    }
                    push_env(&mut envs, name, value);
                    i = i + 1;
                },
                None => {
                    let rest_args = flat_rest(v, i);
                    return Ok(JobRequest { stdin, stdout, stderr, name: word, args: rest_args, envs });
                },
            },
        }
    }
}

// ---------------------------------------------------------------------
// What `run` and `job` are asked to start.
// ---------------------------------------------------------------------

/// What the arguments of `run` or `job` ask for: a name alone, a name
/// with the values after it, or a command set up by its first arguments.
pub enum CommandRequest {
    Bare(String),
    Plain(String, WashArgs),
    Directed(JobRequest),
}

pub enum CommandRequestV {
    Bare(Seq<char>),
    Plain(Seq<char>, ArgsV),
    Directed(JobRequestV),
}

impl CommandRequest {
    pub open spec fn view(&self) -> CommandRequestV {
        match self {
            CommandRequest::Bare(n) => CommandRequestV::Bare(n@),
            CommandRequest::Plain(n, a) => CommandRequestV::Plain(n@, a@),
            CommandRequest::Directed(j) => CommandRequestV::Directed(j@),
        }
    }
}

/// How the arguments `a` of `run` or `job` are read: a flat value is a
/// name alone; a list starts with a flat name, followed by its arguments,
/// unless that first word sets the command up (see `job_args_spec`).
pub open spec fn command_request_spec(a: ArgsV) -> Result<CommandRequestV, Seq<char>> {
    if a is Empty || args_len(a) < 1 {
        Err("No arguments given"@)
    } else if a is Flat {
        Ok(CommandRequestV::Bare(a->Flat_0))
    } else if !(args_get(a, 0) is Flat) {
        Err("Can only run flat names"@)
    } else if !is_setup_word(args_get(a, 0)->Flat_0) {
        Ok(CommandRequestV::Plain(args_get(a, 0)->Flat_0, args_slice(a, 1, -1)))
    } else {
        match job_args_spec(a->Long_0, (None, None, None), seq![]) {
            Ok(j) => Ok(CommandRequestV::Directed(j)),
            Err(e) => Err(e),
        }
    }
}

pub open spec fn request_view(r: Result<CommandRequest, String>) -> Result<CommandRequestV, Seq<char>> {
    match r {
        Ok(c) => Ok(c@),
        Err(e) => Err(e@),
    }
}

/// Reads the arguments of `run` or `job` (see `command_request_spec`).
pub fn command_request(args: &WashArgs) -> (res: Result<CommandRequest, String>)
    ensures
        request_view(res) == command_request_spec(args@),
{
    if args.is_empty() || args.len() < 1 {
        return Err(text("No arguments given"));
    }
    if let WashArgs::Flat(name) = args {
        return Ok(CommandRequest::Bare(name.clone()));
    }
    let first = args.get(0);
    let name = match first {
        WashArgs::Flat(name) => name,
        _ => return Err(text("Can only run flat names")),
    };
    let setup = fd_parts(name.as_str()).is_some() || temp_parts(name.as_str()).is_some();
    if !setup {
        return Ok(CommandRequest::Plain(name, args.slice(1, -1)));
    }
    match job_args(args) {
        Ok(j) => Ok(CommandRequest::Directed(j)),
        Err(e) => Err(e),
    }
}

} // verus!
