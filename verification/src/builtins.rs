use vstd::prelude::*;

use crate::store::{StoreV, VarStore, getall_spec, getallp_spec, getv_spec, getvp_spec, reply_view};
use crate::strings::append_str;
use crate::types::{ArgsV, WashArgs, args_eq, args_get, args_len, args_views, flat_list, flat_with, flat_with_inner, strs_view};

verus! {

// ---------------------------------------------------------------------
// Regular expressions, from the `regex` crate.
// ---------------------------------------------------------------------

#[verifier::external_type_specification]
#[verifier::external_body]
pub struct ExRegex(regex::Regex);

/// What `regex::Regex::new` gives for a pattern: `None` when the pattern
/// compiles, else the text of the error.
pub uninterp spec fn regex_new_error(pattern: Seq<char>) -> Option<Seq<char>>;

/// What `regex::Regex::is_match` gives for a compiled pattern and a text.
pub uninterp spec fn regex_is_match(pattern: Seq<char>, text: Seq<char>) -> bool;

/// A compiled regular expression and the pattern it was compiled from.
pub struct Pattern {
    source: String,
    re: regex::Regex,
}

impl Pattern {
    pub closed spec fn view(&self) -> Seq<char> {
        self.source@
    }
}

/// Compiles `pattern` with `regex::Regex::new`.  The contract claims that
/// the outcome (success, or the error's text as `Display` writes it) is a
/// function of the pattern alone.
#[verifier::external_body]
fn compile_regex(pattern: &str) -> (res: Result<Pattern, String>)
    ensures
        match res {
            Ok(p) => regex_new_error(pattern@) is None && p@ == pattern@,
            Err(e) => regex_new_error(pattern@) == Some(e@),
        },
{
    match regex::Regex::new(pattern) {
        Ok(re) => Ok(Pattern { source: pattern.to_owned(), re }),
        Err(e) => Err(format!("{}", e)),
    }
}

/// Whether the compiled pattern matches anywhere in `text`, with
/// `regex::Regex::is_match`.  The contract claims that the answer is a
/// function of the pattern and the text alone.
#[verifier::external_body]
fn pattern_matches(p: &Pattern, text: &str) -> (res: bool)
    ensures
        res == regex_is_match(p@, text@),
{
    p.re.is_match(text)
}

// ---------------------------------------------------------------------
// The builtin functions that only compute.
// ---------------------------------------------------------------------

/// The model of a result with a text error.
pub open spec fn res_view(r: Result<WashArgs, String>) -> Result<ArgsV, Seq<char>> {
    match r {
        Ok(v) => Ok(v@),
        Err(e) => Err(e@),
    }
}

/// Whether the arguments are refused by `equal?` and `re_equal?`: they are
/// not a list of exactly two items.
pub open spec fn bad_pair(a: ArgsV) -> bool {
    !(a is Long) || args_len(a) != 2
}

fn is_bad_pair(args: &WashArgs) -> (res: bool)
    ensures
        res == bad_pair(args@),
{
    !args.is_long() || args.len() != 2
}

fn text(s: &str) -> (res: String)
    ensures
        res@ == s@,
{
    s.to_owned()
}

/// `equal?`: empty when the first two items are equal, `not equal` otherwise.
pub fn equal_func(args: &WashArgs) -> (res: Result<WashArgs, String>)
    ensures
        res_view(res) == (if bad_pair(args@) {
            Err("Invalid arguments to equals?"@)
        } else if args_get(args@, 0) == args_get(args@, 1) {
            Ok(ArgsV::Empty)
        } else {
            Ok(ArgsV::Flat("not equal"@))
        }),
{
    if is_bad_pair(args) {
        Err(text("Invalid arguments to equals?"))
    } else if args_eq(&args.get(0), &args.get(1)) {
        Ok(WashArgs::Empty)
    } else {
        Ok(WashArgs::Flat(text("not equal")))
    }
}

/// `re_equal?`: empty when the second item, a regular expression, matches
/// the first item's text, `not equal` otherwise.
pub fn re_equal_func(args: &WashArgs) -> (res: Result<WashArgs, String>)
    ensures
        res_view(res) == (if bad_pair(args@) {
            Err("Invalid arguments to equals?"@)
        } else if !(args_get(args@, 1) is Flat) {
            Err("Right-hand side must be flat (regex)"@)
        } else {
            let pattern = flat_with(args_get(args@, 1), seq!['\n']);
            match regex_new_error(pattern) {
                Some(e) => Err(e),
                None => if regex_is_match(pattern, flat_with(args_get(args@, 0), seq!['\n'])) {
                    Ok(ArgsV::Empty)
                } else {
                    Ok(ArgsV::Flat("not equal"@))
                },
            }
        }),
{
    if is_bad_pair(args) {
        return Err(text("Invalid arguments to equals?"));
    }
    let right = args.get(1);
    if !right.is_flat() {
        return Err(text("Right-hand side must be flat (regex)"));
    }
    let re = match compile_regex(right.flatten().as_str()) {
        Err(e) => return Err(e),
        Ok(re) => re,
    };
    if pattern_matches(&re, args.get(0).flatten().as_str()) {
        Ok(WashArgs::Empty)
    } else {
        Ok(WashArgs::Flat(text("not equal")))
    }
}

/// `not?`: `empty` for the empty value, empty otherwise.
pub fn not_func(args: &WashArgs) -> (res: Result<WashArgs, String>)
    ensures
        res_view(res) == (if args@ is Empty {
            Ok::<ArgsV, Seq<char>>(ArgsV::Flat("empty"@))
        } else {
            Ok(ArgsV::Empty)
        }),
{
    if args.is_empty() {
        Ok(WashArgs::Flat(text("empty")))
    } else {
        Ok(WashArgs::Empty)
    }
}

/// `flatten_eqlist`: a list of `(name value)` pairs as `name=value` lines.
pub fn flatten_eqlist_func(args: &WashArgs) -> (res: Result<WashArgs, String>)
    ensures
        res_view(res) == Ok::<ArgsV, Seq<char>>(ArgsV::Flat(flat_with_inner(args@, "\n"@, "="@))),
{
    Ok(WashArgs::Flat(args.flatten_with_inner("\n", "=")))
}

/// All the texts of a list, one after the other.
pub open spec fn concat_all(v: Seq<Seq<char>>) -> Seq<char>
    decreases v.len(),
{
    if v.len() == 0 {
        seq![]
    } else {
        concat_all(v.drop_last()) + v.last()
    }
}

/// `dot`: every text in the arguments, joined with nothing between.
pub fn dot_func(args: &WashArgs) -> (res: Result<WashArgs, String>)
    ensures
        res_view(res) == Ok::<ArgsV, Seq<char>>(ArgsV::Flat(concat_all(flat_list(args@)))),
{
    let parts = args.flatten_vec();
    let mut out = String::new();
    let mut i: usize = 0;
    proof {
        assert(strs_view(parts@).subrange(0, 0) =~= Seq::<Seq<char>>::empty());
    }
    while i < parts.len()
        invariant
            i <= parts.len(),
            out@ == concat_all(strs_view(parts@).subrange(0, i as int)),
        decreases parts.len() - i,
    {
        append_str(&mut out, parts[i].as_str());
        proof {
            let s = strs_view(parts@).subrange(0, i + 1);
            assert(s.drop_last() =~= strs_view(parts@).subrange(0, i as int));
            assert(s.last() == parts@[i as int]@);
        }
        i = i + 1;
    }
    proof {
        assert(strs_view(parts@).subrange(0, parts.len() as int) =~= strs_view(parts@));
    }
    Ok(WashArgs::Flat(out))
}

/// What the builtin named `name` that only computes answers for `args`:
/// `equal?`, `re_equal?`, `not?` and `dot`; `None` for any other name.
pub open spec fn builtin_answer(name: Seq<char>, args: ArgsV) -> Option<Result<ArgsV, Seq<char>>> {
    if name == "equal?"@ {
        Some(
            if bad_pair(args) {
                Err("Invalid arguments to equals?"@)
            } else if args_get(args, 0) == args_get(args, 1) {
                Ok(ArgsV::Empty)
            } else {
                Ok(ArgsV::Flat("not equal"@))
            },
        )
    } else if name == "re_equal?"@ {
        Some(
            if bad_pair(args) {
                Err("Invalid arguments to equals?"@)
            } else if !(args_get(args, 1) is Flat) {
                Err("Right-hand side must be flat (regex)"@)
            } else {
                let pattern = flat_with(args_get(args, 1), seq!['\n']);
                match regex_new_error(pattern) {
                    Some(e) => Err(e),
                    None => if regex_is_match(pattern, flat_with(args_get(args, 0), seq!['\n'])) {
                        Ok(ArgsV::Empty)
                    } else {
                        Ok(ArgsV::Flat("not equal"@))
                    },
                }
            },
        )
    } else if name == "not?"@ {
        Some(
            if args is Empty {
                Ok(ArgsV::Flat("empty"@))
            } else {
                Ok(ArgsV::Empty)
            },
        )
    } else if name == "dot"@ {
        Some(Ok(ArgsV::Flat(concat_all(flat_list(args)))))
    } else {
        None
    }
}

/// The names of the builtins that only compute differ from each other.
pub proof fn lemma_builtin_names_differ()
    ensures
        "equal?"@ != "re_equal?"@,
        "equal?"@ != "not?"@,
        "equal?"@ != "dot"@,
        "re_equal?"@ != "not?"@,
        "re_equal?"@ != "dot"@,
        "not?"@ != "dot"@,
{
    reveal_strlit("equal?");
    reveal_strlit("re_equal?");
    reveal_strlit("not?");
    reveal_strlit("dot");
    assert("equal?"@.len() != "re_equal?"@.len());
    assert("equal?"@[0] != "not?"@[0]);
    assert("equal?"@.len() != "dot"@.len());
    assert("re_equal?"@.len() != "not?"@.len());
    assert("re_equal?"@.len() != "dot"@.len());
    assert("not?"@.len() != "dot"@.len());
}

/// Calls the builtin named `name` that only computes (see `builtin_answer`).
pub fn call_builtin(name: &str, args: &WashArgs) -> (res: Option<Result<WashArgs, String>>)
    ensures
        match res {
            None => builtin_answer(name@, args@) is None,
            Some(r) => builtin_answer(name@, args@) == Some(res_view(r)),
        },
{
    proof {
        reveal_strlit("equal?");
        reveal_strlit("re_equal?");
        reveal_strlit("not?");
        reveal_strlit("dot");
    }
    if crate::vars::str_eq(name, "equal?") {
        Some(equal_func(args))
    } else if crate::vars::str_eq(name, "re_equal?") {
        Some(re_equal_func(args))
    } else if crate::vars::str_eq(name, "not?") {
        Some(not_func(args))
    } else if crate::vars::str_eq(name, "dot") {
        Some(dot_func(args))
    } else {
        None
    }
}

/// The texts of a process result that means success.
pub open spec fn success_words() -> Seq<Seq<char>> {
    seq!["status"@, "0"@]
}

/// `describe_process_output`: turns the result of running a command into
/// an error unless it is `status 0`.
pub fn describe_process_output(args: &WashArgs) -> (res: Result<WashArgs, String>)
    ensures
        res_view(res) == ({
            let argv = flat_list(args@);
            if args@ is Empty {
                Err("Command Failed"@)
            } else if argv.len() < 2 {
                Err("Command failed: "@ + flat_with(args@, seq!['\n']))
            } else if argv == seq!["signal"@, "19"@] || argv == seq!["signal"@, "20"@] {
                Err("Command stopped"@)
            } else if argv != success_words() {
                Err("Command failed with "@ + argv[0] + " "@ + argv[1])
            } else {
                Ok(ArgsV::Empty)
            }
        }),
{
    let argv = args.flatten_vec();
    if args.is_empty() {
        return Err(text("Command Failed"));
    }
    if argv.len() < 2 {
        let mut m = text("Command failed: ");
        append_str(&mut m, args.flatten().as_str());
        return Err(m);
    }
    let two = argv.len() == 2;
    let is_signal = two && crate::vars::str_eq(argv[0].as_str(), "signal");
    let is_status = two && crate::vars::str_eq(argv[0].as_str(), "status");
    proof {
        let v = strs_view(argv@);
        assert(v[0] == argv@[0]@ && v[1] == argv@[1]@);
        if two {
            assert(v =~= seq![v[0], v[1]]);
        }
    }
    if is_signal && (crate::vars::str_eq(argv[1].as_str(), "19") || crate::vars::str_eq(argv[1].as_str(), "20")) {
        return Err(text("Command stopped"));
    }
    if !(is_status && crate::vars::str_eq(argv[1].as_str(), "0")) {
        proof {
            let v = strs_view(argv@);
            if v == success_words() {
                assert(v[0] == "status"@ && v[1] == "0"@);
            }
        }
        let mut m = text("Command failed with ");
        append_str(&mut m, argv[0].as_str());
        append_str(&mut m, " ");
        append_str(&mut m, argv[1].as_str());
        return Err(m);
    }
    proof {
        let v = strs_view(argv@);
        assert(v =~= success_words());
        if v == seq!["signal"@, "19"@] || v == seq!["signal"@, "20"@] {
            assert(v[0] == "signal"@);
            assert("signal"@ != "status"@) by {
                reveal_strlit("signal");
                reveal_strlit("status");
                assert("signal"@[1] != "status"@[1]);
            }
        }
    }
    Ok(WashArgs::Empty)
}

/// `run_failed?`: `succeeded` for `status 0`, empty otherwise.
pub fn run_failed_func(args: &WashArgs) -> (res: Result<WashArgs, String>)
    ensures
        res_view(res) == (if flat_list(args@) == success_words() {
            Ok::<ArgsV, Seq<char>>(ArgsV::Flat("succeeded"@))
        } else {
            Ok(ArgsV::Empty)
        }),
{
    let argv = args.flatten_vec();
    let ok = argv.len() == 2 && crate::vars::str_eq(argv[0].as_str(), "status") && crate::vars::str_eq(
        argv[1].as_str(),
        "0",
    );
    proof {
        let v = strs_view(argv@);
        let sw = success_words();
        assert(sw.len() == 2 && sw[0] == "status"@ && sw[1] == "0"@);
        if argv.len() == 2 {
            assert(v[0] == argv@[0]@ && v[1] == argv@[1]@);
            assert(v =~= seq![v[0], v[1]]);
        }
        if v == success_words() {
            assert(v[0] == "status"@ && v[1] == "0"@);
        }
        if ok {
            assert(v =~= success_words());
        }
    }
    if ok {
        Ok(WashArgs::Flat(text("succeeded")))
    } else {
        Ok(WashArgs::Empty)
    }
}

/// `subprompt`: the prompt shown inside a block.
pub fn subprompt_func() -> (res: Result<WashArgs, String>)
    ensures
        res_view(res) == Ok::<ArgsV, Seq<char>>(ArgsV::Flat(" => $("@)),
{
    Ok(WashArgs::Flat(text(" => $(")))
}

/// The names that `builtins` lists.
pub open spec fn builtin_names() -> Seq<Seq<char>> {
    seq!["$"@, "builtins"@, "cd"@, "dot"@, "fg"@, "get"@, "jobs"@, "run"@, "setp"@, "source"@]
}

/// `builtins`: the names of the builtin commands.
pub fn builtins_func() -> (res: Result<WashArgs, String>)
    ensures
        res matches Ok(WashArgs::Long(v)) && args_views(v@) == Seq::new(
            builtin_names().len(),
            |i: int| ArgsV::Flat(builtin_names()[i]),
        ),
{
    let mut v: Vec<WashArgs> = Vec::new();
    v.push(WashArgs::Flat(text("$")));
    v.push(WashArgs::Flat(text("builtins")));
    v.push(WashArgs::Flat(text("cd")));
    v.push(WashArgs::Flat(text("dot")));
    v.push(WashArgs::Flat(text("fg")));
    v.push(WashArgs::Flat(text("get")));
    v.push(WashArgs::Flat(text("jobs")));
    v.push(WashArgs::Flat(text("run")));
    v.push(WashArgs::Flat(text("setp")));
    v.push(WashArgs::Flat(text("source")));
    proof {
        assert(args_views(v@) =~= Seq::new(builtin_names().len(), |i: int| ArgsV::Flat(builtin_names()[i])));
    }
    Ok(WashArgs::Long(v))
}

/// `getall`: the variables of the current path (and the unshadowed ones of
/// `""`) for no argument, those of the given path for a flat one.  `None`
/// when they live outside the store.
pub fn getall_func(args: &WashArgs, store: &VarStore) -> (res: Option<Result<WashArgs, String>>)
    requires
        store.wf(),
    ensures
        reply_view(res) == (match args@ {
            ArgsV::Empty => Some(Ok::<ArgsV, Seq<char>>(ArgsV::Long(getall_spec(store@)))),
            ArgsV::Flat(p) => getallp_spec(store@, p),
            _ => Some(Err("Path must be Flat or Empty"@)),
        }),
{
    match args {
        WashArgs::Empty => Some(store.getall()),
        WashArgs::Flat(p) => store.getallp(p.as_str()),
        _ => Some(Err(text("Path must be Flat or Empty"))),
    }
}

/// Whether `c` may stand in a name given to `get`: no blanks, quotes or parentheses.
pub open spec fn is_get_char(c: char) -> bool {
    c != ' ' && c != '\t' && c != '\n' && c != '\r' && c != '"' && c != '(' && c != ')'
}

/// Whether `s` is a name that `get` accepts.
pub open spec fn is_get_name(s: Seq<char>) -> bool {
    s.len() > 0 && forall|i: int| 0 <= i < s.len() ==> is_get_char(s[i])
}

/// Where the first colon of `s` stands, if it has one.
pub open spec fn first_colon(s: Seq<char>) -> Option<int> {
    if s.contains(':') {
        Some(choose|i: int| 0 <= i < s.len() && s[i] == ':' && forall|j: int| 0 <= j < i ==> s[j] != ':')
    } else {
        None
    }
}

/// What `get` reads for a valid name: `path:name` in that path (in the
/// current one when the path is empty), any other name in the current path.
pub open spec fn get_spec(s: StoreV, w: Seq<char>) -> Option<Result<ArgsV, Seq<char>>> {
    match first_colon(w) {
        Some(i) => {
            let path = w.subrange(0, i);
            let name = w.subrange(i + 1, w.len() as int);
            if path.len() == 0 {
                getv_spec(s, name)
            } else {
                getvp_spec(s, name, path)
            }
        },
        None => getv_spec(s, w),
    }
}

fn valid_get_name(s: &str) -> (res: bool)
    ensures
        res == is_get_name(s@),
{
    let n = s.unicode_len();
    if n == 0 {
        return false;
    }
    let mut i: usize = 0;
    while i < n
        invariant
            i <= n,
            n == s@.len(),
            forall|j: int| 0 <= j < i ==> is_get_char(s@[j]),
        decreases n - i,
    {
        let c = s.get_char(i);
        if c == ' ' || c == '\t' || c == '\n' || c == '\r' || c == '"' || c == '(' || c == ')' {
            return false;
        }
        i = i + 1;
    }
    true
}

pub(crate) fn find_colon(s: &str) -> (res: Option<usize>)
    ensures
        match res {
            Some(i) => first_colon(s@) == Some(i as int) && i < s@.len(),
            None => first_colon(s@) is None,
        },
{
    let n = s.unicode_len();
    let mut i: usize = 0;
    while i < n
        invariant
            i <= n,
            n == s@.len(),
            forall|j: int| 0 <= j < i ==> s@[j] != ':',
        decreases n - i,
    {
        if s.get_char(i) == ':' {
            proof {
                assert(s@.contains(':'));
                let k = choose|k: int| 0 <= k < s@.len() && s@[k] == ':' && forall|j: int| 0 <= j < k ==> s@[j] != ':';
                if k < i {
                    assert(s@[k] != ':');
                }
                if k > i {
                    assert(s@[i as int] != ':');
                }
            }
            return Some(i);
        }
        i = i + 1;
    }
    None
}

pub(crate) fn sub_text(s: &str, from: usize, to: usize) -> (res: String)
    requires
        from <= to <= s@.len(),
    ensures
        res@ == s@.subrange(from as int, to as int),
{
    let mut out = String::new();
    let mut i = from;
    while i < to
        invariant
            from <= i <= to,
            to <= s@.len(),
            out@ == s@.subrange(from as int, i as int),
        decreases to - i,
    {
        out.push(s.get_char(i));
        proof {
            assert(out@ =~= s@.subrange(from as int, i + 1));
        }
        i = i + 1;
    }
    out
}

/// `get`: reads the variable named by the first argument (see `get_spec`).
/// `None` when the value lives outside the store.
pub fn get_func(args: &WashArgs, store: &VarStore) -> (res: Option<Result<WashArgs, String>>)
    requires
        store.wf(),
    ensures
        reply_view(res) == (if args_len(args@) < 1 {
            Some(Err("No variable name given"@))
        } else {
            match args_get(args@, 0) {
                ArgsV::Flat(w) => if !is_get_name(w) {
                    Some(Err("Varibale names cannot contain whitespace, quotes, or parentheses"@))
                } else {
                    get_spec(store@, w)
                },
                _ => Some(Err("Variable names can only be flat"@)),
            }
        }),
{
    if args.len() < 1 {
        return Some(Err(text("No variable name given")));
    }
    let w = match args.get(0) {
        WashArgs::Flat(w) => w,
        _ => return Some(Err(text("Variable names can only be flat"))),
    };
    if !valid_get_name(w.as_str()) {
        return Some(Err(text("Varibale names cannot contain whitespace, quotes, or parentheses")));
    }
    match find_colon(w.as_str()) {
        Some(i) => {
            let n = w.as_str().unicode_len();
            let path = sub_text(w.as_str(), 0, i);
            let name = sub_text(w.as_str(), i + 1, n);
            if path.as_str().is_empty() {
                store.getv(name.as_str())
            } else {
                store.getvp(name.as_str(), path.as_str())
            }
        },
        None => store.getv(w.as_str()),
    }
}

} // verus!
