use vstd::prelude::*;

use crate::types::{ArgsV, WashArgs, args_clone, args_views};
use crate::vars::str_eq;

verus! {

/// A variable and its value.
pub struct Var {
    pub name: String,
    pub value: WashArgs,
}

/// The variables of one path, in the order they were first set.
pub struct PathVars {
    pub path: String,
    pub vars: Vec<Var>,
}

/// The shell's variables, grouped by path, and the path that names
/// without one refer to.  The paths `sys`, `env` and `pipe` are not kept
/// here: they stand for the system, the process environment and the jobs.
pub struct VarStore {
    current: String,
    paths: Vec<PathVars>,
}

/// The model of a `VarStore`: the current path, and for each path its
/// variables in order.
pub struct StoreV {
    pub current: Seq<char>,
    pub paths: Map<Seq<char>, Seq<(Seq<char>, ArgsV)>>,
}

/// A change to the process environment that setting a variable of the
/// path `env` asks for.
#[derive(Debug)]
pub enum EnvChange {
    /// set the variable to the text
    Assign(String, String),
    /// remove the variable
    Remove(String),
}

pub enum EnvChangeV {
    Assign(Seq<char>, Seq<char>),
    Remove(Seq<char>),
}

impl EnvChange {
    pub open spec fn view(&self) -> EnvChangeV {
        match self {
            EnvChange::Assign(n, v) => EnvChangeV::Assign(n@, v@),
            EnvChange::Remove(n) => EnvChangeV::Remove(n@),
        }
    }
}

// ---------------------------------------------------------------------
// The meaning of the variable tables.
// ---------------------------------------------------------------------

pub open spec fn var_entries(v: Seq<Var>) -> Seq<(Seq<char>, ArgsV)> {
    Seq::new(v.len(), |i: int| (v[i].name@, v[i].value@))
}

/// Whether no name occurs twice.
pub open spec fn names_unique(t: Seq<(Seq<char>, ArgsV)>) -> bool {
    forall|i: int, j: int| 0 <= i < t.len() && 0 <= j < t.len() && i != j ==> t[i].0 != t[j].0
}

/// Whether `name` has an entry in `t`.
pub open spec fn has_name(t: Seq<(Seq<char>, ArgsV)>, name: Seq<char>) -> bool {
    exists|i: int| 0 <= i < t.len() && t[i].0 == name
}

/// The value of `name` in `t`.
pub open spec fn lookup(t: Seq<(Seq<char>, ArgsV)>, name: Seq<char>) -> Option<ArgsV> {
    if has_name(t, name) {
        Some(t[choose|i: int| 0 <= i < t.len() && t[i].0 == name].1)
    } else {
        None
    }
}

/// `t` with `name` set to `v`: an existing entry keeps its place, a new one comes last.
pub open spec fn set_entry(t: Seq<(Seq<char>, ArgsV)>, name: Seq<char>, v: ArgsV) -> Seq<(Seq<char>, ArgsV)> {
    if has_name(t, name) {
        t.update(choose|i: int| 0 <= i < t.len() && t[i].0 == name, (name, v))
    } else {
        t.push((name, v))
    }
}

/// `t` without `name`.
pub open spec fn remove_entry(t: Seq<(Seq<char>, ArgsV)>, name: Seq<char>) -> Seq<(Seq<char>, ArgsV)> {
    if has_name(t, name) {
        t.remove(choose|i: int| 0 <= i < t.len() && t[i].0 == name)
    } else {
        t
    }
}

/// A variable written as the list `(name value)`.
pub open spec fn entry_item(e: (Seq<char>, ArgsV)) -> ArgsV {
    ArgsV::Long(seq![ArgsV::Flat(e.0), e.1])
}

/// Every variable of `t`, in order.
pub open spec fn listing(t: Seq<(Seq<char>, ArgsV)>) -> Seq<ArgsV> {
    Seq::new(t.len(), |i: int| entry_item(t[i]))
}

/// The variables of `t` whose names `cur` does not have.
pub open spec fn unshadowed(t: Seq<(Seq<char>, ArgsV)>, cur: Seq<(Seq<char>, ArgsV)>) -> Seq<ArgsV>
    decreases t.len(),
{
    if t.len() == 0 {
        seq![]
    } else {
        unshadowed(t.drop_last(), cur) + (if has_name(cur, t.last().0) {
            seq![]
        } else {
            seq![entry_item(t.last())]
        })
    }
}

/// The variables of `path`, or none.
pub open spec fn table_of(s: StoreV, path: Seq<char>) -> Seq<(Seq<char>, ArgsV)> {
    if s.paths.contains_key(path) {
        s.paths[path]
    } else {
        seq![]
    }
}

/// Whether `path` stands for something outside the store.
pub open spec fn is_outside_path(path: Seq<char>) -> bool {
    path == "sys"@ || path == "env"@ || path == "pipe"@
}

/// The names of the path `sys` whose values come from the system.
pub open spec fn is_system_name(name: Seq<char>) -> bool {
    name == "login"@ || name == "hostname"@ || name == "args"@ || name == "cwd"@ || name == "scwd"@
}

/// Reading `name` in `path`: `None` when the value lives outside the store.
pub open spec fn getvp_spec(s: StoreV, name: Seq<char>, path: Seq<char>) -> Option<Result<ArgsV, Seq<char>>> {
    if path == "sys"@ {
        if is_system_name(name) {
            None
        } else {
            Some(Err("System variable not found"@))
        }
    } else if path == "env"@ || path == "pipe"@ {
        None
    } else if !s.paths.contains_key(path) {
        Some(Err("Path not found"@))
    } else {
        match lookup(s.paths[path], name) {
            None => Some(Err("Variable not found"@)),
            Some(v) => Some(Ok(v)),
        }
    }
}

/// Reading `name` in the current path, then in the path `""`.
pub open spec fn getv_spec(s: StoreV, name: Seq<char>) -> Option<Result<ArgsV, Seq<char>>> {
    match getvp_spec(s, name, s.current) {
        Some(Err(_)) => getvp_spec(s, name, seq![]),
        other => other,
    }
}

/// Listing the variables of `path`: `None` when they live outside the store.
pub open spec fn getallp_spec(s: StoreV, path: Seq<char>) -> Option<Result<ArgsV, Seq<char>>> {
    if path == "sys"@ {
        Some(Err("Cannot get all system variables"@))
    } else if path == "env"@ || path == "pipe"@ {
        None
    } else if s.paths.contains_key(path) {
        Some(Ok(ArgsV::Long(listing(s.paths[path]))))
    } else {
        Some(Err("Path not found"@))
    }
}

/// Every variable of the current path, then those of the path `""` that it
/// does not have.
pub open spec fn getall_spec(s: StoreV) -> Seq<ArgsV> {
    let cur = if s.paths.contains_key(s.current) {
        listing(s.paths[s.current])
    } else {
        seq![]
    };
    if s.current.len() > 0 && s.paths.contains_key(seq![]) {
        cur + unshadowed(s.paths[seq![]], table_of(s, s.current))
    } else {
        cur
    }
}

/// Setting `name` in `path` to `v` (`Empty` unsets it): the store after,
/// the result, and the change to the environment asked for.
pub open spec fn insvp_spec(s: StoreV, name: Seq<char>, path: Seq<char>, v: ArgsV) -> (
    StoreV,
    Result<ArgsV, Seq<char>>,
    Option<EnvChangeV>,
) {
    if v is Empty {
        if path == "sys"@ {
            (s, Err("System variables are read-only"@), None)
        } else if path == "pipe"@ {
            (s, Err("Pipes are read-only variables"@), None)
        } else if path == "env"@ {
            (s, Ok(ArgsV::Empty), Some(EnvChangeV::Remove(name)))
        } else if !s.paths.contains_key(path) {
            (s, Ok(ArgsV::Empty), None)
        } else {
            (
                StoreV { paths: s.paths.insert(path, remove_entry(s.paths[path], name)), ..s },
                Ok(v),
                None,
            )
        }
    } else {
        if path == "pipe"@ {
            (s, Err("Pipes are read-only variales"@), None)
        } else if path == "sys"@ {
            (s, Err("System variables are read-only"@), None)
        } else if path == "env"@ {
            match v {
                ArgsV::Flat(text) => (s, Ok(v), Some(EnvChangeV::Assign(name, text))),
                _ => (s, Err("Environment variables can only be flat"@), None),
            }
        } else {
            (
                StoreV { paths: s.paths.insert(path, set_entry(table_of(s, path), name, v)), ..s },
                Ok(v),
                None,
            )
        }
    }
}

/// Setting `name` in the current path, which is created first if needed.
pub open spec fn insv_spec(s: StoreV, name: Seq<char>, v: ArgsV) -> (
    StoreV,
    Result<ArgsV, Seq<char>>,
    Option<EnvChangeV>,
) {
    let s2 = if s.paths.contains_key(s.current) {
        s
    } else {
        StoreV { paths: s.paths.insert(s.current, seq![]), ..s }
    };
    insvp_spec(s2, name, s.current, v)
}

// ---------------------------------------------------------------------
// What reads give back after writes.
// ---------------------------------------------------------------------

proof fn lemma_set_entry(t: Seq<(Seq<char>, ArgsV)>, name: Seq<char>, v: ArgsV)
    requires
        names_unique(t),
    ensures
        names_unique(set_entry(t, name, v)),
        lookup(set_entry(t, name, v), name) == Some(v),
        forall|n: Seq<char>| n != name ==> #[trigger] lookup(set_entry(t, name, v), n) == lookup(t, n),
{
    let t2 = set_entry(t, name, v);
    if has_name(t, name) {
        let i = choose|i: int| 0 <= i < t.len() && t[i].0 == name;
        assert(t2[i] == (name, v));
        assert forall|a: int, b: int| 0 <= a < t2.len() && 0 <= b < t2.len() && a != b implies t2[a].0 != t2[b].0 by {
            if a != i && b != i {
                assert(t[a].0 != t[b].0);
            } else if a == i {
                assert(t[b].0 != t[i].0);
            } else {
                assert(t[a].0 != t[i].0);
            }
        }
        lemma_lookup_at(t2, i);
        assert forall|n: Seq<char>| n != name implies #[trigger] lookup(t2, n) == lookup(t, n) by {
            if has_name(t, n) {
                let j = choose|j: int| 0 <= j < t.len() && t[j].0 == n;
                lemma_lookup_at(t, j);
                assert(j != i);
                assert(t2[j] == t[j]);
                lemma_lookup_at(t2, j);
            }
            if has_name(t2, n) {
                let j = choose|j: int| 0 <= j < t2.len() && t2[j].0 == n;
                assert(j != i);
                assert(t[j] == t2[j]);
            }
        }
    } else {
        let i = t.len() as int;
        assert(t2[i] == (name, v));
        assert forall|a: int, b: int| 0 <= a < t2.len() && 0 <= b < t2.len() && a != b implies t2[a].0 != t2[b].0 by {
            if a != i && b != i {
                assert(t[a].0 != t[b].0);
            } else if a == i {
                assert(t2[b] == t[b]);
            } else {
                assert(t2[a] == t[a]);
            }
        }
        lemma_lookup_at(t2, i);
        assert forall|n: Seq<char>| n != name implies #[trigger] lookup(t2, n) == lookup(t, n) by {
            if has_name(t, n) {
                let j = choose|j: int| 0 <= j < t.len() && t[j].0 == n;
                lemma_lookup_at(t, j);
                assert(t2[j] == t[j]);
                lemma_lookup_at(t2, j);
            }
            if has_name(t2, n) {
                let j = choose|j: int| 0 <= j < t2.len() && t2[j].0 == n;
                assert(j != i);
                assert(t[j] == t2[j]);
            }
        }
    }
}

proof fn lemma_remove_entry(t: Seq<(Seq<char>, ArgsV)>, name: Seq<char>)
    requires
        names_unique(t),
    ensures
        names_unique(remove_entry(t, name)),
        lookup(remove_entry(t, name), name) is None,
        forall|n: Seq<char>| n != name ==> #[trigger] lookup(remove_entry(t, name), n) == lookup(t, n),
{
    let t2 = remove_entry(t, name);
    if has_name(t, name) {
        let i = choose|i: int| 0 <= i < t.len() && t[i].0 == name;
        assert forall|a: int| 0 <= a < t2.len() implies #[trigger] t2[a] == (if a < i {
            t[a]
        } else {
            t[a + 1]
        }) by {}
        assert forall|a: int, b: int| 0 <= a < t2.len() && 0 <= b < t2.len() && a != b implies t2[a].0 != t2[b].0 by {
            let a2 = if a < i { a } else { a + 1 };
            let b2 = if b < i { b } else { b + 1 };
            assert(t[a2].0 != t[b2].0);
        }
        assert(!has_name(t2, name)) by {
            if has_name(t2, name) {
                let j = choose|j: int| 0 <= j < t2.len() && t2[j].0 == name;
                let j2 = if j < i { j } else { j + 1 };
                assert(t[j2].0 == name);
                assert(j2 != i);
            }
        }
        assert forall|n: Seq<char>| n != name implies #[trigger] lookup(t2, n) == lookup(t, n) by {
            if has_name(t, n) {
                let j = choose|j: int| 0 <= j < t.len() && t[j].0 == n;
                lemma_lookup_at(t, j);
                assert(j != i);
                let j2 = if j < i { j } else { j - 1 };
                assert(t2[j2] == t[j]);
                lemma_lookup_at(t2, j2);
            }
            if has_name(t2, n) {
                let j = choose|j: int| 0 <= j < t2.len() && t2[j].0 == n;
                let j2 = if j < i { j } else { j + 1 };
                assert(t[j2] == t2[j]);
            }
        }
    }
}

/// A read gives back what a write wrote: after a variable of a path kept
/// here is set to a value, reading it gives that value, and reading any
/// other variable gives what it gave before.
pub proof fn law_read_after_write(s: StoreV, name: Seq<char>, path: Seq<char>, v: ArgsV)
    requires
        !is_outside_path(path),
        !(v is Empty),
        names_unique(table_of(s, path)),
    ensures
        insvp_spec(s, name, path, v).1 == Ok::<ArgsV, Seq<char>>(v),
        getvp_spec(insvp_spec(s, name, path, v).0, name, path) == Some(Ok::<ArgsV, Seq<char>>(v)),
        forall|n: Seq<char>, p: Seq<char>|
            !(n == name && p == path) ==> #[trigger] getvp_spec(insvp_spec(s, name, path, v).0, n, p)
                == getvp_spec(s, n, p) || (p == path && !s.paths.contains_key(path)),
{
    lemma_set_entry(table_of(s, path), name, v);
}

/// Unsetting a variable makes reading it fail, and leaves the others as they were.
pub proof fn law_read_after_unset(s: StoreV, name: Seq<char>, path: Seq<char>)
    requires
        !is_outside_path(path),
        s.paths.contains_key(path) ==> names_unique(s.paths[path]),
    ensures
        insvp_spec(s, name, path, ArgsV::Empty).1 is Ok,
        getvp_spec(insvp_spec(s, name, path, ArgsV::Empty).0, name, path) matches Some(Err(_)),
        forall|n: Seq<char>, p: Seq<char>|
            !(n == name && p == path) ==> #[trigger] getvp_spec(insvp_spec(s, name, path, ArgsV::Empty).0, n, p)
                == getvp_spec(s, n, p),
{
    if s.paths.contains_key(path) {
        lemma_remove_entry(s.paths[path], name);
    }
}

/// The model of a reply that may live outside the store.
pub open spec fn reply_view(r: Option<Result<WashArgs, String>>) -> Option<Result<ArgsV, Seq<char>>> {
    match r {
        None => None,
        Some(Ok(v)) => Some(Ok(v@)),
        Some(Err(e)) => Some(Err(e@)),
    }
}

pub open spec fn change_view(c: Option<EnvChange>) -> Option<EnvChangeV> {
    match c {
        None => None,
        Some(x) => Some(x@),
    }
}

pub open spec fn result_view(r: Result<WashArgs, String>) -> Result<ArgsV, Seq<char>> {
    match r {
        Ok(v) => Ok(v@),
        Err(e) => Err(e@),
    }
}

fn text(s: &str) -> (res: String)
    ensures
        res@ == s@,
{
    s.to_owned()
}

fn entry_value(name: &String, value: &WashArgs) -> (res: WashArgs)
    ensures
        res@ == entry_item((name@, value@)),
{
    let mut v: Vec<WashArgs> = Vec::new();
    v.push(WashArgs::Flat(name.clone()));
    v.push(args_clone(value));
    proof {
        assert(args_views(v@) =~= seq![ArgsV::Flat(name@), value@]);
    }
    WashArgs::Long(v)
}

fn find_var(vars: &Vec<Var>, name: &str) -> (res: Option<usize>)
    ensures
        res matches Some(i) ==> i < vars@.len() && vars@[i as int].name@ == name@,
        res is None ==> !has_name(var_entries(vars@), name@),
{
    let mut i: usize = 0;
    while i < vars.len()
        invariant
            i <= vars.len(),
            forall|j: int| 0 <= j < i ==> vars@[j].name@ != name@,
        decreases vars.len() - i,
    {
        if str_eq(vars[i].name.as_str(), name) {
            return Some(i);
        }
        i = i + 1;
    }
    proof {
        assert forall|j: int| 0 <= j < var_entries(vars@).len() implies var_entries(vars@)[j].0 != name@ by {
            assert(var_entries(vars@)[j].0 == vars@[j].name@);
        }
    }
    None
}

proof fn lemma_lookup_at(t: Seq<(Seq<char>, ArgsV)>, i: int)
    requires
        names_unique(t),
        0 <= i < t.len(),
    ensures
        has_name(t, t[i].0),
        lookup(t, t[i].0) == Some(t[i].1),
        (choose|j: int| 0 <= j < t.len() && t[j].0 == t[i].0) == i,
{
    assert(has_name(t, t[i].0));
    let j = choose|j: int| 0 <= j < t.len() && t[j].0 == t[i].0;
    assert(j == i);
}

impl VarStore {
    pub closed spec fn view(&self) -> StoreV {
        StoreV {
            current: self.current@,
            paths: Map::new(
                |p: Seq<char>| exists|i: int| 0 <= i < self.paths@.len() && self.paths@[i].path@ == p,
                |p: Seq<char>|
                    var_entries(
                        self.paths@[choose|i: int| 0 <= i < self.paths@.len() && self.paths@[i].path@ == p].vars@,
                    ),
            ),
        }
    }

    /// Paths occur once, names once in each path, and the current path is
    /// not one that stands for something outside the store.
    pub closed spec fn wf(&self) -> bool {
        &&& forall|i: int, j: int|
            0 <= i < self.paths@.len() && 0 <= j < self.paths@.len() && i != j ==> self.paths@[i].path@
                != self.paths@[j].path@
        &&& forall|i: int| 0 <= i < self.paths@.len() ==> names_unique(var_entries(#[trigger] self.paths@[i].vars@))
        &&& !is_outside_path(self.current@)
    }

    proof fn lemma_view_at(&self, i: int)
        requires
            self.wf(),
            0 <= i < self.paths@.len(),
        ensures
            self@.paths.contains_key(self.paths@[i].path@),
            self@.paths[self.paths@[i].path@] == var_entries(self.paths@[i].vars@),
            names_unique(var_entries(self.paths@[i].vars@)),
    {
        let p = self.paths@[i].path@;
        assert(exists|j: int| 0 <= j < self.paths@.len() && self.paths@[j].path@ == p);
        let j = choose|j: int| 0 <= j < self.paths@.len() && self.paths@[j].path@ == p;
        assert(i == j);
    }

    /// In a well-formed store no path holds two variables of one name.
    pub proof fn lemma_wf_names_unique(&self, path: Seq<char>)
        requires
            self.wf(),
        ensures
            names_unique(table_of(self@, path)),
    {
        if self@.paths.contains_key(path) {
            let i = choose|i: int| 0 <= i < self.paths@.len() && self.paths@[i].path@ == path;
            self.lemma_view_at(i);
        }
    }

    /// An empty store whose current path is `""`.
    pub fn new() -> (res: VarStore)
        ensures
            res.wf(),
            res@ == (StoreV { current: seq![], paths: Map::empty() }),
    {
        let res = VarStore { current: String::new(), paths: Vec::new() };
        proof {
            reveal_strlit("sys");
            reveal_strlit("env");
            reveal_strlit("pipe");
            assert("sys"@.len() == 3 && "env"@.len() == 3 && "pipe"@.len() == 4);
            assert(res@.paths =~= Map::<Seq<char>, Seq<(Seq<char>, ArgsV)>>::empty());
        }
        res
    }

    /// The current path.
    pub fn current_path(&self) -> (res: String)
        ensures
            res@ == self@.current,
    {
        self.current.clone()
    }

    fn find_path(&self, path: &str) -> (res: Option<usize>)
        requires
            self.wf(),
        ensures
            res matches Some(i) ==> i < self.paths@.len() && self.paths@[i as int].path@ == path@,
            res is None ==> !self@.paths.contains_key(path@),
    {
        let mut i: usize = 0;
        while i < self.paths.len()
            invariant
                i <= self.paths.len(),
                forall|j: int| 0 <= j < i ==> self.paths@[j].path@ != path@,
            decreases self.paths.len() - i,
        {
            if str_eq(self.paths[i].path.as_str(), path) {
                return Some(i);
            }
            i = i + 1;
        }
        None
    }

    /// Whether `path` has variables here.
    pub fn hasp(&self, path: &str) -> (res: bool)
        requires
            self.wf(),
        ensures
            res == self@.paths.contains_key(path@),
    {
        match self.find_path(path) {
            Some(i) => {
                proof {
                    self.lemma_view_at(i as int);
                }
                true
            },
            None => false,
        }
    }

    /// Whether `name` is set in `path`.
    pub fn hasvp(&self, name: &str, path: &str) -> (res: bool)
        requires
            self.wf(),
        ensures
            res == has_name(table_of(self@, path@), name@),
    {
        match self.find_path(path) {
            Some(i) => {
                proof {
                    self.lemma_view_at(i as int);
                }
                match find_var(&self.paths[i].vars, name) {
                    Some(j) => {
                        proof {
                            assert(var_entries(self.paths@[i as int].vars@)[j as int].0 == name@);
                        }
                        true
                    },
                    None => false,
                }
            },
            None => false,
        }
    }

    /// Whether `name` is set in the current path.
    pub fn hasv(&self, name: &str) -> (res: bool)
        requires
            self.wf(),
        ensures
            res == has_name(table_of(self@, self@.current), name@),
    {
        self.hasvp(name, self.current.as_str())
    }

    /// Gives `path` an empty set of variables, in place of any it had.
    pub fn insp(&mut self, path: &str) -> (res: WashArgs)
        requires
            old(self).wf(),
        ensures
            final(self).wf(),
            res@ == ArgsV::Empty,
            final(self)@ == (StoreV { paths: old(self)@.paths.insert(path@, seq![]), ..old(self)@ }),
    {
        self.set_table(path, Vec::new());
        proof {
            assert(var_entries(Seq::<Var>::empty()) =~= seq![]);
        }
        WashArgs::Empty
    }

    fn set_table(&mut self, path: &str, vars: Vec<Var>)
        requires
            old(self).wf(),
            names_unique(var_entries(vars@)),
        ensures
            final(self).wf(),
            final(self)@ == (StoreV {
                paths: old(self)@.paths.insert(path@, var_entries(vars@)),
                ..old(self)@
            }),
    {
        let ghost vv = vars@;
        match self.find_path(path) {
            Some(i) => {
                let ghost before = self.paths@;
                let p = text(path);
                self.paths.set(i, PathVars { path: p, vars });
                proof {
                    assert forall|a: int| 0 <= a < self.paths@.len() && a != i implies self.paths@[a] == before[a] by {}
                    assert forall|q: Seq<char>| #[trigger] self@.paths.contains_key(q) <==> old(self)@.paths.insert(
                        path@,
                        var_entries(vv),
                    ).contains_key(q) by {
                        if self@.paths.contains_key(q) {
                            let j = choose|j: int| 0 <= j < self.paths@.len() && self.paths@[j].path@ == q;
                            if j != i {
                                assert(before[j].path@ == q);
                            }
                        }
                        if old(self)@.paths.contains_key(q) {
                            let j = choose|j: int| 0 <= j < before.len() && before[j].path@ == q;
                            assert(self.paths@[j].path@ == q);
                        }
                        if q == path@ {
                            assert(self.paths@[i as int].path@ == q);
                        }
                    }
                    assert forall|q: Seq<char>| #[trigger] self@.paths.contains_key(q) implies self@.paths[q]
                        == old(self)@.paths.insert(path@, var_entries(vv))[q] by {
                        let j = choose|j: int| 0 <= j < self.paths@.len() && self.paths@[j].path@ == q;
                        self.lemma_view_at(j);
                        if q != path@ {
                            assert(j != i);
                            old(self).lemma_view_at(j);
                        } else {
                            self.lemma_view_at(i as int);
                        }
                    }
                    assert(self@.paths =~= old(self)@.paths.insert(path@, var_entries(vv)));
                }
            },
            None => {
                let ghost before = self.paths@;
                let p = text(path);
                self.paths.push(PathVars { path: p, vars });
                proof {
                    let n = before.len() as int;
                    assert forall|q: Seq<char>| #[trigger] self@.paths.contains_key(q) <==> old(self)@.paths.insert(
                        path@,
                        var_entries(vv),
                    ).contains_key(q) by {
                        if self@.paths.contains_key(q) {
                            let j = choose|j: int| 0 <= j < self.paths@.len() && self.paths@[j].path@ == q;
                            if j != n {
                                assert(before[j].path@ == q);
                            }
                        }
                        if old(self)@.paths.contains_key(q) {
                            let j = choose|j: int| 0 <= j < before.len() && before[j].path@ == q;
                            assert(self.paths@[j].path@ == q);
                        }
                        if q == path@ {
                            assert(self.paths@[n].path@ == q);
                        }
                    }
                    assert forall|q: Seq<char>| #[trigger] self@.paths.contains_key(q) implies self@.paths[q]
                        == old(self)@.paths.insert(path@, var_entries(vv))[q] by {
                        let j = choose|j: int| 0 <= j < self.paths@.len() && self.paths@[j].path@ == q;
                        self.lemma_view_at(j);
                        if q != path@ {
                            assert(j != n);
                            old(self).lemma_view_at(j);
                        } else {
                            self.lemma_view_at(n);
                        }
                    }
                    assert(self@.paths =~= old(self)@.paths.insert(path@, var_entries(vv)));
                }
            },
        }
    }

    fn table_clone(&self, path: &str) -> (res: Vec<Var>)
        requires
            self.wf(),
        ensures
            var_entries(res@) == table_of(self@, path@),
            names_unique(var_entries(res@)),
    {
        match self.find_path(path) {
            Some(i) => {
                proof {
                    self.lemma_view_at(i as int);
                }
                let src = &self.paths[i].vars;
                let mut out: Vec<Var> = Vec::new();
                let mut j: usize = 0;
                while j < src.len()
                    invariant
                        j <= src.len(),
                        var_entries(out@) == var_entries(src@).subrange(0, j as int),
                    decreases src.len() - j,
                {
                    let ghost before = out@;
                    let v = Var { name: src[j].name.clone(), value: args_clone(&src[j].value) };
                    out.push(v);
                    proof {
                        assert(var_entries(out@) =~= var_entries(before).push((v.name@, v.value@)));
                        assert(var_entries(out@) =~= var_entries(src@).subrange(0, j + 1));
                    }
                    j = j + 1;
                }
                proof {
                    assert(var_entries(src@).subrange(0, src.len() as int) =~= var_entries(src@));
                }
                out
            },
            None => {
                let out: Vec<Var> = Vec::new();
                proof {
                    assert(var_entries(out@) =~= seq![]);
                }
                out
            },
        }
    }

    /// Sets `name` in `path` to `val`; the value `Empty` unsets it.  The
    /// path `env` is the process environment: the change to make there is
    /// returned.  `sys` and `pipe` are read-only.
    pub fn insvp(&mut self, name: &str, path: &str, val: WashArgs) -> (res: (Result<WashArgs, String>, Option<EnvChange>))
        requires
            old(self).wf(),
        ensures
            final(self).wf(),
            (final(self)@, result_view(res.0), change_view(res.1)) == insvp_spec(old(self)@, name@, path@, val@),
    {
        proof {
            reveal_strlit("sys");
            reveal_strlit("env");
            reveal_strlit("pipe");
        }
        if val.is_empty() {
            if str_eq(path, "sys") {
                (Err(text("System variables are read-only")), None)
            } else if str_eq(path, "pipe") {
                (Err(text("Pipes are read-only variables")), None)
            } else if str_eq(path, "env") {
                (Ok(WashArgs::Empty), Some(EnvChange::Remove(text(name))))
            } else if !self.hasp(path) {
                (Ok(WashArgs::Empty), None)
            } else {
                let mut t = self.table_clone(path);
                let ghost t0 = var_entries(t@);
                match find_var(&t, name) {
                    Some(i) => {
                        proof {
                            lemma_lookup_at(t0, i as int);
                        }
                        t.remove(i);
                        proof {
                            assert(var_entries(t@) =~= t0.remove(i as int));
                        }
                    },
                    None => {},
                }
                self.set_table(path, t);
                (Ok(val), None)
            }
        } else {
            if str_eq(path, "pipe") {
                (Err(text("Pipes are read-only variales")), None)
            } else if str_eq(path, "sys") {
                (Err(text("System variables are read-only")), None)
            } else if str_eq(path, "env") {
                match val {
                    WashArgs::Flat(s) => {
                        let v2 = WashArgs::Flat(s.clone());
                        (Ok(v2), Some(EnvChange::Assign(text(name), s)))
                    },
                    _ => (Err(text("Environment variables can only be flat")), None),
                }
            } else {
                let mut t = self.table_clone(path);
                let ghost t0 = var_entries(t@);
                let out = args_clone(&val);
                match find_var(&t, name) {
                    Some(i) => {
                        proof {
                            lemma_lookup_at(t0, i as int);
                        }
                        t.set(i, Var { name: text(name), value: val });
                        proof {
                            assert(var_entries(t@) =~= t0.update(i as int, (name@, out@)));
                        }
                    },
                    None => {
                        t.push(Var { name: text(name), value: val });
                        proof {
                            assert(var_entries(t@) =~= t0.push((name@, out@)));
                        }
                    },
                }
                self.set_table(path, t);
                (Ok(out), None)
            }
        }
    }

    /// Sets `name` in the current path, creating the path first if needed.
    pub fn insv(&mut self, name: &str, val: WashArgs) -> (res: (Result<WashArgs, String>, Option<EnvChange>))
        requires
            old(self).wf(),
        ensures
            final(self).wf(),
            (final(self)@, result_view(res.0), change_view(res.1)) == insv_spec(old(self)@, name@, val@),
    {
        let path = self.current.clone();
        if !self.hasp(path.as_str()) {
            self.insp(path.as_str());
        }
        self.insvp(name, path.as_str(), val)
    }

    /// Reads `name` in `path`.  `None` when the value lives outside the
    /// store: the known names of `sys`, and the paths `env` and `pipe`.
    pub fn getvp(&self, name: &str, path: &str) -> (res: Option<Result<WashArgs, String>>)
        requires
            self.wf(),
        ensures
            reply_view(res) == getvp_spec(self@, name@, path@),
    {
        proof {
            reveal_strlit("sys");
            reveal_strlit("env");
            reveal_strlit("pipe");
        }
        if str_eq(path, "sys") {
            if str_eq(name, "login") || str_eq(name, "hostname") || str_eq(name, "args") || str_eq(name, "cwd")
                || str_eq(name, "scwd") {
                None
            } else {
                Some(Err(text("System variable not found")))
            }
        } else if str_eq(path, "env") || str_eq(path, "pipe") {
            None
        } else {
            match self.find_path(path) {
                None => Some(Err(text("Path not found"))),
                Some(i) => {
                    proof {
                        self.lemma_view_at(i as int);
                    }
                    let vars = &self.paths[i].vars;
                    match find_var(vars, name) {
                        None => Some(Err(text("Variable not found"))),
                        Some(j) => {
                            proof {
                                lemma_lookup_at(var_entries(vars@), j as int);
                            }
                            Some(Ok(args_clone(&vars[j].value)))
                        },
                    }
                },
            }
        }
    }

    /// Reads `name` in the current path, and failing that in the path `""`.
    pub fn getv(&self, name: &str) -> (res: Option<Result<WashArgs, String>>)
        requires
            self.wf(),
        ensures
            reply_view(res) == getv_spec(self@, name@),
    {
        proof {
            reveal_strlit("");
            assert(""@ =~= Seq::<char>::empty());
        }
        match self.getvp(name, self.current.as_str()) {
            Some(Err(_)) => self.getvp(name, ""),
            other => other,
        }
    }

    fn listing_of(vars: &Vec<Var>) -> (res: Vec<WashArgs>)
        ensures
            args_views(res@) == listing(var_entries(vars@)),
    {
        let mut out: Vec<WashArgs> = Vec::new();
        let mut i: usize = 0;
        while i < vars.len()
            invariant
                i <= vars.len(),
                args_views(out@) == listing(var_entries(vars@)).subrange(0, i as int),
            decreases vars.len() - i,
        {
            let item = entry_value(&vars[i].name, &vars[i].value);
            let ghost before = out@;
            out.push(item);
            proof {
                assert(args_views(out@) =~= args_views(before).push(item@));
                assert(listing(var_entries(vars@)).subrange(0, i + 1) =~= listing(var_entries(vars@)).subrange(
                    0,
                    i as int,
                ).push(entry_item(var_entries(vars@)[i as int])));
            }
            i = i + 1;
        }
        proof {
            assert(listing(var_entries(vars@)).subrange(0, vars.len() as int) =~= listing(var_entries(vars@)));
        }
        out
    }

    /// Lists the variables of `path` as `(name value)` pairs.  `None` when
    /// they live outside the store (the paths `env` and `pipe`).
    pub fn getallp(&self, path: &str) -> (res: Option<Result<WashArgs, String>>)
        requires
            self.wf(),
        ensures
            reply_view(res) == getallp_spec(self@, path@),
    {
        proof {
            reveal_strlit("sys");
            reveal_strlit("env");
            reveal_strlit("pipe");
        }
        if str_eq(path, "sys") {
            Some(Err(text("Cannot get all system variables")))
        } else if str_eq(path, "env") || str_eq(path, "pipe") {
            None
        } else {
            match self.find_path(path) {
                None => Some(Err(text("Path not found"))),
                Some(i) => {
                    proof {
                        self.lemma_view_at(i as int);
                    }
                    Some(Ok(WashArgs::Long(Self::listing_of(&self.paths[i].vars))))
                },
            }
        }
    }

    /// Lists the variables of the current path, then those of the path `""`
    /// that the current path does not have.
    pub fn getall(&self) -> (res: Result<WashArgs, String>)
        requires
            self.wf(),
        ensures
            result_view(res) == Ok::<ArgsV, Seq<char>>(ArgsV::Long(getall_spec(self@))),
    {
        proof {
            reveal_strlit("");
            assert(""@ =~= Seq::<char>::empty());
        }
        let mut out: Vec<WashArgs> = match self.find_path(self.current.as_str()) {
            Some(i) => {
                proof {
                    self.lemma_view_at(i as int);
                }
                Self::listing_of(&self.paths[i].vars)
            },
            None => {
                let v: Vec<WashArgs> = Vec::new();
                proof {
                    assert(args_views(v@) =~= seq![]);
                }
                v
            },
        };
        if self.current.as_str().is_empty() {
            return Ok(WashArgs::Long(out));
        }
        let base = match self.find_path("") {
            None => return Ok(WashArgs::Long(out)),
            Some(i) => i,
        };
        proof {
            self.lemma_view_at(base as int);
        }
        let vars = &self.paths[base].vars;
        let ghost cur = table_of(self@, self@.current);
        let ghost start = args_views(out@);
        let mut i: usize = 0;
        while i < vars.len()
            invariant
                i <= vars.len(),
                args_views(out@) == start + unshadowed(var_entries(vars@).subrange(0, i as int), cur),
                cur == table_of(self@, self@.current),
                self.wf(),
            decreases vars.len() - i,
        {
            let shadowed = self.hasv(vars[i].name.as_str());
            let ghost prefix = var_entries(vars@).subrange(0, i + 1);
            proof {
                assert(prefix.drop_last() =~= var_entries(vars@).subrange(0, i as int));
                assert(prefix.last() == (vars@[i as int].name@, vars@[i as int].value@));
            }
            if !shadowed {
                let item = entry_value(&vars[i].name, &vars[i].value);
                let ghost before = out@;
                out.push(item);
                proof {
                    assert(args_views(out@) =~= args_views(before).push(item@));
                    assert(args_views(out@) =~= start + unshadowed(prefix, cur));
                }
            } else {
                proof {
                    assert(start + unshadowed(prefix, cur) =~= start + unshadowed(
                        var_entries(vars@).subrange(0, i as int),
                        cur,
                    ));
                }
            }
            i = i + 1;
        }
        proof {
            assert(var_entries(vars@).subrange(0, vars.len() as int) =~= var_entries(vars@));
            assert(self@.paths[seq![]] == var_entries(vars@));
            assert(args_views(out@) == getall_spec(self@));
        }
        Ok(WashArgs::Long(out))
    }

    /// Chooses the current path from the first argument; no argument chooses
    /// the path `""`.  Paths that stand for configuration, the system, the
    /// environment or jobs cannot be chosen.
    pub fn setp(&mut self, args: &WashArgs) -> (res: Result<WashArgs, String>)
        requires
            old(self).wf(),
        ensures
            final(self).wf(),
            crate::types::args_len(args@) < 1 ==> res is Ok && final(self)@ == (StoreV {
                current: seq![],
                ..old(self)@
            }),
            crate::types::args_len(args@) >= 1 ==> match crate::types::args_get(args@, 0) {
                ArgsV::Flat(p) => if p == "cfg"@ {
                    result_view(res) == Err::<ArgsV, Seq<char>>("Cannot set variable path to configuration variables"@)
                        && final(self)@ == old(self)@
                } else if p == "sys"@ {
                    result_view(res) == Err::<ArgsV, Seq<char>>("Cannot set variable path to system variables"@)
                        && final(self)@ == old(self)@
                } else if p == "env"@ {
                    result_view(res) == Err::<ArgsV, Seq<char>>("Cannot set variable path to environment variables"@)
                        && final(self)@ == old(self)@
                } else if p == "pipe"@ {
                    result_view(res) == Err::<ArgsV, Seq<char>>("Cannot set variable path to job pipes"@) && final(self)@
                        == old(self)@
                } else {
                    res is Ok && final(self)@ == (StoreV { current: p, ..old(self)@ })
                },
                _ => result_view(res) == Err::<ArgsV, Seq<char>>("Variable paths can only be flat"@) && final(self)@ == old(
                    self,
                )@,
            },
            res matches Ok(v) ==> v@ == ArgsV::Empty,
    {
        proof {
            reveal_strlit("sys");
            reveal_strlit("env");
            reveal_strlit("pipe");
            reveal_strlit("");
            assert(""@ =~= Seq::<char>::empty());
            assert("sys"@.len() == 3 && "env"@.len() == 3 && "pipe"@.len() == 4);
        }
        if args.len() < 1 {
            self.current = String::new();
            return Ok(WashArgs::Empty);
        }
        let path = match args.get(0) {
            WashArgs::Flat(p) => p,
            _ => return Err(text("Variable paths can only be flat")),
        };
        if str_eq(path.as_str(), "cfg") {
            Err(text("Cannot set variable path to configuration variables"))
        } else if str_eq(path.as_str(), "sys") {
            Err(text("Cannot set variable path to system variables"))
        } else if str_eq(path.as_str(), "env") {
            Err(text("Cannot set variable path to environment variables"))
        } else if str_eq(path.as_str(), "pipe") {
            Err(text("Cannot set variable path to job pipes"))
        } else {
            self.current = path;
            Ok(WashArgs::Empty)
        }
    }
}

} // verus!
