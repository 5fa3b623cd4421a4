use vstd::prelude::*;

use crate::ast::AST;
use crate::strings::concat;
use crate::types::{Action, ActionV, ArgsV, SectionType, WashArgs, args_clone, args_views};
use crate::vars::{VarRef, VarV, parse_var, var_view};

verus! {

/// Where the reply to an outside request goes.
#[derive(Clone, Copy, PartialEq, Eq, Structural, Debug)]
pub enum Reply {
    /// nothing is waiting for a reply
    Nothing,
    /// the reply becomes the front value
    IntoFront,
    /// the reply is pushed onto the stack
    Push,
    /// the reply is only checked for an error
    Discard,
}

/// The machine that runs compiled sections: the current section, the index
/// of the next action in it, the front value and the value stack.
pub struct Runner {
    pub position: SectionType,
    pub pc: usize,
    pub cfv: WashArgs,
    pub vs: Vec<WashArgs>,
    pub reply: Reply,
}

/// The model of a `Runner`.
pub struct RunV {
    pub position: SectionType,
    pub pc: usize,
    pub cfv: ArgsV,
    pub vs: Seq<ArgsV>,
    pub reply: Reply,
}

/// What one step of the machine asks of whoever runs it.
#[derive(Debug)]
pub enum Event {
    /// go on stepping
    Continue,
    /// the run is over with this value
    Finished(WashArgs),
    /// the run is over with this error
    Failed(String),
    /// call the named function with the value; then `resume` with its result
    Call(String, WashArgs),
    /// read a variable: its name, and its path (`None`: the current path);
    /// then `resume` with the value
    GetVar(String, Option<String>),
    /// set a variable (the value `Empty` unsets it); then `resume` with the result
    SetVar(String, Option<String>, WashArgs),
}

/// The model of an `Event`.
pub enum EventV {
    Continue,
    Finished(ArgsV),
    Failed(Seq<char>),
    Call(Seq<char>, ArgsV),
    GetVar(Seq<char>, Option<Seq<char>>),
    SetVar(Seq<char>, Option<Seq<char>>, ArgsV),
}

impl Event {
    pub open spec fn view(&self) -> EventV {
        match self {
            Event::Continue => EventV::Continue,
            Event::Finished(v) => EventV::Finished(v@),
            Event::Failed(m) => EventV::Failed(m@),
            Event::Call(n, a) => EventV::Call(n@, a@),
            Event::GetVar(n, p) => EventV::GetVar(
                n@,
                match p {
                    Some(s) => Some(s@),
                    None => None,
                },
            ),
            Event::SetVar(n, p, v) => EventV::SetVar(
                n@,
                match p {
                    Some(s) => Some(s@),
                    None => None,
                },
                v@,
            ),
        }
    }
}

// ---------------------------------------------------------------------
// The meaning of one step.
// ---------------------------------------------------------------------

/// The top of the stack, or `Empty` when the stack is empty.
pub open spec fn top_or_empty(vs: Seq<ArgsV>) -> ArgsV {
    if vs.len() > 0 {
        vs.last()
    } else {
        ArgsV::Empty
    }
}

/// The stack without its top.
pub open spec fn pop_or_same(vs: Seq<ArgsV>) -> Seq<ArgsV> {
    if vs.len() > 0 {
        vs.drop_last()
    } else {
        vs
    }
}

/// Where the last `n` stack values start.
pub open spec fn split_index(len: nat, n: nat) -> nat {
    if len > n {
        (len - n) as nat
    } else {
        0
    }
}

/// The arguments of a call made of the last values of the stack.
pub open spec fn gathered(items: Seq<ArgsV>) -> ArgsV {
    if items.len() == 0 {
        ArgsV::Empty
    } else if items.len() == 1 {
        items[0]
    } else {
        ArgsV::Long(items)
    }
}

/// A path argument: an empty path means the current one.
pub open spec fn path_arg(p: Seq<char>) -> Option<Seq<char>> {
    if p.len() == 0 {
        None
    } else {
        Some(p)
    }
}

/// The message for a word that names no variable.
pub open spec fn unresolved_message(s: Seq<char>) -> Seq<char> {
    "Variable name "@ + s + " could not be resolved into $path:name"@
}

/// The state after jumping to section `n`.
pub open spec fn jumped(s: RunV, n: usize) -> RunV {
    RunV { position: SectionType::Number(n), pc: 0, ..s }
}

/// What an action does to the state `s`, whose `pc` already points past it.
pub open spec fn action_step(s: RunV, a: ActionV) -> (RunV, EventV) {
    match a {
        ActionV::Jump(n) => (jumped(s, n), EventV::Continue),
        ActionV::Branch(n) => if s.cfv is Empty {
            (s, EventV::Continue)
        } else {
            (jumped(s, n), EventV::Continue)
        },
        ActionV::Root(n) => {
            let s2 = RunV { vs: pop_or_same(s.vs), ..s };
            if top_or_empty(s.vs) is Empty {
                (s2, EventV::Continue)
            } else {
                (jumped(s2, n), EventV::Continue)
            }
        },
        ActionV::Assign(v) => (RunV { cfv: v, ..s }, EventV::Continue),
        ActionV::Insert(v) => (RunV { vs: s.vs.push(v), ..s }, EventV::Continue),
        ActionV::ReInsert => if s.vs.len() > 0 {
            (RunV { vs: s.vs.push(s.vs.last()), ..s }, EventV::Continue)
        } else {
            (s, EventV::Continue)
        },
        ActionV::Temp => (RunV { vs: s.vs.push(s.cfv), cfv: ArgsV::Empty, ..s }, EventV::Continue),
        ActionV::Top => (RunV { cfv: top_or_empty(s.vs), ..s }, EventV::Continue),
        ActionV::Pull => (RunV { cfv: top_or_empty(s.vs), vs: pop_or_same(s.vs), ..s }, EventV::Continue),
        ActionV::Swap => (
            RunV { cfv: top_or_empty(s.vs), vs: pop_or_same(s.vs).push(s.cfv), ..s },
            EventV::Continue,
        ),
        ActionV::Join(n) => {
            let i = split_index(s.vs.len(), n as nat) as int;
            (
                RunV { cfv: ArgsV::Long(s.vs.subrange(i, s.vs.len() as int)), vs: s.vs.subrange(0, i), ..s },
                EventV::Continue,
            )
        },
        ActionV::Call(name) => (RunV { reply: Reply::IntoFront, ..s }, EventV::Call(name, s.cfv)),
        ActionV::Proc(name, c) => {
            let i = split_index(s.vs.len(), c as nat) as int;
            (
                RunV { vs: s.vs.subrange(0, i), reply: Reply::Push, ..s },
                EventV::Call(name, gathered(s.vs.subrange(i, s.vs.len() as int))),
            )
        },
        ActionV::Fail(m) => (s, EventV::Failed(m)),
        ActionV::DStore(name, p) => (
            RunV { cfv: ArgsV::Empty, reply: Reply::Discard, ..s },
            EventV::SetVar(name, path_arg(p), s.cfv),
        ),
        ActionV::UnStack(name, p) => (
            RunV { vs: pop_or_same(s.vs), reply: Reply::Discard, ..s },
            EventV::SetVar(name, path_arg(p), top_or_empty(s.vs)),
        ),
        ActionV::Stack(name, p) => (RunV { reply: Reply::Push, ..s }, EventV::GetVar(name, path_arg(p))),
        ActionV::Store => {
            let s2 = RunV { vs: pop_or_same(s.vs), ..s };
            if s.vs.len() == 0 {
                (s2, EventV::Failed("No variable name found"@))
            } else {
                match s.vs.last() {
                    ArgsV::Flat(w) => match var_view(w) {
                        VarV::PathName(path, name) => (
                            RunV { cfv: ArgsV::Empty, reply: Reply::Discard, ..s2 },
                            EventV::SetVar(name, Some(path), s.cfv),
                        ),
                        VarV::Name(name) => (
                            RunV { cfv: ArgsV::Empty, reply: Reply::Discard, ..s2 },
                            EventV::SetVar(name, None, s.cfv),
                        ),
                        VarV::NotVar => (s2, EventV::Failed(unresolved_message(w))),
                    },
                    _ => (s2, EventV::Failed("Variable names must be flat"@)),
                }
            }
        },
        ActionV::Load => match s.cfv {
            ArgsV::Flat(w) => match var_view(w) {
                VarV::PathName(path, name) => (RunV { reply: Reply::IntoFront, ..s }, EventV::GetVar(name, Some(path))),
                VarV::Name(name) => (RunV { reply: Reply::IntoFront, ..s }, EventV::GetVar(name, None)),
                VarV::NotVar => (s, EventV::Failed(unresolved_message(w))),
            },
            _ => (s, EventV::Failed("Variable names must be flat"@)),
        },
        _ => (s, EventV::Failed("Unsupported action"@)),
    }
}

/// One step of the machine over the sections `table`.
pub open spec fn run_step(s: RunV, table: Map<SectionType, Seq<ActionV>>) -> (RunV, EventV) {
    if !table.contains_key(s.position) {
        (s, EventV::Failed("Reached unknown section"@))
    } else if s.pc >= table[s.position].len() {
        (s, EventV::Finished(s.cfv))
    } else {
        action_step(RunV { pc: (s.pc + 1) as usize, reply: Reply::Nothing, ..s }, table[s.position][s.pc as int])
    }
}

/// What a reply does to the state that asked for it.
pub open spec fn apply_reply(s: RunV, v: ArgsV) -> RunV {
    match s.reply {
        Reply::IntoFront => RunV { cfv: v, reply: Reply::Nothing, ..s },
        Reply::Push => RunV { vs: s.vs.push(v), reply: Reply::Nothing, ..s },
        _ => RunV { reply: Reply::Nothing, ..s },
    }
}

/// The events that a run from `s` over `table` gives within `k` steps, all
/// but `Continue`, in order, where the `i`-th request for a value is
/// answered with `replies(i)`; the run stops at `Finished` or `Failed`.
pub open spec fn run_events(
    s: RunV,
    table: Map<SectionType, Seq<ActionV>>,
    replies: spec_fn(nat) -> ArgsV,
    i: nat,
    k: nat,
) -> Seq<EventV>
    decreases k,
{
    if k == 0 {
        seq![]
    } else {
        let (s1, e) = run_step(s, table);
        match e {
            EventV::Continue => run_events(s1, table, replies, i, (k - 1) as nat),
            EventV::Finished(_) => seq![e],
            EventV::Failed(_) => seq![e],
            _ => seq![e] + run_events(apply_reply(s1, replies(i)), table, replies, i + 1, (k - 1) as nat),
        }
    }
}

/// The state in which a run starts.
pub open spec fn start_state() -> RunV {
    RunV { position: SectionType::Run, pc: 0, cfv: ArgsV::Empty, vs: seq![], reply: Reply::Nothing }
}

// ---------------------------------------------------------------------
// The machine.
// ---------------------------------------------------------------------

fn pop_value(vs: &mut Vec<WashArgs>) -> (res: WashArgs)
    ensures
        res@ == top_or_empty(args_views(old(vs)@)),
        args_views(final(vs)@) == pop_or_same(args_views(old(vs)@)),
{
    let ghost before = vs@;
    match vs.pop() {
        Some(v) => {
            proof {
                assert(args_views(vs@) =~= args_views(before).drop_last());
            }
            v
        },
        None => WashArgs::Empty,
    }
}

fn replace_value(slot: &mut WashArgs, v: WashArgs) -> (res: WashArgs)
    ensures
        res == *old(slot),
        *final(slot) == v,
{
    let mut v = v;
    core::mem::swap(slot, &mut v);
    v
}

fn push_value(vs: &mut Vec<WashArgs>, v: WashArgs)
    ensures
        args_views(final(vs)@) == args_views(old(vs)@).push(v@),
{
    let ghost before = vs@;
    vs.push(v);
    proof {
        assert(args_views(vs@) =~= args_views(before).push(v@));
    }
}

/// Splits off the last `n` values of the stack.
fn split_last(vs: &mut Vec<WashArgs>, n: usize) -> (res: Vec<WashArgs>)
    ensures
        ({
            let i = split_index(old(vs)@.len(), n as nat) as int;
            &&& args_views(final(vs)@) == args_views(old(vs)@).subrange(0, i)
            &&& args_views(res@) == args_views(old(vs)@).subrange(i, old(vs)@.len() as int)
        }),
{
    let index = if vs.len() > n {
        vs.len() - n
    } else {
        0
    };
    let ghost before = vs@;
    let out = vs.split_off(index);
    proof {
        assert(args_views(vs@) =~= args_views(before).subrange(0, index as int));
        assert(args_views(out@) =~= args_views(before).subrange(index as int, before.len() as int));
    }
    out
}

fn gather(mut items: Vec<WashArgs>) -> (res: WashArgs)
    ensures
        res@ == gathered(args_views(items@)),
{
    if items.len() == 0 {
        WashArgs::Empty
    } else if items.len() == 1 {
        match items.pop() {
            Some(v) => v,
            None => WashArgs::Empty,
        }
    } else {
        WashArgs::Long(items)
    }
}

fn path_of(p: String) -> (res: Option<String>)
    ensures
        match res {
            Some(s) => path_arg(p@) == Some(s@),
            None => path_arg(p@) is None,
        },
{
    if p.as_str().is_empty() {
        None
    } else {
        Some(p)
    }
}

fn unresolved(w: &String) -> (res: String)
    ensures
        res@ == unresolved_message(w@),
{
    let a = concat("Variable name ", w.as_str());
    concat(a.as_str(), " could not be resolved into $path:name")
}

impl Runner {
    pub open spec fn view(&self) -> RunV {
        RunV {
            position: self.position,
            pc: self.pc,
            cfv: self.cfv@,
            vs: args_views(self.vs@),
            reply: self.reply,
        }
    }

    /// A machine about to run `.run` with nothing on its stack.
    pub fn new() -> (res: Runner)
        ensures
            res@ == start_state(),
    {
        let res = Runner {
            position: SectionType::Run,
            pc: 0,
            cfv: WashArgs::Empty,
            vs: Vec::new(),
            reply: Reply::Nothing,
        };
        proof {
            assert(args_views(res.vs@) =~= Seq::<ArgsV>::empty());
        }
        res
    }

    fn jump(&mut self, n: usize)
        ensures
            final(self)@ == jumped(old(self)@, n),
    {
        self.position = SectionType::Number(n);
        self.pc = 0;
    }

    /// Runs the next action of the compiled sections of `ast`, or says that
    /// the run is over, or asks for outside work (see `Event`).
    pub fn step(&mut self, ast: &AST) -> (ev: Event)
        requires
            ast.wf(),
        ensures
            (final(self)@, ev@) == run_step(old(self)@, ast@.sections),
    {
        let action = match ast.action_at(self.position, self.pc) {
            Some(a) => a,
            None => {
                if ast.has_section(self.position) {
                    return Event::Finished(args_clone(&self.cfv));
                } else {
                    return Event::Failed("Reached unknown section".to_owned());
                }
            },
        };
        self.pc = self.pc + 1;
        self.reply = Reply::Nothing;
        self.run_action(action)
    }

    #[verifier::rlimit(40)]
    fn run_action(&mut self, action: Action) -> (ev: Event)
        ensures
            (final(self)@, ev@) == action_step(old(self)@, action@),
    {
        match action {
            Action::Jump(n) => {
                self.jump(n);
                Event::Continue
            },
            Action::Branch(n) => {
                if !self.cfv.is_empty() {
                    self.jump(n);
                }
                Event::Continue
            },
            Action::Root(n) => {
                let top = pop_value(&mut self.vs);
                if !top.is_empty() {
                    self.jump(n);
                }
                Event::Continue
            },
            Action::Assign(v) => {
                self.cfv = v;
                Event::Continue
            },
            Action::Insert(v) => {
                push_value(&mut self.vs, v);
                Event::Continue
            },
            Action::ReInsert => {
                if self.vs.len() > 0 {
                    let top = args_clone(&self.vs[self.vs.len() - 1]);
                    proof {
                        assert(args_views(self.vs@).last() == self.vs@.last()@);
                    }
                    push_value(&mut self.vs, top);
                }
                Event::Continue
            },
            Action::Temp => {
                let v = replace_value(&mut self.cfv, WashArgs::Empty);
                push_value(&mut self.vs, v);
                Event::Continue
            },
            Action::Top => {
                if self.vs.len() > 0 {
                    let top = args_clone(&self.vs[self.vs.len() - 1]);
                    proof {
                        assert(args_views(self.vs@).last() == self.vs@.last()@);
                    }
                    self.cfv = top;
                } else {
                    self.cfv = WashArgs::Empty;
                }
                Event::Continue
            },
            Action::Pull => {
                self.cfv = pop_value(&mut self.vs);
                Event::Continue
            },
            Action::Swap => {
                let top = pop_value(&mut self.vs);
                let v = replace_value(&mut self.cfv, top);
                push_value(&mut self.vs, v);
                Event::Continue
            },
            Action::Join(n) => {
                let items = split_last(&mut self.vs, n);
                self.cfv = WashArgs::Long(items);
                Event::Continue
            },
            Action::Call(name) => {
                self.reply = Reply::IntoFront;
                Event::Call(name, args_clone(&self.cfv))
            },
            Action::Proc(name, c) => {
                let items = split_last(&mut self.vs, c);
                self.reply = Reply::Push;
                Event::Call(name, gather(items))
            },
            Action::Fail(m) => Event::Failed(m),
            Action::DStore(name, p) => {
                let v = replace_value(&mut self.cfv, WashArgs::Empty);
                self.reply = Reply::Discard;
                Event::SetVar(name, path_of(p), v)
            },
            Action::UnStack(name, p) => {
                let top = pop_value(&mut self.vs);
                self.reply = Reply::Discard;
                Event::SetVar(name, path_of(p), top)
            },
            Action::Stack(name, p) => {
                self.reply = Reply::Push;
                Event::GetVar(name, path_of(p))
            },
            Action::Store => {
                let was_empty = self.vs.len() == 0;
                let top = pop_value(&mut self.vs);
                if was_empty {
                    return Event::Failed("No variable name found".to_owned());
                }
                match top {
                    WashArgs::Flat(w) => match parse_var(w.as_str()) {
                        VarRef::PathName(path, name) => {
                            let v = replace_value(&mut self.cfv, WashArgs::Empty);
                            self.reply = Reply::Discard;
                            Event::SetVar(name, Some(path), v)
                        },
                        VarRef::Name(name) => {
                            let v = replace_value(&mut self.cfv, WashArgs::Empty);
                            self.reply = Reply::Discard;
                            Event::SetVar(name, None, v)
                        },
                        VarRef::NotVar => Event::Failed(unresolved(&w)),
                    },
                    _ => Event::Failed("Variable names must be flat".to_owned()),
                }
            },
            Action::Load => {
                let name_ref = match &self.cfv {
                    WashArgs::Flat(w) => Ok(parse_var(w.as_str())),
                    _ => Err(()),
                };
                match name_ref {
                    Ok(VarRef::PathName(path, name)) => {
                        self.reply = Reply::IntoFront;
                        Event::GetVar(name, Some(path))
                    },
                    Ok(VarRef::Name(name)) => {
                        self.reply = Reply::IntoFront;
                        Event::GetVar(name, None)
                    },
                    Ok(VarRef::NotVar) => match &self.cfv {
                        WashArgs::Flat(w) => Event::Failed(unresolved(w)),
                        _ => Event::Failed("Variable names must be flat".to_owned()),
                    },
                    Err(_) => Event::Failed("Variable names must be flat".to_owned()),
                }
            },
            _ => Event::Failed("Unsupported action".to_owned()),
        }
    }

    /// Hands the machine the result of the outside work it asked for.  An
    /// error ends the run with that error, which is returned.
    pub fn resume(&mut self, reply: Result<WashArgs, String>) -> (res: Option<String>)
        ensures
            match reply {
                Ok(v) => res is None && final(self)@ == apply_reply(old(self)@, v@),
                Err(e) => res == Some(e) && final(self)@ == old(self)@,
            },
    {
        match reply {
            Err(e) => Some(e),
            Ok(v) => {
                match self.reply {
                    Reply::IntoFront => {
                        self.cfv = v;
                    },
                    Reply::Push => {
                        push_value(&mut self.vs, v);
                    },
                    _ => {},
                }
                self.reply = Reply::Nothing;
                None
            },
        }
    }
}


// ---------------------------------------------------------------------
// Running a section of stack actions.
// ---------------------------------------------------------------------

/// Whether an action only moves values between the front value and the stack.
pub open spec fn is_stack_action(a: ActionV) -> bool {
    ||| a is Assign
    ||| a is Insert
    ||| a is Temp
    ||| a is Top
    ||| a is Pull
    ||| a is Swap
    ||| a is ReInsert
    ||| a is Join
}

/// The front value and the stack after the stack actions `l`, starting
/// from the front value `c` and the stack `vs`.
pub open spec fn stack_fold(l: Seq<ActionV>, c: ArgsV, vs: Seq<ArgsV>) -> (ArgsV, Seq<ArgsV>)
    decreases l.len(),
{
    if l.len() == 0 {
        (c, vs)
    } else {
        let (c2, vs2) = stack_fold(l.drop_last(), c, vs);
        match l.last() {
            ActionV::Assign(v) => (v, vs2),
            ActionV::Insert(v) => (c2, vs2.push(v)),
            ActionV::Temp => (ArgsV::Empty, vs2.push(c2)),
            ActionV::Top => (top_or_empty(vs2), vs2),
            ActionV::Pull => (top_or_empty(vs2), pop_or_same(vs2)),
            ActionV::Swap => (top_or_empty(vs2), pop_or_same(vs2).push(c2)),
            ActionV::ReInsert => (c2, if vs2.len() > 0 {
                vs2.push(vs2.last())
            } else {
                vs2
            }),
            ActionV::Join(n) => {
                let i = split_index(vs2.len(), n as nat) as int;
                (ArgsV::Long(vs2.subrange(i, vs2.len() as int)), vs2.subrange(0, i))
            },
            _ => (c2, vs2),
        }
    }
}

/// The state and the last event after `k` steps from `s`.
pub open spec fn run_steps(s: RunV, table: Map<SectionType, Seq<ActionV>>, k: nat) -> (RunV, EventV)
    decreases k,
{
    if k == 0 {
        (s, EventV::Continue)
    } else {
        run_step(run_steps(s, table, (k - 1) as nat).0, table)
    }
}

proof fn lemma_stack_steps(table: Map<SectionType, Seq<ActionV>>, i: nat)
    requires
        table.contains_key(SectionType::Run),
        table[SectionType::Run].len() <= usize::MAX,
        i <= table[SectionType::Run].len(),
        forall|j: int| 0 <= j < table[SectionType::Run].len() ==> is_stack_action(#[trigger] table[SectionType::Run][j]),
    ensures
        ({
            let l = table[SectionType::Run];
            let f = stack_fold(l.take(i as int), ArgsV::Empty, seq![]);
            run_steps(start_state(), table, i).0 == RunV {
                position: SectionType::Run,
                pc: i as usize,
                cfv: f.0,
                vs: f.1,
                reply: Reply::Nothing,
            }
        }),
        i > 0 ==> run_steps(start_state(), table, i).1 == EventV::Continue,
    decreases i,
{
    let l = table[SectionType::Run];
    if i == 0 {
        assert(l.take(0) =~= Seq::<ActionV>::empty());
    } else {
        lemma_stack_steps(table, (i - 1) as nat);
        assert(l.take(i as int).drop_last() =~= l.take(i - 1));
        assert(l.take(i as int).last() == l[i - 1]);
        assert(is_stack_action(l[i - 1]));
    }
}

/// Running a `.run` section made of stack actions only finishes, once each
/// action has been stepped through, with the front value that folding them
/// from an empty front value and an empty stack gives.
pub proof fn law_stack_run(table: Map<SectionType, Seq<ActionV>>)
    requires
        table.contains_key(SectionType::Run),
        table[SectionType::Run].len() <= usize::MAX,
        forall|j: int| 0 <= j < table[SectionType::Run].len() ==> is_stack_action(#[trigger] table[SectionType::Run][j]),
    ensures
        run_steps(start_state(), table, table[SectionType::Run].len() + 1).1 == EventV::Finished(
            stack_fold(table[SectionType::Run], ArgsV::Empty, seq![]).0,
        ),
{
    let l = table[SectionType::Run];
    lemma_stack_steps(table, l.len());
    assert(l.take(l.len() as int) =~= l);
}

} // verus!
