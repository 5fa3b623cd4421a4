use vstd::prelude::*;

use crate::strings::append_str;
use crate::text::{decimal, decimal_text};
use crate::types::{
    Action, ActionV, ArgsV, HandlerResult, InputV, InputValue, SectionType, WashArgs, args_views,
    input_views, lemma_input_views_index,
};

verus! {

// ---------------------------------------------------------------------
// How values are written out for debugging.
// ---------------------------------------------------------------------

/// `Empty`, `Flat(s)`, or `Long(` with each item followed by a blank, then `)`.
pub open spec fn args_debug(a: ArgsV) -> Seq<char>
    decreases a,
{
    match a {
        ArgsV::Empty => "Empty"@,
        ArgsV::Flat(s) => "Flat("@ + s + ")"@,
        ArgsV::Long(v) => "Long("@ + args_items_debug(v) + ")"@,
    }
}

pub open spec fn args_items_debug(v: Seq<ArgsV>) -> Seq<char>
    decreases v,
{
    if v.len() == 0 {
        seq![]
    } else {
        args_items_debug(v.subrange(0, v.len() - 1)) + args_debug(v[v.len() - 1]) + " "@
    }
}

/// `.load`, `.run` or `.n`.
pub open spec fn section_debug(k: SectionType) -> Seq<char> {
    match k {
        SectionType::Load => ".load"@,
        SectionType::Run => ".run"@,
        SectionType::Number(n) => "."@ + decimal(n as nat),
    }
}

pub open spec fn handler_result_debug(r: HandlerResult) -> Seq<char> {
    match r {
        HandlerResult::Continue => "Continue"@,
        HandlerResult::Stop => "Stop"@,
        HandlerResult::More(k) => "More("@ + section_debug(k) + ")"@,
    }
}

/// `name(a)`.
pub open spec fn wrap1(name: Seq<char>, a: Seq<char>) -> Seq<char> {
    name + "("@ + a + ")"@
}

/// `name(a, b)`.
pub open spec fn wrap2(name: Seq<char>, a: Seq<char>, b: Seq<char>) -> Seq<char> {
    name + "("@ + a + ", "@ + b + ")"@
}

pub open spec fn action_debug(a: ActionV) -> Seq<char> {
    match a {
        ActionV::Assign(v) => wrap1("Set"@, args_debug(v)),
        ActionV::Call(n) => wrap1("Call"@, n),
        ActionV::Fail(m) => wrap1("Fail"@, m),
        ActionV::Store => "Store"@,
        ActionV::DStore(n, p) => wrap2("DStore"@, n, p),
        ActionV::Load => "Load"@,
        ActionV::Branch(d) => wrap1("Branch"@, decimal(d as nat)),
        ActionV::Jump(d) => wrap1("Jump"@, decimal(d as nat)),
        ActionV::Temp => "Temp"@,
        ActionV::Top => "Top"@,
        ActionV::Pull => "Pull"@,
        ActionV::Swap => "Swap"@,
        ActionV::Join(n) => wrap1("Join"@, decimal(n as nat)),
        ActionV::Insert(v) => wrap1("Insert"@, args_debug(v)),
        ActionV::Proc(n, c) => wrap2("Proc"@, n, decimal(c as nat)),
        ActionV::UnStack(n, p) => wrap2("UnStack"@, n, p),
        ActionV::Stack(n, p) => wrap2("Stack"@, n, p),
        ActionV::ReInsert => "ReInsert"@,
        ActionV::Root(d) => wrap1("Root"@, decimal(d as nat)),
        ActionV::Save(d) => wrap1("Save"@, decimal(d as nat)),
        ActionV::Args => "Args"@,
        ActionV::Index => "Index"@,
    }
}

/// `Long(` items `)`, `Function(name, Long(` items `))`, `Short(s)`,
/// `Literal(s)` or `Split(s)`; each item is followed by a blank.
pub open spec fn input_debug(v: InputV) -> Seq<char>
    decreases v,
{
    match v {
        InputV::Long(items) => "Long("@ + input_items_debug(items) + ")"@,
        InputV::Function(n, items) => "Function("@ + n + ", Long("@ + input_items_debug(items) + "))"@,
        InputV::Short(s) => wrap1("Short"@, s),
        InputV::Literal(s) => wrap1("Literal"@, s),
        InputV::Split(s) => wrap1("Split"@, s),
    }
}

pub open spec fn input_items_debug(v: Seq<InputV>) -> Seq<char>
    decreases v,
{
    if v.len() == 0 {
        seq![]
    } else {
        input_items_debug(v.subrange(0, v.len() - 1)) + input_debug(v[v.len() - 1]) + " "@
    }
}

/// Whether `v` is a list or a call whose items are `items`.
pub open spec fn holds_items(v: InputV, items: Seq<InputV>) -> bool {
    match v {
        InputV::Long(x) => x == items,
        InputV::Function(_, x) => x == items,
        _ => false,
    }
}

fn text(s: &str) -> (res: String)
    ensures
        res@ == s@,
{
    s.to_owned()
}

impl WashArgs {
    /// The value written out for debugging (see `args_debug`).
    #[verifier::loop_isolation(false)]
    pub fn debug_text(&self) -> (res: String)
        ensures
            res@ == args_debug(self@),
        decreases self,
    {
        match self {
            WashArgs::Empty => text("Empty"),
            WashArgs::Flat(s) => {
                let mut out = text("Flat(");
                append_str(&mut out, s.as_str());
                append_str(&mut out, ")");
                out
            },
            WashArgs::Long(v) => {
                let mut out = text("Long(");
                let ghost start = out@;
                let mut i: usize = 0;
                proof {
                    assert(args_views(v@).subrange(0, 0) =~= Seq::<ArgsV>::empty());
                    assert(out@ =~= start + args_items_debug(args_views(v@).subrange(0, 0)));
                }
                while i < v.len()
                    invariant
                        i <= v.len(),
                        start == "Long("@,
                        out@ == start + args_items_debug(args_views(v@).subrange(0, i as int)),
                    decreases v.len() - i,
                {
                    proof {
                        assert(decreases_to!(self => v@[i as int]));
                    }
                    let part = v[i].debug_text();
                    append_str(&mut out, part.as_str());
                    append_str(&mut out, " ");
                    proof {
                        let s2 = args_views(v@).subrange(0, i + 1);
                        assert(s2.subrange(0, i as int) =~= args_views(v@).subrange(0, i as int));
                        assert(s2[i as int] == v@[i as int]@);
                        assert(out@ =~= start + args_items_debug(s2));
                    }
                    i = i + 1;
                }
                proof {
                    assert(args_views(v@).subrange(0, v.len() as int) =~= args_views(v@));
                }
                append_str(&mut out, ")");
                out
            },
        }
    }
}

impl SectionType {
    /// The name written out for debugging (see `section_debug`).
    pub fn debug_text(&self) -> (res: String)
        ensures
            res@ == section_debug(*self),
    {
        match self {
            SectionType::Load => text(".load"),
            SectionType::Run => text(".run"),
            SectionType::Number(n) => {
                let mut out = text(".");
                let d = decimal_text(*n);
                append_str(&mut out, d.as_str());
                out
            },
        }
    }
}

impl HandlerResult {
    /// The result written out for debugging (see `handler_result_debug`).
    pub fn debug_text(&self) -> (res: String)
        ensures
            res@ == handler_result_debug(*self),
    {
        match self {
            HandlerResult::Continue => text("Continue"),
            HandlerResult::Stop => text("Stop"),
            HandlerResult::More(k) => {
                let mut out = text("More(");
                let d = k.debug_text();
                append_str(&mut out, d.as_str());
                append_str(&mut out, ")");
                out
            },
        }
    }
}

fn wrap1_text(name: &str, a: &str) -> (res: String)
    ensures
        res@ == wrap1(name@, a@),
{
    let mut out = text(name);
    append_str(&mut out, "(");
    append_str(&mut out, a);
    append_str(&mut out, ")");
    out
}

fn wrap2_text(name: &str, a: &str, b: &str) -> (res: String)
    ensures
        res@ == wrap2(name@, a@, b@),
{
    let mut out = text(name);
    append_str(&mut out, "(");
    append_str(&mut out, a);
    append_str(&mut out, ", ");
    append_str(&mut out, b);
    append_str(&mut out, ")");
    out
}

impl Action {
    /// The action written out for debugging (see `action_debug`).
    pub fn debug_text(&self) -> (res: String)
        ensures
            res@ == action_debug(self@),
    {
        match self {
            Action::Assign(v) => wrap1_text("Set", v.debug_text().as_str()),
            Action::Call(n) => wrap1_text("Call", n.as_str()),
            Action::Fail(m) => wrap1_text("Fail", m.as_str()),
            Action::Store => text("Store"),
            Action::DStore(n, p) => wrap2_text("DStore", n.as_str(), p.as_str()),
            Action::Load => text("Load"),
            Action::Branch(d) => wrap1_text("Branch", decimal_text(*d).as_str()),
            Action::Jump(d) => wrap1_text("Jump", decimal_text(*d).as_str()),
            Action::Temp => text("Temp"),
            Action::Top => text("Top"),
            Action::Pull => text("Pull"),
            Action::Swap => text("Swap"),
            Action::Join(n) => wrap1_text("Join", decimal_text(*n).as_str()),
            Action::Insert(v) => wrap1_text("Insert", v.debug_text().as_str()),
            Action::Proc(n, c) => wrap2_text("Proc", n.as_str(), decimal_text(*c).as_str()),
            Action::UnStack(n, p) => wrap2_text("UnStack", n.as_str(), p.as_str()),
            Action::Stack(n, p) => wrap2_text("Stack", n.as_str(), p.as_str()),
            Action::ReInsert => text("ReInsert"),
            Action::Root(d) => wrap1_text("Root", decimal_text(*d).as_str()),
            Action::Save(d) => wrap1_text("Save", decimal_text(*d).as_str()),
            Action::Args => text("Args"),
            Action::Index => text("Index"),
        }
    }
}

fn input_items_text(v: &Vec<InputValue>, out: &mut String, Ghost(outer): Ghost<InputV>)
    requires
        holds_items(outer, input_views(v@)),
    ensures
        final(out)@ == old(out)@ + input_items_debug(input_views(v@)),
    decreases outer, 0nat,
{
    let ghost start = out@;
    let mut i: usize = 0;
    proof {
        assert(input_views(v@).subrange(0, 0) =~= Seq::<InputV>::empty());
        assert(out@ =~= start + input_items_debug(input_views(v@).subrange(0, 0)));
    }
    while i < v.len()
        invariant
            i <= v.len(),
            out@ == start + input_items_debug(input_views(v@).subrange(0, i as int)),
            holds_items(outer, input_views(v@)),
        decreases v.len() - i,
    {
        proof {
            lemma_input_views_index(v@, i as int);
            let items = input_views(v@);
            assert(decreases_to!(outer => items[i as int])) by {
                match outer {
                    InputV::Long(x) => {
                        assert(decreases_to!(outer => x));
                    },
                    InputV::Function(_, x) => {
                        assert(decreases_to!(outer => x));
                    },
                    _ => {},
                }
            }
        }
        let part = v[i].debug_text();
        append_str(out, part.as_str());
        append_str(out, " ");
        proof {
            let s2 = input_views(v@).subrange(0, i + 1);
            assert(s2.subrange(0, i as int) =~= input_views(v@).subrange(0, i as int));
            assert(s2[i as int] == v@[i as int]@);
            assert(out@ =~= start + input_items_debug(s2));
        }
        i = i + 1;
    }
    proof {
        assert(input_views(v@).subrange(0, v.len() as int) =~= input_views(v@));
    }
}

impl InputValue {
    /// The value written out for debugging (see `input_debug`).
    pub fn debug_text(&self) -> (res: String)
        ensures
            res@ == input_debug(self@),
        decreases self@, 1nat,
    {
        match self {
            InputValue::Long(v) => {
                let mut out = text("Long(");
                input_items_text(v, &mut out, Ghost(self@));
                append_str(&mut out, ")");
                out
            },
            InputValue::Function(n, v) => {
                let mut out = text("Function(");
                append_str(&mut out, n.as_str());
                append_str(&mut out, ", Long(");
                input_items_text(v, &mut out, Ghost(self@));
                append_str(&mut out, "))");
                out
            },
            InputValue::Short(s) => wrap1_text("Short", s.as_str()),
            InputValue::Literal(s) => wrap1_text("Literal", s.as_str()),
            InputValue::Split(s) => wrap1_text("Split", s.as_str()),
        }
    }
}

} // verus!
