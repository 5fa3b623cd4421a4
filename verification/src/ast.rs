use vstd::prelude::*;
use std::collections::VecDeque;

use crate::constants::STOP;
use crate::compile::{
    CResult, HResult, HState, handle_act_spec, handle_amperamper_spec, handle_bar_spec, handle_compare_spec,
    handle_dot_spec, handle_elif_spec, handle_else_spec, handle_endblock_spec, handle_equal_spec, handle_func_spec,
    handle_if_spec, handle_redirect_spec, handle_run_spec, handle_while_spec, handler_spec, hs, items_spec,
    process_spec, equalequal_inner_spec, equal_out, equal_value_spec, skip_splits_spec, take_value_spec,
    until_brace_spec, run_rest, sp_end_block, add_line_spec,
};
use crate::optimize::{
    jumpreduce_table, lemma_walk_done_stable, first_removable, reduction, run_empty, reached, reached_present, opcombine_table, result_view, walk_run, walk_start,
};
use crate::runner::{Runner, start_state};
use crate::debug::section_debug;
use crate::sections::{SectionTable, sections_listing};
use crate::strings::append_str;
use crate::text::{decimal, decimal_text};
use crate::types::{
    Action, ActionV, ArgsV, HandlerResult, InputV, InputValue, SectionType, WashArgs, actions_view,
    input_clone, input_views, lemma_actions_view_push, lemma_input_views_index,
    lemma_input_views_push,
};
use crate::vars::{VarRef, VarV, parse_var, str_eq, var_view};

verus! {

/// The words that the line compiler treats specially, and what each does.
#[derive(Clone, Copy, PartialEq, Eq, Structural, Debug)]
pub enum Handler {
    /// `$name = value`
    Equal,
    /// `a == b`
    EqualEqual,
    /// `a ~= regex`
    TildaEqual,
    /// `a . b`: concatenation
    Dot,
    /// `cmd &;`: run what came before
    SemiAmper,
    /// `cmd &`: start what came before as a job
    Amper,
    /// `a && b`: run `b` only when `a` succeeded
    AmperAmper,
    /// `a | b`: pipe
    Bar,
    /// `cmd > file`
    Geq,
    /// `cmd < file`
    Leq,
    /// `act! {`
    Act,
    /// `if! cond {`
    If,
    /// `elif! cond {`
    Elif,
    /// `else! {`
    Else,
    /// `while! cond {`
    While,
    /// `func! name {`
    Func,
    /// `}`
    EndBlock,
}

/// A handler word and its handler.
pub struct HandlerEntry {
    pub word: String,
    pub handler: Handler,
}

/// The line compiler: it turns typed lines into sections of actions.
pub struct AST {
    sections: SectionTable,
    handlers: Vec<HandlerEntry>,
    position: SectionType,
    extra_section: usize,
    endline: Vec<Action>,
    blocks: Vec<SectionType>,
    pub elif: Option<SectionType>,
    pub sec_loop: bool,
}

/// The model of the compiler's state, apart from its handler words.
pub struct AstV {
    pub sections: Map<SectionType, Seq<ActionV>>,
    pub position: SectionType,
    pub extra_section: usize,
    pub endline: Seq<ActionV>,
    pub blocks: Seq<SectionType>,
    pub elif: Option<SectionType>,
    pub sec_loop: bool,
}

// ---------------------------------------------------------------------
// Sizes of typed values, which bound the depth of compilation.
// ---------------------------------------------------------------------

/// A size of an input value that every part of it is below.
pub open spec fn input_size(v: InputV) -> nat
    decreases v,
{
    match v {
        InputV::Long(items) => 3 + input_sizes(items),
        InputV::Function(_, items) => 4 + input_sizes(items),
        _ => 5,
    }
}

pub open spec fn input_sizes(s: Seq<InputV>) -> nat
    decreases s,
{
    if s.len() == 0 {
        0
    } else {
        input_size(s[0]) + input_sizes(s.subrange(1, s.len() as int))
    }
}

pub proof fn lemma_sizes_push(s: Seq<InputV>, x: InputV)
    ensures
        input_sizes(s.push(x)) == input_sizes(s) + input_size(x),
    decreases s.len(),
{
    if s.len() == 0 {
        assert(s.push(x).subrange(1, 1) =~= Seq::<InputV>::empty());
        assert(s.push(x)[0] == x);
        assert(input_sizes(Seq::<InputV>::empty()) == 0);
        assert(input_sizes(s.push(x)) == input_size(x) + input_sizes(s.push(x).subrange(1, 1)));
    } else {
        lemma_sizes_push(s.subrange(1, s.len() as int), x);
        assert(s.push(x).subrange(1, s.len() as int + 1) =~= s.subrange(1, s.len() as int).push(x));
        assert(s.push(x)[0] == s[0]);
        assert(input_sizes(s) == input_size(s[0]) + input_sizes(s.subrange(1, s.len() as int)));
        assert(input_sizes(s.push(x)) == input_size(s[0]) + input_sizes(s.push(x).subrange(1, s.len() as int + 1)));
    }
}

pub proof fn lemma_sizes_nonneg(s: Seq<InputV>)
    ensures
        input_sizes(s) >= 0,
{
}

pub proof fn lemma_sizes_index(s: Seq<InputV>, i: int)
    requires
        0 <= i < s.len(),
    ensures
        input_size(s[i]) <= input_sizes(s),
    decreases s.len(),
{
    if i > 0 {
        lemma_sizes_index(s.subrange(1, s.len() as int), i - 1);
    }
}

// ---------------------------------------------------------------------
// The meaning of lines that hold no handler word.
// ---------------------------------------------------------------------

/// The actions that run a command after its words are gathered.
pub open spec fn run_tail(run: bool) -> Seq<ActionV> {
    if run {
        seq![ActionV::Call("run"@), ActionV::Call("describe_process_output"@)]
    } else {
        seq![]
    }
}

/// A bare word: a variable is loaded, `$path:` lists the variables of a
/// path, and any other word is a string (run as a command on a line of its own).
pub open spec fn short_actions(s: Seq<char>, run: bool) -> Seq<ActionV> {
    match var_view(s) {
        VarV::PathName(path, name) => if name.len() == 0 {
            seq![
                ActionV::Assign(if path.len() == 0 {
                    ArgsV::Empty
                } else {
                    ArgsV::Flat(path)
                }),
                ActionV::Call("getall"@),
            ] + (if run {
                seq![ActionV::Call("flatten_eqlist"@)]
            } else {
                seq![]
            })
        } else {
            seq![ActionV::Assign(ArgsV::Flat(s)), ActionV::Load]
        },
        VarV::Name(_) => seq![ActionV::Assign(ArgsV::Flat(s)), ActionV::Load],
        VarV::NotVar => seq![ActionV::Assign(ArgsV::Flat(s))] + run_tail(run),
    }
}

/// The actions that gather `count` values left on the stack.
pub open spec fn count_tail(count: nat, run: bool) -> Seq<ActionV> {
    if count == 1 {
        seq![ActionV::Pull] + run_tail(run)
    } else if count > 1 {
        seq![ActionV::Join(count as usize)] + run_tail(run)
    } else {
        seq![]
    }
}

/// The actions of a line without handler words.
pub open spec fn plain_compile(line: InputV, run: bool) -> Seq<ActionV>
    decreases line,
{
    match line {
        InputV::Split(_) => seq![],
        InputV::Short(s) => short_actions(s, run),
        InputV::Literal(s) => seq![ActionV::Assign(ArgsV::Flat(s))],
        InputV::Long(v) => plain_items(v).0 + count_tail(plain_items(v).1, run),
        InputV::Function(n, v) => (if v.len() == 0 {
            seq![]
        } else if v.len() == 1 {
            plain_compile(v[0], false)
        } else {
            plain_items(v).0 + count_tail(plain_items(v).1, false)
        }) + seq![ActionV::Call(n)],
    }
}

/// The actions of the items of a list, each value left on the stack, and
/// how many values that is.
pub open spec fn plain_items(v: Seq<InputV>) -> (Seq<ActionV>, nat)
    decreases v,
{
    if v.len() == 0 {
        (seq![], 0)
    } else {
        let (acts, c) = plain_items(v.subrange(0, v.len() - 1));
        let a = plain_compile(v[v.len() - 1], false);
        if a.len() > 0 {
            (acts + a + seq![ActionV::Temp], c + 1)
        } else {
            (acts, c)
        }
    }
}

/// Whether no handler word occurs anywhere in a line.
pub open spec fn handler_free(line: InputV, words: Set<Seq<char>>) -> bool
    decreases line,
{
    match line {
        InputV::Short(s) => !words.contains(s),
        InputV::Long(v) => items_free(v, words),
        InputV::Function(_, v) => items_free(v, words),
        _ => true,
    }
}

pub open spec fn items_free(v: Seq<InputV>, words: Set<Seq<char>>) -> bool
    decreases v,
{
    v.len() == 0 || (items_free(v.subrange(0, v.len() - 1), words) && handler_free(v[v.len() - 1], words))
}

proof fn lemma_prefix(v: Seq<InputV>, i: int)
    requires
        0 <= i < v.len(),
    ensures
        v.subrange(0, i + 1).subrange(0, i) == v.subrange(0, i),
        v.subrange(0, i + 1)[i] == v[i],
        v.subrange(0, i + 1).len() == i + 1,
{
    assert(v.subrange(0, i + 1).subrange(0, i) =~= v.subrange(0, i));
}

proof fn lemma_items_free_all(v: Seq<InputV>, words: Set<Seq<char>>, i: int)
    requires
        items_free(v, words),
        0 <= i < v.len(),
    ensures
        handler_free(v[i], words),
        items_free(v.subrange(0, i), words),
    decreases v.len(),
{
    if i == v.len() - 1 {
    } else {
        lemma_items_free_all(v.subrange(0, v.len() - 1), words, i);
        assert(v.subrange(0, v.len() - 1).subrange(0, i) =~= v.subrange(0, i));
    }
}

// ---------------------------------------------------------------------
// Results of compiling, as models.
// ---------------------------------------------------------------------

pub open spec fn hres_view(r: Result<HandlerResult, String>) -> HResult {
    match r {
        Ok(x) => Ok(x),
        Err(e) => Err(e@),
    }
}

pub open spec fn cres_view(r: Result<Vec<Action>, String>) -> CResult {
    match r {
        Ok(v) => Ok(actions_view(v@)),
        Err(e) => Err(e@),
    }
}

/// The blocks written out, one per line.
pub open spec fn blocks_listing(bs: Seq<SectionType>) -> Seq<char>
    decreases bs.len(),
{
    if bs.len() == 0 {
        seq![]
    } else {
        blocks_listing(bs.drop_last()) + "Block jumped to from "@ + section_debug(bs.last()) + seq!['\n']
    }
}

/// The compiler written out: its position, its next section number, its
/// blocks and its sections in the order `order`.
pub open spec fn ast_debug(a: AstV, order: Seq<SectionType>) -> Seq<char> {
    seq!['\n'] + "Position: "@ + section_debug(a.position) + seq!['\n'] + "Extra section number: "@ + decimal(
        a.extra_section as nat,
    ) + seq!['\n'] + blocks_listing(a.blocks) + seq!['\n'] + sections_listing(a.sections, order)
}

/// The state a handler starts from.
pub open spec fn start(a: AstV, contents: Seq<InputValue>, count: usize, out: Seq<Action>) -> HState {
    hs(a, input_views(contents), count as nat, actions_view(out))
}

/// Whether a handler left the compiler, the rest of the line, the count,
/// the actions and its result as `x` says.
pub open spec fn handled(
    x: (HState, HResult),
    a: AstV,
    contents: Seq<InputValue>,
    count: usize,
    out: Seq<Action>,
    res: Result<HandlerResult, String>,
) -> bool {
    &&& a == x.0.ast
    &&& input_views(contents) == x.0.contents
    &&& count as nat == x.0.count
    &&& actions_view(out) == x.0.out
    &&& hres_view(res) == x.1
}

// ---------------------------------------------------------------------
// Small helpers.
// ---------------------------------------------------------------------

fn text(s: &str) -> (res: String)
    ensures
        res@ == s@,
{
    s.to_owned()
}

fn call_action(name: &str) -> (res: Action)
    ensures
        res@ == ActionV::Call(name@),
{
    Action::Call(text(name))
}

fn push_action(out: &mut Vec<Action>, a: Action)
    ensures
        actions_view(final(out)@) == actions_view(old(out)@).push(a@),
{
    let ghost before = out@;
    out.push(a);
    proof {
        lemma_actions_view_push(before, a);
    }
}

fn append_actions(out: &mut Vec<Action>, other: &mut Vec<Action>)
    ensures
        actions_view(final(out)@) == actions_view(old(out)@) + actions_view(old(other)@),
        final(other)@.len() == 0,
{
    let ghost before = out@;
    out.append(other);
    proof {
        assert(actions_view(out@) =~= actions_view(before) + actions_view(old(other)@));
    }
}

/// A `Load` then `Temp` at the end of `out` becomes a single `Temp`.
fn drop_loaded_temp(out: &mut Vec<Action>)
    ensures
        actions_view(final(out)@) == equal_out(actions_view(old(out)@)),
{
    let n = out.len();
    if n >= 2 {
        let last_temp = match &out[n - 1] {
            Action::Temp => true,
            _ => false,
        };
        let before_load = match &out[n - 2] {
            Action::Load => true,
            _ => false,
        };
        if last_temp && before_load {
            let ghost before = out@;
            out.pop();
            out.pop();
            let ghost mid = out@;
            out.push(Action::Temp);
            proof {
                assert(mid =~= before.drop_last().drop_last());
                lemma_actions_view_push(mid, Action::Temp);
                assert(actions_view(mid) =~= actions_view(before).drop_last().drop_last());
            }
        }
    }
}

fn pop_front_value(contents: &mut VecDeque<InputValue>) -> (res: Option<InputValue>)
    ensures
        old(contents)@.len() == 0 ==> res is None && final(contents)@ == old(contents)@,
        old(contents)@.len() > 0 ==> (res matches Some(x) && x@ == input_views(old(contents)@)[0])
            && input_views(final(contents)@) == input_views(old(contents)@).subrange(1, old(contents)@.len() as int),
        input_sizes(input_views(final(contents)@)) + (match res {
            Some(x) => input_size(x@),
            None => 0,
        }) == input_sizes(input_views(old(contents)@)),
        final(contents)@.len() <= old(contents)@.len(),
        res is Some ==> final(contents)@.len() == old(contents)@.len() - 1,
{
    let r = contents.pop_front();
    proof {
        if old(contents)@.len() > 0 {
            lemma_input_views_index(old(contents)@, 0);
            assert(input_views(contents@) =~= input_views(old(contents)@).subrange(1, old(contents)@.len() as int));
        }
    }
    r
}

fn front_is_split(contents: &VecDeque<InputValue>) -> (res: bool)
    ensures
        res == (contents@.len() > 0 && input_views(contents@)[0] is Split),
{
    if contents.len() == 0 {
        return false;
    }
    proof {
        lemma_input_views_index(contents@, 0);
    }
    match &contents[0] {
        InputValue::Split(_) => true,
        _ => false,
    }
}

fn is_open_brace(v: &InputValue) -> (res: bool)
    ensures
        res == (v@ == InputV::Short("{"@)),
{
    match v {
        InputValue::Short(s) => str_eq(s.as_str(), "{"),
        _ => false,
    }
}

/// Drops the separators at the front of `contents`.
fn skip_splits(contents: &mut VecDeque<InputValue>)
    ensures
        input_sizes(input_views(final(contents)@)) <= input_sizes(input_views(old(contents)@)),
        final(contents)@.len() <= old(contents)@.len(),
        input_views(final(contents)@) == skip_splits_spec(input_views(old(contents)@)),
{
    while front_is_split(contents)
        invariant
            input_sizes(input_views(contents@)) <= input_sizes(input_views(old(contents)@)),
            contents@.len() <= old(contents)@.len(),
            skip_splits_spec(input_views(contents@)) == skip_splits_spec(input_views(old(contents)@)),
        decreases contents@.len(),
    {
        pop_front_value(contents);
    }
}

/// Takes the next value of `contents`, passing over one separator that
/// has something after it.
fn take_value(contents: &mut VecDeque<InputValue>) -> (res: InputValue)
    requires
        old(contents)@.len() > 0,
    ensures
        input_sizes(input_views(final(contents)@)) + input_size(res@) <= input_sizes(input_views(old(contents)@)),
        final(contents)@.len() < old(contents)@.len(),
        (res@, input_views(final(contents)@)) == take_value_spec(input_views(old(contents)@)),
{
    let first = match pop_front_value(contents) {
        Some(v) => v,
        None => InputValue::Split(String::new()),
    };
    match first {
        InputValue::Split(_) => {
            if contents.len() != 0 {
                match pop_front_value(contents) {
                    Some(v) => v,
                    None => first,
                }
            } else {
                first
            }
        },
        _ => first,
    }
}

/// Takes the values of `contents` up to an opening brace, which is dropped.
fn take_until_brace(contents: &mut VecDeque<InputValue>) -> (res: Vec<InputValue>)
    ensures
        input_sizes(input_views(final(contents)@)) + input_sizes(input_views(res@)) <= input_sizes(
            input_views(old(contents)@),
        ),
        final(contents)@.len() <= old(contents)@.len(),
        (input_views(res@), input_views(final(contents)@)) == until_brace_spec(input_views(old(contents)@)),
{
    let mut values: Vec<InputValue> = Vec::new();
    proof {
        assert(input_views(values@) =~= Seq::<InputV>::empty());
    }
    loop
        invariant_except_break
            ({
                let (v, r) = until_brace_spec(input_views(contents@));
                (input_views(values@) + v, r) == until_brace_spec(input_views(old(contents)@))
            }),
        invariant
            input_sizes(input_views(contents@)) + input_sizes(input_views(values@)) <= input_sizes(
                input_views(old(contents)@),
            ),
            contents@.len() <= old(contents)@.len(),
        ensures
            (input_views(values@), input_views(contents@)) == until_brace_spec(input_views(old(contents)@)),
            input_sizes(input_views(contents@)) + input_sizes(input_views(values@)) <= input_sizes(
                input_views(old(contents)@),
            ),
            contents@.len() <= old(contents)@.len(),
        decreases contents@.len(),
    {
        let ghost cb = input_views(contents@);
        match pop_front_value(contents) {
            None => {
                proof {
                    assert(input_views(values@) + Seq::<InputV>::empty() =~= input_views(values@));
                }
                break;
            },
            Some(v) => {
                if is_open_brace(&v) {
                    proof {
                        assert(input_views(values@) + Seq::<InputV>::empty() =~= input_views(values@));
                    }
                    break;
                }
                let ghost before = values@;
                values.push(v);
                proof {
                    lemma_input_views_push(before, v);
                    lemma_sizes_push(input_views(before), v@);
                    let (v2, r2) = until_brace_spec(input_views(contents@));
                    assert(input_views(before) + (seq![v@] + v2) =~= input_views(values@) + v2);
                }
            },
        }
    }
    values
}

impl AST {
    pub closed spec fn view(&self) -> AstV {
        AstV {
            sections: self.sections@,
            position: self.position,
            extra_section: self.extra_section,
            endline: actions_view(self.endline@),
            blocks: self.blocks@,
            elif: self.elif,
            sec_loop: self.sec_loop,
        }
    }

    /// The words that have handlers.
    pub closed spec fn handler_words(&self) -> Set<Seq<char>> {
        Set::new(|w: Seq<char>| exists|i: int| 0 <= i < self.handlers@.len() && self.handlers@[i].word@ == w)
    }

    /// The handler of `word`, where it has one.
    pub closed spec fn handler_of(&self, word: Seq<char>) -> Option<Handler> {
        if self.handler_words().contains(word) {
            Some(
                self.handlers@[choose|i: int| 0 <= i < self.handlers@.len() && self.handlers@[i].word@ == word].handler,
            )
        } else {
            None
        }
    }

    /// Whether two compilers have the same handler words and handlers.
    pub closed spec fn same_handlers(&self, other: AST) -> bool {
        self.handlers@ == other.handlers@
    }

    pub proof fn lemma_same_handlers(&self, other: AST)
        requires
            self.same_handlers(other),
        ensures
            self.handler_words() == other.handler_words(),
            forall|w: Seq<char>| self.handler_of(w) == other.handler_of(w),
    {
        assert(self.handler_words() =~= other.handler_words());
    }

    /// The handler of each handler word.
    pub closed spec fn handler_map(&self) -> Map<Seq<char>, Handler> {
        Map::new(|w: Seq<char>| self.handler_words().contains(w), |w: Seq<char>| self.handler_of(w)->Some_0)
    }

    pub proof fn lemma_handler_map(&self, w: Seq<char>)
        ensures
            self.handler_map().contains_key(w) <==> self.handler_of(w) is Some,
            self.handler_of(w) matches Some(h) ==> self.handler_map()[w] == h,
    {
    }

    pub proof fn lemma_same_map(&self, other: AST)
        requires
            self.same_handlers(other),
        ensures
            self.handler_map() == other.handler_map(),
    {
        self.lemma_same_handlers(other);
        assert(self.handler_map() =~= other.handler_map());
    }

    pub closed spec fn wf(&self) -> bool {
        &&& self.sections.wf()
        &&& forall|i: int, j: int|
            0 <= i < self.handlers@.len() && 0 <= j < self.handlers@.len() && i != j ==> self.handlers@[i].word@
                != self.handlers@[j].word@
    }

    /// A compiler with no sections and no handler words, placed in `.run`.
    pub fn new() -> (res: AST)
        ensures
            res.wf(),
            res.handler_words() == Set::<Seq<char>>::empty(),
            res@ == (AstV {
                sections: Map::empty(),
                position: SectionType::Run,
                extra_section: 0,
                endline: seq![],
                blocks: seq![],
                elif: None,
                sec_loop: false,
            }),
    {
        let res = AST {
            sections: SectionTable::new(),
            handlers: Vec::new(),
            position: SectionType::Run,
            extra_section: 0,
            endline: Vec::new(),
            blocks: Vec::new(),
            elif: None,
            sec_loop: false,
        };
        proof {
            assert(res.handler_words() =~= Set::<Seq<char>>::empty());
            assert(actions_view(res.endline@) =~= Seq::<ActionV>::empty());
        }
        res
    }

    /// Forgets everything compiled; the handler words stay.
    pub fn clear(&mut self)
        requires
            old(self).wf(),
        ensures
            final(self).wf(),
            final(self).handler_words() == old(self).handler_words(),
            forall|w: Seq<char>| final(self).handler_of(w) == old(self).handler_of(w),
            final(self).same_handlers(*old(self)),
            final(self)@ == (AstV {
                sections: Map::empty(),
                position: SectionType::Run,
                extra_section: 0,
                endline: seq![],
                blocks: seq![],
                elif: None,
                sec_loop: false,
            }),
    {
        self.sections.clear();
        self.position = SectionType::Run;
        self.extra_section = 0;
        self.endline.clear();
        self.blocks.clear();
        self.elif = None;
        self.sec_loop = false;
        proof {
            assert(actions_view(self.endline@) =~= Seq::<ActionV>::empty());
        }
    }

    /// Whether a block is open.
    pub fn in_block(&self) -> (res: bool)
        ensures
            res == (self@.blocks.len() > 0),
    {
        self.blocks.len() != 0
    }

    fn find_handler(&self, word: &String) -> (res: Option<Handler>)
        requires
            self.wf(),
        ensures
            res == self.handler_of(word@),
    {
        let mut i: usize = 0;
        while i < self.handlers.len()
            invariant
                self.wf(),
                i <= self.handlers@.len(),
                forall|j: int| 0 <= j < i ==> self.handlers@[j].word@ != word@,
            decreases self.handlers@.len() - i,
        {
            if self.handlers[i].word == *word {
                proof {
                    assert(self.handler_words().contains(word@));
                    let k = choose|k: int| 0 <= k < self.handlers@.len() && self.handlers@[k].word@ == word@;
                    assert(k == i);
                }
                return Some(self.handlers[i].handler);
            }
            i = i + 1;
        }
        None
    }

    fn handler_index(&self, word: &String) -> (res: Option<usize>)
        ensures
            res is None ==> forall|j: int| 0 <= j < self.handlers@.len() ==> self.handlers@[j].word@ != word@,
            res matches Some(i) ==> i < self.handlers@.len() && self.handlers@[i as int].word@ == word@,
    {
        let mut i: usize = 0;
        while i < self.handlers.len()
            invariant
                i <= self.handlers@.len(),
                forall|j: int| 0 <= j < i ==> self.handlers@[j].word@ != word@,
            decreases self.handlers@.len() - i,
        {
            if self.handlers[i].word == *word {
                return Some(i);
            }
            i = i + 1;
        }
        None
    }

    /// Makes `word` a handler word.
    pub fn add_handler(&mut self, word: &str, callback: Handler)
        requires
            old(self).wf(),
        ensures
            final(self).wf(),
            final(self)@ == old(self)@,
            final(self).handler_words() == old(self).handler_words().insert(word@),
            final(self).handler_of(word@) == Some(callback),
            forall|w: Seq<char>| w != word@ ==> #[trigger] final(self).handler_of(w) == old(self).handler_of(w),
    {
        let w = text(word);
        let found = self.handler_index(&w);
        let ghost before = self.handlers@;
        match found {
            Some(i) => {
                self.handlers.set(i, HandlerEntry { word: w, handler: callback });
                proof {
                    assert forall|a: int| 0 <= a < self.handlers@.len() && a != i implies self.handlers@[a]
                        == before[a] by {}
                    assert forall|a: int, b: int|
                        0 <= a < self.handlers@.len() && 0 <= b < self.handlers@.len() && a != b implies self.handlers@[a].word@
                        != self.handlers@[b].word@ by {
                        assert(before[a].word@ != before[b].word@);
                    }
                    assert forall|x: Seq<char>| self.handler_words().contains(x) <==> old(self).handler_words().insert(word@).contains(x) by {
                        if self.handler_words().contains(x) {
                            let k = choose|k: int| 0 <= k < self.handlers@.len() && self.handlers@[k].word@ == x;
                            assert(before[k].word@ == x);
                        }
                        if old(self).handler_words().contains(x) {
                            let k = choose|k: int| 0 <= k < before.len() && before[k].word@ == x;
                            assert(self.handlers@[k].word@ == x);
                        }
                        if x == word@ {
                            assert(self.handlers@[i as int].word@ == x);
                        }
                    }
                    assert(self.handler_words() =~= old(self).handler_words().insert(word@));
                    assert(self.handler_of(word@) == Some(callback)) by {
                        let k = choose|k: int| 0 <= k < self.handlers@.len() && self.handlers@[k].word@ == word@;
                        assert(k == i);
                    }
                    assert forall|x: Seq<char>| x != word@ implies self.handler_of(x) == old(self).handler_of(x) by {
                        if self.handler_words().contains(x) {
                            let k = choose|k: int| 0 <= k < self.handlers@.len() && self.handlers@[k].word@ == x;
                            let k2 = choose|k: int| 0 <= k < before.len() && before[k].word@ == x;
                            assert(k != i);
                            assert(before[k].word@ == x);
                            assert(k == k2);
                        }
                    }
                }
            },
            None => {
                self.handlers.push(HandlerEntry { word: w, handler: callback });
                proof {
                    let n = before.len() as int;
                    assert forall|a: int, b: int|
                        0 <= a < self.handlers@.len() && 0 <= b < self.handlers@.len() && a != b implies self.handlers@[a].word@
                        != self.handlers@[b].word@ by {
                        if a != n && b != n {
                            assert(before[a].word@ != before[b].word@);
                        }
                    }
                    assert forall|x: Seq<char>| self.handler_words().contains(x) <==> old(self).handler_words().insert(word@).contains(x) by {
                        if self.handler_words().contains(x) {
                            let k = choose|k: int| 0 <= k < self.handlers@.len() && self.handlers@[k].word@ == x;
                            if k != n {
                                assert(before[k].word@ == x);
                            }
                        }
                        if old(self).handler_words().contains(x) {
                            let k = choose|k: int| 0 <= k < before.len() && before[k].word@ == x;
                            assert(self.handlers@[k].word@ == x);
                        }
                        if x == word@ {
                            assert(self.handlers@[n].word@ == x);
                        }
                    }
                    assert(self.handler_words() =~= old(self).handler_words().insert(word@));
                    assert(self.handler_of(word@) == Some(callback)) by {
                        let k = choose|k: int| 0 <= k < self.handlers@.len() && self.handlers@[k].word@ == word@;
                        assert(k == n);
                    }
                    assert forall|x: Seq<char>| x != word@ implies self.handler_of(x) == old(self).handler_of(x) by {
                        if self.handler_words().contains(x) {
                            let k = choose|k: int| 0 <= k < self.handlers@.len() && self.handlers@[k].word@ == x;
                            let k2 = choose|k: int| 0 <= k < before.len() && before[k].word@ == x;
                            assert(k != n);
                            assert(before[k].word@ == x);
                            assert(k == k2);
                        }
                    }
                }
            },
        }
    }

    /// Adds an action to run at the end of the current line.
    pub fn add_endline(&mut self, action: Action)
        ensures
            final(self)@ == (AstV { endline: old(self)@.endline.push(action@), ..old(self)@ }),
            final(self).wf() == old(self).wf(),
            final(self).handler_words() == old(self).handler_words(),
            forall|w: Seq<char>| final(self).handler_of(w) == old(self).handler_of(w),
            final(self).same_handlers(*old(self)),
    {
        push_action(&mut self.endline, action);
    }

    /// Opens a new numbered section and moves into it; returns the section
    /// that was current.
    pub fn new_section(&mut self) -> (res: SectionType)
        requires
            old(self).wf(),
            old(self)@.extra_section < usize::MAX,
        ensures
            final(self).wf(),
            res == old(self)@.position,
            final(self)@ == (AstV {
                sections: if old(self)@.sections.contains_key(SectionType::Number(old(self)@.extra_section)) {
                    old(self)@.sections
                } else {
                    old(self)@.sections.insert(SectionType::Number(old(self)@.extra_section), seq![])
                },
                position: SectionType::Number(old(self)@.extra_section),
                extra_section: (old(self)@.extra_section + 1) as usize,
                ..old(self)@
            }),
            final(self).handler_words() == old(self).handler_words(),
            forall|w: Seq<char>| final(self).handler_of(w) == old(self).handler_of(w),
            final(self).same_handlers(*old(self)),
    {
        let out = self.position;
        self.position = SectionType::Number(self.extra_section);
        self.sections.ensure(self.position);
        self.extra_section = self.extra_section + 1;
        out
    }

    /// Moves into `section`, creating it if needed.
    pub fn move_to(&mut self, section: SectionType)
        requires
            old(self).wf(),
        ensures
            final(self).wf(),
            final(self)@ == (AstV {
                sections: if old(self)@.sections.contains_key(section) {
                    old(self)@.sections
                } else {
                    old(self)@.sections.insert(section, seq![])
                },
                position: section,
                ..old(self)@
            }),
            final(self).handler_words() == old(self).handler_words(),
            forall|w: Seq<char>| final(self).handler_of(w) == old(self).handler_of(w),
            final(self).same_handlers(*old(self)),
    {
        self.position = section;
        self.sections.ensure(section);
    }

    /// A copy of the action at index `i` of section `k`, if there is one.
    pub fn action_at(&self, k: SectionType, i: usize) -> (res: Option<Action>)
        requires
            self.wf(),
        ensures
            res is None <==> !(self@.sections.contains_key(k) && i < self@.sections[k].len()),
            res matches Some(a) ==> a@ == self@.sections[k][i as int],
            self@.sections.contains_key(k) ==> self@.sections[k].len() <= usize::MAX,
    {
        self.sections.action_at(k, i)
    }

    /// Whether section `k` exists.
    pub fn has_section(&self, k: SectionType) -> (res: bool)
        requires
            self.wf(),
        ensures
            res == self@.sections.contains_key(k),
    {
        self.sections.contains_key(k)
    }

    /// The current section.
    pub fn get_position(&self) -> (res: SectionType)
        ensures
            res == self@.position,
    {
        self.position
    }

    /// Adds an action at the end of the current section.
    pub fn push_current(&mut self, a: Action)
        requires
            old(self).wf(),
        ensures
            final(self).wf(),
            final(self)@ == (AstV {
                sections: old(self)@.sections.insert(
                    old(self)@.position,
                    (if old(self)@.sections.contains_key(old(self)@.position) {
                        old(self)@.sections[old(self)@.position]
                    } else {
                        Seq::<ActionV>::empty()
                    }).push(a@),
                ),
                ..old(self)@
            }),
            final(self).handler_words() == old(self).handler_words(),
            forall|w: Seq<char>| final(self).handler_of(w) == old(self).handler_of(w),
            final(self).same_handlers(*old(self)),
    {
        self.sections.push_action(self.position, a);
    }

    /// Moves `acts` to the end of the current section.
    fn append_current(&mut self, acts: &mut Vec<Action>)
        requires
            old(self).wf(),
        ensures
            final(self).wf(),
            final(self)@ == (AstV {
                sections: old(self)@.sections.insert(
                    old(self)@.position,
                    (if old(self)@.sections.contains_key(old(self)@.position) {
                        old(self)@.sections[old(self)@.position]
                    } else {
                        Seq::<ActionV>::empty()
                    }) + actions_view(old(acts)@),
                ),
                ..old(self)@
            }),
            final(acts)@.len() == 0,
            actions_view(final(acts)@) == Seq::<ActionV>::empty(),
            final(self).handler_words() == old(self).handler_words(),
            forall|w: Seq<char>| final(self).handler_of(w) == old(self).handler_of(w),
            final(self).same_handlers(*old(self)),
    {
        self.sections.append_actions(self.position, acts);
        proof {
            assert(actions_view(acts@) =~= Seq::<ActionV>::empty());
        }
    }

    /// The number of the current section; new sections are always numbered.
    fn current_number(&self) -> (res: usize)
        ensures
            self@.position matches SectionType::Number(n) ==> res == n,
    {
        match self.position {
            SectionType::Number(n) => n,
            _ => 0,
        }
    }

    /// Compiles one value of a line into actions.  `run` says whether the
    /// value is a whole line, whose words are run as a command.  Handler
    /// words may change the sections, open blocks and add end-of-line actions.
    pub fn process(&mut self, line: &InputValue, run: bool) -> (res: Result<Vec<Action>, String>)
        requires
            old(self).wf(),
        ensures
            final(self).wf(),
            final(self).same_handlers(*old(self)),
            handler_free(line@, old(self).handler_words()) ==> (res matches Ok(v) && actions_view(v@)
                == plain_compile(line@, run)) && final(self)@ == old(self)@,
            (final(self)@, cres_view(res)) == process_spec(old(self).handler_map(), old(self)@, line@, run),
        decreases input_size(line@), 3nat,
    {
        match line {
            InputValue::Split(_) => {
                let out: Vec<Action> = Vec::new();
                proof {
                    assert(actions_view(out@) =~= Seq::<ActionV>::empty());
                }
                Ok(out)
            },
            InputValue::Short(s) => {
                proof {
                    self.lemma_handler_map(s@);
                }
                match self.find_handler(s) {
                    Some(h) => {
                        let mut out: Vec<Action> = Vec::new();
                        let mut none: VecDeque<InputValue> = VecDeque::new();
                        let mut count: usize = 0;
                        proof {
                            assert(input_views(none@) =~= Seq::<InputV>::empty());
                            assert(actions_view(out@) =~= Seq::<ActionV>::empty());
                            assert(start(self@, none@, count, out@) == hs(self@, seq![], 0, seq![]));
                        }
                        let r = self.call_handler(h, &mut none, &mut count, &mut out);
                        match r {
                            Err(e) => Err(e),
                            Ok(HandlerResult::More(section)) => {
                                self.blocks.push(section);
                                Ok(out)
                            },
                            Ok(_) => Ok(out),
                        }
                    },
                    None => {
                        let out = short_line_actions(s, run);
                        Ok(out)
                    },
                }
            },
            InputValue::Literal(s) => {
                let mut out: Vec<Action> = Vec::new();
                push_action(&mut out, Action::Assign(WashArgs::Flat(s.clone())));
                proof {
                    assert(actions_view(out@) =~= seq![ActionV::Assign(ArgsV::Flat(s@))]);
                }
                Ok(out)
            },
            InputValue::Long(v) => self.process_items(v, run),
            InputValue::Function(n, v) => {
                let old_blocks = self.blocks.clone();
                proof {
                    assert(old_blocks@ == self.blocks@);
                }
                let mut aclist;
                if v.len() == 0 {
                    aclist = Vec::new();
                    proof {
                        assert(actions_view(aclist@) =~= Seq::<ActionV>::empty());
                    }
                } else if v.len() == 1 {
                    proof {
                        lemma_input_views_index(v@, 0);
                        lemma_sizes_index(input_views(v@), 0);
                        if handler_free(line@, old(self).handler_words()) {
                            lemma_items_free_all(input_views(v@), old(self).handler_words(), 0);
                        }
                    }
                    aclist = match self.process(&v[0], false) {
                        Ok(a) => a,
                        Err(e) => return Err(e),
                    };
                } else {
                    aclist = match self.process_items(v, false) {
                        Ok(a) => a,
                        Err(e) => return Err(e),
                    };
                }
                if blocks_eq(&self.blocks, &old_blocks) {
                    push_action(&mut aclist, Action::Call(n.clone()));
                }
                Ok(aclist)
            },
        }
    }

    /// Compiles the items of a list.  Each value that compiles to actions is
    /// left on the stack; a whole line then gathers and runs them.
    #[verifier::loop_isolation(false)]
    #[verifier::rlimit(60)]
    fn process_items(&mut self, v: &Vec<InputValue>, run: bool) -> (res: Result<Vec<Action>, String>)
        requires
            old(self).wf(),
        ensures
            final(self).wf(),
            final(self).same_handlers(*old(self)),
            items_free(input_views(v@), old(self).handler_words()) ==> (res matches Ok(a) && actions_view(a@)
                == plain_items(input_views(v@)).0 + count_tail(plain_items(input_views(v@)).1, run))
                && final(self)@ == old(self)@,
            (final(self)@, cres_view(res)) == items_spec(
                old(self).handler_map(),
                old(self)@,
                input_views(v@),
                0,
                seq![],
                run,
            ),
        decreases 3 + input_sizes(input_views(v@)), 2nat,
    {
        let ghost vv = input_views(v@);
        let ghost words = old(self).handler_words();
        let ghost hm = old(self).handler_map();
        let ghost goal = items_spec(hm, old(self)@, vv, 0, seq![], run);
        let mut items = deque_of(v);
        let vlen = v.len();
        let mut out: Vec<Action> = Vec::new();
        let mut count: usize = 0;
        let ghost mut i: int = 0;
        proof {
            assert(actions_view(out@) =~= Seq::<ActionV>::empty());
            assert(vv.subrange(0, 0) =~= Seq::<InputV>::empty());
            assert(vv.subrange(0, vv.len() as int) =~= vv);
        }
        loop
            invariant
                self.wf(),
                self.same_handlers(*old(self)),
                input_sizes(input_views(items@)) <= input_sizes(vv),
                count + items@.len() <= vlen,
                vlen == v@.len(),
                vv == input_views(v@),
                words == old(self).handler_words(),
                hm == old(self).handler_map(),
                goal == items_spec(hm, old(self)@, vv, 0, seq![], run),
                items_spec(hm, self@, input_views(items@), count as nat, actions_view(out@), run) == goal,
                items_free(vv, words) ==> {
                    &&& 0 <= i <= vv.len()
                    &&& input_views(items@) == vv.subrange(i, vv.len() as int)
                    &&& actions_view(out@) == plain_items(vv.subrange(0, i)).0
                    &&& count == plain_items(vv.subrange(0, i)).1
                    &&& self@ == old(self)@
                },
            decreases items@.len(),
        {
            let ghost c = input_views(items@);
            let ghost out0 = actions_view(out@);
            let ghost a0 = self@;
            let ghost count0 = count as nat;
            let item = match pop_front_value(&mut items) {
                None => break,
                Some(x) => x,
            };
            proof {
                self.lemma_same_map(*old(self));
                assert(c[0] == item@);
                assert(c.subrange(1, c.len() as int) == input_views(items@));
                if items_free(vv, words) {
                    assert(vv.subrange(i, vv.len() as int)[0] == vv[i]);
                    lemma_items_free_all(vv, words, i);
                    lemma_prefix(vv, i);
                    assert(input_views(items@) =~= vv.subrange(i + 1, vv.len() as int));
                }
            }
            let handler = match &item {
                InputValue::Short(s) => {
                    proof {
                        self.lemma_handler_map(s@);
                    }
                    self.find_handler(s)
                },
                _ => None,
            };
            proof {
                assert(handler is Some <==> (item@ is Short && hm.contains_key(item@->Short_0)));
            }
            match handler {
                Some(h) => {
                    proof {
                        assert(hm[item@->Short_0] == h);
                    }
                    let r = self.call_handler(h, &mut items, &mut count, &mut out);
                    match r {
                        Err(e) => return Err(e),
                        Ok(HandlerResult::Stop) => return Ok(out),
                        Ok(HandlerResult::More(section)) => {
                            self.blocks.push(section);
                        },
                        Ok(HandlerResult::Continue) => {},
                    }
                },
                None => {
                    let mut aclist = match self.process(&item, false) {
                        Ok(a) => a,
                        Err(e) => return Err(e),
                    };
                    let ghost acl = actions_view(aclist@);
                    let was_empty = aclist.len() == 0;
                    append_actions(&mut out, &mut aclist);
                    if !was_empty {
                        push_action(&mut out, Action::Temp);
                        count = count + 1;
                        proof {
                            assert(actions_view(out@) =~= out0 + acl + seq![ActionV::Temp]);
                        }
                    } else {
                        proof {
                            assert(actions_view(out@) =~= out0);
                        }
                    }
                    proof {
                        if items_free(vv, words) {
                            i = i + 1;
                        }
                    }
                },
            }
        }
        proof {
            if items_free(vv, words) {
                assert(i == vv.len());
            }
        }
        let ghost out_end = actions_view(out@);
        if count == 1 {
            push_action(&mut out, Action::Pull);
            if run {
                push_action(&mut out, call_action("run"));
                push_action(&mut out, call_action("describe_process_output"));
            }
        } else if count > 1 {
            push_action(&mut out, Action::Join(count));
            if run {
                push_action(&mut out, call_action("run"));
                push_action(&mut out, call_action("describe_process_output"));
            }
        }
        proof {
            assert(actions_view(out@) =~= out_end + count_tail(count as nat, run));
            if items_free(vv, words) {
                assert(actions_view(out@) =~= plain_items(vv).0 + count_tail(plain_items(vv).1, run));
            }
        }
        Ok(out)
    }

    /// Runs the handler `h` on the rest of a line.
    fn call_handler(
        &mut self,
        h: Handler,
        contents: &mut VecDeque<InputValue>,
        count: &mut usize,
        out: &mut Vec<Action>,
    ) -> (res: Result<HandlerResult, String>)
        requires
            old(self).wf(),
        ensures
            final(self).wf(),
            final(self).same_handlers(*old(self)),
            input_sizes(input_views(final(contents)@)) <= input_sizes(input_views(old(contents)@)),
            final(contents)@.len() <= old(contents)@.len(),
            *final(count) <= *old(count) + 1,
            handled(
                handler_spec(old(self).handler_map(), h, start(old(self)@, old(contents)@, *old(count), old(out)@)),
                final(self)@,
                final(contents)@,
                *final(count),
                final(out)@,
                res,
            ),
        decreases 4 + input_sizes(input_views(old(contents)@)), 2nat,
    {
        match h {
            Handler::Equal => self.handle_equal(contents, count, out),
            Handler::EqualEqual => self.handle_equalequal(contents, count, out),
            Handler::TildaEqual => self.handle_tildaequal(contents, count, out),
            Handler::Dot => self.handle_dot(contents, count, out),
            Handler::SemiAmper => self.handle_semiamper(contents, count, out),
            Handler::Amper => self.handle_amper(contents, count, out),
            Handler::AmperAmper => self.handle_amperamper(contents, count, out),
            Handler::Bar => self.handle_bar(contents, count, out),
            Handler::Geq => self.handle_redirect(contents, count, out, true),
            Handler::Leq => self.handle_redirect(contents, count, out, false),
            Handler::Act => self.handle_act(contents, count, out),
            Handler::If => self.handle_if(contents, count, out),
            Handler::Elif => self.handle_elif(contents, count, out),
            Handler::Else => self.handle_else(contents, count, out),
            Handler::While => self.handle_while(contents, count, out),
            Handler::Func => self.handle_func(contents, count, out),
            Handler::EndBlock => self.handle_endblock(contents, count, out),
        }
    }

    /// The order in which the sections are written out.
    pub closed spec fn section_order(&self) -> Seq<SectionType> {
        self.sections.keys()
    }

    /// The order names each section once.
    pub proof fn lemma_section_order(&self)
        requires
            self.wf(),
        ensures
            self.section_order().no_duplicates(),
            forall|k: SectionType| #[trigger] self.section_order().contains(k) <==> self@.sections.contains_key(k),
    {
        self.sections.lemma_keys();
    }

    /// The compiler written out for debugging (see `ast_debug`).
    pub fn debug_text(&self) -> (res: String)
        requires
            self.wf(),
        ensures
            res@ == ast_debug(self@, self.section_order()),
    {
        let mut out = String::new();
        out.push('\n');
        append_str(&mut out, "Position: ");
        append_str(&mut out, self.position.debug_text().as_str());
        out.push('\n');
        append_str(&mut out, "Extra section number: ");
        append_str(&mut out, decimal_text(self.extra_section).as_str());
        out.push('\n');
        let ghost head = out@;
        let mut i: usize = 0;
        proof {
            assert(self.blocks@.subrange(0, 0) =~= Seq::<SectionType>::empty());
        }
        while i < self.blocks.len()
            invariant
                i <= self.blocks@.len(),
                out@ == head + blocks_listing(self.blocks@.subrange(0, i as int)),
            decreases self.blocks@.len() - i,
        {
            append_str(&mut out, "Block jumped to from ");
            append_str(&mut out, self.blocks[i].debug_text().as_str());
            out.push('\n');
            proof {
                let t = self.blocks@.subrange(0, i + 1);
                assert(t.drop_last() =~= self.blocks@.subrange(0, i as int));
            }
            i = i + 1;
        }
        proof {
            assert(self.blocks@.subrange(0, self.blocks@.len() as int) =~= self.blocks@);
        }
        out.push('\n');
        append_str(&mut out, self.sections.listing().as_str());
        proof {
            assert(out@ =~= ast_debug(self@, self.section_order()));
        }
        out
    }

    /// Whether three more sections can be opened.
    fn has_room(&self) -> (res: bool)
        ensures
            res == (self@.extra_section < usize::MAX - 3),
    {
        self.extra_section < usize::MAX - 3
    }

    /// `$name = value`: stores the value in the variable named just before.
    fn handle_equal(
        &mut self,
        contents: &mut VecDeque<InputValue>,
        count: &mut usize,
        out: &mut Vec<Action>,
    ) -> (res: Result<HandlerResult, String>)
        requires
            old(self).wf(),
        ensures
            final(self).wf(),
            final(self).same_handlers(*old(self)),
            input_sizes(input_views(final(contents)@)) <= input_sizes(input_views(old(contents)@)),
            final(contents)@.len() <= old(contents)@.len(),
            *final(count) <= *old(count) + 1,
            handled(
                handle_equal_spec(old(self).handler_map(), start(old(self)@, old(contents)@, *old(count), old(out)@)),
                final(self)@,
                final(contents)@,
                *final(count),
                final(out)@,
                res,
            ),
        decreases 4 + input_sizes(input_views(old(contents)@)), 1nat,
    {
        let ghost st = start(old(self)@, old(contents)@, *old(count), old(out)@);
        let ghost sp = equal_value_spec(old(self).handler_map(), st.ast, st.contents);
        drop_loaded_temp(out);
        let mut newacs = match self.assigned_value(contents) {
            Ok(a) => a,
            Err(e) => return Err(e),
        };
        let ghost out1 = actions_view(out@);
        let ghost a2 = self@;
        push_action(&mut newacs, Action::Store);
        skip_splits(contents);
        let ghost c2 = input_views(contents@);
        if contents.len() != 0 {
            push_action(out, Action::ReInsert);
            push_action(out, Action::Top);
            push_action(out, Action::Load);
            push_action(out, Action::Swap);
            push_action(out, Action::Temp);
            self.add_endline(Action::Pull);
            self.add_endline(Action::Store);
            proof {
                assert(actions_view(out@) =~= out1 + seq![
                    ActionV::ReInsert,
                    ActionV::Top,
                    ActionV::Load,
                    ActionV::Swap,
                    ActionV::Temp,
                ]);
            }
        }
        append_actions(out, &mut newacs);
        proof {
            assert(out1 == equal_out(st.out));
            assert(sp.0 == a2);
            assert(c2 == skip_splits_spec(sp.1));
        }
        if *count == 0 {
            return Err(text("Nothing to assign to"));
        }
        *count = *count - 1;
        Ok(HandlerResult::Continue)
    }

    /// The value of `$name = value`, compiled.
    fn assigned_value(&mut self, contents: &mut VecDeque<InputValue>) -> (res: Result<Vec<Action>, String>)
        requires
            old(self).wf(),
        ensures
            final(self).wf(),
            final(self).same_handlers(*old(self)),
            input_sizes(input_views(final(contents)@)) <= input_sizes(input_views(old(contents)@)),
            final(contents)@.len() <= old(contents)@.len(),
            (final(self)@, input_views(final(contents)@), cres_view(res)) == equal_value_spec(
                old(self).handler_map(),
                old(self)@,
                input_views(old(contents)@),
            ),
        decreases 4 + input_sizes(input_views(old(contents)@)), 0nat,
    {
        let mut newacs: Vec<Action> = Vec::new();
        if contents.len() == 0 {
            push_action(&mut newacs, Action::Assign(WashArgs::Empty));
            proof {
                assert(actions_view(newacs@) =~= seq![ActionV::Assign(ArgsV::Empty)]);
            }
            return Ok(newacs);
        }
        let value = take_value(contents);
        proof {
            lemma_sizes_nonneg(input_views(contents@));
        }
        let mut aclist = match self.process(&value, false) {
            Ok(a) => a,
            Err(e) => return Err(e),
        };
        if aclist.len() == 0 {
            push_action(&mut newacs, Action::Assign(WashArgs::Empty));
            proof {
                assert(actions_view(newacs@) =~= seq![ActionV::Assign(ArgsV::Empty)]);
            }
            Ok(newacs)
        } else {
            Ok(aclist)
        }
    }

    /// Gathers both sides of a comparison on the stack.
    fn equalequal_inner(
        &mut self,
        contents: &mut VecDeque<InputValue>,
        count: &mut usize,
        out: &mut Vec<Action>,
    ) -> (res: Result<HandlerResult, String>)
        requires
            old(self).wf(),
        ensures
            final(self).wf(),
            final(self).same_handlers(*old(self)),
            input_sizes(input_views(final(contents)@)) <= input_sizes(input_views(old(contents)@)),
            final(contents)@.len() <= old(contents)@.len(),
            *final(count) <= *old(count) + 1,
            handled(
                equalequal_inner_spec(old(self).handler_map(), start(old(self)@, old(contents)@, *old(count), old(out)@)),
                final(self)@,
                final(contents)@,
                *final(count),
                final(out)@,
                res,
            ),
        decreases 4 + input_sizes(input_views(old(contents)@)), 0nat,
    {
        let ghost out0 = actions_view(out@);
        if *count > 1 {
            push_action(out, Action::Join(*count));
            push_action(out, Action::Temp);
            proof {
                assert(actions_view(out@) =~= out0 + seq![ActionV::Join(*count), ActionV::Temp]);
            }
        }
        let ghost out1 = actions_view(out@);
        if contents.len() == 0 {
            push_action(out, Action::Insert(WashArgs::Empty));
            push_action(out, Action::Join(2));
            proof {
                assert(actions_view(out@) =~= out1 + seq![ActionV::Insert(ArgsV::Empty), ActionV::Join(2)]);
            }
        } else {
            skip_splits(contents);
            let mut aclist;
            if contents.len() > 1 {
                let mut v: Vec<InputValue> = Vec::new();
                let ghost whole = contents@;
                proof {
                    assert(input_views(v@) =~= Seq::<InputV>::empty());
                }
                loop
                    invariant_except_break
                        input_views(v@) + input_views(contents@) == input_views(whole),
                    invariant
                        input_sizes(input_views(contents@)) + input_sizes(input_views(v@)) <= input_sizes(
                            input_views(whole),
                        ),
                        contents@.len() <= whole.len(),
                    ensures
                        input_views(v@) == input_views(whole),
                        contents@.len() == 0,
                        input_sizes(input_views(contents@)) + input_sizes(input_views(v@)) <= input_sizes(
                            input_views(whole),
                        ),
                    decreases contents@.len(),
                {
                    let ghost cb = input_views(contents@);
                    match pop_front_value(contents) {
                        None => {
                            proof {
                                assert(input_views(v@) + cb =~= input_views(v@));
                            }
                            break;
                        },
                        Some(val) => {
                            let ghost before = v@;
                            v.push(val);
                            proof {
                                lemma_input_views_push(before, val);
                                lemma_sizes_push(input_views(before), val@);
                                assert(input_views(v@) + input_views(contents@) =~= input_views(before) + cb);
                            }
                        },
                    }
                }
                let line = InputValue::Long(v);
                proof {
                    assert(input_views(contents@) =~= Seq::<InputV>::empty());
                }
                aclist = match self.process(&line, false) {
                    Ok(a) => a,
                    Err(e) => return Err(e),
                };
            } else if contents.len() == 1 {
                proof {
                    lemma_input_views_index(contents@, 0);
                    lemma_sizes_index(input_views(contents@), 0);
                }
                aclist = match self.process(&contents[0], false) {
                    Ok(a) => a,
                    Err(e) => return Err(e),
                };
            } else {
                return Err(text("Nothing to compare with"));
            }
            let ghost acl = actions_view(aclist@);
            append_actions(out, &mut aclist);
            push_action(out, Action::Temp);
            push_action(out, Action::Join(2));
            proof {
                assert(actions_view(out@) =~= out1 + acl + seq![ActionV::Temp, ActionV::Join(2)]);
            }
        }
        *count = 0;
        Ok(HandlerResult::Continue)
    }

    /// `a == b`
    fn handle_equalequal(
        &mut self,
        contents: &mut VecDeque<InputValue>,
        count: &mut usize,
        out: &mut Vec<Action>,
    ) -> (res: Result<HandlerResult, String>)
        requires
            old(self).wf(),
        ensures
            final(self).wf(),
            final(self).same_handlers(*old(self)),
            input_sizes(input_views(final(contents)@)) <= input_sizes(input_views(old(contents)@)),
            final(contents)@.len() <= old(contents)@.len(),
            *final(count) <= *old(count) + 1,
            handled(
                handle_compare_spec(old(self).handler_map(), start(old(self)@, old(contents)@, *old(count), old(out)@), false),
                final(self)@,
                final(contents)@,
                *final(count),
                final(out)@,
                res,
            ),
        decreases 4 + input_sizes(input_views(old(contents)@)), 1nat,
    {
        match self.equalequal_inner(contents, count, out) {
            Err(e) => return Err(e),
            Ok(_) => {},
        }
        push_action(out, call_action("equal?"));
        Ok(HandlerResult::Stop)
    }

    /// `a ~= regex`
    fn handle_tildaequal(
        &mut self,
        contents: &mut VecDeque<InputValue>,
        count: &mut usize,
        out: &mut Vec<Action>,
    ) -> (res: Result<HandlerResult, String>)
        requires
            old(self).wf(),
        ensures
            final(self).wf(),
            final(self).same_handlers(*old(self)),
            input_sizes(input_views(final(contents)@)) <= input_sizes(input_views(old(contents)@)),
            final(contents)@.len() <= old(contents)@.len(),
            *final(count) <= *old(count) + 1,
            handled(
                handle_compare_spec(old(self).handler_map(), start(old(self)@, old(contents)@, *old(count), old(out)@), true),
                final(self)@,
                final(contents)@,
                *final(count),
                final(out)@,
                res,
            ),
        decreases 4 + input_sizes(input_views(old(contents)@)), 1nat,
    {
        match self.equalequal_inner(contents, count, out) {
            Err(e) => return Err(e),
            Ok(_) => {},
        }
        push_action(out, call_action("re_equal?"));
        Ok(HandlerResult::Stop)
    }

    /// `a . b`: joins the two sides into one string.
    fn handle_dot(
        &mut self,
        contents: &mut VecDeque<InputValue>,
        count: &mut usize,
        out: &mut Vec<Action>,
    ) -> (res: Result<HandlerResult, String>)
        requires
            old(self).wf(),
        ensures
            final(self).wf(),
            final(self).same_handlers(*old(self)),
            input_sizes(input_views(final(contents)@)) <= input_sizes(input_views(old(contents)@)),
            final(contents)@.len() <= old(contents)@.len(),
            *final(count) <= *old(count) + 1,
            handled(
                handle_dot_spec(old(self).handler_map(), start(old(self)@, old(contents)@, *old(count), old(out)@)),
                final(self)@,
                final(contents)@,
                *final(count),
                final(out)@,
                res,
            ),
        decreases 4 + input_sizes(input_views(old(contents)@)), 1nat,
    {
        let ghost out0 = actions_view(out@);
        let mut acts: Vec<Action> = Vec::new();
        if contents.len() == 0 {
            push_action(&mut acts, Action::Insert(WashArgs::Empty));
            proof {
                assert(actions_view(acts@) =~= seq![ActionV::Insert(ArgsV::Empty)]);
            }
        } else {
            let value = take_value(contents);
            proof {
                lemma_sizes_nonneg(input_views(contents@));
            }
            let mut aclist = match self.process(&value, false) {
                Ok(a) => a,
                Err(e) => return Err(e),
            };
            if aclist.len() == 0 {
                push_action(&mut acts, Action::Insert(WashArgs::Empty));
                proof {
                    assert(actions_view(acts@) =~= seq![ActionV::Insert(ArgsV::Empty)]);
                }
            } else {
                push_action(&mut aclist, Action::Temp);
                acts = aclist;
            }
        }
        let ghost acts_v = actions_view(acts@);
        append_actions(out, &mut acts);
        push_action(out, Action::Join(2));
        push_action(out, call_action("dot"));
        proof {
            assert(actions_view(out@) =~= out0 + acts_v + seq![ActionV::Join(2), ActionV::Call("dot"@)]);
        }
        if contents.len() != 0 || *count > 1 {
            push_action(out, Action::Temp);
        } else {
            if *count == 0 {
                return Err(text("Nothing to join with"));
            }
            *count = *count - 1;
        }
        Ok(HandlerResult::Continue)
    }

    /// `cmd &;`: runs what came before.
    fn handle_semiamper(
        &mut self,
        contents: &mut VecDeque<InputValue>,
        count: &mut usize,
        out: &mut Vec<Action>,
    ) -> (res: Result<HandlerResult, String>)
        requires
            old(self).wf(),
        ensures
            final(self).wf(),
            final(self).same_handlers(*old(self)),
            input_sizes(input_views(final(contents)@)) <= input_sizes(input_views(old(contents)@)),
            final(contents)@.len() <= old(contents)@.len(),
            *final(count) <= *old(count) + 1,
            res is Ok ==> *final(count) == 0 && final(self)@ == old(self)@,
            handled(
                handle_run_spec(start(old(self)@, old(contents)@, *old(count), old(out)@), "run"@),
                final(self)@,
                final(contents)@,
                *final(count),
                final(out)@,
                res,
            ),
        decreases 4 + input_sizes(input_views(old(contents)@)), 0nat,
    {
        if *count > 0 {
            push_action(out, Action::Join(*count));
            *count = 0;
        }
        push_action(out, call_action("run"));
        Ok(HandlerResult::Continue)
    }

    /// `cmd &`: starts what came before as a job.
    fn handle_amper(
        &mut self,
        contents: &mut VecDeque<InputValue>,
        count: &mut usize,
        out: &mut Vec<Action>,
    ) -> (res: Result<HandlerResult, String>)
        requires
            old(self).wf(),
        ensures
            final(self).wf(),
            final(self).same_handlers(*old(self)),
            input_sizes(input_views(final(contents)@)) <= input_sizes(input_views(old(contents)@)),
            final(contents)@.len() <= old(contents)@.len(),
            *final(count) <= *old(count) + 1,
            res is Ok ==> *final(count) == 0 && final(self)@ == old(self)@,
            handled(
                handle_run_spec(start(old(self)@, old(contents)@, *old(count), old(out)@), "job"@),
                final(self)@,
                final(contents)@,
                *final(count),
                final(out)@,
                res,
            ),
        decreases 4 + input_sizes(input_views(old(contents)@)), 0nat,
    {
        if *count > 0 {
            push_action(out, Action::Join(*count));
            *count = 0;
        }
        push_action(out, call_action("job"));
        Ok(HandlerResult::Continue)
    }

    /// `a && b`: stops the line when `a` failed.
    fn handle_amperamper(
        &mut self,
        contents: &mut VecDeque<InputValue>,
        count: &mut usize,
        out: &mut Vec<Action>,
    ) -> (res: Result<HandlerResult, String>)
        requires
            old(self).wf(),
        ensures
            final(self).wf(),
            final(self).same_handlers(*old(self)),
            input_sizes(input_views(final(contents)@)) <= input_sizes(input_views(old(contents)@)),
            final(contents)@.len() <= old(contents)@.len(),
            *final(count) <= *old(count) + 1,
            handled(
                handle_amperamper_spec(start(old(self)@, old(contents)@, *old(count), old(out)@)),
                final(self)@,
                final(contents)@,
                *final(count),
                final(out)@,
                res,
            ),
        decreases 4 + input_sizes(input_views(old(contents)@)), 1nat,
    {
        match self.handle_semiamper(contents, count, out) {
            Err(e) => return Err(e),
            Ok(_) => {},
        }
        push_action(out, call_action("run_failed?"));
        if !self.has_room() {
            return Err(text("Too many sections"));
        }
        let old_section = self.new_section();
        let new_num = self.current_number();
        self.push_current(Action::Fail(text(STOP)));
        self.move_to(old_section);
        push_action(out, Action::Branch(new_num));
        Ok(HandlerResult::Continue)
    }

    /// `a | b`: starts `a` as a job and passes its output to `b`.
    fn handle_bar(
        &mut self,
        contents: &mut VecDeque<InputValue>,
        count: &mut usize,
        out: &mut Vec<Action>,
    ) -> (res: Result<HandlerResult, String>)
        requires
            old(self).wf(),
        ensures
            final(self).wf(),
            final(self).same_handlers(*old(self)),
            input_sizes(input_views(final(contents)@)) <= input_sizes(input_views(old(contents)@)),
            final(contents)@.len() <= old(contents)@.len(),
            *final(count) <= *old(count) + 1,
            handled(
                handle_bar_spec(start(old(self)@, old(contents)@, *old(count), old(out)@)),
                final(self)@,
                final(contents)@,
                *final(count),
                final(out)@,
                res,
            ),
        decreases 4 + input_sizes(input_views(old(contents)@)), 1nat,
    {
        match self.handle_amper(contents, count, out) {
            Err(e) => return Err(e),
            Ok(_) => {},
        }
        let ghost o1 = actions_view(out@);
        push_action(out, Action::Insert(WashArgs::Flat(text("$pipe:"))));
        push_action(out, Action::Temp);
        push_action(out, Action::Join(2));
        push_action(out, call_action("dot"));
        push_action(out, Action::Load);
        push_action(out, Action::Temp);
        *count = *count + 1;
        proof {
            assert(actions_view(out@) =~= o1 + seq![
                ActionV::Insert(ArgsV::Flat("$pipe:"@)),
                ActionV::Temp,
                ActionV::Join(2),
                ActionV::Call("dot"@),
                ActionV::Load,
                ActionV::Temp,
            ]);
        }
        Ok(HandlerResult::Continue)
    }

    /// `cmd > file` (`output`) and `cmd < file`: opens the file and names it
    /// as the command's output or input.
    fn handle_redirect(
        &mut self,
        contents: &mut VecDeque<InputValue>,
        count: &mut usize,
        out: &mut Vec<Action>,
        output: bool,
    ) -> (res: Result<HandlerResult, String>)
        requires
            old(self).wf(),
        ensures
            final(self).wf(),
            final(self).same_handlers(*old(self)),
            input_sizes(input_views(final(contents)@)) <= input_sizes(input_views(old(contents)@)),
            final(contents)@.len() <= old(contents)@.len(),
            *final(count) <= *old(count) + 1,
            handled(
                handle_redirect_spec(old(self).handler_map(), start(old(self)@, old(contents)@, *old(count), old(out)@), output),
                final(self)@,
                final(contents)@,
                *final(count),
                final(out)@,
                res,
            ),
        decreases 4 + input_sizes(input_views(old(contents)@)), 1nat,
    {
        if *count > 0 {
            push_action(out, Action::Join(*count));
            *count = 1;
        }
        push_action(out, Action::Temp);
        if contents.len() == 0 {
            return Err(text("No file name given"));
        }
        let value = take_value(contents);
        proof {
            lemma_sizes_nonneg(input_views(contents@));
        }
        let mut aclist = match self.process(&value, false) {
            Ok(a) => a,
            Err(e) => return Err(e),
        };
        if aclist.len() == 0 {
            return Err(text("No file name given"));
        }
        let ghost out2 = actions_view(out@);
        let ghost acl = actions_view(aclist@);
        append_actions(out, &mut aclist);
        if output {
            push_action(out, call_action("open_output"));
            push_action(out, Action::Insert(WashArgs::Flat(text("@out:"))));
        } else {
            push_action(out, call_action("open_input"));
            push_action(out, Action::Insert(WashArgs::Flat(text("@"))));
        }
        push_action(out, Action::Temp);
        push_action(out, Action::Join(2));
        push_action(out, call_action("dot"));
        proof {
            let tail = if output {
                seq![ActionV::Call("open_output"@), ActionV::Insert(ArgsV::Flat("@out:"@))]
            } else {
                seq![ActionV::Call("open_input"@), ActionV::Insert(ArgsV::Flat("@"@))]
            };
            assert(actions_view(out@) =~= out2 + acl + tail + seq![
                ActionV::Temp,
                ActionV::Join(2),
                ActionV::Call("dot"@),
            ]);
        }
        Ok(HandlerResult::Continue)
    }

    /// The condition of a block: the actions so far go to the current
    /// section, and the rest of the line up to `{` is compiled.
    fn block_condition(&mut self, contents: &mut VecDeque<InputValue>, out: &mut Vec<Action>) -> (res: Result<
        Vec<Action>,
        String,
    >)
        requires
            old(self).wf(),
        ensures
            final(self).wf(),
            final(self).same_handlers(*old(self)),
            input_sizes(input_views(final(contents)@)) <= input_sizes(input_views(old(contents)@)),
            final(contents)@.len() <= old(contents)@.len(),
            actions_view(final(out)@) == Seq::<ActionV>::empty(),
            (final(self)@, input_views(final(contents)@), cres_view(res)) == crate::compile::block_condition(
                old(self).handler_map(),
                start(old(self)@, old(contents)@, 0, old(out)@),
            ),
        decreases 4 + input_sizes(input_views(old(contents)@)), 0nat,
    {
        self.append_current(out);
        let values = take_until_brace(contents);
        let line = InputValue::Long(values);
        proof {
            lemma_sizes_nonneg(input_views(contents@));
            self.lemma_same_map(*old(self));
        }
        self.process(&line, false)
    }

    /// `if! cond {`: runs the block when the condition holds.
    fn handle_if(
        &mut self,
        contents: &mut VecDeque<InputValue>,
        count: &mut usize,
        out: &mut Vec<Action>,
    ) -> (res: Result<HandlerResult, String>)
        requires
            old(self).wf(),
        ensures
            final(self).wf(),
            final(self).same_handlers(*old(self)),
            input_sizes(input_views(final(contents)@)) <= input_sizes(input_views(old(contents)@)),
            final(contents)@.len() <= old(contents)@.len(),
            *final(count) <= *old(count) + 1,
            handled(
                handle_if_spec(old(self).handler_map(), start(old(self)@, old(contents)@, *old(count), old(out)@)),
                final(self)@,
                final(contents)@,
                *final(count),
                final(out)@,
                res,
            ),
        decreases 4 + input_sizes(input_views(old(contents)@)), 1nat,
    {
        if !self.has_room() {
            return Err(text("Too many sections"));
        }
        let mut aclist = match self.block_condition(contents, out) {
            Ok(a) => a,
            Err(e) => return Err(e),
        };
        if !self.has_room() {
            return Err(text("Too many sections"));
        }
        let old_section = self.new_section();
        let secnum = self.current_number();
        self.new_section();
        let finalsec = self.current_number();
        self.new_section();
        let elifsec = self.current_number();
        self.move_to(old_section);
        push_action(&mut aclist, Action::Branch(secnum));
        push_action(&mut aclist, Action::Jump(elifsec));
        self.append_current(&mut aclist);
        self.move_to(SectionType::Number(elifsec));
        self.elif = Some(SectionType::Number(elifsec));
        self.push_current(Action::Jump(finalsec));
        *count = 0;
        self.move_to(SectionType::Number(secnum));
        Ok(HandlerResult::More(SectionType::Number(finalsec)))
    }

    /// `elif! cond {`: another condition of the last `if!`.
    fn handle_elif(
        &mut self,
        contents: &mut VecDeque<InputValue>,
        count: &mut usize,
        out: &mut Vec<Action>,
    ) -> (res: Result<HandlerResult, String>)
        requires
            old(self).wf(),
        ensures
            final(self).wf(),
            final(self).same_handlers(*old(self)),
            input_sizes(input_views(final(contents)@)) <= input_sizes(input_views(old(contents)@)),
            final(contents)@.len() <= old(contents)@.len(),
            *final(count) <= *old(count) + 1,
            handled(
                handle_elif_spec(old(self).handler_map(), start(old(self)@, old(contents)@, *old(count), old(out)@)),
                final(self)@,
                final(contents)@,
                *final(count),
                final(out)@,
                res,
            ),
        decreases 4 + input_sizes(input_views(old(contents)@)), 1nat,
    {
        let old_section = match self.elif {
            None => return Err(text("No proceeding if block for elif")),
            Some(s) => s,
        };
        let mut aclist = match self.block_condition(contents, out) {
            Ok(a) => a,
            Err(e) => return Err(e),
        };
        if !self.has_room() {
            return Err(text("Too many sections"));
        }
        self.new_section();
        let secnum = self.current_number();
        self.new_section();
        let elifsec = self.current_number();
        self.move_to(old_section);
        let finalsec = match self.sections.pop_action(self.position) {
            Some(Action::Jump(n)) => n,
            _ => return Err(text("Elif section malformed")),
        };
        push_action(&mut aclist, Action::Branch(secnum));
        push_action(&mut aclist, Action::Jump(elifsec));
        self.append_current(&mut aclist);
        self.move_to(SectionType::Number(elifsec));
        self.elif = Some(SectionType::Number(elifsec));
        self.push_current(Action::Jump(finalsec));
        *count = 0;
        self.move_to(SectionType::Number(secnum));
        Ok(HandlerResult::More(SectionType::Number(finalsec)))
    }

    /// `else! {`: runs when no condition of the last `if!` held.
    fn handle_else(
        &mut self,
        contents: &mut VecDeque<InputValue>,
        count: &mut usize,
        out: &mut Vec<Action>,
    ) -> (res: Result<HandlerResult, String>)
        requires
            old(self).wf(),
        ensures
            final(self).wf(),
            final(self).same_handlers(*old(self)),
            input_sizes(input_views(final(contents)@)) <= input_sizes(input_views(old(contents)@)),
            final(contents)@.len() <= old(contents)@.len(),
            *final(count) <= *old(count) + 1,
            handled(
                handle_else_spec(start(old(self)@, old(contents)@, *old(count), old(out)@)),
                final(self)@,
                final(contents)@,
                *final(count),
                final(out)@,
                res,
            ),
        decreases 4 + input_sizes(input_views(old(contents)@)), 1nat,
    {
        self.append_current(out);
        let old_section = match self.elif {
            None => return Err(text("No proceeding if block for else")),
            Some(s) => s,
        };
        let skipped = take_until_brace(contents);
        self.move_to(old_section);
        let finalsec = match self.sections.pop_action(self.position) {
            Some(Action::Jump(n)) => n,
            _ => return Err(text("Elif section malformed")),
        };
        self.elif = None;
        *count = 0;
        Ok(HandlerResult::More(SectionType::Number(finalsec)))
    }

    /// `while! cond {`: runs the block while the condition holds.
    fn handle_while(
        &mut self,
        contents: &mut VecDeque<InputValue>,
        count: &mut usize,
        out: &mut Vec<Action>,
    ) -> (res: Result<HandlerResult, String>)
        requires
            old(self).wf(),
        ensures
            final(self).wf(),
            final(self).same_handlers(*old(self)),
            input_sizes(input_views(final(contents)@)) <= input_sizes(input_views(old(contents)@)),
            final(contents)@.len() <= old(contents)@.len(),
            *final(count) <= *old(count) + 1,
            handled(
                handle_while_spec(old(self).handler_map(), start(old(self)@, old(contents)@, *old(count), old(out)@)),
                final(self)@,
                final(contents)@,
                *final(count),
                final(out)@,
                res,
            ),
        decreases 4 + input_sizes(input_views(old(contents)@)), 1nat,
    {
        let mut aclist = match self.block_condition(contents, out) {
            Ok(a) => a,
            Err(e) => return Err(e),
        };
        if !self.has_room() {
            return Err(text("Too many sections"));
        }
        let old_sec = self.new_section();
        let newsec = self.current_number();
        self.new_section();
        let finalsec = self.current_number();
        self.move_to(old_sec);
        self.push_current(Action::Jump(newsec));
        self.move_to(SectionType::Number(newsec));
        push_action(&mut aclist, call_action("not?"));
        push_action(&mut aclist, Action::Branch(finalsec));
        self.append_current(&mut aclist);
        *count = 0;
        self.sec_loop = true;
        Ok(HandlerResult::More(SectionType::Number(finalsec)))
    }

    /// `func! name {`: saves the block as a function.
    fn handle_func(
        &mut self,
        contents: &mut VecDeque<InputValue>,
        count: &mut usize,
        out: &mut Vec<Action>,
    ) -> (res: Result<HandlerResult, String>)
        requires
            old(self).wf(),
        ensures
            final(self).wf(),
            final(self).same_handlers(*old(self)),
            input_sizes(input_views(final(contents)@)) <= input_sizes(input_views(old(contents)@)),
            final(contents)@.len() <= old(contents)@.len(),
            *final(count) <= *old(count) + 1,
            handled(
                handle_func_spec(old(self).handler_map(), start(old(self)@, old(contents)@, *old(count), old(out)@)),
                final(self)@,
                final(contents)@,
                *final(count),
                final(out)@,
                res,
            ),
        decreases 4 + input_sizes(input_views(old(contents)@)), 1nat,
    {
        let mut aclist = match self.block_condition(contents, out) {
            Ok(a) => a,
            Err(e) => return Err(e),
        };
        if !self.has_room() {
            return Err(text("Too many sections"));
        }
        let old_sec = self.new_section();
        let newsec = self.current_number();
        self.move_to(old_sec);
        push_action(&mut aclist, Action::Save(newsec));
        self.append_current(&mut aclist);
        self.move_to(SectionType::Number(newsec));
        *count = 0;
        Ok(HandlerResult::More(old_sec))
    }

    /// `act! {`: a block that is run once.
    fn handle_act(
        &mut self,
        contents: &mut VecDeque<InputValue>,
        count: &mut usize,
        out: &mut Vec<Action>,
    ) -> (res: Result<HandlerResult, String>)
        requires
            old(self).wf(),
        ensures
            final(self).wf(),
            final(self).same_handlers(*old(self)),
            input_sizes(input_views(final(contents)@)) <= input_sizes(input_views(old(contents)@)),
            final(contents)@.len() <= old(contents)@.len(),
            *final(count) <= *old(count) + 1,
            handled(
                handle_act_spec(start(old(self)@, old(contents)@, *old(count), old(out)@)),
                final(self)@,
                final(contents)@,
                *final(count),
                final(out)@,
                res,
            ),
        decreases 4 + input_sizes(input_views(old(contents)@)), 1nat,
    {
        self.append_current(out);
        let skipped = take_until_brace(contents);
        if !self.has_room() {
            return Err(text("Too many sections"));
        }
        let old_sec = self.new_section();
        let newsec = self.current_number();
        self.new_section();
        let finalsec = self.current_number();
        self.move_to(old_sec);
        self.push_current(Action::Jump(newsec));
        self.move_to(SectionType::Number(newsec));
        *count = 0;
        Ok(HandlerResult::More(SectionType::Number(finalsec)))
    }

    /// `}`: runs what is left on the line and closes the block.
    fn handle_endblock(
        &mut self,
        contents: &mut VecDeque<InputValue>,
        count: &mut usize,
        out: &mut Vec<Action>,
    ) -> (res: Result<HandlerResult, String>)
        requires
            old(self).wf(),
        ensures
            final(self).wf(),
            final(self).same_handlers(*old(self)),
            input_sizes(input_views(final(contents)@)) <= input_sizes(input_views(old(contents)@)),
            final(contents)@.len() <= old(contents)@.len(),
            *final(count) <= *old(count) + 1,
            handled(
                handle_endblock_spec(start(old(self)@, old(contents)@, *old(count), old(out)@)),
                final(self)@,
                final(contents)@,
                *final(count),
                final(out)@,
                res,
            ),
        decreases 4 + input_sizes(input_views(old(contents)@)), 1nat,
    {
        self.append_current(out);
        let mut rest: Vec<Action> = Vec::new();
        if *count > 0 {
            if *count > 1 {
                push_action(&mut rest, Action::Join(*count));
            } else {
                push_action(&mut rest, Action::Pull);
            }
            push_action(&mut rest, call_action("run"));
            push_action(&mut rest, call_action("describe_process_output"));
        }
        proof {
            assert(actions_view(rest@) =~= run_rest(*count as nat));
        }
        self.append_current(&mut rest);
        if !self.can_end_block() {
            return Err(text("Cannot loop .run"));
        }
        match self.end_block() {
            Err(e) => return Err(e),
            Ok(_) => {},
        }
        *count = 0;
        Ok(HandlerResult::Continue)
    }

    /// Whether closing the innermost block is defined: a loop cannot be
    /// closed while `.run` is the current section.
    pub open spec fn end_block_defined(v: AstV) -> bool {
        !(v.sec_loop && v.blocks.len() > 0 && v.blocks.last() is Number && !(v.position is Number))
    }

    fn can_end_block(&self) -> (res: bool)
        ensures
            res == Self::end_block_defined(self@),
    {
        if !self.sec_loop || self.blocks.len() == 0 {
            return true;
        }
        match self.blocks[self.blocks.len() - 1] {
            SectionType::Number(_) => match self.position {
                SectionType::Number(_) => true,
                _ => false,
            },
            _ => true,
        }
    }

    /// Closes the innermost block: a loop jumps back to its start, another
    /// block jumps to the section after it, and that section becomes current.
    pub fn end_block(&mut self) -> (res: Result<(), String>)
        requires
            old(self).wf(),
            Self::end_block_defined(old(self)@),
        ensures
            final(self).wf(),
            final(self).same_handlers(*old(self)),
            res is Err <==> old(self)@.blocks.len() == 0,
            res is Ok ==> final(self)@.blocks == old(self)@.blocks.drop_last() && final(self)@.position
                == old(self)@.blocks.last(),
            (final(self)@, match res {
                Ok(_) => Ok(()),
                Err(e) => Err(e@),
            }) == sp_end_block(old(self)@),
    {
        match self.blocks.pop() {
            None => Err(text("No block to end")),
            Some(SectionType::Number(n)) => {
                if self.sec_loop {
                    let m = self.current_number();
                    self.push_current(Action::Jump(m));
                    self.sec_loop = false;
                } else {
                    self.push_current(Action::Jump(n));
                }
                self.move_to(SectionType::Number(n));
                Ok(())
            },
            Some(section) => {
                self.move_to(section);
                Ok(())
            },
        }
    }

    /// Compiles a whole line into the current section.  Actions queued for
    /// the end of the line follow it.
    pub fn add_line(&mut self, line: &InputValue) -> (res: Result<(), String>)
        requires
            old(self).wf(),
        ensures
            final(self).wf(),
            final(self).same_handlers(*old(self)),
            handler_free(line@, old(self).handler_words()) ==> res is Ok && final(self)@ == (AstV {
                sections: old(self)@.sections.insert(
                    old(self)@.position,
                    (if old(self)@.sections.contains_key(old(self)@.position) {
                        old(self)@.sections[old(self)@.position]
                    } else {
                        seq![]
                    }) + plain_compile(line@, true) + old(self)@.endline,
                ),
                endline: seq![],
                ..old(self)@
            }),
            (final(self)@, match res {
                Ok(_) => Ok(()),
                Err(e) => Err(e@),
            }) == add_line_spec(old(self).handler_map(), old(self)@, line@),
    {
        let mut aclist = match self.process(line, true) {
            Ok(a) => a,
            Err(e) => return Err(e),
        };
        let ghost mid = self@;
        let ghost compiled = actions_view(aclist@);
        append_actions(&mut aclist, &mut self.endline);
        proof {
            assert(actions_view(self.endline@) =~= Seq::<ActionV>::empty());
            assert(self@ == (AstV { endline: seq![], ..mid }));
        }
        self.append_current(&mut aclist);
        proof {
            assert(actions_view(aclist@) =~= Seq::<ActionV>::empty());
            if handler_free(line@, old(self).handler_words()) {
                assert(mid == old(self)@);
                assert(compiled == plain_compile(line@, true));
                let prev = if mid.sections.contains_key(mid.position) {
                    mid.sections[mid.position]
                } else {
                    Seq::<ActionV>::empty()
                };
                assert(prev + (compiled + mid.endline) =~= prev + compiled + mid.endline);
            }
        }
        Ok(())
    }

    /// Combines neighbouring actions over the sections reachable from `.run`
    /// (see `walk_step`); the result says whether anything changed.
    pub fn opcombine(&mut self) -> (res: Result<bool, String>)
        requires
            old(self).wf(),
        ensures
            final(self).wf(),
            final(self).same_handlers(*old(self)),
            final(self)@ == (AstV { sections: final(self)@.sections, ..old(self)@ }),
            exists|k: nat|
                walk_run(walk_start(old(self)@.sections), k).done == Some(result_view(res)) && #[trigger] walk_run(
                    walk_start(old(self)@.sections),
                    k,
                ).table == final(self)@.sections,
    {
        opcombine_table(&mut self.sections)
    }

    /// Removes empty sections and merges sections that are jumped to only
    /// once, one at a time, until none can go (see `reduction`); the result
    /// says whether anything changed.
    pub fn jumpreduce(&mut self) -> (res: Result<bool, String>)
        requires
            old(self).wf(),
        ensures
            final(self).wf(),
            final(self).same_handlers(*old(self)),
            final(self)@ == (AstV { sections: final(self)@.sections, ..old(self)@ }),
            run_empty(old(self)@.sections) ==> res == Ok::<bool, String>(false) && final(self)@ == old(self)@,
            !run_empty(old(self)@.sections) && !reached_present(old(self)@.sections) ==> final(self)@ == old(self)@
                && exists|k: SectionType|
                #[trigger] reached(old(self)@.sections, k) && !old(self)@.sections.contains_key(k) && (res matches Err(
                    e,
                ) && e@ == "Section not found: "@ + section_debug(k)),
            !run_empty(old(self)@.sections) && reached_present(old(self)@.sections) ==> (reduction(
                old(self)@.sections,
            ) matches Some(t2) && res == Ok::<bool, String>(first_removable(old(self)@.sections) is Some)
                && final(self)@.sections == t2),
    {
        jumpreduce_table(&mut self.sections)
    }

    /// Combines actions (see `walk_step`), then removes and merges sections
    /// in the combined table (see `reduction`).
    pub fn optimize(&mut self) -> (res: Result<(), String>)
        requires
            old(self).wf(),
        ensures
            final(self).wf(),
            final(self).same_handlers(*old(self)),
            final(self)@ == (AstV { sections: final(self)@.sections, ..old(self)@ }),
            (exists|k: nat| #[trigger] walk_run(walk_start(old(self)@.sections), k).done matches Some(Err(_)))
                ==> res is Err,
            res is Ok ==> exists|k: nat|
                (#[trigger] walk_run(walk_start(old(self)@.sections), k).done matches Some(Ok(_))) && if run_empty(
                    walk_run(walk_start(old(self)@.sections), k).table,
                ) {
                    final(self)@.sections == walk_run(walk_start(old(self)@.sections), k).table
                } else {
                    reduction(walk_run(walk_start(old(self)@.sections), k).table) == Some(final(self)@.sections)
                },
            (exists|k: nat|
                (#[trigger] walk_run(walk_start(old(self)@.sections), k).done matches Some(Ok(_))) && reached_present(
                    walk_run(walk_start(old(self)@.sections), k).table,
                )) ==> res is Ok,
    {
        let ghost start = self@;
        let ghost s0 = walk_start(start.sections);
        let c = match self.opcombine() {
            Err(e) => {
                proof {
                    if exists|k: nat|
                        (#[trigger] walk_run(s0, k).done matches Some(Ok(_))) && reached_present(walk_run(s0, k).table) {
                        let k2 = choose|k: nat|
                            (#[trigger] walk_run(s0, k).done matches Some(Ok(_))) && reached_present(
                                walk_run(s0, k).table,
                            );
                        let k1 = choose|k: nat|
                            walk_run(s0, k).done == Some(result_view(Err::<bool, String>(e))) && #[trigger] walk_run(
                                s0,
                                k,
                            ).table == self@.sections;
                        if k1 <= k2 {
                            lemma_walk_done_stable(s0, k1, k2);
                        } else {
                            lemma_walk_done_stable(s0, k2, k1);
                        }
                    }
                }
                return Err(e);
            },
            Ok(c) => c,
        };
        let ghost mid = self@;
        let ghost k1 = choose|k: nat|
            walk_run(s0, k).done == Some(result_view(Ok::<bool, String>(c))) && #[trigger] walk_run(s0, k).table
                == mid.sections;
        proof {
            assert forall|k: nat| !(#[trigger] walk_run(s0, k).done matches Some(Err(_))) by {
                if k <= k1 {
                    if walk_run(s0, k).done is Some {
                        lemma_walk_done_stable(s0, k, k1);
                    }
                } else {
                    lemma_walk_done_stable(s0, k1, k);
                }
            }
            assert forall|k: nat|
                (#[trigger] walk_run(s0, k).done matches Some(Ok(_))) implies walk_run(s0, k).table == mid.sections by {
                if k1 <= k {
                    lemma_walk_done_stable(s0, k1, k);
                } else {
                    lemma_walk_done_stable(s0, k, k1);
                }
            }
        }
        match self.jumpreduce() {
            Err(e) => return Err(e),
            Ok(_) => {},
        }
        proof {
            assert(walk_run(s0, k1).done matches Some(Ok(_)));
        }
        Ok(())
    }

    /// Starts a run of the compiled sections at `.run`; no block may be open.
    pub fn evaluate(&mut self) -> (res: Result<Runner, String>)
        requires
            old(self).wf(),
        ensures
            final(self).wf(),
            final(self).same_handlers(*old(self)),
            old(self)@.blocks.len() > 0 ==> (res matches Err(e) && e@ == "Tried to evaluate while in block"@)
                && final(self)@ == old(self)@,
            old(self)@.blocks.len() == 0 ==> (res matches Ok(r) && r@ == start_state()) && final(self)@ == (AstV {
                position: SectionType::Run,
                ..old(self)@
            }),
    {
        if self.in_block() {
            return Err(text("Tried to evaluate while in block"));
        }
        self.position = SectionType::Run;
        Ok(Runner::new())
    }
}

/// The handler that the standard set gives to `w`, if any.
pub open spec fn standard_handler(w: Seq<char>) -> Option<Handler> {
    if w == "="@ {
        Some(Handler::Equal)
    } else if w == "=="@ {
        Some(Handler::EqualEqual)
    } else if w == "~="@ {
        Some(Handler::TildaEqual)
    } else if w == "."@ {
        Some(Handler::Dot)
    } else if w == "&;"@ {
        Some(Handler::SemiAmper)
    } else if w == "&"@ {
        Some(Handler::Amper)
    } else if w == "&&"@ {
        Some(Handler::AmperAmper)
    } else if w == "|"@ {
        Some(Handler::Bar)
    } else if w == ">"@ {
        Some(Handler::Geq)
    } else if w == "<"@ {
        Some(Handler::Leq)
    } else if w == "act!"@ {
        Some(Handler::Act)
    } else if w == "if!"@ {
        Some(Handler::If)
    } else if w == "elif!"@ {
        Some(Handler::Elif)
    } else if w == "else!"@ {
        Some(Handler::Else)
    } else if w == "while!"@ {
        Some(Handler::While)
    } else if w == "func!"@ {
        Some(Handler::Func)
    } else if w == "}"@ {
        Some(Handler::EndBlock)
    } else {
        None
    }
}

/// Gives the compiler its standard handler words.
#[verifier::rlimit(80)]
#[verifier::spinoff_prover]
pub fn load_handlers(ast: &mut AST)
    requires
        old(ast).wf(),
    ensures
        final(ast).wf(),
        final(ast)@ == old(ast)@,
        forall|w: Seq<char>|
            #[trigger] final(ast).handler_of(w) == (if standard_handler(w) is Some {
                standard_handler(w)
            } else {
                old(ast).handler_of(w)
            }),
        forall|w: Seq<char>|
            #[trigger] final(ast).handler_words().contains(w) == (standard_handler(w) is Some || old(
                ast,
            ).handler_words().contains(w)),
{
    proof {
        reveal_strlit("=");
        reveal_strlit("==");
        reveal_strlit("~=");
        reveal_strlit(".");
        reveal_strlit("&;");
        reveal_strlit("&");
        reveal_strlit("&&");
        reveal_strlit("|");
        reveal_strlit(">");
        reveal_strlit("<");
        reveal_strlit("act!");
        reveal_strlit("if!");
        reveal_strlit("elif!");
        reveal_strlit("else!");
        reveal_strlit("while!");
        reveal_strlit("func!");
        reveal_strlit("}");
    }
    let ghost s0 = *ast;
    ast.add_handler("=", Handler::Equal);
    let ghost s1 = *ast;
    ast.add_handler("==", Handler::EqualEqual);
    let ghost s2 = *ast;
    ast.add_handler("~=", Handler::TildaEqual);
    let ghost s3 = *ast;
    ast.add_handler(".", Handler::Dot);
    let ghost s4 = *ast;
    ast.add_handler("&;", Handler::SemiAmper);
    let ghost s5 = *ast;
    ast.add_handler("&", Handler::Amper);
    let ghost s6 = *ast;
    ast.add_handler("&&", Handler::AmperAmper);
    let ghost s7 = *ast;
    ast.add_handler("|", Handler::Bar);
    let ghost s8 = *ast;
    ast.add_handler(">", Handler::Geq);
    let ghost s9 = *ast;
    ast.add_handler("<", Handler::Leq);
    let ghost s10 = *ast;
    ast.add_handler("act!", Handler::Act);
    let ghost s11 = *ast;
    ast.add_handler("if!", Handler::If);
    let ghost s12 = *ast;
    ast.add_handler("elif!", Handler::Elif);
    let ghost s13 = *ast;
    ast.add_handler("else!", Handler::Else);
    let ghost s14 = *ast;
    ast.add_handler("while!", Handler::While);
    let ghost s15 = *ast;
    ast.add_handler("func!", Handler::Func);
    let ghost s16 = *ast;
    ast.add_handler("}", Handler::EndBlock);
    let ghost s17 = *ast;
    proof {
        assert forall|w: Seq<char>|
            #[trigger] ast.handler_of(w) == (if standard_handler(w) is Some {
                standard_handler(w)
            } else {
                s0.handler_of(w)
            }) by {
            if w == "}"@ {
                assert(w[0] != "="@[0]);
                assert(w != "="@);
                assert(w[0] != "=="@[0]);
                assert(w != "=="@);
                assert(w[0] != "~="@[0]);
                assert(w != "~="@);
                assert(w[0] != "."@[0]);
                assert(w != "."@);
                assert(w[0] != "&;"@[0]);
                assert(w != "&;"@);
                assert(w[0] != "&"@[0]);
                assert(w != "&"@);
                assert(w[0] != "&&"@[0]);
                assert(w != "&&"@);
                assert(w[0] != "|"@[0]);
                assert(w != "|"@);
                assert(w[0] != ">"@[0]);
                assert(w != ">"@);
                assert(w[0] != "<"@[0]);
                assert(w != "<"@);
                assert(w[0] != "act!"@[0]);
                assert(w != "act!"@);
                assert(w[0] != "if!"@[0]);
                assert(w != "if!"@);
                assert(w[0] != "elif!"@[0]);
                assert(w != "elif!"@);
                assert(w[0] != "else!"@[0]);
                assert(w != "else!"@);
                assert(w[0] != "while!"@[0]);
                assert(w != "while!"@);
                assert(w[0] != "func!"@[0]);
                assert(w != "func!"@);
                assert(standard_handler(w) == Some(Handler::EndBlock));
            } else {
                assert(s17.handler_of(w) == s16.handler_of(w));
                if w == "func!"@ {
                    assert(w[0] != "="@[0]);
                    assert(w != "="@);
                    assert(w[0] != "=="@[0]);
                    assert(w != "=="@);
                    assert(w[0] != "~="@[0]);
                    assert(w != "~="@);
                    assert(w[0] != "."@[0]);
                    assert(w != "."@);
                    assert(w[0] != "&;"@[0]);
                    assert(w != "&;"@);
                    assert(w[0] != "&"@[0]);
                    assert(w != "&"@);
                    assert(w[0] != "&&"@[0]);
                    assert(w != "&&"@);
                    assert(w[0] != "|"@[0]);
                    assert(w != "|"@);
                    assert(w[0] != ">"@[0]);
                    assert(w != ">"@);
                    assert(w[0] != "<"@[0]);
                    assert(w != "<"@);
                    assert(w[0] != "act!"@[0]);
                    assert(w != "act!"@);
                    assert(w[0] != "if!"@[0]);
                    assert(w != "if!"@);
                    assert(w[0] != "elif!"@[0]);
                    assert(w != "elif!"@);
                    assert(w[0] != "else!"@[0]);
                    assert(w != "else!"@);
                    assert(w[0] != "while!"@[0]);
                    assert(w != "while!"@);
                    assert(standard_handler(w) == Some(Handler::Func));
                } else {
                    assert(s16.handler_of(w) == s15.handler_of(w));
                    if w == "while!"@ {
                        assert(w[0] != "="@[0]);
                        assert(w != "="@);
                        assert(w[0] != "=="@[0]);
                        assert(w != "=="@);
                        assert(w[0] != "~="@[0]);
                        assert(w != "~="@);
                        assert(w[0] != "."@[0]);
                        assert(w != "."@);
                        assert(w[0] != "&;"@[0]);
                        assert(w != "&;"@);
                        assert(w[0] != "&"@[0]);
                        assert(w != "&"@);
                        assert(w[0] != "&&"@[0]);
                        assert(w != "&&"@);
                        assert(w[0] != "|"@[0]);
                        assert(w != "|"@);
                        assert(w[0] != ">"@[0]);
                        assert(w != ">"@);
                        assert(w[0] != "<"@[0]);
                        assert(w != "<"@);
                        assert(w[0] != "act!"@[0]);
                        assert(w != "act!"@);
                        assert(w[0] != "if!"@[0]);
                        assert(w != "if!"@);
                        assert(w[0] != "elif!"@[0]);
                        assert(w != "elif!"@);
                        assert(w[0] != "else!"@[0]);
                        assert(w != "else!"@);
                        assert(standard_handler(w) == Some(Handler::While));
                    } else {
                        assert(s15.handler_of(w) == s14.handler_of(w));
                        if w == "else!"@ {
                            assert(w[0] != "="@[0]);
                            assert(w != "="@);
                            assert(w[0] != "=="@[0]);
                            assert(w != "=="@);
                            assert(w[0] != "~="@[0]);
                            assert(w != "~="@);
                            assert(w[0] != "."@[0]);
                            assert(w != "."@);
                            assert(w[0] != "&;"@[0]);
                            assert(w != "&;"@);
                            assert(w[0] != "&"@[0]);
                            assert(w != "&"@);
                            assert(w[0] != "&&"@[0]);
                            assert(w != "&&"@);
                            assert(w[0] != "|"@[0]);
                            assert(w != "|"@);
                            assert(w[0] != ">"@[0]);
                            assert(w != ">"@);
                            assert(w[0] != "<"@[0]);
                            assert(w != "<"@);
                            assert(w[0] != "act!"@[0]);
                            assert(w != "act!"@);
                            assert(w[0] != "if!"@[0]);
                            assert(w != "if!"@);
                            assert(w[2] != "elif!"@[2]);
                            assert(w != "elif!"@);
                            assert(standard_handler(w) == Some(Handler::Else));
                        } else {
                            assert(s14.handler_of(w) == s13.handler_of(w));
                            if w == "elif!"@ {
                                assert(w[0] != "="@[0]);
                                assert(w != "="@);
                                assert(w[0] != "=="@[0]);
                                assert(w != "=="@);
                                assert(w[0] != "~="@[0]);
                                assert(w != "~="@);
                                assert(w[0] != "."@[0]);
                                assert(w != "."@);
                                assert(w[0] != "&;"@[0]);
                                assert(w != "&;"@);
                                assert(w[0] != "&"@[0]);
                                assert(w != "&"@);
                                assert(w[0] != "&&"@[0]);
                                assert(w != "&&"@);
                                assert(w[0] != "|"@[0]);
                                assert(w != "|"@);
                                assert(w[0] != ">"@[0]);
                                assert(w != ">"@);
                                assert(w[0] != "<"@[0]);
                                assert(w != "<"@);
                                assert(w[0] != "act!"@[0]);
                                assert(w != "act!"@);
                                assert(w[0] != "if!"@[0]);
                                assert(w != "if!"@);
                                assert(standard_handler(w) == Some(Handler::Elif));
                            } else {
                                assert(s13.handler_of(w) == s12.handler_of(w));
                                if w == "if!"@ {
                                    assert(w[0] != "="@[0]);
                                    assert(w != "="@);
                                    assert(w[0] != "=="@[0]);
                                    assert(w != "=="@);
                                    assert(w[0] != "~="@[0]);
                                    assert(w != "~="@);
                                    assert(w[0] != "."@[0]);
                                    assert(w != "."@);
                                    assert(w[0] != "&;"@[0]);
                                    assert(w != "&;"@);
                                    assert(w[0] != "&"@[0]);
                                    assert(w != "&"@);
                                    assert(w[0] != "&&"@[0]);
                                    assert(w != "&&"@);
                                    assert(w[0] != "|"@[0]);
                                    assert(w != "|"@);
                                    assert(w[0] != ">"@[0]);
                                    assert(w != ">"@);
                                    assert(w[0] != "<"@[0]);
                                    assert(w != "<"@);
                                    assert(w[0] != "act!"@[0]);
                                    assert(w != "act!"@);
                                    assert(standard_handler(w) == Some(Handler::If));
                                } else {
                                    assert(s12.handler_of(w) == s11.handler_of(w));
                                    if w == "act!"@ {
                                        assert(w[0] != "="@[0]);
                                        assert(w != "="@);
                                        assert(w[0] != "=="@[0]);
                                        assert(w != "=="@);
                                        assert(w[0] != "~="@[0]);
                                        assert(w != "~="@);
                                        assert(w[0] != "."@[0]);
                                        assert(w != "."@);
                                        assert(w[0] != "&;"@[0]);
                                        assert(w != "&;"@);
                                        assert(w[0] != "&"@[0]);
                                        assert(w != "&"@);
                                        assert(w[0] != "&&"@[0]);
                                        assert(w != "&&"@);
                                        assert(w[0] != "|"@[0]);
                                        assert(w != "|"@);
                                        assert(w[0] != ">"@[0]);
                                        assert(w != ">"@);
                                        assert(w[0] != "<"@[0]);
                                        assert(w != "<"@);
                                        assert(standard_handler(w) == Some(Handler::Act));
                                    } else {
                                        assert(s11.handler_of(w) == s10.handler_of(w));
                                        if w == "<"@ {
                                            assert(w[0] != "="@[0]);
                                            assert(w != "="@);
                                            assert(w[0] != "=="@[0]);
                                            assert(w != "=="@);
                                            assert(w[0] != "~="@[0]);
                                            assert(w != "~="@);
                                            assert(w[0] != "."@[0]);
                                            assert(w != "."@);
                                            assert(w[0] != "&;"@[0]);
                                            assert(w != "&;"@);
                                            assert(w[0] != "&"@[0]);
                                            assert(w != "&"@);
                                            assert(w[0] != "&&"@[0]);
                                            assert(w != "&&"@);
                                            assert(w[0] != "|"@[0]);
                                            assert(w != "|"@);
                                            assert(w[0] != ">"@[0]);
                                            assert(w != ">"@);
                                            assert(standard_handler(w) == Some(Handler::Leq));
                                        } else {
                                            assert(s10.handler_of(w) == s9.handler_of(w));
                                            if w == ">"@ {
                                                assert(w[0] != "="@[0]);
                                                assert(w != "="@);
                                                assert(w[0] != "=="@[0]);
                                                assert(w != "=="@);
                                                assert(w[0] != "~="@[0]);
                                                assert(w != "~="@);
                                                assert(w[0] != "."@[0]);
                                                assert(w != "."@);
                                                assert(w[0] != "&;"@[0]);
                                                assert(w != "&;"@);
                                                assert(w[0] != "&"@[0]);
                                                assert(w != "&"@);
                                                assert(w[0] != "&&"@[0]);
                                                assert(w != "&&"@);
                                                assert(w[0] != "|"@[0]);
                                                assert(w != "|"@);
                                                assert(standard_handler(w) == Some(Handler::Geq));
                                            } else {
                                                assert(s9.handler_of(w) == s8.handler_of(w));
                                                if w == "|"@ {
                                                    assert(w[0] != "="@[0]);
                                                    assert(w != "="@);
                                                    assert(w[0] != "=="@[0]);
                                                    assert(w != "=="@);
                                                    assert(w[0] != "~="@[0]);
                                                    assert(w != "~="@);
                                                    assert(w[0] != "."@[0]);
                                                    assert(w != "."@);
                                                    assert(w[0] != "&;"@[0]);
                                                    assert(w != "&;"@);
                                                    assert(w[0] != "&"@[0]);
                                                    assert(w != "&"@);
                                                    assert(w[0] != "&&"@[0]);
                                                    assert(w != "&&"@);
                                                    assert(standard_handler(w) == Some(Handler::Bar));
                                                } else {
                                                    assert(s8.handler_of(w) == s7.handler_of(w));
                                                    if w == "&&"@ {
                                                        assert(w[0] != "="@[0]);
                                                        assert(w != "="@);
                                                        assert(w[0] != "=="@[0]);
                                                        assert(w != "=="@);
                                                        assert(w[0] != "~="@[0]);
                                                        assert(w != "~="@);
                                                        assert(w[0] != "."@[0]);
                                                        assert(w != "."@);
                                                        assert(w[1] != "&;"@[1]);
                                                        assert(w != "&;"@);
                                                        assert(w.len() == 2 && "&"@.len() == 1);
                                                        assert(w != "&"@);
                                                        assert(standard_handler(w) == Some(Handler::AmperAmper));
                                                    } else {
                                                        assert(s7.handler_of(w) == s6.handler_of(w));
                                                        if w == "&"@ {
                                                            assert(w[0] != "="@[0]);
                                                            assert(w != "="@);
                                                            assert(w[0] != "=="@[0]);
                                                            assert(w != "=="@);
                                                            assert(w[0] != "~="@[0]);
                                                            assert(w != "~="@);
                                                            assert(w[0] != "."@[0]);
                                                            assert(w != "."@);
                                                            assert(w.len() == 1 && "&;"@.len() == 2);
                                                            assert(w != "&;"@);
                                                            assert(standard_handler(w) == Some(Handler::Amper));
                                                        } else {
                                                            assert(s6.handler_of(w) == s5.handler_of(w));
                                                            if w == "&;"@ {
                                                                assert(w[0] != "="@[0]);
                                                                assert(w != "="@);
                                                                assert(w[0] != "=="@[0]);
                                                                assert(w != "=="@);
                                                                assert(w[0] != "~="@[0]);
                                                                assert(w != "~="@);
                                                                assert(w[0] != "."@[0]);
                                                                assert(w != "."@);
                                                                assert(standard_handler(w) == Some(Handler::SemiAmper));
                                                            } else {
                                                                assert(s5.handler_of(w) == s4.handler_of(w));
                                                                if w == "."@ {
                                                                    assert(w[0] != "="@[0]);
                                                                    assert(w != "="@);
                                                                    assert(w[0] != "=="@[0]);
                                                                    assert(w != "=="@);
                                                                    assert(w[0] != "~="@[0]);
                                                                    assert(w != "~="@);
                                                                    assert(standard_handler(w) == Some(Handler::Dot));
                                                                } else {
                                                                    assert(s4.handler_of(w) == s3.handler_of(w));
                                                                    if w == "~="@ {
                                                                        assert(w[0] != "="@[0]);
                                                                        assert(w != "="@);
                                                                        assert(w[0] != "=="@[0]);
                                                                        assert(w != "=="@);
                                                                        assert(standard_handler(w) == Some(Handler::TildaEqual));
                                                                    } else {
                                                                        assert(s3.handler_of(w) == s2.handler_of(w));
                                                                        if w == "=="@ {
                                                                            assert(w.len() == 2 && "="@.len() == 1);
                                                                            assert(w != "="@);
                                                                            assert(standard_handler(w) == Some(Handler::EqualEqual));
                                                                        } else {
                                                                            assert(s2.handler_of(w) == s1.handler_of(w));
                                                                            if w == "="@ {
                                                                                assert(standard_handler(w) == Some(Handler::Equal));
                                                                            } else {
                                                                                assert(s1.handler_of(w) == s0.handler_of(w));
                                                                            }
                                                                        }
                                                                    }
                                                                }
                                                            }
                                                        }
                                                    }
                                                }
                                            }
                                        }
                                    }
                                }
                            }
                        }
                    }
                }
            }
        }
    }
}

/// The actions of a bare word that is not a handler word.
fn short_line_actions(s: &String, run: bool) -> (res: Vec<Action>)
    ensures
        actions_view(res@) == short_actions(s@, run),
{
    let mut out: Vec<Action> = Vec::new();
    match parse_var(s.as_str()) {
        VarRef::PathName(path, name) => {
            if name.as_str().is_empty() {
                if path.as_str().is_empty() {
                    push_action(&mut out, Action::Assign(WashArgs::Empty));
                } else {
                    push_action(&mut out, Action::Assign(WashArgs::Flat(path)));
                }
                push_action(&mut out, call_action("getall"));
                if run {
                    push_action(&mut out, call_action("flatten_eqlist"));
                }
            } else {
                push_action(&mut out, Action::Assign(WashArgs::Flat(s.clone())));
                push_action(&mut out, Action::Load);
            }
        },
        VarRef::Name(_) => {
            push_action(&mut out, Action::Assign(WashArgs::Flat(s.clone())));
            push_action(&mut out, Action::Load);
        },
        VarRef::NotVar => {
            push_action(&mut out, Action::Assign(WashArgs::Flat(s.clone())));
            if run {
                push_action(&mut out, call_action("run"));
                push_action(&mut out, call_action("describe_process_output"));
            }
        },
    }
    proof {
        assert(actions_view(out@) =~= short_actions(s@, run));
    }
    out
}

/// The items of `v` in a double-ended queue.
fn deque_of(v: &Vec<InputValue>) -> (res: VecDeque<InputValue>)
    ensures
        input_views(res@) == input_views(v@),
        res@.len() == v@.len(),
{
    let mut out: VecDeque<InputValue> = VecDeque::new();
    let mut i: usize = 0;
    while i < v.len()
        invariant
            i <= v.len(),
            out@.len() == i,
            input_views(out@) == input_views(v@).subrange(0, i as int),
        decreases v.len() - i,
    {
        let item = input_clone(&v[i]);
        proof {
            lemma_input_views_index(v@, i as int);
        }
        let ghost before = out@;
        out.push_back(item);
        proof {
            lemma_input_views_push(before, item);
            assert(input_views(out@) =~= input_views(v@).subrange(0, i + 1));
        }
        i = i + 1;
    }
    proof {
        assert(input_views(v@).subrange(0, v.len() as int) =~= input_views(v@));
    }
    out
}

/// Whether two lists of section names are the same.
fn blocks_eq(a: &Vec<SectionType>, b: &Vec<SectionType>) -> (res: bool)
    ensures
        res == (a@ == b@),
{
    if a.len() != b.len() {
        return false;
    }
    let mut i: usize = 0;
    while i < a.len()
        invariant
            i <= a.len(),
            a.len() == b.len(),
            forall|j: int| 0 <= j < i ==> a@[j] == b@[j],
        decreases a.len() - i,
    {
        if a[i] != b[i] {
            return false;
        }
        i = i + 1;
    }
    proof {
        assert(a@ =~= b@);
    }
    true
}

} // verus!
