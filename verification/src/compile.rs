use vstd::prelude::*;

use crate::ast::{AstV, Handler, count_tail, input_size, input_sizes, lemma_sizes_index, short_actions};
use crate::types::{ActionV, ArgsV, HandlerResult, InputV, SectionType};
use crate::builtins::{builtin_answer, first_colon, lemma_builtin_names_differ};
use crate::editor::digits_value;
use crate::launch::{StreamsV, all_digits, fd_word, job_args_spec, set_stream};
use crate::runner::{EventV, RunV, action_step, apply_reply};

verus! {

// ---------------------------------------------------------------------
// The compiler's state changes, as the methods of `AST` make them.
// ---------------------------------------------------------------------

/// The actions of section `k`, or none.
pub open spec fn sec_get(a: AstV, k: SectionType) -> Seq<ActionV> {
    if a.sections.contains_key(k) {
        a.sections[k]
    } else {
        seq![]
    }
}

/// `acts` added at the end of the current section.
pub open spec fn sp_append_current(a: AstV, acts: Seq<ActionV>) -> AstV {
    AstV { sections: a.sections.insert(a.position, sec_get(a, a.position) + acts), ..a }
}

/// `act` added at the end of the current section.
pub open spec fn sp_push_current(a: AstV, act: ActionV) -> AstV {
    AstV { sections: a.sections.insert(a.position, sec_get(a, a.position).push(act)), ..a }
}

/// Moving into section `k`, which is created if needed.
pub open spec fn sp_move_to(a: AstV, k: SectionType) -> AstV {
    AstV {
        sections: if a.sections.contains_key(k) {
            a.sections
        } else {
            a.sections.insert(k, seq![])
        },
        position: k,
        ..a
    }
}

/// Opening the next numbered section and moving into it.
pub open spec fn sp_new_section(a: AstV) -> AstV {
    AstV {
        extra_section: (a.extra_section + 1) as usize,
        ..sp_move_to(a, SectionType::Number(a.extra_section))
    }
}

/// The number of the current section (0 for `.run` and `.load`).
pub open spec fn current_number(a: AstV) -> usize {
    match a.position {
        SectionType::Number(n) => n,
        _ => 0,
    }
}

/// Whether three more sections can be opened.
pub open spec fn has_room(a: AstV) -> bool {
    a.extra_section < usize::MAX - 3
}

/// Removing the last action of the current section, if it has one.
pub open spec fn sp_pop_current(a: AstV) -> (AstV, Option<ActionV>) {
    let s = sec_get(a, a.position);
    if a.sections.contains_key(a.position) && s.len() > 0 {
        (AstV { sections: a.sections.insert(a.position, s.drop_last()), ..a }, Some(s.last()))
    } else {
        (a, None)
    }
}

/// Closing the innermost block (see `AST::end_block`).
pub open spec fn sp_end_block(a: AstV) -> (AstV, Result<(), Seq<char>>) {
    if a.blocks.len() == 0 {
        (a, Err("No block to end"@))
    } else {
        let a1 = AstV { blocks: a.blocks.drop_last(), ..a };
        match a.blocks.last() {
            SectionType::Number(n) => {
                let a2 = if a.sec_loop {
                    AstV { sec_loop: false, ..sp_push_current(a1, ActionV::Jump(current_number(a1))) }
                } else {
                    sp_push_current(a1, ActionV::Jump(n))
                };
                (sp_move_to(a2, SectionType::Number(n)), Ok(()))
            },
            k => (sp_move_to(a1, k), Ok(())),
        }
    }
}

// ---------------------------------------------------------------------
// Taking values off the rest of a line.
// ---------------------------------------------------------------------

/// The next value and what is left: a separator followed by something is passed over.
pub open spec fn take_value_spec(c: Seq<InputV>) -> (InputV, Seq<InputV>) {
    let first = c[0];
    let rest = c.subrange(1, c.len() as int);
    if first is Split && rest.len() > 0 {
        (rest[0], rest.subrange(1, rest.len() as int))
    } else {
        (first, rest)
    }
}

/// The rest of a line without the separators at its front.
pub open spec fn skip_splits_spec(c: Seq<InputV>) -> Seq<InputV>
    decreases c.len(),
{
    if c.len() > 0 && c[0] is Split {
        skip_splits_spec(c.subrange(1, c.len() as int))
    } else {
        c
    }
}

/// The values up to an opening brace, and what follows the brace.
pub open spec fn until_brace_spec(c: Seq<InputV>) -> (Seq<InputV>, Seq<InputV>)
    decreases c.len(),
{
    if c.len() == 0 {
        (seq![], seq![])
    } else if c[0] == InputV::Short("{"@) {
        (seq![], c.subrange(1, c.len() as int))
    } else {
        let (v, r) = until_brace_spec(c.subrange(1, c.len() as int));
        (seq![c[0]] + v, r)
    }
}

pub proof fn lemma_take_value_size(c: Seq<InputV>)
    requires
        c.len() > 0,
    ensures
        input_size(take_value_spec(c).0) + input_sizes(take_value_spec(c).1) <= input_sizes(c),
{
    let rest = c.subrange(1, c.len() as int);
    assert(input_sizes(c) == input_size(c[0]) + input_sizes(rest));
    if c[0] is Split && rest.len() > 0 {
        assert(input_sizes(rest) == input_size(rest[0]) + input_sizes(rest.subrange(1, rest.len() as int)));
    }
}

pub proof fn lemma_skip_splits_size(c: Seq<InputV>)
    ensures
        input_sizes(skip_splits_spec(c)) <= input_sizes(c),
    decreases c.len(),
{
    if c.len() > 0 && c[0] is Split {
        lemma_skip_splits_size(c.subrange(1, c.len() as int));
    }
}

pub proof fn lemma_until_brace_size(c: Seq<InputV>)
    ensures
        input_sizes(until_brace_spec(c).0) + input_sizes(until_brace_spec(c).1) <= input_sizes(c),
    decreases c.len(),
{
    if c.len() > 0 {
        let t = c.subrange(1, c.len() as int);
        lemma_until_brace_size(t);
        if c[0] != InputV::Short("{"@) {
            let (v, r) = until_brace_spec(t);
            assert((seq![c[0]] + v)[0] == c[0]);
            assert((seq![c[0]] + v).subrange(1, (seq![c[0]] + v).len() as int) =~= v);
        }
    }
}

// ---------------------------------------------------------------------
// The compiler.
// ---------------------------------------------------------------------

/// What a handler works on: the compiler, the rest of the line, how many
/// values the line has left on the stack, and the actions so far.
pub struct HState {
    pub ast: AstV,
    pub contents: Seq<InputV>,
    pub count: nat,
    pub out: Seq<ActionV>,
}

pub open spec fn hs(ast: AstV, contents: Seq<InputV>, count: nat, out: Seq<ActionV>) -> HState {
    HState { ast, contents, count, out }
}

/// The outcome of a handler.
pub type HResult = Result<HandlerResult, Seq<char>>;

/// The outcome of compiling.
pub type CResult = Result<Seq<ActionV>, Seq<char>>;

/// The effect of the actions that drop a variable named just before
/// `=` from the stack: a `Load Temp` at the end becomes `Temp`.
pub open spec fn equal_out(out: Seq<ActionV>) -> Seq<ActionV> {
    if out.len() >= 2 && out.last() == ActionV::Temp && out[out.len() - 2] == ActionV::Load {
        out.drop_last().drop_last().push(ActionV::Temp)
    } else {
        out
    }
}

/// The value of `$name = value`: the next value of the line, compiled,
/// with the compiler and the rest of the line after it.
pub open spec fn equal_value_spec(hm: Map<Seq<char>, Handler>, a: AstV, c: Seq<InputV>) -> (
    AstV,
    Seq<InputV>,
    CResult,
)
    decreases 4 + input_sizes(c), 0nat,
{
    if c.len() == 0 {
        (a, c, Ok(seq![ActionV::Assign(ArgsV::Empty)]))
    } else {
        let (value, c1) = take_value_spec(c);
        proof {
            lemma_take_value_size(c);
        }
        let (a2, r) = process_spec(hm, a, value, false);
        (a2, c1, match r {
            Err(e) => Err(e),
            Ok(acl) => Ok(
                if acl.len() == 0 {
                    seq![ActionV::Assign(ArgsV::Empty)]
                } else {
                    acl
                },
            ),
        })
    }
}

/// `$name = value`.
pub open spec fn handle_equal_spec(hm: Map<Seq<char>, Handler>, st: HState) -> (HState, HResult)
    decreases 4 + input_sizes(st.contents), 1nat,
{
    let out1 = equal_out(st.out);
    let (a2, c1, value_acts) = equal_value_spec(hm, st.ast, st.contents);
    match value_acts {
        Err(e) => (hs(a2, c1, st.count, out1), Err(e)),
        Ok(newacs) => {
            let c2 = skip_splits_spec(c1);
            let (out2, a3) = if c2.len() != 0 {
                (
                    out1 + seq![ActionV::ReInsert, ActionV::Top, ActionV::Load, ActionV::Swap, ActionV::Temp],
                    AstV { endline: a2.endline.push(ActionV::Pull).push(ActionV::Store), ..a2 },
                )
            } else {
                (out1, a2)
            };
            let out3 = out2 + newacs.push(ActionV::Store);
            if st.count == 0 {
                (hs(a3, c2, 0, out3), Err("Nothing to assign to"@))
            } else {
                (hs(a3, c2, (st.count - 1) as nat, out3), Ok(HandlerResult::Continue))
            }
        },
    }
}

/// Both sides of a comparison gathered on the stack.
pub open spec fn equalequal_inner_spec(hm: Map<Seq<char>, Handler>, st: HState) -> (HState, HResult)
    decreases 4 + input_sizes(st.contents), 0nat,
{
    let out1 = if st.count > 1 {
        st.out + seq![ActionV::Join(st.count as usize), ActionV::Temp]
    } else {
        st.out
    };
    if st.contents.len() == 0 {
        (
            hs(st.ast, st.contents, 0, out1 + seq![ActionV::Insert(ArgsV::Empty), ActionV::Join(2)]),
            Ok(HandlerResult::Continue),
        )
    } else {
        let c1 = skip_splits_spec(st.contents);
        proof {
            lemma_skip_splits_size(st.contents);
        }
        if c1.len() > 1 {
            let (a2, r) = process_spec(hm, st.ast, InputV::Long(c1), false);
            match r {
                Err(e) => (hs(a2, seq![], st.count, out1), Err(e)),
                Ok(acl) => (
                    hs(a2, seq![], 0, out1 + acl + seq![ActionV::Temp, ActionV::Join(2)]),
                    Ok(HandlerResult::Continue),
                ),
            }
        } else if c1.len() == 1 {
            proof {
                lemma_sizes_index(c1, 0);
            }
            let (a2, r) = process_spec(hm, st.ast, c1[0], false);
            match r {
                Err(e) => (hs(a2, c1, st.count, out1), Err(e)),
                Ok(acl) => (
                    hs(a2, c1, 0, out1 + acl + seq![ActionV::Temp, ActionV::Join(2)]),
                    Ok(HandlerResult::Continue),
                ),
            }
        } else {
            (hs(st.ast, c1, st.count, out1), Err("Nothing to compare with"@))
        }
    }
}

/// A comparison `a == b` (`re` false) or `a ~= b` (`re` true).
pub open spec fn handle_compare_spec(hm: Map<Seq<char>, Handler>, st: HState, re: bool) -> (HState, HResult)
    decreases 4 + input_sizes(st.contents), 1nat,
{
    let (st2, r) = equalequal_inner_spec(hm, st);
    match r {
        Err(e) => (st2, Err(e)),
        Ok(_) => (
            HState {
                out: st2.out.push(
                    ActionV::Call(
                        if re {
                            "re_equal?"@
                        } else {
                            "equal?"@
                        },
                    ),
                ),
                ..st2
            },
            Ok(HandlerResult::Stop),
        ),
    }
}

/// `a . b`.
pub open spec fn handle_dot_spec(hm: Map<Seq<char>, Handler>, st: HState) -> (HState, HResult)
    decreases 4 + input_sizes(st.contents), 1nat,
{
    let (a2, c1, r) = if st.contents.len() == 0 {
        (st.ast, st.contents, Ok(seq![ActionV::Insert(ArgsV::Empty)]))
    } else {
        let (value, c1) = take_value_spec(st.contents);
        proof {
            lemma_take_value_size(st.contents);
        }
        let (a2, r) = process_spec(hm, st.ast, value, false);
        (a2, c1, match r {
            Err(e) => Err(e),
            Ok(acl) => Ok(
                if acl.len() == 0 {
                    seq![ActionV::Insert(ArgsV::Empty)]
                } else {
                    acl.push(ActionV::Temp)
                },
            ),
        })
    };
    match r {
        Err(e) => (hs(a2, c1, st.count, st.out), Err(e)),
        Ok(acts) => {
            let out2 = st.out + acts + seq![ActionV::Join(2), ActionV::Call("dot"@)];
            if c1.len() != 0 || st.count > 1 {
                (hs(a2, c1, st.count, out2.push(ActionV::Temp)), Ok(HandlerResult::Continue))
            } else if st.count == 0 {
                (hs(a2, c1, st.count, out2), Err("Nothing to join with"@))
            } else {
                (hs(a2, c1, (st.count - 1) as nat, out2), Ok(HandlerResult::Continue))
            }
        },
    }
}

/// `cmd &;` (`name` is `run`) and `cmd &` (`name` is `job`).
pub open spec fn handle_run_spec(st: HState, name: Seq<char>) -> (HState, HResult) {
    let out1 = if st.count > 0 {
        st.out.push(ActionV::Join(st.count as usize))
    } else {
        st.out
    };
    (HState { count: 0, out: out1.push(ActionV::Call(name)), ..st }, Ok(HandlerResult::Continue))
}

/// `a && b`.
pub open spec fn handle_amperamper_spec(st: HState) -> (HState, HResult) {
    let (st1, _) = handle_run_spec(st, "run"@);
    let out2 = st1.out.push(ActionV::Call("run_failed?"@));
    if !has_room(st1.ast) {
        (HState { out: out2, ..st1 }, Err("Too many sections"@))
    } else {
        let old_section = st1.ast.position;
        let a1 = sp_new_section(st1.ast);
        let new_num = current_number(a1);
        let a2 = sp_push_current(a1, ActionV::Fail(crate::constants::STOP@));
        let a3 = sp_move_to(a2, old_section);
        (HState { ast: a3, out: out2.push(ActionV::Branch(new_num)), ..st1 }, Ok(HandlerResult::Continue))
    }
}

/// `a | b`.
pub open spec fn handle_bar_spec(st: HState) -> (HState, HResult) {
    let (st1, _) = handle_run_spec(st, "job"@);
    (
        HState {
            count: st1.count + 1,
            out: st1.out + seq![
                ActionV::Insert(ArgsV::Flat("$pipe:"@)),
                ActionV::Temp,
                ActionV::Join(2),
                ActionV::Call("dot"@),
                ActionV::Load,
                ActionV::Temp,
            ],
            ..st1
        },
        Ok(HandlerResult::Continue),
    )
}

/// `cmd > file` (`output`) and `cmd < file`.
pub open spec fn handle_redirect_spec(hm: Map<Seq<char>, Handler>, st: HState, output: bool) -> (HState, HResult)
    decreases 4 + input_sizes(st.contents), 1nat,
{
    let (out1, count1) = if st.count > 0 {
        (st.out.push(ActionV::Join(st.count as usize)), 1nat)
    } else {
        (st.out, st.count)
    };
    let out2 = out1.push(ActionV::Temp);
    if st.contents.len() == 0 {
        (hs(st.ast, st.contents, count1, out2), Err("No file name given"@))
    } else {
        let (value, c1) = take_value_spec(st.contents);
        proof {
            lemma_take_value_size(st.contents);
        }
        let (a2, r) = process_spec(hm, st.ast, value, false);
        match r {
            Err(e) => (hs(a2, c1, count1, out2), Err(e)),
            Ok(acl) => if acl.len() == 0 {
                (hs(a2, c1, count1, out2), Err("No file name given"@))
            } else {
                let tail = if output {
                    seq![ActionV::Call("open_output"@), ActionV::Insert(ArgsV::Flat("@out:"@))]
                } else {
                    seq![ActionV::Call("open_input"@), ActionV::Insert(ArgsV::Flat("@"@))]
                };
                (
                    hs(a2, c1, count1, out2 + acl + tail + seq![ActionV::Temp, ActionV::Join(2), ActionV::Call("dot"@)]),
                    Ok(HandlerResult::Continue),
                )
            },
        }
    }
}

/// The condition of a block: what is left of the line up to `{`, compiled;
/// the actions so far are first added to the current section.
pub open spec fn block_condition(hm: Map<Seq<char>, Handler>, st: HState) -> (AstV, Seq<InputV>, CResult)
    decreases 4 + input_sizes(st.contents), 0nat,
{
    let a1 = sp_append_current(st.ast, st.out);
    let (values, c1) = until_brace_spec(st.contents);
    proof {
        lemma_until_brace_size(st.contents);
    }
    let (a2, r) = process_spec(hm, a1, InputV::Long(values), false);
    (a2, c1, r)
}

/// `if! cond {`.
pub open spec fn handle_if_spec(hm: Map<Seq<char>, Handler>, st: HState) -> (HState, HResult)
    decreases 4 + input_sizes(st.contents), 1nat,
{
    if !has_room(st.ast) {
        (st, Err("Too many sections"@))
    } else {
        let (a2, c1, r) = block_condition(hm, st);
        match r {
            Err(e) => (hs(a2, c1, st.count, seq![]), Err(e)),
            Ok(acl) => if !has_room(a2) {
                (hs(a2, c1, st.count, seq![]), Err("Too many sections"@))
            } else {
                let old_section = a2.position;
                let a3 = sp_new_section(a2);
                let secnum = current_number(a3);
                let a4 = sp_new_section(a3);
                let finalsec = current_number(a4);
                let a5 = sp_new_section(a4);
                let elifsec = current_number(a5);
                let a6 = sp_move_to(a5, old_section);
                let a7 = sp_append_current(a6, acl.push(ActionV::Branch(secnum)).push(ActionV::Jump(elifsec)));
                let a8 = sp_move_to(a7, SectionType::Number(elifsec));
                let a9 = AstV { elif: Some(SectionType::Number(elifsec)), ..a8 };
                let a10 = sp_push_current(a9, ActionV::Jump(finalsec));
                let a11 = sp_move_to(a10, SectionType::Number(secnum));
                (hs(a11, c1, 0, seq![]), Ok(HandlerResult::More(SectionType::Number(finalsec))))
            },
        }
    }
}

/// `elif! cond {`.
pub open spec fn handle_elif_spec(hm: Map<Seq<char>, Handler>, st: HState) -> (HState, HResult)
    decreases 4 + input_sizes(st.contents), 1nat,
{
    match st.ast.elif {
        None => (st, Err("No proceeding if block for elif"@)),
        Some(old_section) => {
            let (a2, c1, r) = block_condition(hm, st);
            match r {
                Err(e) => (hs(a2, c1, st.count, seq![]), Err(e)),
                Ok(acl) => if !has_room(a2) {
                    (hs(a2, c1, st.count, seq![]), Err("Too many sections"@))
                } else {
                    let a3 = sp_new_section(a2);
                    let secnum = current_number(a3);
                    let a4 = sp_new_section(a3);
                    let elifsec = current_number(a4);
                    let a5 = sp_move_to(a4, old_section);
                    let (a6, popped) = sp_pop_current(a5);
                    match popped {
                        Some(ActionV::Jump(finalsec)) => {
                            let a7 = sp_append_current(
                                a6,
                                acl.push(ActionV::Branch(secnum)).push(ActionV::Jump(elifsec)),
                            );
                            let a8 = sp_move_to(a7, SectionType::Number(elifsec));
                            let a9 = AstV { elif: Some(SectionType::Number(elifsec)), ..a8 };
                            let a10 = sp_push_current(a9, ActionV::Jump(finalsec));
                            let a11 = sp_move_to(a10, SectionType::Number(secnum));
                            (hs(a11, c1, 0, seq![]), Ok(HandlerResult::More(SectionType::Number(finalsec))))
                        },
                        _ => (hs(a6, c1, st.count, seq![]), Err("Elif section malformed"@)),
                    }
                },
            }
        },
    }
}

/// `else! {`.
pub open spec fn handle_else_spec(st: HState) -> (HState, HResult) {
    let a1 = sp_append_current(st.ast, st.out);
    match st.ast.elif {
        None => (hs(a1, st.contents, st.count, seq![]), Err("No proceeding if block for else"@)),
        Some(old_section) => {
            let c1 = until_brace_spec(st.contents).1;
            let a2 = sp_move_to(a1, old_section);
            let (a3, popped) = sp_pop_current(a2);
            match popped {
                Some(ActionV::Jump(finalsec)) => (
                    hs(AstV { elif: None, ..a3 }, c1, 0, seq![]),
                    Ok(HandlerResult::More(SectionType::Number(finalsec))),
                ),
                _ => (hs(a3, c1, st.count, seq![]), Err("Elif section malformed"@)),
            }
        },
    }
}

/// `while! cond {`.
pub open spec fn handle_while_spec(hm: Map<Seq<char>, Handler>, st: HState) -> (HState, HResult)
    decreases 4 + input_sizes(st.contents), 1nat,
{
    let (a2, c1, r) = block_condition(hm, st);
    match r {
        Err(e) => (hs(a2, c1, st.count, seq![]), Err(e)),
        Ok(acl) => if !has_room(a2) {
            (hs(a2, c1, st.count, seq![]), Err("Too many sections"@))
        } else {
            let old_sec = a2.position;
            let a3 = sp_new_section(a2);
            let newsec = current_number(a3);
            let a4 = sp_new_section(a3);
            let finalsec = current_number(a4);
            let a5 = sp_move_to(a4, old_sec);
            let a6 = sp_push_current(a5, ActionV::Jump(newsec));
            let a7 = sp_move_to(a6, SectionType::Number(newsec));
            let a8 = sp_append_current(a7, acl.push(ActionV::Call("not?"@)).push(ActionV::Branch(finalsec)));
            (
                hs(AstV { sec_loop: true, ..a8 }, c1, 0, seq![]),
                Ok(HandlerResult::More(SectionType::Number(finalsec))),
            )
        },
    }
}

/// `func! name {`.
pub open spec fn handle_func_spec(hm: Map<Seq<char>, Handler>, st: HState) -> (HState, HResult)
    decreases 4 + input_sizes(st.contents), 1nat,
{
    let (a2, c1, r) = block_condition(hm, st);
    match r {
        Err(e) => (hs(a2, c1, st.count, seq![]), Err(e)),
        Ok(acl) => if !has_room(a2) {
            (hs(a2, c1, st.count, seq![]), Err("Too many sections"@))
        } else {
            let old_sec = a2.position;
            let a3 = sp_new_section(a2);
            let newsec = current_number(a3);
            let a4 = sp_move_to(a3, old_sec);
            let a5 = sp_append_current(a4, acl.push(ActionV::Save(newsec)));
            let a6 = sp_move_to(a5, SectionType::Number(newsec));
            (hs(a6, c1, 0, seq![]), Ok(HandlerResult::More(old_sec)))
        },
    }
}

/// `act! {`.
pub open spec fn handle_act_spec(st: HState) -> (HState, HResult) {
    let a1 = sp_append_current(st.ast, st.out);
    let c1 = until_brace_spec(st.contents).1;
    if !has_room(a1) {
        (hs(a1, c1, st.count, seq![]), Err("Too many sections"@))
    } else {
        let old_sec = a1.position;
        let a2 = sp_new_section(a1);
        let newsec = current_number(a2);
        let a3 = sp_new_section(a2);
        let finalsec = current_number(a3);
        let a4 = sp_move_to(a3, old_sec);
        let a5 = sp_push_current(a4, ActionV::Jump(newsec));
        let a6 = sp_move_to(a5, SectionType::Number(newsec));
        (hs(a6, c1, 0, seq![]), Ok(HandlerResult::More(SectionType::Number(finalsec))))
    }
}

/// The actions that run what a line left on the stack.
pub open spec fn run_rest(count: nat) -> Seq<ActionV> {
    if count > 1 {
        seq![ActionV::Join(count as usize), ActionV::Call("run"@), ActionV::Call("describe_process_output"@)]
    } else if count == 1 {
        seq![ActionV::Pull, ActionV::Call("run"@), ActionV::Call("describe_process_output"@)]
    } else {
        seq![]
    }
}

/// `}`.
pub open spec fn handle_endblock_spec(st: HState) -> (HState, HResult) {
    let a1 = sp_append_current(sp_append_current(st.ast, st.out), run_rest(st.count));
    if !crate::ast::AST::end_block_defined(a1) {
        (hs(a1, st.contents, st.count, seq![]), Err("Cannot loop .run"@))
    } else {
        let (a2, r) = sp_end_block(a1);
        match r {
            Err(e) => (hs(a2, st.contents, st.count, seq![]), Err(e)),
            Ok(_) => (hs(a2, st.contents, 0, seq![]), Ok(HandlerResult::Continue)),
        }
    }
}

/// What the handler `h` does.
pub open spec fn handler_spec(hm: Map<Seq<char>, Handler>, h: Handler, st: HState) -> (HState, HResult)
    decreases 4 + input_sizes(st.contents), 2nat,
{
    match h {
        Handler::Equal => handle_equal_spec(hm, st),
        Handler::EqualEqual => handle_compare_spec(hm, st, false),
        Handler::TildaEqual => handle_compare_spec(hm, st, true),
        Handler::Dot => handle_dot_spec(hm, st),
        Handler::SemiAmper => handle_run_spec(st, "run"@),
        Handler::Amper => handle_run_spec(st, "job"@),
        Handler::AmperAmper => handle_amperamper_spec(st),
        Handler::Bar => handle_bar_spec(st),
        Handler::Geq => handle_redirect_spec(hm, st, true),
        Handler::Leq => handle_redirect_spec(hm, st, false),
        Handler::Act => handle_act_spec(st),
        Handler::If => handle_if_spec(hm, st),
        Handler::Elif => handle_elif_spec(hm, st),
        Handler::Else => handle_else_spec(st),
        Handler::While => handle_while_spec(hm, st),
        Handler::Func => handle_func_spec(hm, st),
        Handler::EndBlock => handle_endblock_spec(st),
    }
}

/// Compiles one value of a line (see `AST::process`): the compiler after,
/// and the actions or the error.
pub open spec fn process_spec(hm: Map<Seq<char>, Handler>, a: AstV, line: InputV, run: bool) -> (AstV, CResult)
    decreases input_size(line), 3nat,
{
    match line {
        InputV::Split(_) => (a, Ok(seq![])),
        InputV::Short(s) => if hm.contains_key(s) {
            let (st, r) = handler_spec(hm, hm[s], hs(a, seq![], 0, seq![]));
            match r {
                Err(e) => (st.ast, Err(e)),
                Ok(HandlerResult::More(k)) => (AstV { blocks: st.ast.blocks.push(k), ..st.ast }, Ok(st.out)),
                Ok(_) => (st.ast, Ok(st.out)),
            }
        } else {
            (a, Ok(short_actions(s, run)))
        },
        InputV::Literal(s) => (a, Ok(seq![ActionV::Assign(ArgsV::Flat(s))])),
        InputV::Long(v) => items_spec(hm, a, v, 0, seq![], run),
        InputV::Function(n, v) => {
            let (a2, r) = if v.len() == 0 {
                (a, Ok(seq![]))
            } else if v.len() == 1 {
                proof {
                    lemma_sizes_index(v, 0);
                }
                process_spec(hm, a, v[0], false)
            } else {
                items_spec(hm, a, v, 0, seq![], false)
            };
            match r {
                Err(e) => (a2, Err(e)),
                Ok(acl) => (a2, Ok(
                    if a2.blocks == a.blocks {
                        acl.push(ActionV::Call(n))
                    } else {
                        acl
                    },
                )),
            }
        },
    }
}

/// Compiles the rest `c` of a list, after actions `out` that left `count`
/// values on the stack; a whole line (`run`) then runs them.
pub open spec fn items_spec(
    hm: Map<Seq<char>, Handler>,
    a: AstV,
    c: Seq<InputV>,
    count: nat,
    out: Seq<ActionV>,
    run: bool,
) -> (AstV, CResult)
    decreases 3 + input_sizes(c), 2nat,
{
    if c.len() == 0 {
        (a, Ok(out + count_tail(count, run)))
    } else {
        let item = c[0];
        let rest = c.subrange(1, c.len() as int);
        proof {
            assert(input_sizes(c) == input_size(item) + input_sizes(rest));
        }
        if item is Short && hm.contains_key(item->Short_0) {
            let (st, r) = handler_spec(hm, hm[item->Short_0], hs(a, rest, count, out));
            match r {
                Err(e) => (st.ast, Err(e)),
                Ok(HandlerResult::Stop) => (st.ast, Ok(st.out)),
                Ok(res) => if input_sizes(st.contents) <= input_sizes(rest) {
                    let a2 = match res {
                        HandlerResult::More(k) => AstV { blocks: st.ast.blocks.push(k), ..st.ast },
                        _ => st.ast,
                    };
                    items_spec(hm, a2, st.contents, st.count, st.out, run)
                } else {
                    (st.ast, Err(seq![]))
                },
            }
        } else {
            let (a2, r) = process_spec(hm, a, item, false);
            match r {
                Err(e) => (a2, Err(e)),
                Ok(acl) => if acl.len() == 0 {
                    items_spec(hm, a2, rest, count, out, run)
                } else {
                    items_spec(hm, a2, rest, count + 1, out + acl + seq![ActionV::Temp], run)
                },
            }
        }
    }
}

/// Compiles a whole line into the current section, followed by the actions
/// queued for the end of the line (see `AST::add_line`).
pub open spec fn add_line_spec(hm: Map<Seq<char>, Handler>, a: AstV, line: InputV) -> (AstV, Result<(), Seq<char>>) {
    let (a1, r) = process_spec(hm, a, line, true);
    match r {
        Err(e) => (a1, Err(e)),
        Ok(acl) => (sp_append_current(AstV { endline: seq![], ..a1 }, acl + a1.endline), Ok(())),
    }
}


// ---------------------------------------------------------------------
// What compiled comparisons, loops and redirections do when run.
// ---------------------------------------------------------------------

/// A compiled `a == b` compares the two values exactly: from any state with
/// the two sides `x` and `y` on top of the stack, its last actions ask for
/// a builtin on the list of both, and that builtin answers `Empty` exactly
/// when `x` and `y` are equal values and `not equal` otherwise.
pub proof fn law_equal_compares_values(hm: Map<Seq<char>, Handler>, st: HState, s: RunV)
    requires
        handle_compare_spec(hm, st, false).1 is Ok,
        s.vs.len() >= 2,
    ensures
        ({
            let out = handle_compare_spec(hm, st, false).0.out;
            let x = s.vs[s.vs.len() - 2];
            let y = s.vs[s.vs.len() - 1];
            &&& out.len() >= 2
            &&& action_step(s, out[out.len() - 2]).1 == EventV::Continue
            &&& (action_step(action_step(s, out[out.len() - 2]).0, out[out.len() - 1]).1 matches EventV::Call(n, arg)
                && arg == ArgsV::Long(seq![x, y]) && builtin_answer(n, arg) == Some(
                Ok::<ArgsV, Seq<char>>(
                    if x == y {
                        ArgsV::Empty
                    } else {
                        ArgsV::Flat("not equal"@)
                    },
                ),
            ))
        }),
{
    let (st2, r) = equalequal_inner_spec(hm, st);
    let out = handle_compare_spec(hm, st, false).0.out;
    assert(out == st2.out.push(ActionV::Call("equal?"@)));
    assert(st2.out.len() > 0 && st2.out.last() == ActionV::Join(2));
    assert(out[out.len() - 2] == ActionV::Join(2));
    let len = s.vs.len();
    let s1 = action_step(s, ActionV::Join(2)).0;
    assert(s1.cfv == ArgsV::Long(s.vs.subrange(len - 2, len as int)));
    assert(s.vs.subrange(len - 2, len as int) =~= seq![s.vs[len - 2], s.vs[len - 1]]);
    let arg = ArgsV::Long(seq![s.vs[len - 2], s.vs[len - 1]]);
    lemma_pair_items(arg);
}

proof fn lemma_pair_items(a: ArgsV)
    requires
        a matches ArgsV::Long(v) && v.len() == 2,
    ensures
        crate::types::args_len(a) == 2,
        crate::types::args_get(a, 0) == a->Long_0[0],
        crate::types::args_get(a, 1) == a->Long_0[1],
{
}

/// The head of a `while!` loop tests its condition: from any state whose
/// front value `v` the condition left, its last actions ask for a builtin
/// on `v`, and with that builtin's answer the head jumps to the section
/// after the loop (the one named by the result) exactly when `v` is empty,
/// and otherwise goes on into the body where it stands, a section other
/// than the one after the loop.
pub proof fn law_while_head_tests_condition(hm: Map<Seq<char>, Handler>, st: HState, f: usize, s: RunV)
    requires
        handle_while_spec(hm, st).1 == Ok::<HandlerResult, Seq<char>>(HandlerResult::More(SectionType::Number(f))),
    ensures
        ({
            let a = handle_while_spec(hm, st).0.ast;
            let head = a.sections[a.position];
            &&& a.sections.contains_key(a.position)
            &&& a.position != SectionType::Number(f)
            &&& head.len() >= 2
            &&& (action_step(s, head[head.len() - 2]).1 matches EventV::Call(n, arg) && arg == s.cfv && (builtin_answer(
                n,
                arg,
            ) matches Some(Ok(w)) && ({
                let (s3, e3) = action_step(apply_reply(action_step(s, head[head.len() - 2]).0, w), head[head.len() - 1]);
                &&& e3 == EventV::Continue
                &&& s3.cfv == w
                &&& (s.cfv is Empty) ==> s3.position == SectionType::Number(f) && s3.pc == 0
                &&& !(s.cfv is Empty) ==> s3.position == s.position && s3.pc == s.pc
            })))
        }),
{
    reveal_strlit("equal?");
    reveal_strlit("re_equal?");
    reveal_strlit("not?");
    let (a2, c1, r) = block_condition(hm, st);
    let acl = r->Ok_0;
    let old_sec = a2.position;
    let a3 = sp_new_section(a2);
    let newsec = current_number(a3);
    let a4 = sp_new_section(a3);
    let finalsec = current_number(a4);
    let a5 = sp_move_to(a4, old_sec);
    let a6 = sp_push_current(a5, ActionV::Jump(newsec));
    let a7 = sp_move_to(a6, SectionType::Number(newsec));
    let tail = acl.push(ActionV::Call("not?"@)).push(ActionV::Branch(finalsec));
    let a8 = sp_append_current(a7, tail);
    assert(finalsec == f);
    let a = handle_while_spec(hm, st).0.ast;
    assert(a.position == a8.position && a.sections == a8.sections);
    let head = sec_get(a7, a7.position) + tail;
    assert(a.sections[a.position] == head);
    assert(head[head.len() - 2] == ActionV::Call("not?"@));
    assert(head[head.len() - 1] == ActionV::Branch(f));
    lemma_builtin_names_differ();
    let (s1, e1) = action_step(s, ActionV::Call("not?"@));
    assert(e1 == EventV::Call("not?"@, s.cfv));
    let w = if s.cfv is Empty { ArgsV::Flat("empty"@) } else { ArgsV::Empty };
    assert(builtin_answer("not?"@, s.cfv) == Some(Ok::<ArgsV, Seq<char>>(w)));
    let s2 = apply_reply(s1, w);
    assert(s2.cfv == w);
    let (s3, e3) = action_step(s2, ActionV::Branch(f));
    assert(e3 == EventV::Continue);
}

/// A compiled `cmd > file` gives the command the opened file as its
/// standard output: from any state whose front value names the file, its
/// last actions ask for `open_output` on that name and, when the answer is
/// the descriptor's digits `d`, build with a builtin a word that, read
/// before the command's name, sets its standard output to `d` and leaves
/// its standard input and error as they were.
pub proof fn law_redirect_sets_output(
    hm: Map<Seq<char>, Handler>,
    st: HState,
    s: RunV,
    d: Seq<char>,
    fds: StreamsV,
    rest: Seq<ArgsV>,
    envs: Seq<(Seq<char>, Option<Seq<char>>)>,
)
    requires
        handle_redirect_spec(hm, st, true).1 is Ok,
        all_digits(d),
        digits_value(d) <= i32::MAX,
    ensures
        ({
            let out = handle_redirect_spec(hm, st, true).0.out;
            let n = out.len();
            &&& n >= 5
            &&& action_step(s, out[n - 5]).1 == EventV::Call("open_output"@, s.cfv)
            &&& ({
                let s2 = apply_reply(action_step(s, out[n - 5]).0, ArgsV::Flat(d));
                let (s3, e3) = action_step(s2, out[n - 4]);
                let (s4, e4) = action_step(s3, out[n - 3]);
                let (s5, e5) = action_step(s4, out[n - 2]);
                let (s6, e6) = action_step(s5, out[n - 1]);
                &&& e3 == EventV::Continue && e4 == EventV::Continue && e5 == EventV::Continue
                &&& s5.vs == s.vs
                &&& (e6 matches EventV::Call(m, arg) && (builtin_answer(m, arg) matches Some(Ok(ArgsV::Flat(w)))
                    && job_args_spec(seq![ArgsV::Flat(w)] + rest, fds, envs) == job_args_spec(
                    rest,
                    (fds.0, Some(digits_value(d) as i32), fds.2),
                    envs,
                )))
            })
        }),
{
    lemma_redirect_tail(hm, st);
    lemma_output_word_run(s, d, fds, rest, envs);
}

proof fn lemma_redirect_tail(hm: Map<Seq<char>, Handler>, st: HState)
    requires
        handle_redirect_spec(hm, st, true).1 is Ok,
    ensures
        ({
            let out = handle_redirect_spec(hm, st, true).0.out;
            let n = out.len();
            &&& n >= 5
            &&& out[n - 5] == ActionV::Call("open_output"@)
            &&& out[n - 4] == ActionV::Insert(ArgsV::Flat("@out:"@))
            &&& out[n - 3] == ActionV::Temp
            &&& out[n - 2] == ActionV::Join(2)
            &&& out[n - 1] == ActionV::Call("dot"@)
        }),
{
    let out = handle_redirect_spec(hm, st, true).0.out;
    let n = out.len();
    assert(out[n - 5] == ActionV::Call("open_output"@));
    assert(out[n - 4] == ActionV::Insert(ArgsV::Flat("@out:"@)));
}

proof fn lemma_output_word_run(
    s: RunV,
    d: Seq<char>,
    fds: StreamsV,
    rest: Seq<ArgsV>,
    envs: Seq<(Seq<char>, Option<Seq<char>>)>,
)
    requires
        all_digits(d),
        digits_value(d) <= i32::MAX,
    ensures
        ({
            let s2 = apply_reply(action_step(s, ActionV::Call("open_output"@)).0, ArgsV::Flat(d));
            let (s3, e3) = action_step(s2, ActionV::Insert(ArgsV::Flat("@out:"@)));
            let (s4, e4) = action_step(s3, ActionV::Temp);
            let (s5, e5) = action_step(s4, ActionV::Join(2));
            let (s6, e6) = action_step(s5, ActionV::Call("dot"@));
            &&& e3 == EventV::Continue && e4 == EventV::Continue && e5 == EventV::Continue
            &&& s5.vs == s.vs
            &&& (e6 matches EventV::Call(m, arg) && (builtin_answer(m, arg) matches Some(Ok(ArgsV::Flat(w)))
                && job_args_spec(seq![ArgsV::Flat(w)] + rest, fds, envs) == job_args_spec(
                rest,
                (fds.0, Some(digits_value(d) as i32), fds.2),
                envs,
            )))
        }),
{
    reveal_strlit("@out:");
    reveal_strlit("out");
    reveal_strlit("equal?");
    reveal_strlit("re_equal?");
    reveal_strlit("not?");
    reveal_strlit("dot");
    reveal_strlit("in");
    reveal_strlit("err");
    let p = "@out:"@;
    let s2 = apply_reply(action_step(s, ActionV::Call("open_output"@)).0, ArgsV::Flat(d));
    assert(s2.cfv == ArgsV::Flat(d) && s2.vs == s.vs);
    let s4 = action_step(action_step(s2, ActionV::Insert(ArgsV::Flat(p))).0, ActionV::Temp).0;
    assert(s4.vs == s.vs.push(ArgsV::Flat(p)).push(ArgsV::Flat(d)));
    let len = s4.vs.len();
    assert(s4.vs.subrange(len - 2, len as int) =~= seq![ArgsV::Flat(p), ArgsV::Flat(d)]);
    assert(s4.vs.subrange(0, len - 2) =~= s.vs);
    let arg = ArgsV::Long(seq![ArgsV::Flat(p), ArgsV::Flat(d)]);
    let w = p + d;
    lemma_two_texts(p, d);
    lemma_builtin_names_differ();
    assert(builtin_answer("dot"@, arg) == Some(Ok::<ArgsV, Seq<char>>(ArgsV::Flat(w))));
    lemma_out_word(d);
    let args = seq![ArgsV::Flat(w)] + rest;
    assert(args[0] == ArgsV::Flat(w));
    assert(args.subrange(1, args.len() as int) =~= rest);
    assert(crate::types::flat_with(ArgsV::Flat(w), seq!['\n']) == w);
    assert("out"@.len() != "in"@.len());
    assert("out"@ != "in"@);
    assert("out"@.len() != 0);
    assert(set_stream(fds, "out"@, digits_value(d) as i32) == Some((fds.0, Some(digits_value(d) as i32), fds.2)));
}

proof fn lemma_two_texts(p: Seq<char>, d: Seq<char>)
    ensures
        crate::builtins::concat_all(crate::types::flat_list(ArgsV::Long(seq![ArgsV::Flat(p), ArgsV::Flat(d)]))) == p + d,
{
    let v = seq![ArgsV::Flat(p), ArgsV::Flat(d)];
    let v1 = seq![ArgsV::Flat(p)];
    let v0 = Seq::<ArgsV>::empty();
    assert(v.subrange(0, 1) =~= v1);
    assert(v1.subrange(0, 0) =~= v0);
    assert(crate::types::flat_list_seq(v0) == Seq::<Seq<char>>::empty());
    assert(crate::types::flat_list(ArgsV::Flat(p)) == seq![p]);
    assert(crate::types::flat_list(ArgsV::Flat(d)) == seq![d]);
    assert(crate::types::flat_list_seq(v1) == crate::types::flat_list_seq(v0) + seq![p]);
    assert(crate::types::flat_list_seq(v1) =~= seq![p]);
    assert(crate::types::flat_list_seq(v) == crate::types::flat_list_seq(v1) + seq![d]);
    assert(crate::types::flat_list_seq(v) =~= seq![p, d]);
    assert(seq![p, d].drop_last() =~= seq![p]);
    assert(seq![p].drop_last() =~= Seq::<Seq<char>>::empty());
    assert(crate::builtins::concat_all(Seq::<Seq<char>>::empty()) == Seq::<char>::empty());
    assert(crate::builtins::concat_all(seq![p]) == crate::builtins::concat_all(Seq::<Seq<char>>::empty()) + p);
    assert(crate::builtins::concat_all(seq![p]) =~= p);
    assert(crate::builtins::concat_all(seq![p, d]) == crate::builtins::concat_all(seq![p]) + d);
}

proof fn lemma_out_word(d: Seq<char>)
    requires
        all_digits(d),
    ensures
        fd_word("@out:"@ + d) == Some(("out"@, d)),
{
    reveal_strlit("@out:");
    reveal_strlit("out");
    let w = "@out:"@ + d;
    let body = w.subrange(1, w.len() as int);
    assert(body =~= "out:"@ + d) by {
        reveal_strlit("out:");
    }
    reveal_strlit("out:");
    assert(body[3] == ':');
    assert(body.contains(':'));
    let i = first_colon(body)->Some_0;
    assert(0 <= i < body.len() && body[i] == ':' && forall|j: int| 0 <= j < i ==> body[j] != ':');
    if i < 3 {
        assert(body[i] != ':');
    }
    if i > 3 {
        assert(body[3] != ':');
    }
    assert(i == 3);
    assert(body.subrange(0, 3) =~= "out"@);
    assert(body.subrange(4, body.len() as int) =~= d);
}

} // verus!
