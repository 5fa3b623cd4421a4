use vstd::prelude::*;
use std::collections::VecDeque;

use crate::sections::SectionTable;
use crate::strings::concat;
use crate::debug::section_debug;
use crate::types::{Action, ActionV, ArgsV, SectionType, WashArgs, actions_view, lemma_actions_view_push};
use crate::vars::{VarRef, VarV, parse_var, var_view};
use crate::runner::{EventV, Reply, RunV, action_step, apply_reply, run_events, run_step, start_state};

verus! {

// ---------------------------------------------------------------------
// Combining neighbouring actions of one section.
// ---------------------------------------------------------------------

/// What combining has produced so far: the actions written out, the
/// sections that they go to, whether the front value is known to be empty,
/// and whether anything was changed.
pub struct CombineV {
    pub out: Seq<ActionV>,
    pub targets: Seq<usize>,
    pub cfv_empty: bool,
    pub changes: bool,
}

/// Whether the first of `s` is `Temp`.
pub open spec fn starts_temp(s: Seq<ActionV>) -> bool {
    s.len() > 0 && s[0] is Temp
}

/// The result of combining the actions `rest` after what `c` has produced:
/// - `Assign(v) Temp` becomes `Insert(v)` while the front value is known to be empty;
/// - `Join(n) Call(f)` becomes `Proc(f, n) Pull`, and `Pull Call(f)` becomes `Proc(f, 1) Pull`;
/// - `Pull Temp` is dropped while the front value is known to be empty, and
///   `Pull Branch(n)` becomes `Root(n)`;
/// - `Assign($var) Load Temp` becomes `Stack(name, path)`;
/// - a `Branch` while the front value is known to be empty is dropped, as it is never taken;
/// - nothing after a `Jump` is kept.
pub open spec fn combine(rest: Seq<ActionV>, c: CombineV) -> Result<CombineV, Seq<char>>
    decreases rest.len(),
{
    if rest.len() == 0 {
        Ok(c)
    } else {
        let tail = rest.subrange(1, rest.len() as int);
        match rest[0] {
            ActionV::Jump(n) => Ok(
                CombineV {
                    out: c.out.push(ActionV::Jump(n)),
                    targets: c.targets.push(n),
                    changes: c.changes || tail.len() > 0,
                    ..c
                },
            ),
            ActionV::Branch(n) => if c.cfv_empty {
                combine(tail, CombineV { changes: true, ..c })
            } else {
                combine(tail, CombineV { out: c.out.push(ActionV::Branch(n)), targets: c.targets.push(n), ..c })
            },
            ActionV::Root(n) => combine(
                tail,
                CombineV { out: c.out.push(ActionV::Root(n)), targets: c.targets.push(n), ..c },
            ),
            ActionV::Assign(v) => if c.cfv_empty && starts_temp(tail) {
                combine(
                    tail.subrange(1, tail.len() as int),
                    CombineV { out: c.out.push(ActionV::Insert(v)), cfv_empty: true, changes: true, ..c },
                )
            } else {
                combine(tail, CombineV { out: c.out.push(ActionV::Assign(v)), cfv_empty: v is Empty, ..c })
            },
            ActionV::Join(n) => if tail.len() > 0 && tail[0] is Call {
                combine(
                    seq![ActionV::Pull] + tail.subrange(1, tail.len() as int),
                    CombineV { out: c.out.push(ActionV::Proc(tail[0]->Call_0, n)), changes: true, ..c },
                )
            } else {
                combine(tail, CombineV { out: c.out.push(ActionV::Join(n)), cfv_empty: false, ..c })
            },
            ActionV::Pull => if c.cfv_empty && starts_temp(tail) {
                combine(tail.subrange(1, tail.len() as int), CombineV { changes: true, ..c })
            } else if tail.len() > 0 && tail[0] is Call {
                combine(
                    seq![ActionV::Pull] + tail.subrange(1, tail.len() as int),
                    CombineV { out: c.out.push(ActionV::Proc(tail[0]->Call_0, 1)), changes: true, ..c },
                )
            } else if tail.len() > 0 && tail[0] is Branch {
                combine(
                    seq![ActionV::Root(tail[0]->Branch_0)] + tail.subrange(1, tail.len() as int),
                    CombineV { changes: true, ..c },
                )
            } else {
                combine(tail, CombineV { out: c.out.push(ActionV::Pull), cfv_empty: false, ..c })
            },
            ActionV::Load => if starts_temp(tail) && c.out.len() > 0 && (c.out.last() matches ActionV::Assign(
                ArgsV::Flat(_),
            )) {
                let w = c.out.last()->Assign_0->Flat_0;
                match var_view(w) {
                    VarV::PathName(path, name) => combine(
                        tail.subrange(1, tail.len() as int),
                        CombineV { out: c.out.drop_last().push(ActionV::Stack(name, path)), changes: true, ..c },
                    ),
                    VarV::Name(name) => combine(
                        tail.subrange(1, tail.len() as int),
                        CombineV {
                            out: c.out.drop_last().push(ActionV::Stack(name, Seq::empty())),
                            changes: true,
                            ..c
                        },
                    ),
                    VarV::NotVar => Err("Load would have failed with "@ + w),
                }
            } else {
                combine(tail, CombineV { out: c.out.push(ActionV::Load), cfv_empty: false, ..c })
            },
            ActionV::Store => combine(tail, CombineV { out: c.out.push(ActionV::Store), cfv_empty: true, ..c }),
            ActionV::Temp => combine(tail, CombineV { out: c.out.push(ActionV::Temp), cfv_empty: true, ..c }),
            ActionV::Top => combine(tail, CombineV { out: c.out.push(ActionV::Top), cfv_empty: false, ..c }),
            ActionV::Swap => combine(tail, CombineV { out: c.out.push(ActionV::Swap), cfv_empty: false, ..c }),
            ActionV::Call(f) => combine(tail, CombineV { out: c.out.push(ActionV::Call(f)), cfv_empty: false, ..c }),
            other => combine(tail, CombineV { out: c.out.push(other), ..c }),
        }
    }
}

/// The model of a combining state kept in executable values.
pub open spec fn combine_state(out: Seq<Action>, targets: Seq<usize>, cfv_empty: bool, changes: bool) -> CombineV {
    CombineV { out: actions_view(out), targets, cfv_empty, changes }
}

fn front_temp(rest: &VecDeque<Action>) -> (res: bool)
    ensures
        res == starts_temp(actions_view(rest@)),
{
    if rest.len() == 0 {
        return false;
    }
    match &rest[0] {
        Action::Temp => true,
        _ => false,
    }
}

fn front_call(rest: &VecDeque<Action>) -> (res: bool)
    ensures
        res == (rest@.len() > 0 && actions_view(rest@)[0] is Call),
{
    if rest.len() == 0 {
        return false;
    }
    match &rest[0] {
        Action::Call(_) => true,
        _ => false,
    }
}

fn front_branch(rest: &VecDeque<Action>) -> (res: bool)
    ensures
        res == (rest@.len() > 0 && actions_view(rest@)[0] is Branch),
{
    if rest.len() == 0 {
        return false;
    }
    match &rest[0] {
        Action::Branch(_) => true,
        _ => false,
    }
}

fn pop_front_action(rest: &mut VecDeque<Action>) -> (res: Option<Action>)
    ensures
        old(rest)@.len() == 0 ==> res is None && final(rest)@ == old(rest)@,
        old(rest)@.len() > 0 ==> (res matches Some(a) && a@ == actions_view(old(rest)@)[0]) && actions_view(
            final(rest)@,
        ) == actions_view(old(rest)@).subrange(1, old(rest)@.len() as int),
        final(rest)@.len() <= old(rest)@.len(),
{
    let r = rest.pop_front();
    proof {
        if old(rest)@.len() > 0 {
            assert(actions_view(rest@) =~= actions_view(old(rest)@).subrange(1, old(rest)@.len() as int));
        }
    }
    r
}

fn push_front_action(rest: &mut VecDeque<Action>, a: Action)
    ensures
        actions_view(final(rest)@) == seq![a@] + actions_view(old(rest)@),
        final(rest)@.len() == old(rest)@.len() + 1,
{
    rest.push_front(a);
    proof {
        assert(actions_view(rest@) =~= seq![a@] + actions_view(old(rest)@));
    }
}

fn push_out(out: &mut Vec<Action>, a: Action)
    ensures
        actions_view(final(out)@) == actions_view(old(out)@).push(a@),
{
    let ghost before = out@;
    out.push(a);
    proof {
        lemma_actions_view_push(before, a);
    }
}

/// The variable word of the last action written out, when it is `Assign` of a flat value.
fn last_assigned_word(out: &Vec<Action>) -> (res: Option<String>)
    ensures
        match res {
            Some(w) => out@.len() > 0 && actions_view(out@).last() == ActionV::Assign(ArgsV::Flat(w@)),
            None => !(out@.len() > 0 && (actions_view(out@).last() matches ActionV::Assign(ArgsV::Flat(_)))),
        },
{
    if out.len() == 0 {
        return None;
    }
    match &out[out.len() - 1] {
        Action::Assign(WashArgs::Flat(w)) => Some(w.clone()),
        _ => None,
    }
}

fn deque_of_actions(v: Vec<Action>) -> (res: VecDeque<Action>)
    ensures
        actions_view(res@) == actions_view(v@),
{
    let mut out: VecDeque<Action> = VecDeque::new();
    let mut v = v;
    let ghost orig = v@;
    proof {
        assert(actions_view(out@) + actions_view(v@) =~= actions_view(orig));
    }
    while v.len() > 0
        invariant
            actions_view(out@) + actions_view(v@) == actions_view(orig),
        decreases v@.len(),
    {
        let ghost before_v = v@;
        let ghost before_out = out@;
        let a = v.remove(0);
        out.push_back(a);
        proof {
            assert(actions_view(out@) =~= actions_view(before_out).push(a@));
            assert(actions_view(v@) =~= actions_view(before_v).subrange(1, before_v.len() as int));
            assert(actions_view(out@) + actions_view(v@) =~= actions_view(before_out) + actions_view(before_v));
        }
    }
    proof {
        assert(actions_view(v@) =~= Seq::<ActionV>::empty());
        assert(actions_view(out@) =~= actions_view(out@) + actions_view(v@));
    }
    out
}

/// Combines the actions of one section (see `combine`).
#[verifier::rlimit(80)]
pub fn combine_section(section: Vec<Action>, cfv_empty: bool, changes: bool) -> (res: Result<
    (Vec<Action>, Vec<usize>, bool, bool),
    String,
>)
    ensures
        match res {
            Ok((o, t, e, ch)) => combine(
                actions_view(section@),
                CombineV { out: seq![], targets: seq![], cfv_empty, changes },
            ) == Ok::<CombineV, Seq<char>>(combine_state(o@, t@, e, ch)),
            Err(m) => combine(
                actions_view(section@),
                CombineV { out: seq![], targets: seq![], cfv_empty, changes },
            ) == Err::<CombineV, Seq<char>>(m@),
        },
{
    let ghost goal = combine(actions_view(section@), CombineV { out: seq![], targets: seq![], cfv_empty, changes });
    let mut rest = deque_of_actions(section);
    let mut out: Vec<Action> = Vec::new();
    let mut targets: Vec<usize> = Vec::new();
    let mut ce = cfv_empty;
    let mut ch = changes;
    proof {
        assert(combine_state(out@, targets@, ce, ch) == CombineV {
            out: seq![],
            targets: seq![],
            cfv_empty,
            changes,
        }) by {
            assert(actions_view(out@) =~= Seq::<ActionV>::empty());
        }
    }
    loop
        invariant
            combine(actions_view(rest@), combine_state(out@, targets@, ce, ch)) == goal,
            goal == combine(actions_view(section@), CombineV { out: seq![], targets: seq![], cfv_empty, changes }),
        decreases rest@.len(),
    {
        let ghost r = actions_view(rest@);
        let ghost c = combine_state(out@, targets@, ce, ch);
        let item = match pop_front_action(&mut rest) {
            None => {
                proof {
                    assert(r.len() == 0);
                    assert(combine(r, c) == Ok::<CombineV, Seq<char>>(c));
                    assert(goal == Ok::<CombineV, Seq<char>>(combine_state(out@, targets@, ce, ch)));
                }
                return Ok((out, targets, ce, ch));
            },
            Some(a) => a,
        };
        let ghost tail = actions_view(rest@);
        proof {
            assert(tail == r.subrange(1, r.len() as int));
        }
        match item {
            Action::Jump(n) => {
                let more = rest.len() > 0;
                push_out(&mut out, Action::Jump(n));
                targets.push(n);
                return Ok((out, targets, ce, ch || more));
            },
            Action::Branch(n) => {
                if ce {
                    ch = true;
                } else {
                    targets.push(n);
                    push_out(&mut out, Action::Branch(n));
                }
            },
            Action::Root(n) => {
                targets.push(n);
                push_out(&mut out, Action::Root(n));
            },
            Action::Assign(v) => {
                if ce && front_temp(&rest) {
                    pop_front_action(&mut rest);
                    push_out(&mut out, Action::Insert(v));
                    ce = true;
                    ch = true;
                } else {
                    let e = v.is_empty();
                    push_out(&mut out, Action::Assign(v));
                    ce = e;
                }
            },
            Action::Join(n) => {
                if front_call(&rest) {
                    match pop_front_action(&mut rest) {
                        Some(Action::Call(name)) => {
                            push_out(&mut out, Action::Proc(name, n));
                        },
                        _ => {},
                    }
                    push_front_action(&mut rest, Action::Pull);
                    ch = true;
                } else {
                    push_out(&mut out, Action::Join(n));
                    ce = false;
                }
            },
            Action::Pull => {
                if ce && front_temp(&rest) {
                    pop_front_action(&mut rest);
                    ch = true;
                } else if front_call(&rest) {
                    match pop_front_action(&mut rest) {
                        Some(Action::Call(name)) => {
                            push_out(&mut out, Action::Proc(name, 1));
                        },
                        _ => {},
                    }
                    push_front_action(&mut rest, Action::Pull);
                    ch = true;
                } else if front_branch(&rest) {
                    match pop_front_action(&mut rest) {
                        Some(Action::Branch(k)) => {
                            push_front_action(&mut rest, Action::Root(k));
                        },
                        _ => {},
                    }
                    ch = true;
                } else {
                    push_out(&mut out, Action::Pull);
                    ce = false;
                }
            },
            Action::Load => {
                let word = if front_temp(&rest) {
                    last_assigned_word(&out)
                } else {
                    None
                };
                match word {
                    Some(w) => {
                        let ghost before_out = out@;
                        out.pop();
                        proof {
                            assert(actions_view(out@) =~= actions_view(before_out).drop_last());
                        }
                        match parse_var(w.as_str()) {
                            VarRef::PathName(path, name) => {
                                push_out(&mut out, Action::Stack(name, path));
                            },
                            VarRef::Name(name) => {
                                push_out(&mut out, Action::Stack(name, String::new()));
                            },
                            VarRef::NotVar => {
                                return Err(concat("Load would have failed with ", w.as_str()));
                            },
                        }
                        pop_front_action(&mut rest);
                        ch = true;
                    },
                    None => {
                        push_out(&mut out, Action::Load);
                        ce = false;
                    },
                }
            },
            Action::Store => {
                push_out(&mut out, Action::Store);
                ce = true;
            },
            Action::Temp => {
                push_out(&mut out, Action::Temp);
                ce = true;
            },
            Action::Top => {
                push_out(&mut out, Action::Top);
                ce = false;
            },
            Action::Swap => {
                push_out(&mut out, Action::Swap);
                ce = false;
            },
            Action::Call(f) => {
                push_out(&mut out, Action::Call(f));
                ce = false;
            },
            other => {
                push_out(&mut out, other);
            },
        }
    }
}

// ---------------------------------------------------------------------
// Combining over every section reachable from `.run`.
// ---------------------------------------------------------------------

/// The state of a walk over the sections: the table, the sections seen,
/// those still to see (the last is seen first), the section at hand,
/// whether anything changed, and the outcome once the walk is over.  Only
/// `.run` starts with a front value known to be empty: any other section
/// may be reached with some value.
pub struct WalkV {
    pub table: Map<SectionType, Seq<ActionV>>,
    pub visited: Set<SectionType>,
    pub to_visit: Seq<SectionType>,
    pub position: SectionType,
    pub changes: bool,
    pub done: Option<Result<bool, Seq<char>>>,
}

/// The numbered sections of a list of numbers.
pub open spec fn numbered(t: Seq<usize>) -> Seq<SectionType> {
    Seq::new(t.len(), |i: int| SectionType::Number(t[i]))
}

/// A walk about to start at `.run`.
pub open spec fn walk_start(t: Map<SectionType, Seq<ActionV>>) -> WalkV {
    WalkV {
        table: t,
        visited: Set::empty(),
        to_visit: seq![],
        position: SectionType::Run,
        changes: false,
        done: None,
    }
}

/// One step of the walk: pass over a seen section, or combine the section
/// at hand and queue the sections that it goes to.
pub open spec fn walk_step(s: WalkV) -> WalkV {
    if s.done is Some {
        s
    } else if s.visited.contains(s.position) {
        if s.to_visit.len() == 0 {
            WalkV { done: Some(Ok(s.changes)), ..s }
        } else {
            WalkV { position: s.to_visit.last(), to_visit: s.to_visit.drop_last(), ..s }
        }
    } else if !s.table.contains_key(s.position) {
        WalkV {
            visited: s.visited.insert(s.position),
            done: Some(Err("Section not found: "@ + section_debug(s.position))),
            ..s
        }
    } else {
        match combine(
            s.table[s.position],
            CombineV { out: seq![], targets: seq![], cfv_empty: s.position == SectionType::Run, changes: s.changes },
        ) {
            Err(m) => WalkV {
                table: s.table.remove(s.position),
                visited: s.visited.insert(s.position),
                done: Some(Err(m)),
                ..s
            },
            Ok(c) => WalkV {
                table: s.table.insert(s.position, c.out),
                visited: s.visited.insert(s.position),
                to_visit: s.to_visit + numbered(c.targets),
                changes: c.changes,
                ..s
            },
        }
    }
}

/// The walk after `k` steps.
pub open spec fn walk_run(s: WalkV, k: nat) -> WalkV
    decreases k,
{
    if k == 0 {
        s
    } else {
        walk_step(walk_run(s, (k - 1) as nat))
    }
}

/// Once the walk is over, further steps leave it as it is: the outcome of a
/// walk is unique.
pub proof fn lemma_walk_done_stable(s: WalkV, k1: nat, k2: nat)
    requires
        walk_run(s, k1).done is Some,
        k1 <= k2,
    ensures
        walk_run(s, k2) == walk_run(s, k1),
    decreases k2,
{
    if k2 > k1 {
        lemma_walk_done_stable(s, k1, (k2 - 1) as nat);
    }
}

/// The model of a result with a text error.
pub open spec fn result_view(r: Result<bool, String>) -> Result<bool, Seq<char>> {
    match r {
        Ok(b) => Ok(b),
        Err(e) => Err(e@),
    }
}

fn contains_section(v: &Vec<SectionType>, k: SectionType) -> (res: bool)
    ensures
        res == v@.contains(k),
{
    let mut i: usize = 0;
    while i < v.len()
        invariant
            i <= v.len(),
            forall|j: int| 0 <= j < i ==> v@[j] != k,
        decreases v.len() - i,
    {
        if v[i] == k {
            return true;
        }
        i = i + 1;
    }
    false
}

fn queue_targets(to_visit: &mut Vec<SectionType>, targets: &Vec<usize>)
    ensures
        final(to_visit)@ == old(to_visit)@ + numbered(targets@),
{
    let mut i: usize = 0;
    while i < targets.len()
        invariant
            i <= targets.len(),
            to_visit@ == old(to_visit)@ + numbered(targets@.subrange(0, i as int)),
        decreases targets.len() - i,
    {
        to_visit.push(SectionType::Number(targets[i]));
        proof {
            assert(old(to_visit)@ + numbered(targets@.subrange(0, i + 1)) =~= (old(to_visit)@ + numbered(
                targets@.subrange(0, i as int),
            )).push(SectionType::Number(targets@[i as int])));
        }
        i = i + 1;
    }
    proof {
        assert(targets@.subrange(0, targets.len() as int) =~= targets@);
    }
}

/// Combines the actions of every section reachable from `.run`, visiting
/// the sections depth first (see `walk_step`).  The result says whether
/// anything changed.
pub fn opcombine_table(table: &mut SectionTable) -> (res: Result<bool, String>)
    requires
        old(table).wf(),
    ensures
        final(table).wf(),
        exists|k: nat|
            walk_run(walk_start(old(table)@), k).done == Some(result_view(res)) && #[trigger] walk_run(
                walk_start(old(table)@),
                k,
            ).table == final(table)@,
{
    let ghost init = walk_start(table@);
    let ghost mut i: nat = 0;
    let mut visited: Vec<SectionType> = Vec::new();
    let ghost mut vset: Set<SectionType> = Set::empty();
    let mut to_visit: Vec<SectionType> = Vec::new();
    let mut position = SectionType::Run;
    let mut changes = false;
    let ghost dom0 = table@.dom();
    proof {
        table.lemma_dom_finite();
    }
    loop
        invariant
            table.wf(),
            table@.dom() == dom0,
            dom0.finite(),
            walk_run(init, i).done is None,
            walk_run(init, i).table == table@,
            walk_run(init, i).visited == vset,
            walk_run(init, i).to_visit == to_visit@,
            walk_run(init, i).position == position,
            walk_run(init, i).changes == changes,
            init == walk_start(old(table)@),
            forall|k: SectionType| visited@.contains(k) <==> vset.contains(k),
        decreases dom0.difference(vset).len(), to_visit@.len(),
    {
        let ghost s = walk_run(init, i);
        if contains_section(&visited, position) {
            match to_visit.pop() {
                None => {
                    proof {
                        assert(walk_run(init, i + 1) == walk_step(s));
                        assert(walk_run(walk_start(old(table)@), i + 1).table == table@);
                    }
                    return Ok(changes);
                },
                Some(p) => {
                    position = p;
                    proof {
                        assert(walk_run(init, i + 1) == walk_step(s));
                        i = i + 1;
                    }
                },
            }
        } else {
            let section = match table.remove(position) {
                None => {
                    let e = concat("Section not found: ", position.debug_text().as_str());
                    proof {
                        assert(table@ =~= s.table);
                        assert(walk_run(init, i + 1) == walk_step(s));
                        assert(walk_run(walk_start(old(table)@), i + 1).table == table@);
                    }
                    return Err(e);
                },
                Some(sec) => sec,
            };
            let ghost vis_before = visited@;
            visited.push(position);
            proof {
                assert(visited@.drop_last() == vis_before);
                assert(dom0.difference(vset.insert(position)) =~= dom0.difference(vset).remove(position));
                vset = vset.insert(position);
                assert forall|k: SectionType| visited@.contains(k) <==> vset.contains(k) by {
                    if visited@.contains(k) && k != position {
                        let j = choose|j: int| 0 <= j < visited@.len() && visited@[j] == k;
                        assert(vis_before[j] == k);
                    }
                    if k == position {
                        assert(visited@[visited@.len() - 1] == k);
                    }
                    if vset.contains(k) && k != position {
                        assert(vis_before.contains(k));
                        let j = choose|j: int| 0 <= j < vis_before.len() && vis_before[j] == k;
                        assert(visited@[j] == k);
                    }
                }
            }
            let at_run = position == SectionType::Run;
            match combine_section(section, at_run, changes) {
                Err(m) => {
                    proof {
                        assert(walk_run(init, i + 1) == walk_step(s));
                        assert(table@ =~= s.table.remove(position));
                        assert(walk_run(walk_start(old(table)@), i + 1).table == table@);
                    }
                    return Err(m);
                },
                Ok((out, targets, _, ch)) => {
                    table.insert(position, out);
                    queue_targets(&mut to_visit, &targets);
                    changes = ch;
                    proof {
                        assert(walk_run(init, i + 1) == walk_step(s));
                        assert(table@.dom() =~= dom0);
                        i = i + 1;
                    }
                },
            }
        }
    }
}

// ---------------------------------------------------------------------
// Removing empty sections and merging sections jumped to only once.
// ---------------------------------------------------------------------

/// The actions of `s` before its last `Jump(num)`, if it has one.
pub open spec fn cut_at_jump(s: Seq<ActionV>, num: usize) -> Option<Seq<ActionV>>
    decreases s.len(),
{
    if s.len() == 0 {
        None
    } else if s.last() == ActionV::Jump(num) {
        Some(s.drop_last())
    } else {
        cut_at_jump(s.drop_last(), num)
    }
}

/// What is known of each section reached from `.run`: its length, the
/// sections it jumps to and the sections that jump to it.
struct JumpInfo {
    name: SectionType,
    len: usize,
    to: Vec<SectionType>,
    from: Vec<SectionType>,
}

/// Whether one of the actions `s` jumps, branches or roots to section `k`.
pub open spec fn leads_to(s: Seq<ActionV>, k: SectionType) -> bool {
    exists|i: int|
        0 <= i < s.len() && match #[trigger] s[i] {
            ActionV::Jump(n) | ActionV::Branch(n) | ActionV::Root(n) => k == SectionType::Number(n),
            _ => false,
        }
}

/// Whether `reach` holds `.run` and whatever a section of `t` in it leads to.
pub open spec fn closed_from_run(t: Map<SectionType, Seq<ActionV>>, reach: Set<SectionType>) -> bool {
    &&& reach.contains(SectionType::Run)
    &&& forall|a: SectionType, b: SectionType|
        #![trigger reach.contains(a), leads_to(t[a], b)]
        reach.contains(a) && t.contains_key(a) && leads_to(t[a], b) ==> reach.contains(b)
}

/// Whether section `k` is reached from `.run` in `t`.
pub open spec fn reached(t: Map<SectionType, Seq<ActionV>>, k: SectionType) -> bool {
    forall|reach: Set<SectionType>| #[trigger] closed_from_run(t, reach) ==> reach.contains(k)
}

/// Whether every section reached from `.run` is in `t`.
pub open spec fn reached_present(t: Map<SectionType, Seq<ActionV>>) -> bool {
    exists|reach: Set<SectionType>| #[trigger] closed_from_run(t, reach) && reach.subset_of(t.dom())
}

/// Whether the records have an entry for section `k`.
spec fn has_name(v: Seq<JumpInfo>, k: SectionType) -> bool {
    exists|j: int| 0 <= j < v.len() && v[j].name == k
}

/// The sections that `s` names.
pub open spec fn set_of(s: Seq<SectionType>) -> Set<SectionType> {
    Set::new(|x: SectionType| s.contains(x))
}

/// What a record says of its section: its length, the sections it jumps to
/// and the sections that jump to it.
spec fn info_view(j: JumpInfo) -> (usize, Set<SectionType>, Set<SectionType>) {
    (j.len, set_of(j.to@), set_of(j.from@))
}

/// Whether no two records are of the same section.
spec fn names_unique(v: Seq<JumpInfo>) -> bool {
    forall|i: int, j: int| 0 <= i < j < v.len() ==> (#[trigger] v[i]).name != (#[trigger] v[j]).name
}

/// Whether no record lists a section twice among those that jump to it.
spec fn froms_distinct(v: Seq<JumpInfo>) -> bool {
    forall|i: int| 0 <= i < v.len() ==> (#[trigger] v[i]).from@.no_duplicates()
}

/// The records, by section.
spec fn info_map(v: Seq<JumpInfo>) -> Map<SectionType, (usize, Set<SectionType>, Set<SectionType>)>
    decreases v.len(),
{
    if v.len() == 0 {
        Map::empty()
    } else {
        info_map(v.drop_last()).insert(v.last().name, info_view(v.last()))
    }
}

/// The record of `k` in `m` after `from` is found to jump to `k`.
spec fn jumped_from(
    m: Map<SectionType, (usize, Set<SectionType>, Set<SectionType>)>,
    k: SectionType,
    from: SectionType,
) -> (usize, Set<SectionType>, Set<SectionType>) {
    if m.contains_key(k) {
        (m[k].0, m[k].1, m[k].2.insert(from))
    } else {
        (0, Set::empty(), set![from])
    }
}

/// The record of `k` in `m` after it is found to jump to `to`.
spec fn jumps_to(
    m: Map<SectionType, (usize, Set<SectionType>, Set<SectionType>)>,
    k: SectionType,
    to: SectionType,
) -> (usize, Set<SectionType>, Set<SectionType>) {
    if m.contains_key(k) {
        (m[k].0, m[k].1.insert(to), m[k].2)
    } else {
        (0, set![to], Set::empty())
    }
}

/// The record of `k` in `m` with its length set to `len`.
spec fn with_len(
    m: Map<SectionType, (usize, Set<SectionType>, Set<SectionType>)>,
    k: SectionType,
    len: usize,
) -> (usize, Set<SectionType>, Set<SectionType>) {
    if m.contains_key(k) {
        (len, m[k].1, m[k].2)
    } else {
        (len, Set::empty(), Set::empty())
    }
}

proof fn lemma_info_map_dom(v: Seq<JumpInfo>)
    ensures
        forall|k: SectionType| info_map(v).contains_key(k) <==> has_name(v, k),
    decreases v.len(),
{
    if v.len() > 0 {
        lemma_info_map_dom(v.drop_last());
        assert forall|k: SectionType| info_map(v).contains_key(k) <==> has_name(v, k) by {
            if has_name(v.drop_last(), k) {
                let j = choose|j: int| 0 <= j < v.drop_last().len() && v.drop_last()[j].name == k;
                assert(v[j].name == k);
            }
            if has_name(v, k) && k != v.last().name {
                let j = choose|j: int| 0 <= j < v.len() && v[j].name == k;
                assert(v.drop_last()[j].name == k);
            }
        }
    }
}

proof fn lemma_info_map_at(v: Seq<JumpInfo>, i: int)
    requires
        names_unique(v),
        0 <= i < v.len(),
    ensures
        info_map(v).contains_key(v[i].name),
        info_map(v)[v[i].name] == info_view(v[i]),
    decreases v.len(),
{
    if i < v.len() - 1 {
        let w = v.drop_last();
        assert(names_unique(w)) by {
            assert forall|a: int, b: int| 0 <= a < b < w.len() implies (#[trigger] w[a]).name != (#[trigger] w[b]).name by {
                assert(v[a] == w[a] && v[b] == w[b]);
            }
        }
        assert(w[i] == v[i]);
        assert(v[i].name != v[v.len() - 1].name);
        lemma_info_map_at(w, i);
    }
}

proof fn lemma_info_map_remove(v: Seq<JumpInfo>, i: int)
    requires
        names_unique(v),
        0 <= i < v.len(),
    ensures
        names_unique(v.remove(i)),
        info_map(v.remove(i)) == info_map(v).remove(v[i].name),
{
    let w = v.remove(i);
    assert forall|a: int| 0 <= a < w.len() implies #[trigger] w[a] == (if a < i {
        v[a]
    } else {
        v[a + 1]
    }) by {}
    assert(names_unique(w)) by {
        assert forall|a: int, b: int| 0 <= a < b < w.len() implies (#[trigger] w[a]).name != (#[trigger] w[b]).name by {
            if a < i && b >= i {
                assert(v[a].name != v[b + 1].name);
            }
        }
    }
    lemma_info_map_dom(v);
    lemma_info_map_dom(w);
    assert forall|k: SectionType| #[trigger] info_map(w).contains_key(k) <==> info_map(v).remove(v[i].name).contains_key(k) by {
        if has_name(w, k) {
            let a = choose|a: int| 0 <= a < w.len() && w[a].name == k;
            if a < i {
                assert(v[a].name == k && v[a].name != v[i].name);
            } else {
                assert(v[a + 1].name == k && v[a + 1].name != v[i].name);
            }
        }
        if has_name(v, k) && k != v[i].name {
            let a = choose|a: int| 0 <= a < v.len() && v[a].name == k;
            if a < i {
                assert(w[a].name == k);
            } else {
                assert(a != i);
                assert(w[a - 1].name == k);
            }
        }
    }
    assert forall|k: SectionType| #[trigger] info_map(w).contains_key(k) implies info_map(w)[k] == info_map(v)[k] by {
        assert(has_name(w, k));
        let a = choose|a: int| 0 <= a < w.len() && w[a].name == k;
        lemma_info_map_at(w, a);
        if a < i {
            lemma_info_map_at(v, a);
        } else {
            lemma_info_map_at(v, a + 1);
        }
    }
    assert(info_map(w) =~= info_map(v).remove(v[i].name));
}

proof fn lemma_info_map_push(v: Seq<JumpInfo>, e: JumpInfo)
    requires
        names_unique(v),
        !has_name(v, e.name),
    ensures
        names_unique(v.push(e)),
        info_map(v.push(e)) == info_map(v).insert(e.name, info_view(e)),
{
    let w = v.push(e);
    assert(w.drop_last() =~= v);
    assert forall|a: int, b: int| 0 <= a < b < w.len() implies (#[trigger] w[a]).name != (#[trigger] w[b]).name by {
        if b == w.len() - 1 {
            assert(w[a] == v[a]);
        } else {
            assert(w[a] == v[a] && w[b] == v[b]);
        }
    }
}

fn find_info(jumps: &Vec<JumpInfo>, k: SectionType) -> (res: Option<usize>)
    ensures
        res matches Some(i) ==> i < jumps@.len() && jumps@[i as int].name == k,
        res is None ==> forall|j: int| 0 <= j < jumps@.len() ==> jumps@[j].name != k,
{
    let mut i: usize = 0;
    while i < jumps.len()
        invariant
            i <= jumps.len(),
            forall|j: int| 0 <= j < i ==> jumps@[j].name != k,
        decreases jumps.len() - i,
    {
        if jumps[i].name == k {
            return Some(i);
        }
        i = i + 1;
    }
    None
}

fn add_unique(v: &mut Vec<SectionType>, k: SectionType)
    ensures
        final(v)@.contains(k),
        forall|x: SectionType| old(v)@.contains(x) ==> final(v)@.contains(x),
        set_of(final(v)@) == set_of(old(v)@).insert(k),
        old(v)@.no_duplicates() ==> final(v)@.no_duplicates(),
{
    if !contains_section(v, k) {
        v.push(k);
        proof {
            if old(v)@.no_duplicates() {
                assert forall|a: int, b: int| 0 <= a < v@.len() && 0 <= b < v@.len() && a != b implies v@[a] != v@[b] by {
                    if a < old(v)@.len() && b < old(v)@.len() {
                        assert(old(v)@[a] == v@[a] && old(v)@[b] == v@[b]);
                    } else if a < old(v)@.len() {
                        assert(old(v)@[a] == v@[a]);
                        assert(old(v)@.contains(v@[a]));
                    } else {
                        assert(old(v)@[b] == v@[b]);
                        assert(old(v)@.contains(v@[b]));
                    }
                }
            }
            assert(v@[v@.len() - 1] == k);
            assert forall|x: SectionType| old(v)@.contains(x) implies v@.contains(x) by {
                let j = choose|j: int| 0 <= j < old(v)@.len() && old(v)@[j] == x;
                assert(v@[j] == x);
            }
            assert forall|x: SectionType| v@.contains(x) implies old(v)@.contains(x) || x == k by {
                let j = choose|j: int| 0 <= j < v@.len() && v@[j] == x;
                if j < old(v)@.len() {
                    assert(old(v)@[j] == x);
                }
            }
        }
    }
    proof {
        assert(set_of(v@) =~= set_of(old(v)@).insert(k));
    }
}

/// Records the length of section `k`, adding its entry if needed.
fn set_len(jumps: &mut Vec<JumpInfo>, k: SectionType, len: usize)
    requires
        names_unique(old(jumps)@),
    ensures
        exists|i: int| 0 <= i < final(jumps)@.len() && final(jumps)@[i].name == k,
        forall|i: int|
            0 <= i < final(jumps)@.len() ==> final(jumps)@[i].name == k || has_name(old(jumps)@, #[trigger] final(jumps)@[i].name),
        names_unique(final(jumps)@),
        info_map(final(jumps)@) == info_map(old(jumps)@).insert(k, with_len(info_map(old(jumps)@), k, len)),
        froms_distinct(old(jumps)@) ==> froms_distinct(final(jumps)@),
{
    let ghost m = info_map(jumps@);
    proof {
        lemma_info_map_dom(jumps@);
    }
    match find_info(jumps, k) {
        Some(i) => {
            let ghost before = jumps@;
            let mut info = jumps.remove(i);
            proof {
                assert(before[i as int] == info);
                lemma_info_map_at(before, i as int);
                lemma_info_map_remove(before, i as int);
                lemma_info_map_dom(jumps@);
            }
            info.len = len;
            let ghost mid = jumps@;
            jumps.push(info);
            proof {
                lemma_info_map_push(mid, info);
                assert(info_map(jumps@) =~= m.insert(k, with_len(m, k, len)));
                assert(jumps@[jumps@.len() - 1].name == k);
                assert forall|a: int| 0 <= a < jumps@.len() implies jumps@[a].name == k || has_name(before, #[trigger] jumps@[a].name) by {
                    if a < jumps@.len() - 1 {
                        if a < i {
                            assert(before[a] == jumps@[a]);
                        } else {
                            assert(before[a + 1] == jumps@[a]);
                        }
                    }
                }
            }
        },
        None => {
            let ghost before = jumps@;
            let e = JumpInfo { name: k, len, to: Vec::new(), from: Vec::new() };
            jumps.push(e);
            proof {
                lemma_info_map_push(before, e);
                assert(set_of(e.to@) =~= Set::<SectionType>::empty());
                assert(set_of(e.from@) =~= Set::<SectionType>::empty());
                assert(info_map(jumps@) =~= m.insert(k, with_len(m, k, len)));
                assert(jumps@[jumps@.len() - 1].name == k);
                assert forall|a: int| 0 <= a < jumps@.len() implies jumps@[a].name == k || has_name(before, #[trigger] jumps@[a].name) by {
                    if a < jumps@.len() - 1 {
                        assert(before[a] == jumps@[a]);
                    }
                }
            }
        },
    }
}

/// Adds `from` to the sections that jump to `k`, making its entry if needed.
fn add_from(jumps: &mut Vec<JumpInfo>, k: SectionType, from: SectionType)
    requires
        names_unique(old(jumps)@),
    ensures
        names_unique(final(jumps)@),
        info_map(final(jumps)@) == info_map(old(jumps)@).insert(k, jumped_from(info_map(old(jumps)@), k, from)),
        forall|i: int|
            0 <= i < final(jumps)@.len() ==> final(jumps)@[i].name == k || has_name(old(jumps)@, #[trigger] final(jumps)@[i].name),
        froms_distinct(old(jumps)@) ==> froms_distinct(final(jumps)@),
{
    let ghost m = info_map(jumps@);
    let ghost before = jumps@;
    proof {
        lemma_info_map_dom(jumps@);
    }
    match find_info(jumps, k) {
        Some(i) => {
            let mut info = jumps.remove(i);
            proof {
                assert(before[i as int] == info);
                lemma_info_map_at(before, i as int);
                lemma_info_map_remove(before, i as int);
                lemma_info_map_dom(jumps@);
            }
            let ghost orig = info;
            add_unique(&mut info.from, from);
            let ghost mid = jumps@;
            jumps.push(info);
            proof {
                lemma_info_map_push(mid, info);
                assert(m[k] == info_view(orig));
                assert(info_view(info) == jumped_from(m, k, from));
                assert(info.name == k);
                assert(info_map(mid) == m.remove(k));
                assert(info_map(jumps@) == info_map(mid).insert(k, info_view(info)));
                assert(m.remove(k).insert(k, info_view(info)) =~= m.insert(k, info_view(info)));
                assert(info_map(jumps@) == m.insert(k, jumped_from(m, k, from)));
                assert forall|a: int| 0 <= a < jumps@.len() implies jumps@[a].name == k || has_name(before, #[trigger] jumps@[a].name) by {
                    if a < jumps@.len() - 1 {
                        if a < i {
                            assert(before[a] == jumps@[a]);
                        } else {
                            assert(before[a + 1] == jumps@[a]);
                        }
                    }
                }
            }
        },
        None => {
            let mut f: Vec<SectionType> = Vec::new();
            f.push(from);
            let e = JumpInfo { name: k, len: 0, to: Vec::new(), from: f };
            jumps.push(e);
            proof {
                lemma_info_map_push(before, e);
                assert(set_of(e.to@) =~= Set::<SectionType>::empty());
                assert(e.from@[0] == from);
                assert(set_of(e.from@) =~= set![from]);
                assert(!has_name(before, k));
                assert(!m.contains_key(k));
                assert(info_view(e) == jumped_from(m, k, from));
                assert(info_map(jumps@) =~= m.insert(k, jumped_from(m, k, from)));
                assert forall|a: int| 0 <= a < jumps@.len() implies jumps@[a].name == k || has_name(before, #[trigger] jumps@[a].name) by {
                    if a < jumps@.len() - 1 {
                        assert(before[a] == jumps@[a]);
                    }
                }
            }
        },
    }
}

/// Adds `to` to the sections that `k` jumps to, making its entry if needed.
fn add_to(jumps: &mut Vec<JumpInfo>, k: SectionType, to: SectionType)
    requires
        names_unique(old(jumps)@),
    ensures
        names_unique(final(jumps)@),
        info_map(final(jumps)@) == info_map(old(jumps)@).insert(k, jumps_to(info_map(old(jumps)@), k, to)),
        forall|i: int|
            0 <= i < final(jumps)@.len() ==> final(jumps)@[i].name == k || has_name(old(jumps)@, #[trigger] final(jumps)@[i].name),
        froms_distinct(old(jumps)@) ==> froms_distinct(final(jumps)@),
{
    let ghost m = info_map(jumps@);
    let ghost before = jumps@;
    proof {
        lemma_info_map_dom(jumps@);
    }
    match find_info(jumps, k) {
        Some(i) => {
            let mut info = jumps.remove(i);
            proof {
                assert(before[i as int] == info);
                lemma_info_map_at(before, i as int);
                lemma_info_map_remove(before, i as int);
                lemma_info_map_dom(jumps@);
            }
            let ghost orig = info;
            add_unique(&mut info.to, to);
            let ghost mid = jumps@;
            jumps.push(info);
            proof {
                lemma_info_map_push(mid, info);
                assert(m[k] == info_view(orig));
                assert(info_view(info) == jumps_to(m, k, to));
                assert(info.name == k);
                assert(info_map(mid) == m.remove(k));
                assert(info_map(jumps@) == info_map(mid).insert(k, info_view(info)));
                assert(m.remove(k).insert(k, info_view(info)) =~= m.insert(k, info_view(info)));
                assert(info_map(jumps@) == m.insert(k, jumps_to(m, k, to)));
                assert forall|a: int| 0 <= a < jumps@.len() implies jumps@[a].name == k || has_name(before, #[trigger] jumps@[a].name) by {
                    if a < jumps@.len() - 1 {
                        if a < i {
                            assert(before[a] == jumps@[a]);
                        } else {
                            assert(before[a + 1] == jumps@[a]);
                        }
                    }
                }
            }
        },
        None => {
            let mut t: Vec<SectionType> = Vec::new();
            t.push(to);
            let e = JumpInfo { name: k, len: 0, to: t, from: Vec::new() };
            jumps.push(e);
            proof {
                lemma_info_map_push(before, e);
                assert(set_of(e.from@) =~= Set::<SectionType>::empty());
                assert(e.to@[0] == to);
                assert(set_of(e.to@) =~= set![to]);
                assert(!has_name(before, k));
                assert(!m.contains_key(k));
                assert(info_view(e) == jumps_to(m, k, to));
                assert(info_map(jumps@) =~= m.insert(k, jumps_to(m, k, to)));
                assert forall|a: int| 0 <= a < jumps@.len() implies jumps@[a].name == k || has_name(before, #[trigger] jumps@[a].name) by {
                    if a < jumps@.len() - 1 {
                        assert(before[a] == jumps@[a]);
                    }
                }
            }
        },
    }
}

/// The records after `from` is found to jump to `to`.
spec fn jump_added(
    m: Map<SectionType, (usize, Set<SectionType>, Set<SectionType>)>,
    from: SectionType,
    to: SectionType,
) -> Map<SectionType, (usize, Set<SectionType>, Set<SectionType>)> {
    let m1 = m.insert(to, jumped_from(m, to, from));
    m1.insert(from, jumps_to(m1, from, to))
}

/// Records that section `from` jumps to section `to`.
fn add_jump(jumps: &mut Vec<JumpInfo>, from: SectionType, to: SectionType)
    requires
        names_unique(old(jumps)@),
    ensures
        forall|i: int|
            0 <= i < final(jumps)@.len() ==> final(jumps)@[i].name == from || final(jumps)@[i].name == to
                || has_name(old(jumps)@, #[trigger] final(jumps)@[i].name),
        names_unique(final(jumps)@),
        info_map(final(jumps)@) == jump_added(info_map(old(jumps)@), from, to),
        froms_distinct(old(jumps)@) ==> froms_distinct(final(jumps)@),
{
    let ghost j0 = jumps@;
    add_from(jumps, to, from);
    let ghost j1 = jumps@;
    add_to(jumps, from, to);
    proof {
        assert forall|i: int| 0 <= i < jumps@.len() implies jumps@[i].name == from || jumps@[i].name == to
            || has_name(j0, #[trigger] jumps@[i].name) by {
            let x = jumps@[i].name;
            if x != from {
                let q = choose|q: int| 0 <= q < j1.len() && j1[q].name == x;
                assert(j1[q].name == to || has_name(j0, j1[q].name));
            }
        }
    }
}

/// Cuts section `t` at its last `Jump(num)` and puts `tail` after what is
/// left.  On an error, the section holds what was left when it ran out.
fn cut_section(
    table: &mut SectionTable,
    t: SectionType,
    num: usize,
    tail: Vec<Action>,
    pass: &str,
) -> (res: Result<usize, String>)
    requires
        old(table).wf(),
    ensures
        final(table).wf(),
        final(table)@.dom() == old(table)@.dom(),
        !old(table)@.contains_key(t) ==> res is Err,
        old(table)@.contains_key(t) ==> match cut_at_jump(old(table)@[t], num) {
            Some(p) => res == Ok::<usize, String>((p.len() + tail@.len()) as usize) && final(table)@ == old(
                table,
            )@.insert(t, p + actions_view(tail@)),
            None => res is Err && final(table)@ == old(table)@.insert(t, Seq::<ActionV>::empty()),
        },
{
    let mut body = match table.remove(t) {
        None => {
            let a = concat(pass, ": Destination ");
            let b = concat(a.as_str(), t.debug_text().as_str());
            return Err(concat(b.as_str(), " not found"));
        },
        Some(b) => b,
    };
    let ghost whole = actions_view(body@);
    loop
        invariant
            table.wf(),
            table@ == old(table)@.remove(t),
            old(table)@.contains_key(t),
            whole == old(table)@[t],
            cut_at_jump(actions_view(body@), num) == cut_at_jump(whole, num),
        decreases body@.len(),
    {
        let ghost before = body@;
        match body.pop() {
            None => {
                proof {
                    assert(actions_view(body@) =~= Seq::<ActionV>::empty());
                    assert(table@.insert(t, Seq::<ActionV>::empty()) =~= old(table)@.insert(t, Seq::<ActionV>::empty()));
                }
                table.insert(t, body);
                proof {
                    assert(table@.dom() =~= old(table)@.dom());
                }
                return Err(concat(pass, ": No jump found in section"));
            },
            Some(a) => {
                proof {
                    assert(actions_view(body@) =~= actions_view(before).drop_last());
                    assert(actions_view(before).last() == a@);
                }
                let found = match a {
                    Action::Jump(n) => n == num,
                    _ => false,
                };
                if found {
                    let ghost tail0 = tail@;
                    let mut tail = tail;
                    let ghost kept = actions_view(body@);
                    body.append(&mut tail);
                    proof {
                        assert(actions_view(body@) =~= kept + actions_view(tail0));
                    }
                    let n = body.len();
                    table.insert(t, body);
                    proof {
                        assert(table@ =~= old(table)@.insert(t, kept + actions_view(tail0)));
                        assert(table@.dom() =~= old(table)@.dom());
                    }
                    return Ok(n);
                }
            },
        }
    }
}

proof fn lemma_leads_to_step(s: Seq<ActionV>, i: int, b: SectionType)
    requires
        0 <= i < s.len(),
        leads_to(s.take(i + 1), b),
    ensures
        leads_to(s.take(i), b) || match s[i] {
            ActionV::Jump(n) | ActionV::Branch(n) | ActionV::Root(n) => b == SectionType::Number(n),
            _ => false,
        },
{
    let j = choose|j: int|
        0 <= j < s.take(i + 1).len() && match #[trigger] s.take(i + 1)[j] {
            ActionV::Jump(n) | ActionV::Branch(n) | ActionV::Root(n) => b == SectionType::Number(n),
            _ => false,
        };
    if j < i {
        assert(s.take(i)[j] == s.take(i + 1)[j]);
    }
}

/// Whether one of the actions `s` jumps to section `k`.
pub open spec fn has_jump_to(s: Seq<ActionV>, k: SectionType) -> bool {
    exists|i: int| 0 <= i < s.len() && (#[trigger] s[i]) is Jump && k == SectionType::Number(s[i]->Jump_0)
}

/// The sections reached from `.run` in `t` that jump to section `k`.
pub open spec fn jumpers(t: Map<SectionType, Seq<ActionV>>, k: SectionType) -> Set<SectionType> {
    Set::new(|a: SectionType| reached(t, a) && t.contains_key(a) && has_jump_to(t[a], k))
}

/// The sections of `vs`, and `p` as far as its actions `pre`, that jump to `k`.
spec fn seen_jumpers(
    t: Map<SectionType, Seq<ActionV>>,
    vs: Set<SectionType>,
    p: SectionType,
    pre: Seq<ActionV>,
    k: SectionType,
) -> Set<SectionType> {
    Set::new(|a: SectionType| (vs.contains(a) && t.contains_key(a) && has_jump_to(t[a], k)) || (a == p && has_jump_to(pre, k)))
}

proof fn lemma_jump_step(s: Seq<ActionV>, i: int, k: SectionType)
    requires
        0 <= i < s.len(),
    ensures
        has_jump_to(s.take(i + 1), k) <==> has_jump_to(s.take(i), k) || (s[i] is Jump && k == SectionType::Number(
            s[i]->Jump_0,
        )),
{
    if has_jump_to(s.take(i + 1), k) {
        let j = choose|j: int|
            0 <= j < s.take(i + 1).len() && (#[trigger] s.take(i + 1)[j]) is Jump && k == SectionType::Number(
                s.take(i + 1)[j]->Jump_0,
            );
        if j < i {
            assert(s.take(i)[j] == s.take(i + 1)[j]);
        }
    }
    if has_jump_to(s.take(i), k) {
        let j = choose|j: int|
            0 <= j < s.take(i).len() && (#[trigger] s.take(i)[j]) is Jump && k == SectionType::Number(
                s.take(i)[j]->Jump_0,
            );
        assert(s.take(i + 1)[j] == s.take(i)[j]);
    }
    if s[i] is Jump && k == SectionType::Number(s[i]->Jump_0) {
        assert(s.take(i + 1)[i] == s[i]);
    }
}

proof fn lemma_single_from(s: Seq<SectionType>, a: SectionType)
    requires
        s.no_duplicates(),
        set_of(s) == set![a],
    ensures
        s.len() == 1,
        s[0] == a,
{
    assert(set_of(s).contains(a));
    let i = choose|i: int| 0 <= i < s.len() && s[i] == a;
    if s.len() > 1 {
        let j = if i == 0 { 1int } else { 0int };
        assert(set_of(s).contains(s[j]));
        assert(s[j] == a);
    }
    assert(set_of(s).contains(s[0]));
}

/// The sections reached from `.run`, and a record of each: its length and
/// the sections that jump to it.  It fails, naming the section, when a
/// section reached is not in the table.
#[verifier::loop_isolation(false)]
fn reach_info(table: &SectionTable) -> (res: Result<(Vec<SectionType>, Vec<JumpInfo>), String>)
    requires
        table.wf(),
    ensures
        res is Ok <==> reached_present(table@),
        res matches Err(e) ==> exists|k: SectionType|
            #[trigger] reached(table@, k) && !table@.contains_key(k) && e@ == "Section not found: "@ + section_debug(k),
        res matches Ok((vis, jumps)) ==> {
            &&& forall|k: SectionType| vis@.contains(k) <==> #[trigger] reached(table@, k)
            &&& names_unique(jumps@)
            &&& froms_distinct(jumps@)
            &&& forall|k: SectionType| #[trigger] info_map(jumps@).contains_key(k) <==> reached(table@, k)
            &&& forall|k: SectionType|
                #[trigger] info_map(jumps@).contains_key(k) ==> info_map(jumps@)[k].0 as int == table@[k].len()
                    && info_map(jumps@)[k].2 == jumpers(table@, k)
        },
{
    // First pass: the length of each section reached, and its jumps.
    let mut jumps: Vec<JumpInfo> = Vec::new();
    let mut visited: Vec<SectionType> = Vec::new();
    let ghost mut vset: Set<SectionType> = Set::empty();
    let mut to_visit: Vec<SectionType> = Vec::new();
    let mut position = SectionType::Run;
    let ghost dom0 = table@.dom();
    proof {
        table.lemma_dom_finite();
    }
    loop
        invariant
            table.wf(),
            dom0 == table@.dom(),
            dom0.finite(),
            forall|k: SectionType| visited@.contains(k) <==> vset.contains(k),
            names_unique(jumps@),
            froms_distinct(jumps@),
            forall|k: SectionType|
                #[trigger] info_map(jumps@).contains_key(k) ==> info_map(jumps@)[k].0 as int == (if vset.contains(k) {
                    table@[k].len() as int
                } else {
                    0int
                }) && info_map(jumps@)[k].2 == seen_jumpers(table@, vset, SectionType::Run, Seq::empty(), k),
            forall|a: SectionType, k: SectionType|
                #![trigger vset.contains(a), has_jump_to(table@[a], k)]
                vset.contains(a) && has_jump_to(table@[a], k) ==> info_map(jumps@).contains_key(k),
            forall|k: SectionType| #[trigger] vset.contains(k) ==> info_map(jumps@).contains_key(k),
            forall|k: SectionType| vset.contains(k) ==> dom0.contains(k),
            forall|i: int|
                0 <= i < jumps@.len() ==> vset.contains(#[trigger] jumps@[i].name) || to_visit@.contains(
                    jumps@[i].name,
                ) || jumps@[i].name == position,
            forall|r: Set<SectionType>|
                #[trigger] closed_from_run(table@, r) ==> r.contains(position) && (forall|k: SectionType|
                    vset.contains(k) ==> r.contains(k)) && (forall|j: int|
                    0 <= j < to_visit@.len() ==> r.contains(to_visit@[j])),
            forall|a: SectionType, b: SectionType|
                #![trigger vset.contains(a), leads_to(table@[a], b)]
                vset.contains(a) && leads_to(table@[a], b) ==> vset.contains(b) || to_visit@.contains(b) || b
                    == position,
            vset.contains(SectionType::Run) || position == SectionType::Run,
        decreases dom0.difference(vset).len(), to_visit@.len(),
    {
        let ghost pos0 = position;
        let ghost tv0 = to_visit@;
        if contains_section(&visited, position) {
            match to_visit.pop() {
                None => {
                    proof {
                        assert(closed_from_run(table@, vset));
                        assert(vset.subset_of(table@.dom()));
                        assert(reached_present(table@));
                    }
                    break;
                },
                Some(p) => {
                    position = p;
                    proof {
                        assert(tv0 == to_visit@.push(p));
                        assert forall|r: Set<SectionType>| #[trigger] closed_from_run(table@, r) implies r.contains(
                            position,
                        ) && (forall|k: SectionType| vset.contains(k) ==> r.contains(k)) && (forall|j: int|
                            0 <= j < to_visit@.len() ==> r.contains(to_visit@[j])) by {
                            assert(tv0[tv0.len() - 1] == p);
                            assert forall|j: int| 0 <= j < to_visit@.len() implies r.contains(to_visit@[j]) by {
                                assert(tv0[j] == to_visit@[j]);
                            }
                        }
                        assert forall|a: SectionType, b: SectionType|
                            vset.contains(a) && #[trigger] leads_to(table@[a], b) implies vset.contains(b)
                                || to_visit@.contains(b) || b == position by {
                            if tv0.contains(b) && b != position {
                                let j = choose|j: int| 0 <= j < tv0.len() && tv0[j] == b;
                                assert(j != tv0.len() - 1);
                                assert(to_visit@[j] == b);
                            }
                        }
                        assert forall|i: int| 0 <= i < jumps@.len() implies vset.contains(
                            #[trigger] jumps@[i].name,
                        ) || to_visit@.contains(jumps@[i].name) || jumps@[i].name == position by {
                            let x = jumps@[i].name;
                            if tv0.contains(x) && x != position {
                                let j = choose|j: int| 0 <= j < tv0.len() && tv0[j] == x;
                                assert(j != tv0.len() - 1);
                                assert(to_visit@[j] == x);
                            }
                        }
                    }
                    continue;
                },
            }
        }
        let body = match table.get_clone(position) {
            None => {
                proof {
                    assert(reached(table@, position));
                    if reached_present(table@) {
                        let r = choose|r: Set<SectionType>| #[trigger] closed_from_run(table@, r) && r.subset_of(table@.dom());
                        assert(r.contains(position));
                    }
                }
                return Err(concat("Section not found: ", position.debug_text().as_str()));
            },
            Some(b) => b,
        };
        let ghost vset0 = vset;
        let ghost vis_before = visited@;
        visited.push(position);
        proof {
            assert(dom0.difference(vset.insert(position)) =~= dom0.difference(vset).remove(position));
            vset = vset.insert(position);
            assert forall|k: SectionType| visited@.contains(k) <==> vset.contains(k) by {
                if visited@.contains(k) && k != position {
                    let j = choose|j: int| 0 <= j < visited@.len() && visited@[j] == k;
                    assert(vis_before[j] == k);
                }
                if k == position {
                    assert(visited@[visited@.len() - 1] == k);
                }
                if vset.contains(k) && k != position {
                    assert(vis_before.contains(k));
                    let j = choose|j: int| 0 <= j < vis_before.len() && vis_before[j] == k;
                    assert(visited@[j] == k);
                }
            }
        }
        let ghost jb = jumps@;
        set_len(&mut jumps, position, body.len());
        proof {
            let jm = info_map(jb);
            let j2 = info_map(jumps@);
            let t = table@;
            let e = Seq::<ActionV>::empty();
            assert(t[position].take(0) =~= e);
            assert(body@.len() == t[position].len());
            assert forall|k: SectionType| #[trigger] j2.contains_key(k) implies j2[k].0 as int == (if vset.contains(k) {
                t[k].len() as int
            } else {
                0int
            }) && j2[k].2 == seen_jumpers(t, vset0, position, t[position].take(0), k) by {
                assert(seen_jumpers(t, vset0, position, t[position].take(0), k) =~= seen_jumpers(
                    t,
                    vset0,
                    SectionType::Run,
                    e,
                    k,
                ));
                if k == position {
                    if !jm.contains_key(position) {
                        assert forall|a: SectionType| !seen_jumpers(t, vset0, SectionType::Run, e, position).contains(a) by {
                            if vset0.contains(a) && has_jump_to(t[a], position) {
                                assert(jm.contains_key(position));
                            }
                        }
                        assert(seen_jumpers(t, vset0, SectionType::Run, e, position) =~= Set::<SectionType>::empty());
                    }
                } else {
                    assert(jm.contains_key(k));
                }
            }
            assert forall|k: SectionType| #[trigger] vset.contains(k) implies j2.contains_key(k) by {
                if k != position {
                    assert(vset0.contains(k));
                }
            }
            assert forall|i: int| 0 <= i < jumps@.len() implies vset.contains(#[trigger] jumps@[i].name)
                || to_visit@.contains(jumps@[i].name) by {
                let x = jumps@[i].name;
                if x != position {
                    let j = choose|j: int| 0 <= j < jb.len() && jb[j].name == x;
                    assert(vset.contains(jb[j].name) || to_visit@.contains(jb[j].name) || jb[j].name == pos0);
                }
            }
        }
        let mut i: usize = 0;
        proof {
            assert(actions_view(body@).take(0) =~= Seq::<ActionV>::empty());
            assert(vset == vset0.insert(position));
            assert forall|a: SectionType, b: SectionType|
                vset0.contains(a) && #[trigger] leads_to(table@[a], b) implies vset.contains(b) || to_visit@.contains(b) by {
                assert(vset.contains(a));
            }
        }
        while i < body.len()
            invariant
                i <= body.len(),
                vset.contains(position),
                vset == vset0.insert(position),
                names_unique(jumps@),
                froms_distinct(jumps@),
                forall|k: SectionType|
                    #[trigger] info_map(jumps@).contains_key(k) ==> info_map(jumps@)[k].0 as int == (if vset.contains(
                        k,
                    ) {
                        table@[k].len() as int
                    } else {
                        0int
                    }) && info_map(jumps@)[k].2 == seen_jumpers(
                        table@,
                        vset0,
                        position,
                        table@[position].take(i as int),
                        k,
                    ),
                forall|a: SectionType, k: SectionType|
                    #![trigger vset0.contains(a), has_jump_to(table@[a], k)]
                    vset0.contains(a) && has_jump_to(table@[a], k) ==> info_map(jumps@).contains_key(k),
                forall|k: SectionType|
                    #[trigger] has_jump_to(table@[position].take(i as int), k) ==> info_map(jumps@).contains_key(k),
                forall|k: SectionType| #[trigger] vset.contains(k) ==> info_map(jumps@).contains_key(k),
                actions_view(body@) == table@[position],
                table@.contains_key(position),
                forall|k: SectionType| vset.contains(k) ==> dom0.contains(k),
                forall|r: Set<SectionType>|
                    #[trigger] closed_from_run(table@, r) ==> r.contains(position) && (forall|k: SectionType|
                        vset.contains(k) ==> r.contains(k)) && (forall|j: int|
                        0 <= j < to_visit@.len() ==> r.contains(to_visit@[j])),
                forall|a: SectionType, b: SectionType|
                    #![trigger vset0.contains(a), leads_to(table@[a], b)]
                    vset0.contains(a) && leads_to(table@[a], b) ==> vset.contains(b) || to_visit@.contains(b),
                forall|b: SectionType|
                    #[trigger] leads_to(table@[position].take(i as int), b) ==> vset.contains(b) || to_visit@.contains(
                        b,
                    ),
                vset.contains(SectionType::Run),
                forall|i: int|
                    0 <= i < jumps@.len() ==> vset.contains(#[trigger] jumps@[i].name) || to_visit@.contains(
                        jumps@[i].name,
                    ),
            decreases body.len() - i,
        {
            let ghost jb2 = jumps@;
            let ghost tv2 = to_visit@;
            match &body[i] {
                Action::Jump(n) => {
                    add_jump(&mut jumps, position, SectionType::Number(*n));
                    to_visit.push(SectionType::Number(*n));
                    proof {
                        assert(to_visit@[to_visit@.len() - 1] == SectionType::Number(*n));
                        assert forall|a: int| 0 <= a < jumps@.len() implies vset.contains(#[trigger] jumps@[a].name)
                            || to_visit@.contains(jumps@[a].name) by {
                            let x = jumps@[a].name;
                            if x != position && x != SectionType::Number(*n) {
                                let j = choose|j: int| 0 <= j < jb2.len() && jb2[j].name == x;
                                assert(vset.contains(jb2[j].name) || tv2.contains(jb2[j].name));
                                if tv2.contains(x) {
                                    let q = choose|q: int| 0 <= q < tv2.len() && tv2[q] == x;
                                    assert(to_visit@[q] == x);
                                }
                            }
                        }
                    }
                },
                Action::Branch(n) | Action::Root(n) => {
                    to_visit.push(SectionType::Number(*n));
                    proof {
                        assert forall|a: int| 0 <= a < jumps@.len() implies vset.contains(#[trigger] jumps@[a].name)
                            || to_visit@.contains(jumps@[a].name) by {
                            let x = jumps@[a].name;
                            if tv2.contains(x) {
                                let q = choose|q: int| 0 <= q < tv2.len() && tv2[q] == x;
                                assert(to_visit@[q] == x);
                            }
                        }
                    }
                },
                _ => {},
            }
            proof {
                let sq = table@[position];
                let t = table@;
                let jm = info_map(jb2);
                let j2 = info_map(jumps@);
                assert(sq[i as int] == body@[i as int]@);
                assert forall|k: SectionType| #[trigger] j2.contains_key(k) implies j2[k].0 as int == (if vset.contains(k) {
                    t[k].len() as int
                } else {
                    0int
                }) && j2[k].2 == seen_jumpers(t, vset0, position, sq.take(i + 1), k) by {
                    lemma_jump_step(sq, i as int, k);
                    if sq[i as int] is Jump && k == SectionType::Number(sq[i as int]->Jump_0) {
                        if !jm.contains_key(k) {
                            assert forall|a: SectionType| !seen_jumpers(t, vset0, position, sq.take(i as int), k).contains(a) by {
                                if vset0.contains(a) && has_jump_to(t[a], k) {
                                    assert(jm.contains_key(k));
                                }
                                if a == position && has_jump_to(sq.take(i as int), k) {
                                    assert(jm.contains_key(k));
                                }
                            }
                            assert(!vset.contains(k));
                        }
                        assert(seen_jumpers(t, vset0, position, sq.take(i + 1), k) =~= seen_jumpers(
                            t,
                            vset0,
                            position,
                            sq.take(i as int),
                            k,
                        ).insert(position));
                    } else {
                        assert(seen_jumpers(t, vset0, position, sq.take(i + 1), k) =~= seen_jumpers(
                            t,
                            vset0,
                            position,
                            sq.take(i as int),
                            k,
                        ));
                        assert(jm.contains_key(k));
                    }
                }
                assert forall|k: SectionType| #[trigger] has_jump_to(sq.take(i + 1), k) implies j2.contains_key(k) by {
                    lemma_jump_step(sq, i as int, k);
                }
                assert forall|k: SectionType| tv2.contains(k) implies to_visit@.contains(k) by {
                    let q = choose|q: int| 0 <= q < tv2.len() && tv2[q] == k;
                    assert(to_visit@[q] == k);
                }
                assert forall|b: SectionType| #[trigger] leads_to(sq.take(i + 1), b) implies vset.contains(b)
                    || to_visit@.contains(b) by {
                    lemma_leads_to_step(sq, i as int, b);
                    if !leads_to(sq.take(i as int), b) {
                        assert(to_visit@[to_visit@.len() - 1] == b);
                    }
                }
                assert forall|r: Set<SectionType>| #[trigger] closed_from_run(table@, r) implies r.contains(position)
                    && (forall|k: SectionType| vset.contains(k) ==> r.contains(k)) && (forall|j: int|
                    0 <= j < to_visit@.len() ==> r.contains(to_visit@[j])) by {
                    match sq[i as int] {
                        ActionV::Jump(n) | ActionV::Branch(n) | ActionV::Root(n) => {
                            assert(leads_to(sq, SectionType::Number(n)));
                            assert(r.contains(SectionType::Number(n)));
                        },
                        _ => {},
                    }
                    assert forall|j: int| 0 <= j < to_visit@.len() implies r.contains(to_visit@[j]) by {
                        if j < tv2.len() {
                            assert(tv2[j] == to_visit@[j]);
                        }
                    }
                }
                assert forall|a: SectionType, b: SectionType|
                    vset0.contains(a) && #[trigger] leads_to(table@[a], b) implies vset.contains(b)
                        || to_visit@.contains(b) by {
                    assert(vset.contains(b) || tv2.contains(b));
                }
            }
            i = i + 1;
        }
        proof {
            assert(table@[position].take(body@.len() as int) =~= table@[position]);
            assert forall|a: SectionType, b: SectionType|
                vset.contains(a) && #[trigger] leads_to(table@[a], b) implies vset.contains(b) || to_visit@.contains(b)
                    || b == position by {
                if a == position {
                    assert(leads_to(table@[position].take(body@.len() as int), b));
                } else {
                    assert(vset0.contains(a));
                }
            }
        }
    }
    proof {
        let t = table@;
        let j1 = info_map(jumps@);
        lemma_info_map_dom(jumps@);
        assert(closed_from_run(table@, vset));
        assert(to_visit@.len() == 0);
        assert forall|k: SectionType| vset.contains(k) <==> #[trigger] reached(t, k) by {
            if vset.contains(k) {
                assert forall|r: Set<SectionType>| #[trigger] closed_from_run(t, r) implies r.contains(k) by {}
            }
        }
        assert forall|k: SectionType| #[trigger] j1.contains_key(k) implies reached(t, k) && j1[k].0 as int == t[k].len()
            && j1[k].2 == jumpers(t, k) by {
            assert(has_name(jumps@, k));
            let q = choose|q: int| 0 <= q < jumps@.len() && jumps@[q].name == k;
            assert(vset.contains(jumps@[q].name) || to_visit@.contains(jumps@[q].name) || jumps@[q].name == position);
            assert(vset.contains(k));
            assert(seen_jumpers(t, vset, SectionType::Run, Seq::empty(), k) =~= jumpers(t, k));
        }
        assert forall|k: SectionType| #[trigger] reached(t, k) implies j1.contains_key(k) by {
            assert(vset.contains(k));
        }
        assert(vset.subset_of(t.dom()));
    }
    Ok((visited, jumps))
}

/// How many of the actions `s` are `Jump(n)`.
pub open spec fn jump_count(s: Seq<ActionV>, n: usize) -> nat
    decreases s.len(),
{
    if s.len() == 0 {
        0
    } else {
        jump_count(s.drop_last(), n) + if s.last() == ActionV::Jump(n) {
            1nat
        } else {
            0nat
        }
    }
}

/// Whether one of the actions `s` branches or roots to section `.n`.
pub open spec fn branches_to(s: Seq<ActionV>, n: usize) -> bool {
    exists|i: int| 0 <= i < s.len() && (#[trigger] s[i] == ActionV::Branch(n) || s[i] == ActionV::Root(n))
}

/// Whether section `.n` of `t` can go: it is reached from `.run`; no section
/// reached branches or roots to it or jumps to it more than once; and it is
/// empty, or exactly one other section jumps to it.
pub open spec fn removable(t: Map<SectionType, Seq<ActionV>>, n: usize) -> bool {
    &&& reached(t, SectionType::Number(n))
    &&& t.contains_key(SectionType::Number(n))
    &&& forall|a: SectionType|
        #[trigger] reached(t, a) && t.contains_key(a) ==> !branches_to(t[a], n) && jump_count(t[a], n) <= 1
    &&& (t[SectionType::Number(n)].len() == 0 || exists|a: SectionType|
        a != SectionType::Number(n) && #[trigger] jumpers(t, SectionType::Number(n)) == set![a])
}

/// The smallest number of a section of `t` that can go, if any can.
pub open spec fn first_removable(t: Map<SectionType, Seq<ActionV>>) -> Option<usize> {
    if exists|n: usize| removable(t, n) {
        Some(choose|n: usize| removable(t, n) && forall|m: usize| m < n ==> !removable(t, m))
    } else {
        None
    }
}

/// The only section that jumps to `k`, where there is one.
pub open spec fn only_jumper(t: Map<SectionType, Seq<ActionV>>, k: SectionType) -> SectionType {
    choose|a: SectionType| jumpers(t, k) == set![a]
}

/// Section `.n` taken out of `t`: where it is empty, each section reached
/// that jumps to it loses its jump (and what followed it); otherwise it is
/// put in place of the jump of the one section that jumps to it.
pub open spec fn reduce_step(t: Map<SectionType, Seq<ActionV>>, n: usize) -> Map<SectionType, Seq<ActionV>> {
    let k = SectionType::Number(n);
    if t[k].len() == 0 {
        Map::new(
            |a: SectionType| t.contains_key(a) && a != k,
            |a: SectionType|
                if reached(t, a) && has_jump_to(t[a], k) {
                    cut_at_jump(t[a], n)->Some_0
                } else {
                    t[a]
                },
        )
    } else {
        let a = only_jumper(t, k);
        t.remove(k).insert(a, cut_at_jump(t[a], n)->Some_0 + t[k])
    }
}

/// Removing and merging sections until none can go, smallest number first;
/// `None` where some round finds a section reached from `.run` missing.
pub open spec fn reduction(t: Map<SectionType, Seq<ActionV>>) -> Option<Map<SectionType, Seq<ActionV>>>
    decreases t.dom().len(),
    when t.dom().finite()
{
    if !reached_present(t) {
        None
    } else {
        match first_removable(t) {
            None => Some(t),
            Some(n) => if t.contains_key(SectionType::Number(n)) && reduce_step(t, n).dom().finite() && reduce_step(
                t,
                n,
            ).dom().len() < t.dom().len() {
                reduction(reduce_step(t, n))
            } else {
                None
            },
        }
    }
}

/// Whether `.run` is there and empty.
pub open spec fn run_empty(t: Map<SectionType, Seq<ActionV>>) -> bool {
    t.contains_key(SectionType::Run) && t[SectionType::Run].len() == 0
}

proof fn lemma_cut_some(s: Seq<ActionV>, n: usize)
    requires
        has_jump_to(s, SectionType::Number(n)),
    ensures
        cut_at_jump(s, n) is Some,
    decreases s.len(),
{
    let i = choose|i: int| 0 <= i < s.len() && (#[trigger] s[i]) is Jump && SectionType::Number(n) == SectionType::Number(
        s[i]->Jump_0,
    );
    if s.last() != ActionV::Jump(n) {
        assert(i != s.len() - 1);
        assert(s.drop_last()[i] == s[i]);
        lemma_cut_some(s.drop_last(), n);
    }
}

proof fn lemma_reduce_step_dom(t: Map<SectionType, Seq<ActionV>>, n: usize)
    requires
        t.dom().finite(),
        removable(t, n),
    ensures
        reduce_step(t, n).dom() == t.dom().remove(SectionType::Number(n)),
        reduce_step(t, n).dom().finite(),
        reduce_step(t, n).dom().len() < t.dom().len(),
{
    let k = SectionType::Number(n);
    if t[k].len() == 0 {
        assert(reduce_step(t, n).dom() =~= t.dom().remove(k));
    } else {
        let a = only_jumper(t, k);
        let w = choose|w: SectionType| w != k && #[trigger] jumpers(t, k) == set![w];
        assert(jumpers(t, k) == set![a]);
        assert(jumpers(t, k).contains(a));
        assert(a != k) by {
            assert(set![a].contains(w));
        }
        assert(reduce_step(t, n).dom() =~= t.dom().remove(k));
    }
}

proof fn lemma_first_removable(t: Map<SectionType, Seq<ActionV>>, n: usize)
    requires
        removable(t, n),
        forall|m: usize| m < n ==> !removable(t, m),
    ensures
        first_removable(t) == Some(n),
{
    let c = choose|m: usize| removable(t, m) && forall|j: usize| j < m ==> !removable(t, j);
    assert(removable(t, c) && forall|j: usize| j < c ==> !removable(t, j));
    if c < n {
        assert(!removable(t, c));
    }
    if n < c {
        assert(!removable(t, n));
    }
}

/// Whether the actions hold no branch or root to `.n` and at most one jump to it.
fn section_clean(body: &Vec<Action>, n: usize) -> (res: bool)
    ensures
        res == (!branches_to(actions_view(body@), n) && jump_count(actions_view(body@), n) <= 1),
{
    let ghost s = actions_view(body@);
    let mut count: usize = 0;
    let mut i: usize = 0;
    proof {
        assert(s.take(0) =~= Seq::<ActionV>::empty());
    }
    while i < body.len()
        invariant
            i <= body.len(),
            s == actions_view(body@),
            count as nat == jump_count(s.take(i as int), n),
            count <= 1,
            !branches_to(s.take(i as int), n),
        decreases body.len() - i,
    {
        proof {
            assert(s.take(i + 1).drop_last() =~= s.take(i as int));
            assert(s.take(i + 1).last() == body@[i as int]@);
        }
        let hit = match &body[i] {
            Action::Branch(m) | Action::Root(m) => *m == n,
            _ => false,
        };
        if hit {
            proof {
                assert(s.take(i + 1)[i as int] == s[i as int]);
                assert(branches_to(s.take(i + 1), n));
                assert(s[i as int] == ActionV::Branch(n) || s[i as int] == ActionV::Root(n));
                assert(branches_to(s, n));
            }
            return false;
        }
        let jump = match &body[i] {
            Action::Jump(m) => *m == n,
            _ => false,
        };
        if jump {
            if count == 1 {
                proof {
                    assert(jump_count(s.take(i + 1), n) == 2);
                    lemma_jump_count_prefix(s, i + 1, n);
                }
                return false;
            }
            count = count + 1;
        }
        proof {
            assert(!branches_to(s.take(i + 1), n)) by {
                if branches_to(s.take(i + 1), n) {
                    let j = choose|j: int|
                        0 <= j < s.take(i + 1).len() && (#[trigger] s.take(i + 1)[j] == ActionV::Branch(n) || s.take(
                            i + 1,
                        )[j] == ActionV::Root(n));
                    if j < i {
                        assert(s.take(i as int)[j] == s.take(i + 1)[j]);
                    }
                }
            }
        }
        i = i + 1;
    }
    proof {
        assert(s.take(body@.len() as int) =~= s);
    }
    true
}

proof fn lemma_jump_count_prefix(s: Seq<ActionV>, i: int, n: usize)
    requires
        0 <= i <= s.len(),
    ensures
        jump_count(s.take(i), n) <= jump_count(s, n),
    decreases s.len() - i,
{
    if i < s.len() {
        lemma_jump_count_prefix(s, i + 1, n);
        assert(s.take(i + 1).drop_last() =~= s.take(i));
    } else {
        assert(s.take(i) =~= s);
    }
}

/// Whether the sections `vis` hold no branch or root to `.n` and at most one jump to it each.
fn refs_clean(table: &SectionTable, vis: &Vec<SectionType>, n: usize) -> (res: bool)
    requires
        table.wf(),
    ensures
        res == forall|a: SectionType|
            vis@.contains(a) && table@.contains_key(a) ==> !branches_to(table@[a], n) && jump_count(table@[a], n) <= 1,
{
    let mut i: usize = 0;
    while i < vis.len()
        invariant
            table.wf(),
            i <= vis.len(),
            forall|j: int|
                0 <= j < i && table@.contains_key(#[trigger] vis@[j]) ==> !branches_to(table@[vis@[j]], n) && jump_count(
                    table@[vis@[j]],
                    n,
                ) <= 1,
        decreases vis.len() - i,
    {
        match table.get_clone(vis[i]) {
            Some(body) => {
                if !section_clean(&body, n) {
                    proof {
                        assert(vis@.contains(vis@[i as int]));
                    }
                    return false;
                }
            },
            None => {},
        }
        i = i + 1;
    }
    proof {
        assert forall|a: SectionType| vis@.contains(a) && table@.contains_key(a) implies !branches_to(table@[a], n)
            && jump_count(table@[a], n) <= 1 by {
            let j = choose|j: int| 0 <= j < vis@.len() && vis@[j] == a;
        }
    }
    true
}

fn copy_sections(v: &Vec<SectionType>) -> (res: Vec<SectionType>)
    ensures
        res@ == v@,
{
    let mut out: Vec<SectionType> = Vec::new();
    let mut i: usize = 0;
    while i < v.len()
        invariant
            i <= v.len(),
            out@ == v@.take(i as int),
        decreases v.len() - i,
    {
        out.push(v[i]);
        proof {
            assert(out@ =~= v@.take(i + 1));
        }
        i = i + 1;
    }
    proof {
        assert(v@.take(v@.len() as int) =~= v@);
    }
    out
}

/// The facts `reach_info` gives of a table.
spec fn reach_facts(t: Map<SectionType, Seq<ActionV>>, vis: Seq<SectionType>, jumps: Seq<JumpInfo>) -> bool {
    &&& reached_present(t)
    &&& forall|k: SectionType| vis.contains(k) <==> #[trigger] reached(t, k)
    &&& names_unique(jumps)
    &&& froms_distinct(jumps)
    &&& forall|k: SectionType| #[trigger] info_map(jumps).contains_key(k) <==> reached(t, k)
    &&& forall|k: SectionType|
        #[trigger] info_map(jumps).contains_key(k) ==> info_map(jumps)[k].0 as int == t[k].len()
            && info_map(jumps)[k].2 == jumpers(t, k)
}

/// Whether record `r` of section `.m` (with what it says of the sections
/// that jump to it, `from`) makes the section one that can go, refs aside.
proof fn lemma_record_case(t: Map<SectionType, Seq<ActionV>>, m: usize, len: usize, from: Seq<SectionType>)
    requires
        len as int == t[SectionType::Number(m)].len(),
        set_of(from) == jumpers(t, SectionType::Number(m)),
        from.no_duplicates(),
    ensures
        (len == 0 || (from.len() == 1 && from[0] != SectionType::Number(m))) <==> (t[SectionType::Number(
            m,
        )].len() == 0 || exists|a: SectionType|
            a != SectionType::Number(m) && #[trigger] jumpers(t, SectionType::Number(m)) == set![a]),
        from.len() == 1 ==> jumpers(t, SectionType::Number(m)) == set![from[0]],
{
    let k = SectionType::Number(m);
    if from.len() == 1 {
        assert(set_of(from) =~= set![from[0]]);
    }
    if exists|a: SectionType| a != k && #[trigger] jumpers(t, k) == set![a] {
        let a = choose|a: SectionType| a != k && #[trigger] jumpers(t, k) == set![a];
        lemma_single_from(from, a);
    }
    if from.len() == 1 && from[0] != k {
        assert(jumpers(t, k) == set![from[0]]);
    }
}

/// The smallest number of a section that can go (see `first_removable`).
fn find_removable(table: &SectionTable, vis: &Vec<SectionType>, jumps: &Vec<JumpInfo>) -> (res: Option<usize>)
    requires
        table.wf(),
        reach_facts(table@, vis@, jumps@),
    ensures
        res == first_removable(table@),
        res matches Some(n) ==> removable(table@, n),
{
    let ghost t = table@;
    let mut best: Option<usize> = None;
    let mut i: usize = 0;
    while i < jumps.len()
        invariant
            i <= jumps.len(),
            table.wf(),
            table@ == t,
            reach_facts(t, vis@, jumps@),
            best matches Some(b) ==> removable(t, b),
            forall|j: int, m: usize|
                #![trigger jumps@[j], removable(t, m)]
                0 <= j < i && jumps@[j].name == SectionType::Number(m) && removable(t, m) ==> (best matches Some(b)
                    && b <= m),
        decreases jumps.len() - i,
    {
        match jumps[i].name {
            SectionType::Number(m) => {
                let k = SectionType::Number(m);
                proof {
                    lemma_info_map_at(jumps@, i as int);
                    assert(reached(t, k));
                    let r = choose|r: Set<SectionType>| #[trigger] closed_from_run(t, r) && r.subset_of(t.dom());
                    assert(r.contains(k));
                    lemma_record_case(t, m, jumps@[i as int].len, jumps@[i as int].from@);
                    assert(jumps@[i as int].from@.no_duplicates());
                }
                let shape = jumps[i].len == 0 || (jumps[i].from.len() == 1 && jumps[i].from[0] != k);
                let ok = shape && refs_clean(table, vis, m);
                proof {
                    assert(ok == removable(t, m)) by {
                        if shape && !ok {
                            let a = choose|a: SectionType|
                                vis@.contains(a) && t.contains_key(a) && !(!branches_to(t[a], m) && jump_count(t[a], m)
                                    <= 1);
                            assert(reached(t, a));
                        }
                        if ok {
                            assert forall|a: SectionType| #[trigger] reached(t, a) && t.contains_key(a) implies !branches_to(
                                t[a],
                                m,
                            ) && jump_count(t[a], m) <= 1 by {
                                assert(vis@.contains(a));
                            }
                        }
                    }
                }
                if ok {
                    match best {
                        Some(b) => {
                            if m < b {
                                best = Some(m);
                            }
                        },
                        None => {
                            best = Some(m);
                        },
                    }
                }
            },
            _ => {},
        }
        i = i + 1;
    }
    proof {
        lemma_info_map_dom(jumps@);
        assert forall|m: usize| removable(t, m) implies best matches Some(b) && b <= m by {
            assert(info_map(jumps@).contains_key(SectionType::Number(m)));
            assert(has_name(jumps@, SectionType::Number(m)));
            let j = choose|j: int| 0 <= j < jumps@.len() && jumps@[j].name == SectionType::Number(m);
            assert(jumps@[j].name == SectionType::Number(m));
        }
    }
    match best {
        Some(b) => {
            proof {
                lemma_first_removable(t, b);
            }
            Some(b)
        },
        None => None,
    }
}

/// Takes section `.n`, one that can go, out of the table (see `reduce_step`);
/// `from` lists the sections that jump to it and `empty` says whether it is empty.
fn reduce_once(table: &mut SectionTable, n: usize, from: &Vec<SectionType>, empty: bool)
    requires
        old(table).wf(),
        reached_present(old(table)@),
        removable(old(table)@, n),
        set_of(from@) == jumpers(old(table)@, SectionType::Number(n)),
        from@.no_duplicates(),
        empty == (old(table)@[SectionType::Number(n)].len() == 0),
    ensures
        final(table).wf(),
        final(table)@ == reduce_step(old(table)@, n),
{
    let ghost t = table@;
    let k = SectionType::Number(n);
    if empty {
        let mut j: usize = 0;
        while j < from.len()
            invariant
                j <= from.len(),
                table.wf(),
                set_of(from@) == jumpers(t, k),
                from@.no_duplicates(),
                k == SectionType::Number(n),
                table@ == Map::new(
                    |x: SectionType| t.contains_key(x),
                    |x: SectionType|
                        if from@.take(j as int).contains(x) {
                            cut_at_jump(t[x], n)->Some_0
                        } else {
                            t[x]
                        },
                ),
            decreases from.len() - j,
        {
            let a = from[j];
            proof {
                assert(set_of(from@).contains(a));
                assert(jumpers(t, k).contains(a));
                lemma_cut_some(t[a], n);
                assert(!from@.take(j as int).contains(a)) by {
                    if from@.take(j as int).contains(a) {
                        let q = choose|q: int| 0 <= q < j && #[trigger] from@.take(j as int)[q] == a;
                        assert(from@[q] == from@[j as int]);
                    }
                }
                assert(table@[a] == t[a]);
            }
            let ghost before = table@;
            let none: Vec<Action> = Vec::new();
            let ghost none_v = none@;
            match cut_section(table, a, n, none, "Pass 0") {
                Ok(_) => {},
                Err(_) => {},
            }
            proof {
                assert(cut_at_jump(t[a], n)->Some_0 + actions_view(none_v) =~= cut_at_jump(t[a], n)->Some_0);
                assert forall|x: SectionType| from@.take(j + 1).contains(x) <==> from@.take(j as int).contains(x) || x == a by {
                    if from@.take(j + 1).contains(x) {
                        let q = choose|q: int| 0 <= q < j + 1 && #[trigger] from@.take(j + 1)[q] == x;
                        if q < j {
                            assert(from@.take(j as int)[q] == x);
                        }
                    }
                    if from@.take(j as int).contains(x) {
                        let q = choose|q: int| 0 <= q < j && #[trigger] from@.take(j as int)[q] == x;
                        assert(from@.take(j + 1)[q] == x);
                    }
                    if x == a {
                        assert(from@.take(j + 1)[j as int] == a);
                    }
                }
                assert(table@ =~= Map::new(
                    |x: SectionType| t.contains_key(x),
                    |x: SectionType|
                        if from@.take(j + 1).contains(x) {
                            cut_at_jump(t[x], n)->Some_0
                        } else {
                            t[x]
                        },
                ));
            }
            j = j + 1;
        }
        table.remove(k);
        proof {
            assert(from@.take(from@.len() as int) =~= from@);
            assert forall|x: SectionType| from@.contains(x) <==> (reached(t, x) && t.contains_key(x) && has_jump_to(t[x], k)) by {
                assert(set_of(from@).contains(x) <==> from@.contains(x));
                assert(jumpers(t, k).contains(x) <==> (reached(t, x) && t.contains_key(x) && has_jump_to(t[x], k)));
            }
            assert(table@ =~= reduce_step(t, n));
        }
    } else {
        proof {
            let w = choose|w: SectionType| w != k && #[trigger] jumpers(t, k) == set![w];
            lemma_single_from(from@, w);
            assert(jumpers(t, k).contains(w));
            lemma_cut_some(t[w], n);
            assert(only_jumper(t, k) == w) by {
                let o = only_jumper(t, k);
                assert(jumpers(t, k) == set![o]);
                assert(set![o].contains(w));
            }
        }
        let a = from[0];
        let orig = match table.remove(k) {
            Some(v) => v,
            None => Vec::new(),
        };
        match cut_section(table, a, n, orig, "Pass 1") {
            Ok(_) => {},
            Err(_) => {},
        }
        proof {
            assert(table@ =~= reduce_step(t, n));
        }
    }
}

proof fn lemma_reduction_unfold(t: Map<SectionType, Seq<ActionV>>)
    requires
        t.dom().finite(),
    ensures
        !reached_present(t) ==> reduction(t) is None,
        reached_present(t) && first_removable(t) is None ==> reduction(t) == Some(t),
        reached_present(t) && (first_removable(t) matches Some(n) && removable(t, n)) ==> reduction(t) == reduction(
            reduce_step(t, first_removable(t)->Some_0),
        ),
{
    if reached_present(t) {
        if let Some(n) = first_removable(t) {
            if removable(t, n) {
                lemma_reduce_step_dom(t, n);
            }
        }
    }
}

proof fn lemma_jump_count_pos(s: Seq<ActionV>, n: usize, i: int)
    requires
        0 <= i < s.len(),
        s[i] == ActionV::Jump(n),
    ensures
        jump_count(s, n) >= 1,
    decreases s.len(),
{
    if i < s.len() - 1 {
        assert(s.drop_last()[i] == s[i]);
        lemma_jump_count_pos(s.drop_last(), n, i);
    }
}

proof fn lemma_cut_shape(s: Seq<ActionV>, n: usize)
    requires
        cut_at_jump(s, n) is Some,
    ensures
        ({
            let p = cut_at_jump(s, n)->Some_0;
            &&& p.len() < s.len()
            &&& p == s.take(p.len() as int)
            &&& jump_count(p, n) < jump_count(s, n)
            &&& s[p.len() as int] == ActionV::Jump(n)
        }),
    decreases s.len(),
{
    if s.last() == ActionV::Jump(n) {
        assert(s.drop_last() =~= s.take(s.len() - 1));
    } else {
        lemma_cut_shape(s.drop_last(), n);
        let p = cut_at_jump(s, n)->Some_0;
        assert(p == s.drop_last().take(p.len() as int));
        assert(s.drop_last().take(p.len() as int) =~= s.take(p.len() as int));
        assert(s.drop_last()[p.len() as int] == s[p.len() as int]);
    }
}

proof fn lemma_leads_prefix(s: Seq<ActionV>, p: Seq<ActionV>, b: SectionType)
    requires
        p.len() <= s.len(),
        p == s.take(p.len() as int),
        leads_to(p, b),
    ensures
        leads_to(s, b),
{
    let i = choose|i: int|
        0 <= i < p.len() && match #[trigger] p[i] {
            ActionV::Jump(n) | ActionV::Branch(n) | ActionV::Root(n) => b == SectionType::Number(n),
            _ => false,
        };
    assert(s[i] == p[i]);
}

proof fn lemma_leads_concat(x: Seq<ActionV>, y: Seq<ActionV>, b: SectionType)
    requires
        leads_to(x + y, b),
    ensures
        leads_to(x, b) || leads_to(y, b),
{
    let i = choose|i: int|
        0 <= i < (x + y).len() && match #[trigger] (x + y)[i] {
            ActionV::Jump(n) | ActionV::Branch(n) | ActionV::Root(n) => b == SectionType::Number(n),
            _ => false,
        };
    if i < x.len() {
        assert((x + y)[i] == x[i]);
    } else {
        assert((x + y)[i] == y[i - x.len()]);
    }
}

/// What leads to `.n` in actions without a branch or root to it is a jump.
proof fn lemma_leads_is_jump(s: Seq<ActionV>, n: usize)
    requires
        leads_to(s, SectionType::Number(n)),
        !branches_to(s, n),
    ensures
        jump_count(s, n) >= 1,
        has_jump_to(s, SectionType::Number(n)),
{
    let i = choose|i: int|
        0 <= i < s.len() && match #[trigger] s[i] {
            ActionV::Jump(m) | ActionV::Branch(m) | ActionV::Root(m) => SectionType::Number(n) == SectionType::Number(m),
            _ => false,
        };
    assert(!(s[i] == ActionV::Branch(n) || s[i] == ActionV::Root(n)));
    assert(s[i] == ActionV::Jump(n));
    lemma_jump_count_pos(s, n, i);
}

/// The sections reached from `.run` form a set closed under what leads on.
proof fn lemma_reached_closed(t: Map<SectionType, Seq<ActionV>>)
    ensures
        closed_from_run(t, Set::new(|x: SectionType| reached(t, x))),
        reached_present(t) ==> Set::new(|x: SectionType| reached(t, x)).subset_of(t.dom()),
{
    let rs = Set::new(|x: SectionType| reached(t, x));
    assert(rs.contains(SectionType::Run)) by {
        assert forall|r: Set<SectionType>| #[trigger] closed_from_run(t, r) implies r.contains(SectionType::Run) by {}
    }
    assert forall|a: SectionType, b: SectionType|
        rs.contains(a) && t.contains_key(a) && #[trigger] leads_to(t[a], b) implies rs.contains(b) by {
        assert forall|r: Set<SectionType>| #[trigger] closed_from_run(t, r) implies r.contains(b) by {
            assert(r.contains(a));
        }
    }
    if reached_present(t) {
        let r0 = choose|r: Set<SectionType>| #[trigger] closed_from_run(t, r) && r.subset_of(t.dom());
        assert forall|x: SectionType| rs.contains(x) implies t.dom().contains(x) by {
            assert(r0.contains(x));
        }
    }
}

/// Taking out a section that can go leaves every section reached present.
proof fn lemma_step_present(t: Map<SectionType, Seq<ActionV>>, n: usize)
    requires
        t.dom().finite(),
        reached_present(t),
        removable(t, n),
    ensures
        reached_present(reduce_step(t, n)),
{
    let k = SectionType::Number(n);
    let t2 = reduce_step(t, n);
    let rs = Set::new(|x: SectionType| reached(t, x));
    let r2 = rs.remove(k);
    lemma_reached_closed(t);
    lemma_reduce_step_dom(t, n);
    assert forall|a: SectionType, b: SectionType|
        r2.contains(a) && t2.contains_key(a) && #[trigger] leads_to(t2[a], b) implies r2.contains(b) by {
        assert(reached(t, a) && t.contains_key(a));
        assert(!branches_to(t[a], n) && jump_count(t[a], n) <= 1);
        if t[k].len() == 0 {
            if has_jump_to(t[a], k) {
                lemma_cut_some(t[a], n);
                lemma_cut_shape(t[a], n);
                let p = cut_at_jump(t[a], n)->Some_0;
                assert(t2[a] == p);
                lemma_leads_prefix(t[a], p, b);
                assert(rs.contains(b));
                if b == k {
                    assert(!branches_to(p, n)) by {
                        if branches_to(p, n) {
                            let i = choose|i: int| 0 <= i < p.len() && (#[trigger] p[i] == ActionV::Branch(n) || p[i] == ActionV::Root(n));
                            assert(t[a][i] == p[i]);
                        }
                    }
                    lemma_leads_is_jump(p, n);
                }
            } else {
                assert(t2[a] == t[a]);
                assert(rs.contains(b));
                if b == k {
                    lemma_leads_is_jump(t[a], n);
                }
            }
        } else {
            let o = only_jumper(t, k);
            let w = choose|w: SectionType| w != k && #[trigger] jumpers(t, k) == set![w];
            assert(jumpers(t, k) == set![o]);
            assert(set![o].contains(w));
            if a == o {
                assert(jumpers(t, k).contains(a));
                lemma_cut_some(t[a], n);
                lemma_cut_shape(t[a], n);
                let p = cut_at_jump(t[a], n)->Some_0;
                assert(t2[a] == p + t[k]);
                lemma_leads_concat(p, t[k], b);
                if leads_to(p, b) {
                    lemma_leads_prefix(t[a], p, b);
                    assert(rs.contains(b));
                    if b == k {
                        assert(!branches_to(p, n)) by {
                            if branches_to(p, n) {
                                let i = choose|i: int| 0 <= i < p.len() && (#[trigger] p[i] == ActionV::Branch(n) || p[i] == ActionV::Root(n));
                                assert(t[a][i] == p[i]);
                            }
                        }
                        lemma_leads_is_jump(p, n);
                    }
                } else {
                    assert(rs.contains(k));
                    assert(rs.contains(b));
                    assert(!branches_to(t[k], n));
                    if b == k {
                        lemma_leads_is_jump(t[k], n);
                        assert(jumpers(t, k).contains(k));
                    }
                }
            } else {
                assert(t2[a] == t[a]);
                assert(rs.contains(b));
                if b == k {
                    lemma_leads_is_jump(t[a], n);
                    assert(jumpers(t, k).contains(a));
                }
            }
        }
    }
    assert(closed_from_run(t2, r2));
    assert(r2.subset_of(t2.dom()));
}

proof fn lemma_min_removable(t: Map<SectionType, Seq<ActionV>>, n: usize)
    requires
        removable(t, n),
    ensures
        first_removable(t) matches Some(m) && removable(t, m),
    decreases n,
{
    if exists|j: usize| j < n && removable(t, j) {
        let j = choose|j: usize| j < n && removable(t, j);
        lemma_min_removable(t, j);
    } else {
        lemma_first_removable(t, n);
    }
}

/// Where every section reached is present, removing and merging ends
/// with a table.
pub proof fn lemma_reduction_some(t: Map<SectionType, Seq<ActionV>>)
    requires
        t.dom().finite(),
        reached_present(t),
    ensures
        reduction(t) is Some,
    decreases t.dom().len(),
{
    lemma_reduction_unfold(t);
    if let Some(n) = first_removable(t) {
        let m = choose|m: usize| removable(t, m);
        lemma_min_removable(t, m);
        lemma_reduce_step_dom(t, n);
        lemma_step_present(t, n);
        lemma_reduction_some(reduce_step(t, n));
    }
}

/// Removes empty sections (and the jumps to them) and puts each section that
/// only one section jumps to in place of that jump, one section at a time,
/// smallest number first, until no section can go (see `reduction`).  The
/// result says whether anything changed.  An empty `.run` is left as it
/// is; a section reached from `.run` that is not in the table is an error.
#[verifier::rlimit(60)]
pub fn jumpreduce_table(table: &mut SectionTable) -> (res: Result<bool, String>)
    requires
        old(table).wf(),
    ensures
        final(table).wf(),
        run_empty(old(table)@) ==> res == Ok::<bool, String>(false) && final(table)@ == old(table)@,
        !run_empty(old(table)@) && !reached_present(old(table)@) ==> final(table)@ == old(table)@
            && exists|k: SectionType|
            #[trigger] reached(old(table)@, k) && !old(table)@.contains_key(k) && (res matches Err(e) && e@
                == "Section not found: "@ + section_debug(k)),
        !run_empty(old(table)@) && reached_present(old(table)@) ==> (reduction(old(table)@) matches Some(t2) && res
            == Ok::<bool, String>(first_removable(old(table)@) is Some) && final(table)@ == t2),
{
    match table.get_clone(SectionType::Run) {
        Some(body) => {
            if body.len() == 0 {
                return Ok(false);
            }
        },
        None => {},
    }
    proof {
        table.lemma_dom_finite();
        if reached_present(table@) {
            lemma_reduction_some(table@);
        }
    }
    let ghost t0 = table@;
    let mut changed = false;
    loop
        invariant
            table.wf(),
            table@.dom().finite(),
            t0 == old(table)@,
            !run_empty(t0),
            t0.dom().finite(),
            reached_present(t0) ==> reduction(table@) == reduction(t0),
            reached_present(t0) ==> reduction(t0) is Some,
            !changed ==> table@ == t0,
            changed ==> first_removable(t0) is Some && reached_present(t0),
        decreases table@.dom().len(),
    {
        let (vis, jumps) = match reach_info(table) {
            Err(e) => {
                proof {
                    lemma_reduction_unfold(table@);
                }
                return Err(e);
            },
            Ok(p) => p,
        };
        proof {
            assert(reach_facts(table@, vis@, jumps@));
            lemma_reduction_unfold(table@);
        }
        match find_removable(table, &vis, &jumps) {
            None => {
                return Ok(changed);
            },
            Some(n) => {
                let k = SectionType::Number(n);
                let ghost before = table@;
                let (empty, from) = match find_info(&jumps, k) {
                    Some(i) => {
                        proof {
                            lemma_info_map_at(jumps@, i as int);
                            lemma_record_case(before, n, jumps@[i as int].len, jumps@[i as int].from@);
                        }
                        (jumps[i].len == 0, copy_sections(&jumps[i].from))
                    },
                    None => {
                        proof {
                            lemma_info_map_dom(jumps@);
                            assert(info_map(jumps@).contains_key(k));
                            assert(has_name(jumps@, k));
                        }
                        (false, Vec::new())
                    },
                };
                proof {
                    lemma_reduce_step_dom(before, n);
                }
                reduce_once(table, n, &from, empty);
                proof {
                    table.lemma_dom_finite();
                }
                changed = true;
            },
        }
    }
}


// ---------------------------------------------------------------------
// Taking a section out does not change what a run does.
// ---------------------------------------------------------------------

/// Where the jump to `.n` stands in section `a`: the length of what precedes it.
pub open spec fn cut_len(t: Map<SectionType, Seq<ActionV>>, a: SectionType, n: usize) -> int {
    (cut_at_jump(t[a], n)->Some_0).len() as int
}

/// Whether the run state `s` on `t` and the run state `s2` on
/// `reduce_step(t, n)` stand at the same point of the same run: they hold
/// the same values, and `s2` is where `s` is once section `.n` is taken out
/// (what a state waits for as a reply is compared where a reply comes).
pub open spec fn corresponds(t: Map<SectionType, Seq<ActionV>>, n: usize, s: RunV, s2: RunV) -> bool {
    let k = SectionType::Number(n);
    &&& s.cfv == s2.cfv
    &&& s.vs == s2.vs
    &&& reached(t, s.position)
    &&& t.contains_key(s.position)
    &&& if s.position == k {
        if t[k].len() == 0 {
            &&& s.pc == 0
            &&& reached(t, s2.position)
            &&& t.contains_key(s2.position)
            &&& has_jump_to(t[s2.position], k)
            &&& s2.pc as int == cut_len(t, s2.position, n)
        } else {
            &&& s2.position == only_jumper(t, k)
            &&& s2.pc as int == cut_len(t, only_jumper(t, k), n) + s.pc
            &&& s.pc <= t[k].len()
        }
    } else {
        &&& s2.position == s.position
        &&& s2.pc == s.pc
        &&& s.pc <= t[s.position].len()
        &&& has_jump_to(t[s.position], k) ==> s.pc <= cut_len(t, s.position, n)
    }
}

/// One action on states that hold the same values: the same event and
/// values, and either both stay where they were or both jump to the same
/// section that the action leads to.
proof fn lemma_same_action(s: RunV, s2: RunV, a: ActionV)
    requires
        s.cfv == s2.cfv,
        s.vs == s2.vs,
        s.reply == s2.reply,
    ensures
        ({
            let (r, e) = action_step(s, a);
            let (r2, e2) = action_step(s2, a);
            &&& e == e2
            &&& r.cfv == r2.cfv
            &&& r.vs == r2.vs
            &&& r.reply == r2.reply
            &&& (r.position == s.position && r.pc == s.pc && r2.position == s2.position && r2.pc == s2.pc) || (r.position
                == r2.position && r.pc == 0 && r2.pc == 0 && leads_to(seq![a], r.position))
        }),
{
    assert(seq![a][0] == a);
}

/// A section that `a` leads to from a section reached is reached, and so is
/// in the table where every section reached is.
proof fn lemma_leads_reached(t: Map<SectionType, Seq<ActionV>>, a: SectionType, b: SectionType)
    requires
        reached(t, a),
        t.contains_key(a),
        leads_to(t[a], b),
        reached_present(t),
    ensures
        reached(t, b),
        t.contains_key(b),
{
    lemma_reached_closed(t);
    let rs = Set::new(|x: SectionType| reached(t, x));
    assert(rs.contains(a));
    assert(rs.contains(b));
}

proof fn lemma_leads_one(s: Seq<ActionV>, i: int, b: SectionType)
    requires
        0 <= i < s.len(),
        leads_to(seq![s[i]], b),
    ensures
        leads_to(s, b),
{
    assert(seq![s[i]][0] == s[i]);
}

/// Taking out a section that can go does not change what a run does: from
/// corresponding states, a step on the old table either only jumps into
/// the section taken out (the state still corresponds), or a step on the
/// new table gives the same event and again a corresponding state.
/// Replies keep states corresponding, and runs start in corresponding states.
pub proof fn law_reduce_step_preserves_run(t: Map<SectionType, Seq<ActionV>>, n: usize, s: RunV, s2: RunV, v: ArgsV)
    requires
        t.dom().finite(),
        reached_present(t),
        removable(t, n),
        corresponds(t, n, s, s2),
        forall|a: SectionType| #[trigger] reduce_step(t, n).contains_key(a) ==> reduce_step(t, n)[a].len() < usize::MAX,
    ensures
        ({
            let (s1, e1) = run_step(s, t);
            let (r2, e2) = run_step(s2, reduce_step(t, n));
            (e1 == EventV::Continue && corresponds(t, n, s1, s2)) || (e2 == e1 && corresponds(t, n, s1, r2) && (e1 is Finished
                || r2.reply == s1.reply))
        }),
        s.reply == s2.reply ==> corresponds(t, n, apply_reply(s, v), apply_reply(s2, v)) && apply_reply(s, v).reply
            == apply_reply(s2, v).reply,
        corresponds(t, n, start_state(), start_state()),
{
    let k = SectionType::Number(n);
    let t2 = reduce_step(t, n);
    lemma_reduce_step_dom(t, n);
    lemma_reached_closed(t);
    // runs start in corresponding states
    assert(reached(t, SectionType::Run)) by {
        assert forall|r: Set<SectionType>| #[trigger] closed_from_run(t, r) implies r.contains(SectionType::Run) by {}
    }
    assert(t.contains_key(SectionType::Run)) by {
        let r0 = choose|r: Set<SectionType>| #[trigger] closed_from_run(t, r) && r.subset_of(t.dom());
        assert(r0.contains(SectionType::Run));
    }
    let p = s.position;
    assert(reached(t, p) && t.contains_key(p));
    assert(!branches_to(t[p], n) && jump_count(t[p], n) <= 1);
    if p == k {
        if t[k].len() == 0 {
            let a = s2.position;
            assert(!branches_to(t[a], n) && jump_count(t[a], n) <= 1);
            lemma_cut_some(t[a], n);
            lemma_cut_shape(t[a], n);
            assert(a != k);
            assert(t2.contains_key(a));
            assert(t2[a] == cut_at_jump(t[a], n)->Some_0);
            assert(run_step(s, t).1 == EventV::Finished(s.cfv));
            assert(run_step(s2, t2).1 == EventV::Finished(s2.cfv));
        } else {
            let a = only_jumper(t, k);
            let w = choose|w: SectionType| w != k && #[trigger] jumpers(t, k) == set![w];
            assert(jumpers(t, k) == set![a]);
            assert(set![a].contains(w));
            assert(jumpers(t, k).contains(a));
            lemma_cut_some(t[a], n);
            lemma_cut_shape(t[a], n);
            let c = cut_at_jump(t[a], n)->Some_0;
            assert(a != k);
            assert(t2.contains_key(a));
            assert(t2[a] == c + t[k]);
            if s.pc == t[k].len() {
                assert(run_step(s, t).1 == EventV::Finished(s.cfv));
                assert(run_step(s2, t2).1 == EventV::Finished(s2.cfv));
            }
            if s.pc < t[k].len() {
                let act = t[k][s.pc as int];
                assert(t2[a][c.len() + s.pc] == act);
                lemma_same_action(
                    RunV { pc: (s.pc + 1) as usize, reply: crate::runner::Reply::Nothing, ..s },
                    RunV { pc: (s2.pc + 1) as usize, reply: crate::runner::Reply::Nothing, ..s2 },
                    act,
                );
                let (s1, e1) = run_step(s, t);
                if s1.position != k {
                    lemma_leads_one(t[k], s.pc as int, s1.position);
                    lemma_leads_reached(t, k, s1.position);
                    if s1.position == k {
                    } else {
                        assert(!(has_jump_to(t[s1.position], k)) || 0 <= cut_len(t, s1.position, n));
                    }
                } else {
                    if s1.pc == 0 && s1.pc != s.pc + 1 {
                        lemma_leads_one(t[k], s.pc as int, k);
                        lemma_leads_is_jump(t[k], n);
                        assert(jumpers(t, k).contains(k));
                    }
                }
            }
        }
    } else {
        assert(t2.contains_key(p));
        if has_jump_to(t[p], k) {
            lemma_cut_some(t[p], n);
            lemma_cut_shape(t[p], n);
            let c = cut_at_jump(t[p], n)->Some_0;
            assert(jump_count(c, n) == 0);
            if t[k].len() == 0 {
                assert(t2[p] == c);
            } else {
                assert(jumpers(t, k).contains(p));
                let w = choose|w: SectionType| w != k && #[trigger] jumpers(t, k) == set![w];
                assert(set![w].contains(p));
                assert(jumpers(t, k) == set![p]);
                assert(only_jumper(t, k) == p) by {
                    let o = only_jumper(t, k);
                    assert(jumpers(t, k) == set![o]);
                    assert(set![o].contains(p));
                }
                assert(t2[p] == c + t[k]);
            }
            if s.pc < c.len() {
                let act = t[p][s.pc as int];
                assert(c[s.pc as int] == act);
                assert(t2[p][s.pc as int] == act);
                lemma_same_action(
                    RunV { pc: (s.pc + 1) as usize, reply: crate::runner::Reply::Nothing, ..s },
                    RunV { pc: (s2.pc + 1) as usize, reply: crate::runner::Reply::Nothing, ..s2 },
                    act,
                );
                let (s1, e1) = run_step(s, t);
                if !(s1.position == p && s1.pc == s.pc + 1) {
                    lemma_leads_one(t[p], s.pc as int, s1.position);
                    lemma_leads_reached(t, p, s1.position);
                    if s1.position == k {
                        lemma_leads_one(c, s.pc as int, k);
                        assert(!branches_to(c, n)) by {
                            if branches_to(c, n) {
                                let i = choose|i: int| 0 <= i < c.len() && (#[trigger] c[i] == ActionV::Branch(n) || c[i] == ActionV::Root(n));
                                assert(t[p][i] == c[i]);
                            }
                        }
                        lemma_leads_is_jump(c, n);
                    }
                }
            } else {
                assert(s.pc == c.len());
                assert(t[p][s.pc as int] == ActionV::Jump(n));
            }
        } else {
            if t[k].len() == 0 {
                assert(t2[p] == t[p]);
            } else {
                assert(p != only_jumper(t, k)) by {
                    let o = only_jumper(t, k);
                    let w = choose|w: SectionType| w != k && #[trigger] jumpers(t, k) == set![w];
                    assert(jumpers(t, k) == set![o]);
                    assert(set![o].contains(w));
                    assert(jumpers(t, k).contains(o));
                }
                assert(t2[p] == t[p]);
            }
            if s.pc < t[p].len() {
                let act = t[p][s.pc as int];
                lemma_same_action(
                    RunV { pc: (s.pc + 1) as usize, reply: crate::runner::Reply::Nothing, ..s },
                    RunV { pc: (s2.pc + 1) as usize, reply: crate::runner::Reply::Nothing, ..s2 },
                    act,
                );
                let (s1, e1) = run_step(s, t);
                if !(s1.position == p && s1.pc == s.pc + 1) {
                    lemma_leads_one(t[p], s.pc as int, s1.position);
                    lemma_leads_reached(t, p, s1.position);
                    if s1.position == k {
                        lemma_leads_is_jump(t[p], n);
                    }
                }
            }
        }
    }
}


proof fn lemma_continue_clears_reply(s: RunV, t: Map<SectionType, Seq<ActionV>>)
    requires
        run_step(s, t).1 == EventV::Continue,
    ensures
        run_step(s, t).0.reply == Reply::Nothing,
{
}

proof fn lemma_step_events(
    t: Map<SectionType, Seq<ActionV>>,
    n: usize,
    s: RunV,
    s2: RunV,
    rs: spec_fn(nat) -> ArgsV,
    i: nat,
    k: nat,
)
    requires
        t.dom().finite(),
        reached_present(t),
        removable(t, n),
        corresponds(t, n, s, s2),
        s.reply == Reply::Nothing,
        s2.reply == Reply::Nothing,
        forall|a: SectionType| #[trigger] reduce_step(t, n).contains_key(a) ==> reduce_step(t, n)[a].len() < usize::MAX,
    ensures
        exists|k2: nat| k2 <= k && run_events(s2, reduce_step(t, n), rs, i, k2) == run_events(s, t, rs, i, k),
    decreases k,
{
    let t2 = reduce_step(t, n);
    if k == 0 {
        assert(run_events(s2, t2, rs, i, 0) == run_events(s, t, rs, i, k));
    } else {
        law_reduce_step_preserves_run(t, n, s, s2, ArgsV::Empty);
        let (s1, e1) = run_step(s, t);
        let (r2, e2) = run_step(s2, t2);
        let km = (k - 1) as nat;
        if e1 == EventV::Continue && corresponds(t, n, s1, s2) {
            lemma_continue_clears_reply(s, t);
            lemma_step_events(t, n, s1, s2, rs, i, km);
            let k2 = choose|k2: nat| k2 <= km && run_events(s2, t2, rs, i, k2) == run_events(s1, t, rs, i, km);
            assert(run_events(s, t, rs, i, k) == run_events(s1, t, rs, i, km));
            assert(k2 <= k && run_events(s2, t2, rs, i, k2) == run_events(s, t, rs, i, k));
        } else {
            assert(e2 == e1 && corresponds(t, n, s1, r2));
            match e1 {
                EventV::Continue => {
                    lemma_continue_clears_reply(s, t);
                    lemma_continue_clears_reply(s2, t2);
                    lemma_step_events(t, n, s1, r2, rs, i, km);
                    let k2 = choose|k2: nat| k2 <= km && run_events(r2, t2, rs, i, k2) == run_events(s1, t, rs, i, km);
                    assert(run_events(s2, t2, rs, i, k2 + 1) == run_events(r2, t2, rs, i, k2));
                    assert(run_events(s, t, rs, i, k) == run_events(s1, t, rs, i, km));
                    assert((k2 + 1) as nat <= k && run_events(s2, t2, rs, i, (k2 + 1) as nat) == run_events(s, t, rs, i, k));
                },
                EventV::Finished(_) => {
                    assert(run_events(s2, t2, rs, i, 1) == run_events(s, t, rs, i, k));
                },
                EventV::Failed(_) => {
                    assert(run_events(s2, t2, rs, i, 1) == run_events(s, t, rs, i, k));
                },
                _ => {
                    let v = rs(i);
                    law_reduce_step_preserves_run(t, n, s1, r2, v);
                    let a1 = apply_reply(s1, v);
                    let a2 = apply_reply(r2, v);
                    let j: nat = i + 1;
                    lemma_step_events(t, n, a1, a2, rs, j, km);
                    let k2 = choose|k2: nat|
                        k2 <= km && #[trigger] run_events(a2, t2, rs, j, k2) == run_events(a1, t, rs, j, km);
                    assert(run_events(s2, t2, rs, i, k2 + 1) == seq![e1] + run_events(a2, t2, rs, j, k2));
                    assert(run_events(s, t, rs, i, k) == seq![e1] + run_events(a1, t, rs, j, km));
                    assert((k2 + 1) as nat <= k && run_events(s2, t2, rs, i, (k2 + 1) as nat) == run_events(s, t, rs, i, k));
                },
            }
        }
    }
}

/// Whether every section of every table on the way to `reduction(t)` has a
/// length below `usize::MAX`, so that a position in it fits in a `usize`.
pub open spec fn reduction_fits(t: Map<SectionType, Seq<ActionV>>) -> bool
    decreases t.dom().len(),
    when t.dom().finite()
{
    &&& forall|a: SectionType| #[trigger] t.contains_key(a) ==> t[a].len() < usize::MAX
    &&& match first_removable(t) {
        None => true,
        Some(n) => (t.contains_key(SectionType::Number(n)) && reduce_step(t, n).dom().finite() && reduce_step(
            t,
            n,
        ).dom().len() < t.dom().len()) ==> reduction_fits(reduce_step(t, n)),
    }
}

proof fn lemma_first_is_removable(t: Map<SectionType, Seq<ActionV>>)
    requires
        first_removable(t) is Some,
    ensures
        removable(t, first_removable(t)->Some_0),
{
    let m = choose|m: usize| removable(t, m);
    lemma_min_removable(t, m);
}

proof fn lemma_fits_unfold(t: Map<SectionType, Seq<ActionV>>, n: usize)
    requires
        t.dom().finite(),
        reduction_fits(t),
        first_removable(t) == Some(n),
        reduce_step(t, n).dom().finite(),
        reduce_step(t, n).dom().len() < t.dom().len(),
        t.contains_key(SectionType::Number(n)),
    ensures
        reduction_fits(reduce_step(t, n)),
{
}

proof fn lemma_fits_lengths(t: Map<SectionType, Seq<ActionV>>)
    requires
        t.dom().finite(),
        reduction_fits(t),
    ensures
        forall|a: SectionType| #[trigger] t.contains_key(a) ==> t[a].len() < usize::MAX,
{
}

proof fn lemma_one_reduction(t: Map<SectionType, Seq<ActionV>>, n: usize, rs: spec_fn(nat) -> ArgsV, k: nat)
    requires
        t.dom().finite(),
        reached_present(t),
        removable(t, n),
        forall|a: SectionType| #[trigger] reduce_step(t, n).contains_key(a) ==> reduce_step(t, n)[a].len() < usize::MAX,
    ensures
        exists|k1: nat|
            k1 <= k && #[trigger] run_events(start_state(), reduce_step(t, n), rs, 0, k1) == run_events(
                start_state(),
                t,
                rs,
                0,
                k,
            ),
{
    law_reduce_step_preserves_run(t, n, start_state(), start_state(), ArgsV::Empty);
    lemma_step_events(t, n, start_state(), start_state(), rs, 0, k);
}

/// Removing and merging sections until none can go does not change what a
/// run does: whatever events a run of the table gives within `k` steps, with
/// the same replies to its requests, a run of the reduced table gives within
/// at most `k` steps; so a run that ends, ends the same way on the reduced
/// table.
pub proof fn law_reduction_preserves_run(t: Map<SectionType, Seq<ActionV>>, rs: spec_fn(nat) -> ArgsV, k: nat)
    requires
        t.dom().finite(),
        reduction(t) is Some,
        reduction_fits(t),
    ensures
        exists|k2: nat|
            k2 <= k && #[trigger] run_events(start_state(), reduction(t)->Some_0, rs, 0, k2) == run_events(
                start_state(),
                t,
                rs,
                0,
                k,
            ),
    decreases t.dom().len(),
{
    lemma_reduction_unfold(t);
    if first_removable(t) is None {
        assert(reduction(t) == Some(t));
        assert(run_events(start_state(), reduction(t)->Some_0, rs, 0, k) == run_events(start_state(), t, rs, 0, k));
    } else {
        let n = first_removable(t)->Some_0;
        lemma_first_is_removable(t);
        lemma_reduce_step_dom(t, n);
        let t2 = reduce_step(t, n);
        lemma_fits_unfold(t, n);
        lemma_fits_lengths(t2);
        lemma_one_reduction(t, n, rs, k);
        let k1 = choose|k1: nat|
            k1 <= k && #[trigger] run_events(start_state(), t2, rs, 0, k1) == run_events(start_state(), t, rs, 0, k);
        assert(reduction(t2) == reduction(t));
        law_reduction_preserves_run(t2, rs, k1);
        let k2 = choose|k2: nat|
            k2 <= k1 && #[trigger] run_events(start_state(), reduction(t2)->Some_0, rs, 0, k2) == run_events(
                start_state(),
                t2,
                rs,
                0,
                k1,
            );
        assert(k2 <= k && run_events(start_state(), reduction(t)->Some_0, rs, 0, k2) == run_events(
            start_state(),
            t,
            rs,
            0,
            k,
        ));
    }
}

} // verus!
