use vstd::prelude::*;

use crate::constants::{CMA, CPR, OPR, QUT, SPC};
use crate::types::{InputV, InputValue, input_clone, input_vec_clone, input_is_empty, input_views, lemma_input_views_drop_last, lemma_input_views_index, lemma_input_views_push};

verus! {

/// The line being typed.  `front` is the innermost structure being typed;
/// `back` holds the structures that enclose it, innermost last.  `fpart`
/// is the text typed so far and `part` the text to the right of the
/// cursor, in reverse order.
#[derive(Debug)]
pub struct InputLine {
    pub back: Vec<InputValue>,
    pub front: InputValue,
    pub part: String,
    pub fpart: String,
}

/// The model of an `InputLine`.
pub struct LineV {
    pub back: Seq<InputV>,
    pub front: InputV,
    pub part: Seq<char>,
    pub fpart: Seq<char>,
}

/// The outcome of one structural edit: whether it was accepted, and the
/// enclosing structures and innermost structure after it.
pub struct EditV {
    pub ok: bool,
    pub back: Seq<InputV>,
    pub front: InputV,
}

impl InputLine {
    pub open spec fn view(&self) -> LineV {
        LineV { back: input_views(self.back@), front: self.front@, part: self.part@, fpart: self.fpart@ }
    }
}

pub open spec fn edit(ok: bool, back: Seq<InputV>, front: InputV) -> EditV {
    EditV { ok, back, front }
}

/// Lists and function calls hold items; the other values hold text.
pub open spec fn is_container(v: InputV) -> bool {
    v is Long || v is Function
}

pub open spec fn items_of(v: InputV) -> Seq<InputV> {
    match v {
        InputV::Long(items) => items,
        InputV::Function(_, items) => items,
        _ => seq![],
    }
}

pub open spec fn with_items(v: InputV, items: Seq<InputV>) -> InputV {
    match v {
        InputV::Long(_) => InputV::Long(items),
        InputV::Function(n, _) => InputV::Function(n, items),
        _ => v,
    }
}

/// Closes the innermost structure: it becomes the last item of the
/// structure that encloses it (unless it is empty and not a list), and
/// that structure becomes the innermost one.
pub open spec fn sp_push_back(b: Seq<InputV>, f: InputV) -> EditV {
    if b.len() > 0 && is_container(b.last()) {
        let items = items_of(b.last());
        let new_items = if f is Long || !input_is_empty(f) {
            items.push(f)
        } else {
            items
        };
        edit(true, b.drop_last(), with_items(b.last(), new_items))
    } else {
        edit(false, b, f)
    }
}

/// Reopens the last item of the innermost structure, the inverse of `sp_push_back`.
pub open spec fn sp_pop_back(b: Seq<InputV>, f: InputV) -> EditV {
    if is_container(f) && items_of(f).len() > 0 {
        edit(true, b.push(with_items(f, items_of(f).drop_last())), items_of(f).last())
    } else {
        edit(false, b, f)
    }
}

/// Closes the innermost structure and starts a separator made of `sep`.
pub open spec fn sp_start_sep(b: Seq<InputV>, f: InputV, sep: Seq<char>) -> EditV {
    let e = sp_push_back(b, f);
    if e.ok {
        edit(true, e.back.push(e.front), InputV::Split(sep))
    } else {
        edit(false, b, f)
    }
}

/// Adds a character to the text of a literal, separator or word.
pub open spec fn text_push(f: InputV, c: char) -> InputV {
    match f {
        InputV::Short(s) => InputV::Short(s.push(c)),
        InputV::Literal(s) => InputV::Literal(s.push(c)),
        InputV::Split(s) => InputV::Split(s.push(c)),
        _ => f,
    }
}

pub open spec fn text_of(f: InputV) -> Seq<char> {
    match f {
        InputV::Short(s) => s,
        InputV::Literal(s) => s,
        InputV::Split(s) => s,
        _ => seq![],
    }
}

/// Removes the last character of the text of a literal, separator or word.
pub open spec fn text_pop(f: InputV) -> InputV {
    match f {
        InputV::Short(s) => InputV::Short(s.drop_last()),
        InputV::Literal(s) => InputV::Literal(s.drop_last()),
        InputV::Split(s) => InputV::Split(s.drop_last()),
        _ => f,
    }
}

/// Whether the text of the innermost structure ends with `c`.
pub open spec fn ends_with(f: InputV, c: char) -> bool {
    text_of(f).len() > 0 && text_of(f).last() == c
}

/// Removes `c` from the end of a literal.
pub open spec fn sp_pop_literal(b: Seq<InputV>, f: InputV, c: char) -> EditV {
    if ends_with(f, c) {
        edit(true, b, text_pop(f))
    } else {
        edit(false, b, f)
    }
}

/// Typing a space.
pub open spec fn sp_push_spc(b: Seq<InputV>, f: InputV) -> EditV {
    match f {
        InputV::Split(_) => edit(true, b, text_push(f, SPC)),
        InputV::Literal(_) => edit(true, b, text_push(f, SPC)),
        InputV::Short(s) => if s.len() == 0 {
            edit(true, b, InputV::Split(seq![SPC]))
        } else {
            sp_start_sep(b, f, seq![SPC])
        },
        _ => sp_start_sep(b, f, seq![SPC]),
    }
}

/// Typing a comma.
pub open spec fn sp_push_cma(b: Seq<InputV>, f: InputV) -> EditV {
    match f {
        InputV::Split(s) => if s.len() == 0 {
            edit(true, b, text_push(f, CMA))
        } else {
            sp_start_sep(b, f, seq![CMA])
        },
        InputV::Literal(_) => edit(true, b, text_push(f, CMA)),
        InputV::Short(s) => if s.len() == 0 {
            edit(true, b, InputV::Split(seq![CMA]))
        } else {
            sp_start_sep(b, f, seq![CMA])
        },
        _ => sp_start_sep(b, f, seq![CMA]),
    }
}

/// Removing a separator character `c` (a space or a comma).
pub open spec fn sp_pop_sep(b: Seq<InputV>, f: InputV, c: char) -> EditV {
    match f {
        InputV::Literal(_) => sp_pop_literal(b, f, c),
        InputV::Split(s) => if !ends_with(f, c) {
            edit(false, b, f)
        } else if s.len() > 1 {
            edit(true, b, text_pop(f))
        } else if b.len() == 0 {
            edit(true, b, InputV::Short(seq![]))
        } else if is_container(b.last()) {
            let e = sp_pop_back(b.drop_last(), b.last());
            if !e.ok {
                edit(false, b, f)
            } else if e.front is Literal {
                let g = sp_push_back(e.back, e.front);
                edit(true, g.back.push(g.front), InputV::Split(seq![]))
            } else {
                edit(true, e.back, e.front)
            }
        } else {
            edit(true, b, InputV::Short(seq![]))
        },
        _ => edit(false, b, f),
    }
}

/// Typing an opening parenthesis.
pub open spec fn sp_push_opr(b: Seq<InputV>, f: InputV) -> EditV {
    match f {
        InputV::Split(_) => {
            let e = sp_push_back(b, f);
            if e.ok {
                edit(true, e.back.push(e.front).push(InputV::Long(seq![])), InputV::Short(seq![]))
            } else {
                edit(false, b, f)
            }
        },
        InputV::Short(s) => if s.len() == 0 {
            edit(true, b.push(InputV::Long(seq![])), InputV::Short(seq![]))
        } else {
            edit(true, b.push(InputV::Function(s, seq![])), InputV::Short(seq![]))
        },
        InputV::Literal(_) => edit(true, b, text_push(f, OPR)),
        _ => edit(false, b, f),
    }
}

/// Removing an opening parenthesis.
pub open spec fn sp_pop_opr(b: Seq<InputV>, f: InputV) -> EditV {
    match f {
        InputV::Literal(_) => sp_pop_literal(b, f, OPR),
        InputV::Short(s) => if s.len() > 0 || b.len() == 0 {
            edit(false, b, f)
        } else {
            let b1 = b.drop_last();
            match b.last() {
                InputV::Long(v) => if v.len() > 0 {
                    edit(false, b, f)
                } else if b1.len() > 0 && is_container(b1.last()) {
                    let e = sp_pop_back(b1.drop_last(), b1.last());
                    if e.ok {
                        edit(true, e.back, e.front)
                    } else {
                        edit(true, b1, InputV::Short(seq![]))
                    }
                } else {
                    edit(true, b1, f)
                },
                InputV::Function(n, v) => if v.len() > 0 {
                    edit(false, b, f)
                } else {
                    edit(true, b1, InputV::Short(n))
                },
                _ => edit(false, b1, f),
            }
        },
        _ => edit(false, b, f),
    }
}

/// Typing a closing parenthesis.
pub open spec fn sp_push_cpr(b: Seq<InputV>, f: InputV) -> EditV {
    match f {
        InputV::Literal(_) => edit(true, b, text_push(f, CPR)),
        _ => sp_push_back(b, f),
    }
}

/// Removing a closing parenthesis.
pub open spec fn sp_pop_cpr(b: Seq<InputV>, f: InputV) -> EditV {
    match f {
        InputV::Literal(_) => sp_pop_literal(b, f, CPR),
        InputV::Long(_) | InputV::Function(_, _) => {
            let e = sp_pop_back(b, f);
            if !e.ok {
                if b.len() == 0 {
                    edit(true, b.push(f), InputV::Short(seq![]))
                } else if input_is_empty(b.last()) {
                    edit(true, b.drop_last().push(f).push(b.last()), InputV::Short(seq![]))
                } else {
                    edit(false, b, f)
                }
            } else if e.front is Literal {
                let g = sp_push_back(e.back, e.front);
                edit(true, g.back.push(g.front), InputV::Split(seq![]))
            } else {
                edit(true, e.back, e.front)
            }
        },
        _ => edit(false, b, f),
    }
}

/// Typing a quote.
pub open spec fn sp_push_qut(b: Seq<InputV>, f: InputV) -> EditV {
    match f {
        InputV::Split(_) => {
            let e = sp_push_back(b, f);
            if e.ok {
                edit(true, e.back.push(e.front), InputV::Literal(seq![]))
            } else {
                edit(false, b, f)
            }
        },
        InputV::Short(s) => edit(true, b, InputV::Literal(s)),
        InputV::Literal(_) => {
            let e = sp_push_back(b, f);
            if e.ok {
                edit(true, e.back.push(e.front), InputV::Split(seq![]))
            } else {
                edit(false, b, f)
            }
        },
        _ => edit(false, b, f),
    }
}

/// Removing a quote.
pub open spec fn sp_pop_qut(b: Seq<InputV>, f: InputV) -> EditV {
    match f {
        InputV::Literal(s) => if s.len() > 0 {
            edit(true, b, InputV::Short(s))
        } else if b.len() == 0 {
            edit(false, b, f)
        } else {
            let e = sp_pop_back(b.drop_last(), b.last());
            if e.ok {
                edit(true, e.back, e.front)
            } else {
                edit(true, b, InputV::Short(seq![]))
            }
        },
        InputV::Split(s) => if s.len() > 0 || b.len() == 0 {
            edit(false, b, f)
        } else {
            let e = sp_pop_back(b.drop_last(), b.last());
            if e.ok {
                edit(true, e.back, e.front)
            } else {
                edit(false, b, f)
            }
        },
        _ => edit(false, b, f),
    }
}

/// Typing any other character.
pub open spec fn sp_push_simple(b: Seq<InputV>, f: InputV, ch: char) -> EditV {
    match f {
        InputV::Split(_) => {
            let e = sp_push_back(b, f);
            if e.ok {
                edit(true, e.back.push(e.front), InputV::Short(seq![ch]))
            } else {
                edit(false, b, f)
            }
        },
        InputV::Short(_) => edit(true, b, text_push(f, ch)),
        InputV::Literal(_) => edit(true, b, text_push(f, ch)),
        _ => edit(false, b, f),
    }
}

/// Removing any other character.
pub open spec fn sp_pop_simple(b: Seq<InputV>, f: InputV, ch: char) -> EditV {
    match f {
        InputV::Literal(_) => sp_pop_literal(b, f, ch),
        InputV::Short(s) => if !ends_with(f, ch) {
            edit(false, b, f)
        } else if s.len() > 1 || b.len() == 0 {
            edit(true, b, text_pop(f))
        } else if is_container(b.last()) {
            let e = sp_pop_back(b.drop_last(), b.last());
            if e.ok {
                edit(true, e.back, e.front)
            } else {
                edit(true, b, InputV::Short(seq![]))
            }
        } else {
            edit(true, b, InputV::Short(seq![]))
        },
        _ => edit(false, b, f),
    }
}

/// The structural effect of typing `ch`.
pub open spec fn sp_push_char(b: Seq<InputV>, f: InputV, ch: char) -> EditV {
    if ch == SPC {
        sp_push_spc(b, f)
    } else if ch == CMA {
        sp_push_cma(b, f)
    } else if ch == OPR {
        sp_push_opr(b, f)
    } else if ch == CPR {
        sp_push_cpr(b, f)
    } else if ch == QUT {
        sp_push_qut(b, f)
    } else {
        sp_push_simple(b, f, ch)
    }
}

/// The structural effect of removing the typed character `ch`.
pub open spec fn sp_pop_char(b: Seq<InputV>, f: InputV, ch: char) -> EditV {
    if ch == SPC {
        sp_pop_sep(b, f, SPC)
    } else if ch == CMA {
        sp_pop_sep(b, f, CMA)
    } else if ch == OPR {
        sp_pop_opr(b, f)
    } else if ch == CPR {
        sp_pop_cpr(b, f)
    } else if ch == QUT {
        sp_pop_qut(b, f)
    } else {
        sp_pop_simple(b, f, ch)
    }
}

/// Whether removing `ch` is defined: removing a parenthesis that opens the
/// only list, or the only character of a line, has no meaning.
pub open spec fn pop_char_defined(b: Seq<InputV>, f: InputV, ch: char) -> bool {
    if ch == OPR {
        !(f == InputV::Short(seq![]) && b.len() == 1 && b[0] == InputV::Long(seq![]))
    } else if ch == SPC || ch == CMA || ch == CPR || ch == QUT {
        true
    } else {
        !(f == InputV::Short(seq![ch]) && b.len() == 0)
    }
}

/// Whether removing the last typed character is defined.
pub open spec fn pop_defined(l: LineV) -> bool {
    l.fpart.len() > 0 ==> pop_char_defined(l.back, l.front, l.fpart.last())
}

/// Typing `ch`: the character is recorded when the edit is accepted.
pub open spec fn sp_push(l: LineV, ch: char) -> (bool, LineV) {
    let e = sp_push_char(l.back, l.front, ch);
    (e.ok, LineV {
        back: e.back,
        front: e.front,
        part: l.part,
        fpart: if e.ok {
            l.fpart.push(ch)
        } else {
            l.fpart
        },
    })
}

/// Removing the last typed character: it is returned when the edit is accepted.
pub open spec fn sp_pop(l: LineV) -> (Option<char>, LineV) {
    if l.fpart.len() == 0 {
        (None, l)
    } else {
        let c = l.fpart.last();
        let e = sp_pop_char(l.back, l.front, c);
        (if e.ok {
            Some(c)
        } else {
            None
        }, LineV { back: e.back, front: e.front, part: l.part, fpart: l.fpart.drop_last() })
    }
}

/// Moving the cursor right: the next character to the right is typed again.
pub open spec fn sp_right(l: LineV) -> (bool, LineV) {
    if l.part.len() == 0 {
        (false, l)
    } else {
        (true, sp_push(LineV { part: l.part.drop_last(), ..l }, l.part.last()).1)
    }
}

/// Moving the cursor left: the last typed character is removed and kept to
/// the right of the cursor.
pub open spec fn sp_left(l: LineV) -> (bool, LineV) {
    let (r, l2) = sp_pop(l);
    match r {
        None => (false, l2),
        Some(c) => (true, LineV { part: l2.part.push(c), ..l2 }),
    }
}

/// The line with everything to the right of the cursor typed in.
pub open spec fn sp_replay(l: LineV) -> LineV
    decreases l.part.len(),
{
    if l.part.len() == 0 {
        l
    } else {
        sp_replay(sp_push(LineV { part: l.part.drop_last(), ..l }, l.part.last()).1)
    }
}

/// Closes every open structure, as far as that goes.
pub open spec fn sp_close(b: Seq<InputV>, f: InputV) -> (Seq<InputV>, InputV)
    decreases b.len(),
{
    let e = sp_push_back(b, f);
    if !e.ok {
        (b, f)
    } else if e.back.len() == 0 {
        (e.back, e.front)
    } else {
        sp_close(e.back, e.front)
    }
}

/// The value of the whole line, when every structure in it is closed.
pub open spec fn sp_process(l: LineV) -> Option<InputV> {
    let r = sp_replay(l);
    let (b, f) = sp_close(r.back, r.front);
    if b.len() > 0 {
        None
    } else {
        Some(f)
    }
}

/// The line as it stands after `e` changed its structure.
pub open spec fn edited(old: LineV, new: LineV, ok: bool, e: EditV) -> bool {
    &&& ok == e.ok
    &&& new.back == e.back
    &&& new.front == e.front
    &&& new.part == old.part
    &&& new.fpart == old.fpart
}

/// The empty line.
pub open spec fn empty_line() -> LineV {
    LineV { back: seq![InputV::Long(seq![])], front: InputV::Short(seq![]), part: seq![], fpart: seq![] }
}

fn back_push(v: &mut Vec<InputValue>, x: InputValue)
    ensures
        input_views(final(v)@) == input_views(old(v)@).push(x@),
{
    let ghost before = v@;
    v.push(x);
    proof {
        lemma_input_views_push(before, x);
    }
}

fn back_pop(v: &mut Vec<InputValue>) -> (res: Option<InputValue>)
    ensures
        input_views(old(v)@).len() == 0 ==> res is None && final(v)@ == old(v)@,
        input_views(old(v)@).len() > 0 ==> res is Some && res->0@ == input_views(old(v)@).last()
            && input_views(final(v)@) == input_views(old(v)@).drop_last(),
{
    let ghost before = v@;
    let r = v.pop();
    proof {
        if before.len() > 0 {
            lemma_input_views_drop_last(before);
            assert(before.drop_last() == v@);
        }
    }
    r
}

fn is_container_value(v: &InputValue) -> (res: bool)
    ensures
        res == is_container(v@),
{
    match v {
        InputValue::Long(_) | InputValue::Function(_, _) => true,
        _ => false,
    }
}

fn is_empty_list(v: &InputValue) -> (res: bool)
    ensures
        res == (v@ == InputV::Long(seq![])),
{
    match v {
        InputValue::Long(items) => {
            proof {
                assert(v@ == InputV::Long(input_views(items@)));
                if items.len() == 0 {
                    assert(input_views(items@) =~= Seq::<InputV>::empty());
                } else {
                    assert(input_views(items@).len() > 0);
                }
            }
            items.len() == 0
        },
        _ => false,
    }
}

fn is_long_value(v: &InputValue) -> (res: bool)
    ensures
        res == (v@ is Long),
{
    match v {
        InputValue::Long(_) => true,
        _ => false,
    }
}

fn is_literal_value(v: &InputValue) -> (res: bool)
    ensures
        res == (v@ is Literal),
{
    match v {
        InputValue::Literal(_) => true,
        _ => false,
    }
}

/// Adds an item at the end of a list or call.
fn container_push(c: &mut InputValue, x: InputValue)
    requires
        is_container(old(c)@),
    ensures
        final(c)@ == with_items(old(c)@, items_of(old(c)@).push(x@)),
{
    match c {
        InputValue::Long(v) => {
            back_push(v, x);
        },
        InputValue::Function(_, v) => {
            back_push(v, x);
        },
        _ => {},
    }
}

/// Removes the last item of a list or call.
fn container_pop(c: &mut InputValue) -> (res: Option<InputValue>)
    requires
        is_container(old(c)@),
    ensures
        items_of(old(c)@).len() == 0 ==> res is None && final(c)@ == old(c)@,
        items_of(old(c)@).len() > 0 ==> res is Some && res->0@ == items_of(old(c)@).last()
            && final(c)@ == with_items(old(c)@, items_of(old(c)@).drop_last()),
{
    match c {
        InputValue::Long(v) => back_pop(v),
        InputValue::Function(_, v) => back_pop(v),
        _ => None,
    }
}

/// Adds a character to the text of a word, literal or separator.
fn text_push_value(f: &mut InputValue, ch: char)
    requires
        !is_container(old(f)@),
    ensures
        final(f)@ == text_push(old(f)@, ch),
{
    match f {
        InputValue::Short(s) => s.push(ch),
        InputValue::Literal(s) => s.push(ch),
        InputValue::Split(s) => s.push(ch),
        _ => {},
    }
}

/// Removes `ch` from the end of the text of a word, literal or separator.
fn text_pop_value(f: &mut InputValue, ch: char) -> (res: bool)
    requires
        !is_container(old(f)@),
    ensures
        res == ends_with(old(f)@, ch),
        res ==> final(f)@ == text_pop(old(f)@),
        !res ==> final(f)@ == old(f)@,
{
    let popped = match f {
        InputValue::Short(s) => s.pop(),
        InputValue::Literal(s) => s.pop(),
        InputValue::Split(s) => s.pop(),
        _ => None,
    };
    match popped {
        Some(c) => {
            if c == ch {
                true
            } else {
                text_push_value(f, c);
                proof {
                    assert(text_of(old(f)@) =~= text_of(old(f)@).drop_last().push(c));
                }
                false
            }
        },
        None => false,
    }
}

fn text_is_empty(f: &InputValue) -> (res: bool)
    ensures
        res == (text_of(f@).len() == 0),
{
    match f {
        InputValue::Short(s) => s.as_str().is_empty(),
        InputValue::Literal(s) => s.as_str().is_empty(),
        InputValue::Split(s) => s.as_str().is_empty(),
        _ => true,
    }
}

fn single(ch: char) -> (res: String)
    ensures
        res@ == seq![ch],
{
    let mut s = String::new();
    s.push(ch);
    proof {
        assert(s@ =~= seq![ch]);
    }
    s
}

impl InputLine {
    /// The empty line: an empty list being typed into.
    pub fn new() -> (res: InputLine)
        ensures
            res@ == empty_line(),
    {
        let mut back: Vec<InputValue> = Vec::new();
        back_push(&mut back, InputValue::Long(Vec::new()));
        let res = InputLine {
            back,
            front: InputValue::Short(String::new()),
            part: String::new(),
            fpart: String::new(),
        };
        proof {
            assert(input_views(Seq::<InputValue>::empty()) =~= Seq::<InputV>::empty());
            assert(res@.back =~= empty_line().back);
        }
        res
    }

    /// Whether nothing has been typed.
    pub fn is_empty(&self) -> (res: bool)
        ensures
            res == (self@.back == seq![InputV::Long(seq![])] && input_is_empty(self@.front)
                && self@.part.len() == 0 && self@.fpart.len() == 0),
    {
        let back_ok = if self.back.len() == 1 {
            proof {
                lemma_input_views_index(self.back@, 0);
            }
            is_empty_list(&self.back[0])
        } else {
            false
        };
        proof {
            assert(input_views(self.back@).len() == self.back@.len());
            if back_ok {
                lemma_input_views_index(self.back@, 0);
                assert(input_views(self.back@) =~= seq![InputV::Long(seq![])]);
            }
            if self.back.len() == 1 && input_views(self.back@) == seq![InputV::Long(seq![])] {
                assert(input_views(self.back@)[0] == InputV::Long(seq![]));
            }
        }
        back_ok && self.front.is_empty() && self.part.as_str().is_empty()
            && self.fpart.as_str().is_empty()
    }

    /// A copy of the line.
    pub fn clone_line(&self) -> (res: InputLine)
        ensures
            res@ == self@,
    {
        InputLine {
            back: input_vec_clone(&self.back),
            front: input_clone(&self.front),
            part: self.part.clone(),
            fpart: self.fpart.clone(),
        }
    }

    /// Whether removing the last typed character is defined (see `pop_defined`).
    pub fn can_pop(&self) -> (res: bool)
        ensures
            res == pop_defined(self@),
    {
        let n = self.fpart.unicode_len();
        if n == 0 {
            return true;
        }
        let ch = self.fpart.get_char(n - 1);
        proof {
            assert(self@.fpart.last() == ch);
        }
        let front_empty_word = match &self.front {
            InputValue::Short(s) => {
                let r = s.as_str().is_empty();
                proof {
                    if r {
                        assert(s@ =~= Seq::<char>::empty());
                    }
                }
                r
            },
            _ => false,
        };
        if ch == OPR {
            let only_list = self.back.len() == 1 && {
                proof {
                    if self.back.len() == 1 {
                        lemma_input_views_index(self.back@, 0);
                    }
                }
                is_empty_list(&self.back[0])
            };
            proof {
                if self@.front == InputV::Short(seq![]) {
                    assert(front_empty_word);
                }
                if only_list {
                    lemma_input_views_index(self.back@, 0);
                    assert(self@.back =~= seq![InputV::Long(seq![])]);
                }
                if self@.back.len() == 1 && self@.back[0] == InputV::Long(seq![]) {
                    lemma_input_views_index(self.back@, 0);
                }
            }
            !(front_empty_word && only_list)
        } else if ch == SPC || ch == CMA || ch == CPR || ch == QUT {
            true
        } else {
            let single = match &self.front {
                InputValue::Short(s) => {
                    let r = s.as_str().unicode_len() == 1 && s.as_str().get_char(0) == ch;
                    proof {
                        if r {
                            assert(s@ =~= seq![ch]);
                        }
                    }
                    r
                },
                _ => false,
            };
            proof {
                if self@.front == InputV::Short(seq![ch]) {
                    assert(self@.front->Short_0[0] == ch);
                }
            }
            !(single && self.back.len() == 0)
        }
    }

    /// Empties the line.
    pub fn clear(&mut self)
        ensures
            final(self)@ == empty_line(),
    {
        self.back.clear();
        back_push(&mut self.back, InputValue::Long(Vec::new()));
        self.front.clear();
        self.part.clear();
        self.fpart.clear();
        proof {
            assert(input_views(Seq::<InputValue>::empty()) =~= Seq::<InputV>::empty());
            assert(self@.back =~= empty_line().back);
        }
    }

    fn push_back(&mut self) -> (res: bool)
        ensures
            edited(old(self)@, final(self)@, res, sp_push_back(old(self)@.back, old(self)@.front)),
    {
        let mut last = match back_pop(&mut self.back) {
            None => return false,
            Some(v) => v,
        };
        if !is_container_value(&last) {
            back_push(&mut self.back, last);
            proof {
                assert(input_views(self.back@) =~= input_views(old(self).back@));
            }
            return false;
        }
        let add = is_long_value(&self.front) || !self.front.is_empty();
        if add {
            let c = input_clone(&self.front);
            container_push(&mut last, c);
        }
        self.front = last;
        true
    }

    fn pop_back(&mut self) -> (res: bool)
        ensures
            edited(old(self)@, final(self)@, res, sp_pop_back(old(self)@.back, old(self)@.front)),
    {
        if !is_container_value(&self.front) {
            return false;
        }
        let next = match container_pop(&mut self.front) {
            None => return false,
            Some(v) => v,
        };
        let f = input_clone(&self.front);
        back_push(&mut self.back, f);
        self.front = next;
        true
    }

    /// Closes the innermost structure, keeps it on the enclosing list and
    /// starts a separator made of `sep`.
    fn start_sep(&mut self, sep: char) -> (res: bool)
        ensures
            edited(old(self)@, final(self)@, res, sp_start_sep(old(self)@.back, old(self)@.front, seq![sep])),
    {
        if !self.push_back() {
            return false;
        }
        let f = input_clone(&self.front);
        back_push(&mut self.back, f);
        self.front = InputValue::Split(single(sep));
        true
    }

    fn push_spc(&mut self) -> (res: bool)
        ensures
            edited(old(self)@, final(self)@, res, sp_push_spc(old(self)@.back, old(self)@.front)),
    {
        match &self.front {
            InputValue::Split(_) | InputValue::Literal(_) => {
                text_push_value(&mut self.front, SPC);
                true
            },
            InputValue::Short(s) => {
                if s.as_str().is_empty() {
                    self.front = InputValue::Split(single(SPC));
                    true
                } else {
                    self.start_sep(SPC)
                }
            },
            _ => self.start_sep(SPC),
        }
    }

    fn push_cma(&mut self) -> (res: bool)
        ensures
            edited(old(self)@, final(self)@, res, sp_push_cma(old(self)@.back, old(self)@.front)),
    {
        match &self.front {
            InputValue::Split(s) => {
                if s.as_str().is_empty() {
                    text_push_value(&mut self.front, CMA);
                    true
                } else {
                    self.start_sep(CMA)
                }
            },
            InputValue::Literal(_) => {
                text_push_value(&mut self.front, CMA);
                true
            },
            InputValue::Short(s) => {
                if s.as_str().is_empty() {
                    self.front = InputValue::Split(single(CMA));
                    true
                } else {
                    self.start_sep(CMA)
                }
            },
            _ => self.start_sep(CMA),
        }
    }

    /// Removes the separator character `c` (a space or a comma).
    fn pop_sep(&mut self, c: char) -> (res: bool)
        ensures
            edited(old(self)@, final(self)@, res, sp_pop_sep(old(self)@.back, old(self)@.front, c)),
    {
        if is_literal_value(&self.front) {
            return text_pop_value(&mut self.front, c);
        }
        match &self.front {
            InputValue::Split(_) => {},
            _ => return false,
        }
        if !text_pop_value(&mut self.front, c) {
            return false;
        }
        if !text_is_empty(&self.front) {
            return true;
        }
        let popped = back_pop(&mut self.back);
        match popped {
            Some(p) => {
                if is_container_value(&p) {
                    let restore = input_clone(&p);
                    self.front = p;
                    if !self.pop_back() {
                        back_push(&mut self.back, restore);
                        self.front = InputValue::Split(single(c));
                        proof {
                            assert(input_views(self.back@) =~= input_views(old(self).back@));
                            assert(text_of(old(self).front@) =~= seq![c]);
                        }
                        false
                    } else {
                        if is_literal_value(&self.front) {
                            let pushed = self.push_back();
                            proof {
                                assert(pushed);
                            }
                            let f = input_clone(&self.front);
                            back_push(&mut self.back, f);
                            self.front = InputValue::Split(String::new());
                        }
                        true
                    }
                } else {
                    back_push(&mut self.back, p);
                    self.front = InputValue::Short(String::new());
                    proof {
                        assert(input_views(self.back@) =~= input_views(old(self).back@));
                    }
                    true
                }
            },
            None => {
                self.front = InputValue::Short(String::new());
                true
            },
        }
    }

    fn push_opr(&mut self) -> (res: bool)
        ensures
            edited(old(self)@, final(self)@, res, sp_push_opr(old(self)@.back, old(self)@.front)),
    {
        match &self.front {
            InputValue::Split(_) => {
                if !self.push_back() {
                    return false;
                }
                let f = input_clone(&self.front);
                back_push(&mut self.back, f);
                back_push(&mut self.back, InputValue::Long(Vec::new()));
                self.front = InputValue::Short(String::new());
                proof {
                    assert(input_views(Seq::<InputValue>::empty()) =~= Seq::<InputV>::empty());
                }
                true
            },
            InputValue::Short(name) => {
                if name.as_str().is_empty() {
                    back_push(&mut self.back, InputValue::Long(Vec::new()));
                } else {
                    let n = name.clone();
                    back_push(&mut self.back, InputValue::Function(n, Vec::new()));
                }
                self.front = InputValue::Short(String::new());
                proof {
                    assert(input_views(Seq::<InputValue>::empty()) =~= Seq::<InputV>::empty());
                }
                true
            },
            InputValue::Literal(_) => {
                text_push_value(&mut self.front, OPR);
                true
            },
            _ => false,
        }
    }

    fn pop_opr(&mut self) -> (res: bool)
        requires
            pop_char_defined(old(self)@.back, old(self)@.front, OPR),
        ensures
            edited(old(self)@, final(self)@, res, sp_pop_opr(old(self)@.back, old(self)@.front)),
    {
        if is_literal_value(&self.front) {
            return text_pop_value(&mut self.front, OPR);
        }
        match &self.front {
            InputValue::Short(_) => {},
            _ => return false,
        }
        if !text_is_empty(&self.front) {
            return false;
        }
        match back_pop(&mut self.back) {
            Some(InputValue::Long(v)) => {
                if v.len() != 0 {
                    back_push(&mut self.back, InputValue::Long(v));
                    proof {
                        assert(input_views(self.back@) =~= input_views(old(self).back@));
                    }
                    return false;
                }
                proof {
                    assert(input_views(v@) =~= Seq::<InputV>::empty());
                }
                let popped = back_pop(&mut self.back);
                match popped {
                    Some(p) => {
                        if is_container_value(&p) {
                            let restore = input_clone(&p);
                            self.front = p;
                            if !self.pop_back() {
                                back_push(&mut self.back, restore);
                                self.front = InputValue::Short(String::new());
                                proof {
                                    assert(input_views(self.back@) =~= input_views(old(self).back@).drop_last());
                                }
                            }
                            true
                        } else {
                            back_push(&mut self.back, p);
                            proof {
                                assert(input_views(self.back@) =~= input_views(old(self).back@).drop_last());
                            }
                            true
                        }
                    },
                    None => {
                        proof {
                            assert(text_of(old(self).front@) =~= Seq::<char>::empty());
                            assert(old(self).front@ == InputV::Short(seq![]));
                            assert(input_views(old(self).back@).len() == 1);
                            assert(input_views(old(self).back@)[0] == InputV::Long(seq![]));
                            assert(false);
                        }
                        false
                    },
                }
            },
            Some(InputValue::Function(name, v)) => {
                if v.len() != 0 {
                    back_push(&mut self.back, InputValue::Function(name, v));
                    proof {
                        assert(input_views(self.back@) =~= input_views(old(self).back@));
                    }
                    return false;
                }
                self.front = InputValue::Short(name);
                true
            },
            _ => false,
        }
    }

    fn push_cpr(&mut self) -> (res: bool)
        ensures
            edited(old(self)@, final(self)@, res, sp_push_cpr(old(self)@.back, old(self)@.front)),
    {
        if is_literal_value(&self.front) {
            text_push_value(&mut self.front, CPR);
            true
        } else {
            self.push_back()
        }
    }

    fn pop_cpr(&mut self) -> (res: bool)
        ensures
            edited(old(self)@, final(self)@, res, sp_pop_cpr(old(self)@.back, old(self)@.front)),
    {
        if is_literal_value(&self.front) {
            return text_pop_value(&mut self.front, CPR);
        }
        if !is_container_value(&self.front) {
            return false;
        }
        if !self.pop_back() {
            let popped = back_pop(&mut self.back);
            match popped {
                Some(v) => {
                    if v.is_empty() {
                        let f = input_clone(&self.front);
                        back_push(&mut self.back, f);
                        back_push(&mut self.back, v);
                        self.front = InputValue::Short(String::new());
                        true
                    } else {
                        back_push(&mut self.back, v);
                        proof {
                            assert(input_views(self.back@) =~= input_views(old(self).back@));
                        }
                        false
                    }
                },
                None => {
                    let f = input_clone(&self.front);
                    back_push(&mut self.back, f);
                    self.front = InputValue::Short(String::new());
                    true
                },
            }
        } else {
            if is_literal_value(&self.front) {
                let pushed = self.push_back();
                proof {
                    assert(pushed);
                }
                let f = input_clone(&self.front);
                back_push(&mut self.back, f);
                self.front = InputValue::Split(String::new());
            }
            true
        }
    }

    fn push_qut(&mut self) -> (res: bool)
        ensures
            edited(old(self)@, final(self)@, res, sp_push_qut(old(self)@.back, old(self)@.front)),
    {
        match &self.front {
            InputValue::Split(_) | InputValue::Literal(_) => {
                let was_split = !is_literal_value(&self.front);
                if !self.push_back() {
                    return false;
                }
                let f = input_clone(&self.front);
                back_push(&mut self.back, f);
                if was_split {
                    self.front = InputValue::Literal(String::new());
                } else {
                    self.front = InputValue::Split(String::new());
                }
                true
            },
            InputValue::Short(s) => {
                let contents = s.clone();
                self.front = InputValue::Literal(contents);
                true
            },
            _ => false,
        }
    }

    fn pop_qut(&mut self) -> (res: bool)
        ensures
            edited(old(self)@, final(self)@, res, sp_pop_qut(old(self)@.back, old(self)@.front)),
    {
        match &self.front {
            InputValue::Literal(s) => {
                if !s.as_str().is_empty() {
                    let contents = s.clone();
                    self.front = InputValue::Short(contents);
                    return true;
                }
                match back_pop(&mut self.back) {
                    Some(v) => {
                        let restore = input_clone(&v);
                        self.front = v;
                        if !self.pop_back() {
                            back_push(&mut self.back, restore);
                            self.front = InputValue::Short(String::new());
                            proof {
                                assert(input_views(self.back@) =~= input_views(old(self).back@));
                            }
                        }
                        true
                    },
                    None => false,
                }
            },
            InputValue::Split(s) => {
                if !s.as_str().is_empty() {
                    return false;
                }
                match back_pop(&mut self.back) {
                    Some(v) => {
                        let restore = input_clone(&v);
                        self.front = v;
                        if !self.pop_back() {
                            back_push(&mut self.back, restore);
                            self.front = InputValue::Split(String::new());
                            proof {
                                assert(input_views(self.back@) =~= input_views(old(self).back@));
                                assert(text_of(old(self).front@) =~= Seq::<char>::empty());
                            }
                            false
                        } else {
                            true
                        }
                    },
                    None => false,
                }
            },
            _ => false,
        }
    }

    fn push_simple(&mut self, ch: char) -> (res: bool)
        ensures
            edited(old(self)@, final(self)@, res, sp_push_simple(old(self)@.back, old(self)@.front, ch)),
    {
        match &self.front {
            InputValue::Split(_) => {
                if !self.push_back() {
                    return false;
                }
                let f = input_clone(&self.front);
                back_push(&mut self.back, f);
                self.front = InputValue::Short(single(ch));
                true
            },
            InputValue::Short(_) | InputValue::Literal(_) => {
                text_push_value(&mut self.front, ch);
                true
            },
            _ => false,
        }
    }

    fn pop_simple(&mut self, ch: char) -> (res: bool)
        requires
            pop_char_defined(old(self)@.back, old(self)@.front, ch),
            ch != SPC && ch != CMA && ch != OPR && ch != CPR && ch != QUT,
        ensures
            edited(old(self)@, final(self)@, res, sp_pop_simple(old(self)@.back, old(self)@.front, ch)),
    {
        if is_literal_value(&self.front) {
            return text_pop_value(&mut self.front, ch);
        }
        match &self.front {
            InputValue::Short(_) => {},
            _ => return false,
        }
        if !text_pop_value(&mut self.front, ch) {
            return false;
        }
        if !text_is_empty(&self.front) {
            return true;
        }
        proof {
            assert(text_of(self.front@) =~= Seq::<char>::empty());
            assert(self.front@ == InputV::Short(seq![]));
        }
        let popped = back_pop(&mut self.back);
        match popped {
            Some(p) => {
                if is_container_value(&p) {
                    let restore = input_clone(&p);
                    let old_front = input_clone(&self.front);
                    self.front = p;
                    if !self.pop_back() {
                        back_push(&mut self.back, restore);
                        self.front = old_front;
                        proof {
                            assert(input_views(self.back@) =~= input_views(old(self).back@));
                            assert(text_of(old(self).front@) =~= seq![ch]);
                        }
                    }
                    true
                } else {
                    back_push(&mut self.back, p);
                    proof {
                        assert(input_views(self.back@) =~= input_views(old(self).back@));
                    }
                    true
                }
            },
            None => {
                proof {
                    assert(text_of(old(self).front@) =~= seq![ch]);
                    assert(false);
                }
                true
            },
        }
    }

    /// Types `ch`.  Returns whether the line accepted it; a refused
    /// character leaves the line as it was.
    pub fn push(&mut self, ch: char) -> (res: bool)
        ensures
            (res, final(self)@) == sp_push(old(self)@, ch),
    {
        let pushed = if ch == SPC {
            self.push_spc()
        } else if ch == CMA {
            self.push_cma()
        } else if ch == OPR {
            self.push_opr()
        } else if ch == CPR {
            self.push_cpr()
        } else if ch == QUT {
            self.push_qut()
        } else {
            self.push_simple(ch)
        };
        if pushed {
            self.fpart.push(ch);
        }
        pushed
    }

    /// Removes the last typed character and undoes its effect on the
    /// structure.  Returns the character when the structure could be
    /// unwound; the character is dropped from the typed text either way.
    pub fn pop(&mut self) -> (res: Option<char>)
        requires
            pop_defined(old(self)@),
        ensures
            (res, final(self)@) == sp_pop(old(self)@),
    {
        let out = match self.fpart.pop() {
            None => return None,
            Some(v) => v,
        };
        let ok = if out == SPC {
            self.pop_sep(SPC)
        } else if out == CMA {
            self.pop_sep(CMA)
        } else if out == OPR {
            self.pop_opr()
        } else if out == CPR {
            self.pop_cpr()
        } else if out == QUT {
            self.pop_qut()
        } else {
            self.pop_simple(out)
        };
        if !ok {
            None
        } else {
            Some(out)
        }
    }

    /// Moves the cursor one character right.
    pub fn right(&mut self) -> (res: bool)
        ensures
            (res, final(self)@) == sp_right(old(self)@),
    {
        match self.part.pop() {
            Some(ch) => {
                self.push(ch);
                true
            },
            None => false,
        }
    }

    /// Moves the cursor one character left.
    pub fn left(&mut self) -> (res: bool)
        requires
            pop_defined(old(self)@),
        ensures
            (res, final(self)@) == sp_left(old(self)@),
    {
        match self.pop() {
            None => false,
            Some(ch) => {
                self.part.push(ch);
                true
            },
        }
    }

    /// The value of the line: everything right of the cursor is typed in
    /// and every open structure closed.  `None` when a structure cannot be
    /// closed.
    pub fn process(&self) -> (res: Option<InputValue>)
        ensures
            match res {
                None => sp_process(self@) is None,
                Some(v) => sp_process(self@) == Some(v@),
            },
    {
        let mut cself = InputLine {
            back: input_vec_clone(&self.back),
            front: input_clone(&self.front),
            part: self.part.clone(),
            fpart: self.fpart.clone(),
        };
        loop
            invariant
                sp_replay(cself@) == sp_replay(self@),
            ensures
                cself@ == sp_replay(self@),
            decreases cself@.part.len(),
        {
            match cself.part.pop() {
                Some(ch) => {
                    cself.push(ch);
                },
                None => break,
            }
        }
        let ghost start = cself@;
        while cself.push_back() && cself.back.len() != 0
            invariant
                sp_close(cself@.back, cself@.front) == sp_close(start.back, start.front),
            decreases cself@.back.len(),
        {
        }
        if cself.back.len() != 0 {
            None
        } else {
            Some(cself.front)
        }
    }
}

impl Clone for InputLine {
    fn clone(&self) -> (res: Self)
        ensures
            res@ == self@,
    {
        self.clone_line()
    }
}

// ---------------------------------------------------------------------
// Removing what was typed.
// ---------------------------------------------------------------------

/// The characters that give a line its structure.
pub open spec fn is_special(ch: char) -> bool {
    ch == SPC || ch == CMA || ch == OPR || ch == CPR || ch == QUT
}

/// The cases of `undo_case` where the character goes into the text or
/// structure at hand: any character but a quote inside a literal; an
/// ordinary character at the end of a word; a space at the end of a
/// separator; an opening parenthesis after a word; a quote after a word;
/// inside a list or a call, a space, comma or closing parenthesis after a
/// word, or a quote that closes a literal holding text; an opening
/// parenthesis where no word has begun, unless the enclosing structure
/// already holds items; and an opening parenthesis after a separator
/// inside a list or a call.
pub open spec fn undo_in_place(l: LineV, ch: char) -> bool {
    ||| (l.front is Literal && ch != QUT)
    ||| (l.front is Short && text_of(l.front).len() > 0 && !is_special(ch))
    ||| (l.front is Split && text_of(l.front).len() > 0 && ch == SPC)
    ||| (l.front is Short && text_of(l.front).len() > 0 && ch == OPR)
    ||| (l.front is Short && text_of(l.front).len() > 0 && ch == QUT)
    ||| (l.front is Short && text_of(l.front).len() > 0 && (ch == SPC || ch == CMA || ch == CPR) && l.back.len()
        > 0 && is_container(l.back.last()))
    ||| (l.front is Literal && text_of(l.front).len() > 0 && ch == QUT && l.back.len() > 0 && is_container(
        l.back.last(),
    ))
    ||| (l.front == InputV::Short(seq![]) && ch == OPR && l.back.len() > 0 && !(is_container(l.back.last())
        && items_of(l.back.last()).len() > 0))
    ||| (l.front is Split && text_of(l.front).len() > 0 && ch == OPR && l.back.len() > 0 && is_container(
        l.back.last(),
    ))
}

/// Whether `v` is kept as an item when the structure around it closes.
pub open spec fn kept_as_item(v: InputV) -> bool {
    v is Long || !input_is_empty(v)
}

/// Whether the innermost enclosing structure of `b` ends with a literal
/// holding text (the state just after a literal closed).
pub open spec fn after_literal(b: Seq<InputV>) -> bool {
    &&& b.len() > 0
    &&& is_container(b.last())
    &&& items_of(b.last()).len() > 0
    &&& items_of(b.last()).last() is Literal
    &&& text_of(items_of(b.last()).last()).len() > 0
}

/// Whether no word has begun in an enclosing structure that holds no items yet.
pub open spec fn fresh_word(l: LineV) -> bool {
    &&& l.front == InputV::Short(seq![])
    &&& l.back.len() > 0
    &&& !(is_container(l.back.last()) && items_of(l.back.last()).len() > 0)
}

/// The cases of `undo_case` where the character starts something new or
/// closes what is at hand: the first character of a word, or a quote there;
/// an ordinary character or a quote after a separator; a space or comma
/// after a closed list or call, or a comma after a separator; a space or
/// comma, or a closing parenthesis, just after a literal closed; a closing
/// parenthesis after a separator or a closed list or call, or right after
/// an opening one where nothing precedes it.
pub open spec fn undo_closing(l: LineV, ch: char) -> bool {
    let b = l.back;
    let f = l.front;
    let inside = b.len() > 0 && is_container(b.last());
    ||| (!is_special(ch) && f is Split && text_of(f).len() > 0 && inside)
    ||| ((!is_special(ch) || ch == QUT) && fresh_word(l))
    ||| ((ch == SPC || ch == CMA || ch == CPR) && f == InputV::Split(seq![]) && after_literal(b))
    ||| ((ch == SPC || ch == CMA) && (f is Long || f is Function) && kept_as_item(f) && inside)
    ||| ((ch == CMA || ch == CPR || ch == QUT) && f is Split && text_of(f).len() > 0 && inside)
    ||| (ch == CPR && (f is Long || f is Function) && kept_as_item(f) && inside)
    ||| (ch == CPR && f == InputV::Short(seq![]) && inside && items_of(b.last()).len() == 0 && (b.len() == 1 || (
    input_is_empty(b[b.len() - 2]) && b[b.len() - 2] == b.last())))
}

/// The cases in which removing a typed character is proved to undo typing it.
pub open spec fn undo_case(l: LineV, ch: char) -> bool {
    undo_in_place(l, ch) || undo_closing(l, ch)
}

proof fn lemma_close_reopen(b: Seq<InputV>, f: InputV)
    requires
        b.len() > 0,
        is_container(b.last()),
        kept_as_item(f),
    ensures
        sp_push_back(b, f).ok,
        is_container(sp_push_back(b, f).front),
        sp_pop_back(sp_push_back(b, f).back, sp_push_back(b, f).front) == edit(true, b, f),
{
    let last = b.last();
    let items = items_of(last);
    let e = sp_push_back(b, f);
    assert(e.front == with_items(last, items.push(f)));
    assert(items_of(e.front) == items.push(f));
    assert(items.push(f).drop_last() =~= items);
    lemma_with_items_same(last);
    assert(b.drop_last().push(last) =~= b);
}

proof fn lemma_reclose_literal(b: Seq<InputV>)
    requires
        after_literal(b),
    ensures
        sp_pop_back(b.drop_last(), b.last()).ok,
        sp_pop_back(b.drop_last(), b.last()).front is Literal,
        ({
            let e = sp_pop_back(b.drop_last(), b.last());
            let g = sp_push_back(e.back, e.front);
            g.back.push(g.front) == b
        }),
{
    let last = b.last();
    let items = items_of(last);
    let e = sp_pop_back(b.drop_last(), last);
    assert(e.back == b.drop_last().push(with_items(last, items.drop_last())));
    let g = sp_push_back(e.back, e.front);
    assert(items.drop_last().push(items.last()) =~= items);
    lemma_with_items_same(last);
    assert(g.front == last);
    assert(g.back =~= b.drop_last());
    assert(b.drop_last().push(last) =~= b);
}

proof fn lemma_undo_closing(l: LineV, ch: char)
    requires
        undo_closing(l, ch),
    ensures
        sp_push(l, ch).0,
        pop_defined(sp_push(l, ch).1),
        sp_pop(sp_push(l, ch).1) == (Some(ch), l),
{
    let (ok, l2) = sp_push(l, ch);
    let b = l.back;
    let f = l.front;
    assert(l2.fpart.drop_last() =~= l.fpart);
    assert(l2.fpart.last() == ch);
    if !is_special(ch) && f is Split && text_of(f).len() > 0 && b.len() > 0 && is_container(b.last()) {
        lemma_close_reopen(b, f);
        let e = sp_push_back(b, f);
        assert(l2.back == e.back.push(e.front));
        assert(l2.back.drop_last() =~= e.back);
        assert(sp_pop_char(l2.back, l2.front, ch) == edit(true, b, f));
    } else if (!is_special(ch) || ch == QUT) && fresh_word(l) {
        if is_container(b.last()) {
            assert(!sp_pop_back(b.drop_last(), b.last()).ok);
        }
        if ch == QUT {
            assert(sp_pop_char(l2.back, l2.front, ch) == edit(true, b, f));
        } else {
            assert(l2.front == InputV::Short(seq![ch]));
            assert(sp_pop_char(l2.back, l2.front, ch) == edit(true, b, f));
        }
    } else if (ch == SPC || ch == CMA || ch == CPR) && f == InputV::Split(seq![]) && after_literal(b) {
        lemma_reclose_literal(b);
        if ch == CPR {
            assert(l2.back == b.drop_last());
            assert(l2.front == b.last());
        }
        assert(sp_pop_char(l2.back, l2.front, ch) == edit(true, b, f));
    } else if (ch == SPC || ch == CMA) && (f is Long || f is Function) && kept_as_item(f) && b.len() > 0
        && is_container(b.last()) {
        lemma_close_reopen(b, f);
        let e = sp_push_back(b, f);
        assert(l2.back == e.back.push(e.front));
        assert(l2.back.drop_last() =~= e.back);
        assert(sp_pop_char(l2.back, l2.front, ch) == edit(true, b, f));
    } else if (ch == CMA || ch == CPR || ch == QUT) && f is Split && text_of(f).len() > 0 && b.len() > 0
        && is_container(b.last()) {
        lemma_close_reopen(b, f);
        let e = sp_push_back(b, f);
        if ch != CPR {
            assert(l2.back == e.back.push(e.front));
            assert(l2.back.drop_last() =~= e.back);
        }
        assert(sp_pop_char(l2.back, l2.front, ch) == edit(true, b, f));
    } else if ch == CPR && (f is Long || f is Function) && kept_as_item(f) && b.len() > 0 && is_container(
        b.last(),
    ) {
        lemma_close_reopen(b, f);
        assert(sp_pop_char(l2.back, l2.front, ch) == edit(true, b, f));
    } else {
        let bb = b.drop_last();
        assert(l2.back == bb);
        assert(l2.front == b.last());
        assert(!sp_pop_back(bb, b.last()).ok);
        if bb.len() > 0 {
            assert(bb.last() == b[b.len() - 2]);
            assert(bb.drop_last().push(b.last()).push(bb.last()) =~= b);
        } else {
            assert(bb.push(b.last()) =~= b);
        }
        assert(sp_pop_char(l2.back, l2.front, ch) == edit(true, b, f));
    }
}

proof fn lemma_text_push_pop(f: InputV, c: char)
    requires
        f is Short || f is Literal || f is Split,
    ensures
        text_pop(text_push(f, c)) == f,
        text_of(text_push(f, c)) == text_of(f).push(c),
{
    assert(text_of(f).push(c).drop_last() =~= text_of(f));
}

proof fn lemma_with_items_same(v: InputV)
    requires
        is_container(v),
    ensures
        with_items(v, items_of(v)) == v,
{
}

/// Typing a character and then removing it gives back the line as it was,
/// in the cases of `undo_case`; the removal returns the typed character.
pub proof fn law_pop_undoes_push(l: LineV, ch: char)
    requires
        undo_case(l, ch),
    ensures
        sp_push(l, ch).0,
        pop_defined(sp_push(l, ch).1),
        sp_pop(sp_push(l, ch).1) == (Some(ch), l),
        sp_push(sp_pop(sp_push(l, ch).1).1, ch) == sp_push(l, ch),
{
    if undo_in_place(l, ch) {
        lemma_undo_in_place(l, ch);
    } else {
        lemma_undo_closing(l, ch);
    }
}

proof fn lemma_undo_in_place(l: LineV, ch: char)
    requires
        undo_in_place(l, ch),
    ensures
        sp_push(l, ch).0,
        pop_defined(sp_push(l, ch).1),
        sp_pop(sp_push(l, ch).1) == (Some(ch), l),
{
    let (ok, l2) = sp_push(l, ch);
    let b = l.back;
    let f = l.front;
    assert(l2.fpart.drop_last() =~= l.fpart);
    if f is Literal && ch != QUT {
        lemma_text_push_pop(f, ch);
        assert(l2.front == text_push(f, ch));
        assert(sp_pop_char(l2.back, l2.front, ch) == edit(true, b, f));
    } else if f is Short && text_of(f).len() > 0 && !is_special(ch) {
        lemma_text_push_pop(f, ch);
        assert(l2.front == text_push(f, ch));
        assert(sp_pop_char(l2.back, l2.front, ch) == edit(true, b, f));
    } else if f is Split && text_of(f).len() > 0 && ch == SPC {
        lemma_text_push_pop(f, ch);
        assert(l2.front == text_push(f, ch));
        assert(sp_pop_char(l2.back, l2.front, ch) == edit(true, b, f));
    } else if f is Short && text_of(f).len() > 0 && ch == OPR {
        let s = text_of(f);
        assert(l2.back == b.push(InputV::Function(s, seq![])));
        assert(l2.back.drop_last() =~= b);
        assert(sp_pop_char(l2.back, l2.front, ch) == edit(true, b, f));
    } else if f is Short && text_of(f).len() > 0 && ch == QUT {
        assert(sp_pop_char(l2.back, l2.front, ch) == edit(true, b, f));
    } else if ch == CPR {
        let last = b.last();
        let items = items_of(last);
        let e = sp_push_back(b, f);
        assert(e.ok);
        assert(l2.back == e.back && l2.front == e.front);
        assert(items_of(e.front) == items.push(f));
        assert(items.push(f).drop_last() =~= items);
        lemma_with_items_same(last);
        assert(b.drop_last().push(last) =~= b);
        let e2 = sp_pop_back(l2.back, l2.front);
        assert(e2.ok);
        assert(e2.front == f);
        assert(e2.back == b);
        assert(sp_pop_char(l2.back, l2.front, ch) == edit(true, b, f));
    } else if f == InputV::Short(seq![]) && ch == OPR {
        assert(l2.back == b.push(InputV::Long(seq![])));
        assert(l2.back.drop_last() =~= b);
        assert(sp_pop_char(l2.back, l2.front, ch) == edit(true, b, f));
    } else if f is Split && ch == OPR {
        let last = b.last();
        let items = items_of(last);
        let e = sp_push_back(b, f);
        assert(e.ok);
        assert(e.front == with_items(last, items.push(f)));
        let b2 = e.back.push(e.front);
        assert(l2.back == b2.push(InputV::Long(seq![])));
        assert(l2.back.drop_last() =~= b2);
        assert(b2.drop_last() =~= b.drop_last());
        assert(items_of(e.front) == items.push(f));
        assert(items.push(f).drop_last() =~= items);
        lemma_with_items_same(last);
        assert(b.drop_last().push(last) =~= b);
        let e2 = sp_pop_back(b2.drop_last(), b2.last());
        assert(e2.ok);
        assert(e2.front == f);
        assert(e2.back == b);
        assert(sp_pop_char(l2.back, l2.front, ch) == edit(true, b, f));
    } else {
        let last = b.last();
        let items = items_of(last);
        let e = sp_push_back(b, f);
        assert(e.ok);
        assert(e.front == with_items(last, items.push(f)));
        let b2 = e.back.push(e.front);
        assert(l2.back == b2);
        assert(b2.drop_last() =~= b.drop_last());
        assert(items_of(e.front) == items.push(f));
        assert(items.push(f).drop_last() =~= items);
        lemma_with_items_same(last);
        assert(b.drop_last().push(last) =~= b);
        let e2 = sp_pop_back(b2.drop_last(), b2.last());
        assert(e2.ok);
        assert(e2.front == f);
        assert(e2.back == b);
        assert(sp_pop_char(l2.back, l2.front, ch) == edit(true, b, f));
    }
}


/// On a line just typed, in the cases of `undo_case`, moving the cursor left
/// succeeds, keeps the typed character right of the cursor, and moving back
/// right gives the line again; what the line reads as does not change.
pub proof fn law_right_undoes_left(l: LineV, ch: char)
    requires
        undo_case(l, ch),
    ensures
        ({
            let typed = sp_push(l, ch).1;
            &&& sp_left(typed).0
            &&& sp_left(typed).1.fpart == l.fpart
            &&& sp_left(typed).1.part == l.part.push(ch)
            &&& sp_right(sp_left(typed).1) == (true, typed)
            &&& sp_process(sp_left(typed).1) == sp_process(typed)
        }),
{
    law_pop_undoes_push(l, ch);
    let typed = sp_push(l, ch).1;
    let moved = sp_left(typed).1;
    assert(moved == LineV { part: l.part.push(ch), ..l });
    assert(moved.part.drop_last() =~= l.part);
    assert(LineV { part: moved.part.drop_last(), ..moved } == l);
    assert(sp_replay(moved) == sp_replay(sp_push(l, ch).1));
}


// ---------------------------------------------------------------------
// Lines reached by typing.
// ---------------------------------------------------------------------

/// The line after typing `s` on `l`, if every character is accepted.
pub open spec fn typed_from(l: LineV, s: Seq<char>) -> Option<LineV>
    decreases s.len(),
{
    if s.len() == 0 {
        Some(l)
    } else if sp_push(l, s[0]).0 {
        typed_from(sp_push(l, s[0]).1, s.drop_first())
    } else {
        None
    }
}

/// The line after typing `s` on an empty line, if every character is accepted.
pub open spec fn typed(s: Seq<char>) -> Option<LineV> {
    typed_from(empty_line(), s)
}

/// Whether `v` is a list, or a call with a name.
pub open spec fn good_container(v: InputV) -> bool {
    v is Long || (v is Function && v->Function_0.len() > 0)
}

/// What holds of every line reached by typing: the enclosing structures are
/// lists or named calls, there is one unless a list or call is at hand, a
/// list or call at hand is one of those, and where no word has begun the
/// innermost enclosing structure holds no items.
pub open spec fn shaped(l: LineV) -> bool {
    &&& forall|i: int| 0 <= i < l.back.len() ==> good_container(#[trigger] l.back[i])
    &&& l.back.len() == 0 ==> (l.front is Long || l.front is Function)
    &&& (l.front is Long || l.front is Function) ==> good_container(l.front)
    &&& l.front == InputV::Short(seq![]) ==> items_of(l.back.last()).len() == 0
}

/// The cases in which, on a line reached by typing, removing the character
/// just typed does not give the line back: a space or comma where no word
/// has begun; anything but a space, comma or closing parenthesis right after
/// a literal closed, and anything after an empty literal closed; closing an
/// empty literal; and a closing parenthesis right after an opening one where
/// the enclosing structure holds items or is not the same empty structure.
pub open spec fn undo_fails(l: LineV, ch: char) -> bool {
    let b = l.back;
    let f = l.front;
    ||| ((ch == SPC || ch == CMA) && f == InputV::Short(seq![]))
    ||| (f == InputV::Split(seq![]) && !((ch == SPC || ch == CMA || ch == CPR) && after_literal(b)))
    ||| (ch == QUT && f == InputV::Literal(seq![]))
    ||| (ch == CPR && f == InputV::Short(seq![]) && !(items_of(b.last()).len() == 0 && (b.len() == 1 || (
    input_is_empty(b[b.len() - 2]) && b[b.len() - 2] == b.last()))))
}

proof fn lemma_back_good(b: Seq<InputV>, f: InputV)
    requires
        forall|i: int| 0 <= i < b.len() ==> good_container(#[trigger] b[i]),
        b.len() > 0,
    ensures
        good_container(sp_push_back(b, f).front),
        forall|i: int| 0 <= i < sp_push_back(b, f).back.len() ==> good_container(#[trigger] sp_push_back(b, f).back[i]),
        forall|i: int|
            0 <= i < sp_push_back(b, f).back.push(sp_push_back(b, f).front).len() ==> good_container(
                #[trigger] sp_push_back(b, f).back.push(sp_push_back(b, f).front)[i],
            ),
{
    assert(good_container(b[b.len() - 1]));
    let e = sp_push_back(b, f);
    assert forall|i: int| 0 <= i < e.back.len() implies good_container(#[trigger] e.back[i]) by {
        assert(e.back[i] == b[i]);
    }
    assert forall|i: int| 0 <= i < e.back.push(e.front).len() implies good_container(
        #[trigger] e.back.push(e.front)[i],
    ) by {
        if i < e.back.len() {
            assert(e.back.push(e.front)[i] == e.back[i]);
        }
    }
}

proof fn lemma_push_shaped(l: LineV, ch: char)
    requires
        shaped(l),
        sp_push(l, ch).0,
    ensures
        shaped(sp_push(l, ch).1),
{
    let b = l.back;
    let f = l.front;
    let l2 = sp_push(l, ch).1;
    if b.len() > 0 {
        lemma_back_good(b, f);
        assert(good_container(b[b.len() - 1]));
    }
    let nb = l2.back;
    if l2.front == InputV::Short(seq![]) {
        if f is Short && ch != OPR {
            assert(text_of(l2.front).len() > 0);
        }
        if f is Split && ch != OPR {
            assert(seq![ch].len() == 1);
            assert(text_of(l2.front).len() > 0);
        }
        assert(ch == OPR);
    }
    if ch == OPR && (f is Split || f is Short) {
        if f is Split {
            let e = sp_push_back(b, f);
            assert(nb == e.back.push(e.front).push(InputV::Long(seq![])));
        } else if text_of(f).len() == 0 {
            assert(nb == b.push(InputV::Long(seq![])));
        } else {
            assert(nb == b.push(InputV::Function(text_of(f), seq![])));
        }
        assert(items_of(nb.last()).len() == 0);
        if nb.len() > 0 && nb.len() > b.len() {
            assert forall|i: int| 0 <= i < nb.len() implies good_container(#[trigger] nb[i]) by {
                if f is Split {
                    let e = sp_push_back(b, f);
                    assert(nb == e.back.push(e.front).push(InputV::Long(seq![])));
                    if i < nb.len() - 1 {
                        assert(nb[i] == e.back.push(e.front)[i]);
                    }
                } else {
                    if i < b.len() {
                        assert(nb[i] == b[i]);
                    }
                }
            }
        }
    }
}

proof fn lemma_typed_shaped(l: LineV, s: Seq<char>)
    requires
        shaped(l),
    ensures
        typed_from(l, s) matches Some(l2) ==> shaped(l2),
    decreases s.len(),
{
    if s.len() > 0 && sp_push(l, s[0]).0 {
        lemma_push_shaped(l, s[0]);
        lemma_typed_shaped(sp_push(l, s[0]).1, s.drop_first());
    }
}

/// On a line reached by typing, removing the character just typed gives the
/// line back, and typing it again gives the typed line back, except in the
/// cases of `undo_fails`; moving the cursor left then succeeds, and moving
/// back right gives the typed line back, with the same value.
pub proof fn law_typed_pop_undoes_push(s: Seq<char>, ch: char)
    requires
        typed(s) is Some,
        sp_push(typed(s)->Some_0, ch).0,
        !undo_fails(typed(s)->Some_0, ch),
    ensures
        ({
            let l = typed(s)->Some_0;
            let t = sp_push(l, ch).1;
            &&& pop_defined(t)
            &&& sp_pop(t) == (Some(ch), l)
            &&& sp_push(sp_pop(t).1, ch) == (true, t)
            &&& sp_left(t).0
            &&& sp_right(sp_left(t).1) == (true, t)
            &&& sp_process(sp_left(t).1) == sp_process(t)
        }),
{
    let l = typed(s)->Some_0;
    let e0 = empty_line();
    assert(shaped(e0)) by {
        assert forall|i: int| 0 <= i < e0.back.len() implies good_container(#[trigger] e0.back[i]) by {
            assert(e0.back[i] == InputV::Long(seq![]));
        }
    }
    lemma_typed_shaped(e0, s);
    let b = l.back;
    let f = l.front;
    if b.len() > 0 {
        assert(good_container(b[b.len() - 1]));
    }
    assert(undo_case(l, ch)) by {
        let inside = b.len() > 0 && is_container(b.last());
        if f is Literal {
            if ch == QUT {
                if text_of(f).len() == 0 {
                    assert(f == InputV::Literal(seq![])) by {
                        assert(text_of(f) =~= Seq::<char>::empty());
                    }
                }
                assert(inside);
            }
        } else if f is Short {
            if text_of(f).len() == 0 {
                assert(f == InputV::Short(seq![])) by {
                    assert(text_of(f) =~= Seq::<char>::empty());
                }
                assert(b.len() > 0);
                if ch == CPR {
                    assert(inside);
                } else if ch == OPR {
                } else {
                    assert(fresh_word(l));
                }
            } else {
                if ch == SPC || ch == CMA || ch == CPR {
                    assert(inside);
                }
            }
        } else if f is Split {
            assert(inside);
            if text_of(f).len() == 0 {
                assert(f == InputV::Split(seq![])) by {
                    assert(text_of(f) =~= Seq::<char>::empty());
                }
            }
        } else {
            assert(inside);
        }
    }
    law_pop_undoes_push(l, ch);
    law_right_undoes_left(l, ch);
}


// ---------------------------------------------------------------------
// Lines reached by typing and moving the cursor.
// ---------------------------------------------------------------------

proof fn lemma_typed_from_text(l: LineV, s: Seq<char>)
    ensures
        typed_from(l, s) matches Some(t) ==> t.part == l.part && t.fpart == l.fpart + s,
    decreases s.len(),
{
    if s.len() == 0 {
        assert(l.fpart + s =~= l.fpart);
    } else if sp_push(l, s[0]).0 {
        let l1 = sp_push(l, s[0]).1;
        lemma_typed_from_text(l1, s.drop_first());
        assert(l1.fpart + s.drop_first() =~= l.fpart + s);
    }
}

proof fn lemma_typed_from_snoc(l: LineV, s: Seq<char>, c: char)
    ensures
        typed_from(l, s.push(c)) == match typed_from(l, s) {
            Some(t) => if sp_push(t, c).0 {
                Some(sp_push(t, c).1)
            } else {
                None
            },
            None => None,
        },
    decreases s.len(),
{
    if s.len() == 0 {
        assert(s.push(c) =~= seq![c]);
        assert(seq![c].drop_first() =~= Seq::<char>::empty());
        assert(typed_from(l, s) == Some(l));
        if sp_push(l, c).0 {
            assert(typed_from(sp_push(l, c).1, Seq::<char>::empty()) == Some(sp_push(l, c).1));
        }
    } else {
        assert(s.push(c)[0] == s[0]);
        assert(s.push(c).drop_first() =~= s.drop_first().push(c));
        if sp_push(l, s[0]).0 {
            lemma_typed_from_snoc(sp_push(l, s[0]).1, s.drop_first(), c);
        }
    }
}

proof fn lemma_refused_push(l: LineV, ch: char)
    requires
        !sp_push(l, ch).0,
    ensures
        sp_push(l, ch).1 == l,
{
}

/// Whether the structure of `l` is the one that typing its text on an empty
/// line gives, whatever stands right of the cursor.
pub open spec fn settled(l: LineV) -> bool {
    typed(l.fpart) == Some(LineV { part: seq![], ..l })
}

/// The line that typing all but the last character of the text of `l` gives.
pub open spec fn typed_before(l: LineV) -> LineV {
    typed(l.fpart.drop_last())->Some_0
}

proof fn lemma_settled_typed_before(l: LineV)
    requires
        settled(l),
        l.fpart.len() > 0,
    ensures
        typed(l.fpart.drop_last()) is Some,
        typed_before(l).part == Seq::<char>::empty(),
        typed_before(l).fpart == l.fpart.drop_last(),
        sp_push(typed_before(l), l.fpart.last()).0,
        sp_push(typed_before(l), l.fpart.last()).1 == (LineV { part: seq![], ..l }),
{
    let s = l.fpart.drop_last();
    let c = l.fpart.last();
    assert(s.push(c) =~= l.fpart);
    lemma_typed_from_snoc(empty_line(), s, c);
    lemma_typed_from_text(empty_line(), s);
    assert(empty_line().fpart + s =~= s);
}

proof fn lemma_settled_shaped(l: LineV)
    requires
        settled(l),
    ensures
        shaped(l),
{
    let e0 = empty_line();
    assert(shaped(e0)) by {
        assert forall|i: int| 0 <= i < e0.back.len() implies good_container(#[trigger] e0.back[i]) by {
            assert(e0.back[i] == InputV::Long(seq![]));
        }
    }
    lemma_typed_shaped(e0, l.fpart);
    let t = LineV { part: seq![], ..l };
    assert(shaped(t));
    assert forall|i: int| 0 <= i < l.back.len() implies good_container(#[trigger] l.back[i]) by {
        assert(t.back[i] == l.back[i]);
    }
}

/// The empty line is settled.
pub proof fn law_empty_settled()
    ensures
        settled(empty_line()),
{
    assert(LineV { part: seq![], ..empty_line() } == empty_line());
}

/// Typing a character, and moving the cursor right, keep a line settled;
/// moving it left does too, and succeeds, unless removing the last typed
/// character does not undo typing it (`undo_fails`).
pub proof fn law_moves_keep_settled(l: LineV, ch: char)
    requires
        settled(l),
    ensures
        settled(sp_push(l, ch).1),
        settled(sp_right(l).1),
        l.fpart.len() > 0 && !undo_fails(typed_before(l), l.fpart.last()) ==> pop_defined(l) && sp_left(l).0
            && settled(sp_left(l).1),
{
    lemma_push_settled(l, ch);
    if l.part.len() > 0 {
        let l1 = LineV { part: l.part.drop_last(), ..l };
        assert(LineV { part: seq![], ..l1 } == LineV { part: seq![], ..l });
        lemma_push_settled(l1, l.part.last());
    }
    if l.fpart.len() > 0 && !undo_fails(typed_before(l), l.fpart.last()) {
        law_settled_left_right(l);
        lemma_settled_typed_before(l);
        let m = sp_left(l).1;
        assert(LineV { part: seq![], ..m } == typed_before(l));
    }
}

proof fn lemma_push_settled(l: LineV, ch: char)
    requires
        settled(l),
    ensures
        settled(sp_push(l, ch).1),
{
    if sp_push(l, ch).0 {
        lemma_typed_from_snoc(empty_line(), l.fpart, ch);
        let t = LineV { part: seq![], ..l };
        assert(sp_push(t, ch).1 == LineV { part: seq![], ..sp_push(l, ch).1 });
    } else {
        lemma_refused_push(l, ch);
    }
}

/// On a settled line, outside the cases of `undo_fails` for its last typed
/// character `c`: removing it returns `c` and gives the line that typing
/// the rest of the text gives, with what is right of the cursor kept;
/// typing `c` again gives the line back; moving the cursor left succeeds,
/// moving back right gives the line back, and what the line reads as does
/// not change.
pub proof fn law_settled_left_right(l: LineV)
    requires
        settled(l),
        l.fpart.len() > 0,
        !undo_fails(typed_before(l), l.fpart.last()),
    ensures
        pop_defined(l),
        sp_pop(l) == (Some(l.fpart.last()), LineV { part: l.part, ..typed_before(l) }),
        sp_push(sp_pop(l).1, l.fpart.last()) == (true, l),
        sp_left(l).0,
        sp_left(l).1.fpart == l.fpart.drop_last(),
        sp_left(l).1.part == l.part.push(l.fpart.last()),
        sp_right(sp_left(l).1) == (true, l),
        sp_process(sp_left(l).1) == sp_process(l),
{
    lemma_settled_typed_before(l);
    let s = l.fpart.drop_last();
    let c = l.fpart.last();
    let b0 = typed_before(l);
    law_typed_pop_undoes_push(s, c);
    let t = LineV { part: seq![], ..l };
    assert(sp_pop(t) == (Some(c), b0));
    let p = LineV { part: l.part, ..b0 };
    assert(sp_pop(l) == (Some(c), p));
    assert(sp_push(p, c) == (true, l));
    let m = sp_left(l).1;
    assert(m == LineV { part: l.part.push(c), ..p });
    assert(m.part.drop_last() =~= l.part);
    assert(LineV { part: m.part.drop_last(), ..m } == p);
    assert(sp_replay(m) == sp_replay(l));
}

/// On a settled line, typing a character that the line accepts gives a
/// settled line; removing it then returns the character and gives the line
/// back, and typing it again gives the typed line back, exactly outside the
/// cases of `undo_fails`.  Moving the cursor right over a character that is
/// accepted is undone by moving it left there too.
pub proof fn law_settled_pop_undoes_push(l: LineV, ch: char)
    requires
        settled(l),
        sp_push(l, ch).0,
    ensures
        settled(sp_push(l, ch).1),
        !undo_fails(l, ch) ==> ({
            let t = sp_push(l, ch).1;
            &&& pop_defined(t)
            &&& sp_pop(t) == (Some(ch), l)
            &&& sp_push(sp_pop(t).1, ch) == (true, t)
        }),
        undo_fails(l, ch) ==> sp_pop(sp_push(l, ch).1) != (Some(ch), l),
        l.part.len() > 0 && ch == l.part.last() && !undo_fails(LineV { part: l.part.drop_last(), ..l }, ch) ==> (
        sp_right(l).0 && pop_defined(sp_right(l).1) && sp_left(sp_right(l).1) == (true, l)),
{
    lemma_push_settled(l, ch);
    let t = sp_push(l, ch).1;
    lemma_typed_from_text(empty_line(), t.fpart);
    assert(t.fpart.drop_last() =~= l.fpart);
    assert(t.fpart.last() == ch);
    lemma_settled_typed_before(t);
    assert(typed_before(t) == LineV { part: seq![], ..l });
    if !undo_fails(l, ch) {
        law_settled_left_right(t);
        assert(sp_pop(t).1 == l);
    } else {
        lemma_settled_shaped(l);
        lemma_undo_fails_fails(l, ch);
    }
    if l.part.len() > 0 && ch == l.part.last() && !undo_fails(LineV { part: l.part.drop_last(), ..l }, ch) {
        let l1 = LineV { part: l.part.drop_last(), ..l };
        assert(LineV { part: seq![], ..l1 } == LineV { part: seq![], ..l });
        assert(sp_push(l1, ch).0);
        let r = sp_push(l1, ch).1;
        lemma_push_settled(l1, ch);
        assert(r.fpart.drop_last() =~= l.fpart);
        lemma_settled_typed_before(r);
        assert(typed_before(r) == LineV { part: seq![], ..l });
        law_settled_left_right(r);
        assert(l1.part.push(ch) =~= l.part);
    }
}


proof fn lemma_reopen_changes(b: Seq<InputV>)
    requires
        b.len() > 0,
        is_container(b.last()),
        sp_pop_back(b.drop_last(), b.last()).ok,
    ensures
        sp_pop_back(b.drop_last(), b.last()).back != b,
        sp_pop_back(b.drop_last(), b.last()).front is Literal && !after_literal(b) ==> ({
            let e = sp_pop_back(b.drop_last(), b.last());
            let g = sp_push_back(e.back, e.front);
            g.back.push(g.front) != b
        }),
{
    let last = b.last();
    let items = items_of(last);
    let e = sp_pop_back(b.drop_last(), last);
    assert(e.back.last() == with_items(last, items.drop_last()));
    assert(items_of(e.back.last()).len() == items.len() - 1);
    if e.back == b {
        assert(e.back.last() == b.last());
    }
    if e.front is Literal && !after_literal(b) {
        let g = sp_push_back(e.back, e.front);
        assert(input_is_empty(e.front));
        assert(g.front == e.back.last());
        let r = g.back.push(g.front);
        assert(r.last() == g.front);
        if r == b {
            assert(r.last() == b.last());
        }
    }
}

proof fn lemma_undo_fails_fails(l: LineV, ch: char)
    requires
        shaped(l),
        sp_push(l, ch).0,
        undo_fails(l, ch),
    ensures
        sp_pop(sp_push(l, ch).1) != (Some(ch), l),
{
    let b = l.back;
    let f = l.front;
    let t = sp_push(l, ch).1;
    let r = sp_pop(t);
    assert(t.fpart.last() == ch);
    if b.len() > 0 {
        assert(good_container(b[b.len() - 1]));
    }
    if (ch == SPC || ch == CMA) && f == InputV::Short(seq![]) {
        assert(t.front == InputV::Split(seq![ch]));
        assert(t.back == b);
        assert(!sp_pop_back(b.drop_last(), b.last()).ok);
        assert(r.0 is None);
    } else if f == InputV::Split(seq![]) {
        let last = b.last();
        assert(b.drop_last().push(last) =~= b);
        let e = sp_pop_back(b.drop_last(), last);
        if e.ok {
            lemma_reopen_changes(b);
        }
        if ch == SPC || ch == CMA {
            assert(t.front == InputV::Split(seq![ch])) by {
                assert(seq![].push(ch) =~= seq![ch]);
            }
            assert(t.back == b);
        } else if ch == CPR {
            lemma_with_items_same(last);
            assert(t.back == b.drop_last());
            assert(t.front == last);
        } else if ch == QUT {
            lemma_with_items_same(last);
            assert(t.back == b);
            assert(t.front == InputV::Literal(seq![]));
        } else if ch == OPR {
            lemma_with_items_same(last);
            assert(t.back == b.push(InputV::Long(seq![])));
            assert(t.back.drop_last() =~= b);
        } else {
            lemma_with_items_same(last);
            assert(t.back == b);
            assert(t.front == InputV::Short(seq![ch]));
        }
        if r.0 == Some(ch) {
            assert(r.1.back != b || r.1.front != f);
        }
    } else if ch == QUT && f == InputV::Literal(seq![]) {
        let last = b.last();
        lemma_with_items_same(last);
        assert(b.drop_last().push(last) =~= b);
        assert(t.back == b);
        assert(t.front == InputV::Split(seq![]));
        if sp_pop_back(b.drop_last(), last).ok {
            lemma_reopen_changes(b);
        }
    } else {
        assert(ch == CPR && f == InputV::Short(seq![]));
        let last = b.last();
        let bb = b.drop_last();
        lemma_with_items_same(last);
        assert(t.back == bb);
        assert(t.front == last);
        assert(b.len() > 1);
        assert(bb.last() == b[b.len() - 2]);
        if r.0 == Some(ch) {
            assert(input_is_empty(bb.last()));
            let nb = bb.drop_last().push(last).push(bb.last());
            assert(r.1.back == nb);
            assert(nb.last() != b.last());
        }
    }
}

/// One step of editing a line: typing a character, or moving the cursor.
pub enum Stroke {
    Type(char),
    Left,
    Right,
}

/// The line after the strokes `ks` on an empty line, if each is accepted:
/// a typed character is accepted by the line, a move right finds a
/// character right of the cursor, and a move left removes a character whose
/// removal undoes its typing.
pub open spec fn stroked(ks: Seq<Stroke>) -> Option<LineV>
    decreases ks.len(),
{
    if ks.len() == 0 {
        Some(empty_line())
    } else {
        match stroked(ks.drop_last()) {
            None => None,
            Some(l) => match ks.last() {
                Stroke::Type(c) => if sp_push(l, c).0 {
                    Some(sp_push(l, c).1)
                } else {
                    None
                },
                Stroke::Right => if sp_right(l).0 {
                    Some(sp_right(l).1)
                } else {
                    None
                },
                Stroke::Left => if l.fpart.len() > 0 && !undo_fails(typed_before(l), l.fpart.last()) {
                    Some(sp_left(l).1)
                } else {
                    None
                },
            },
        }
    }
}

/// Every line reached from an empty line by accepted strokes is settled,
/// so that the laws on settled lines hold of it.
pub proof fn law_strokes_settle(ks: Seq<Stroke>)
    requires
        stroked(ks) is Some,
    ensures
        settled(stroked(ks)->Some_0),
    decreases ks.len(),
{
    if ks.len() == 0 {
        law_empty_settled();
    } else {
        law_strokes_settle(ks.drop_last());
        let l = stroked(ks.drop_last())->Some_0;
        match ks.last() {
            Stroke::Type(c) => law_moves_keep_settled(l, c),
            Stroke::Right => law_moves_keep_settled(l, ' '),
            Stroke::Left => law_moves_keep_settled(l, ' '),
        }
    }
}

} // verus!
