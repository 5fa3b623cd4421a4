use vstd::prelude::*;
use std::collections::VecDeque;

use crate::constants::{ANSI, CEOF, CTA, CTE, CTK, DEL, ESC, HISTORY_SIZE, MAX_ESCAPE, NL};
use crate::input::{InputLine, LineV, empty_line, pop_defined, sp_left, sp_process, sp_push, sp_right};
use crate::types::{InputValue, Position};

verus! {

/// What the terminal is asked to do after a key.
#[derive(Debug)]
pub enum Effect {
    /// ring the bell: the key was refused
    Bell,
    /// write a character
    Out(char),
    /// write a text
    OutText(String),
    /// draw the text right of the cursor and come back
    DrawPart,
    /// erase the character left of the cursor and draw the rest again
    Erase,
    /// move the cursor left by a number of characters
    CursorsLeft(usize),
    /// move the cursor right by a number of characters
    CursorsRight(usize),
    /// move the cursor one character left
    CursorLeft,
    /// move the cursor one character right
    CursorRight,
    /// clear the line from the cursor over a number of characters
    ClearLineTo(usize),
    /// the terminal reported where the cursor is
    UpdateCursor(Position),
}

pub enum EffectV {
    Bell,
    Out(char),
    OutText(Seq<char>),
    DrawPart,
    Erase,
    CursorsLeft(usize),
    CursorsRight(usize),
    CursorLeft,
    CursorRight,
    ClearLineTo(usize),
    UpdateCursor(Position),
}

impl Effect {
    pub open spec fn view(&self) -> EffectV {
        match self {
            Effect::Bell => EffectV::Bell,
            Effect::Out(c) => EffectV::Out(*c),
            Effect::OutText(s) => EffectV::OutText(s@),
            Effect::DrawPart => EffectV::DrawPart,
            Effect::Erase => EffectV::Erase,
            Effect::CursorsLeft(n) => EffectV::CursorsLeft(*n),
            Effect::CursorsRight(n) => EffectV::CursorsRight(*n),
            Effect::CursorLeft => EffectV::CursorLeft,
            Effect::CursorRight => EffectV::CursorRight,
            Effect::ClearLineTo(n) => EffectV::ClearLineTo(*n),
            Effect::UpdateCursor(p) => EffectV::UpdateCursor(*p),
        }
    }
}

pub open spec fn effects_view(v: Seq<Effect>) -> Seq<EffectV> {
    Seq::new(v.len(), |i: int| v[i]@)
}

/// The line editor: the line being typed, the escape sequence being read,
/// whether the line is finished or input has ended, and the history (most
/// recent first) with the lines passed over while going back in it.
pub struct Editor {
    pub line: InputLine,
    pub escape: bool,
    pub escape_chars: String,
    pub finished: bool,
    pub eof: bool,
    pub restarted: bool,
    history: VecDeque<InputLine>,
    bhistory: Vec<InputLine>,
}

pub struct EditorV {
    pub line: LineV,
    pub escape: bool,
    pub escape_chars: Seq<char>,
    pub finished: bool,
    pub eof: bool,
    pub restarted: bool,
    pub history: Seq<LineV>,
    pub bhistory: Seq<LineV>,
}

/// Whether nothing has been typed on a line.
pub open spec fn line_is_empty(l: LineV) -> bool {
    l.back == seq![crate::types::InputV::Long(seq![])] && crate::types::input_is_empty(l.front) && l.part.len() == 0
        && l.fpart.len() == 0
}

pub open spec fn lines_view(v: Seq<InputLine>) -> Seq<LineV> {
    Seq::new(v.len(), |i: int| v[i]@)
}

// ---------------------------------------------------------------------
// What a key does.
// ---------------------------------------------------------------------

/// Control characters: those of the Unicode category `Cc`.
pub open spec fn is_control(c: char) -> bool {
    (c as u32) < 0x20 || (0x7f <= (c as u32) && (c as u32) <= 0x9f)
}

pub open spec fn is_digit(c: char) -> bool {
    '0' <= c && c <= '9'
}

/// The number that the decimal digits `s` write.
pub open spec fn digits_value(s: Seq<char>) -> nat
    decreases s.len(),
{
    if s.len() == 0 {
        0
    } else {
        digits_value(s.drop_last()) * 10 + ((s.last() as u32) - 48) as nat
    }
}

/// A number written with one or more decimal digits that fits a `usize`.
pub open spec fn number_text(s: Seq<char>) -> bool {
    s.len() > 0 && (forall|i: int| 0 <= i < s.len() ==> is_digit(s[i])) && digits_value(s) <= usize::MAX
}

/// The cursor position in a report `[row;col` from the terminal.
pub open spec fn position_report(e: Seq<char>) -> Option<Position> {
    if e.len() > 0 && e[0] == '[' && e.contains(';') {
        let k = choose|k: int| 0 <= k < e.len() && e[k] == ';' && forall|j: int| 0 <= j < k ==> e[j] != ';';
        let row = e.subrange(1, k);
        let col = e.subrange(k + 1, e.len() as int);
        if number_text(row) && number_text(col) {
            Some(Position { row: digits_value(row) as usize, col: digits_value(col) as usize })
        } else {
            None
        }
    } else {
        None
    }
}

/// The effects of clearing the whole line, and the editor after it.
pub open spec fn clear_entire(s: EditorV) -> (EditorV, Seq<EffectV>) {
    (
        EditorV { line: empty_line(), ..s },
        seq![
            EffectV::CursorsLeft(s.line.fpart.len() as usize),
            EffectV::ClearLineTo((s.line.fpart.len() + s.line.part.len()) as usize),
        ],
    )
}

/// Showing a line taken from the history.
pub open spec fn show_line(s: EditorV, l: LineV) -> (EditorV, Seq<EffectV>) {
    let (s2, e) = clear_entire(s);
    (EditorV { line: l, ..s2 }, e + seq![EffectV::OutText(l.fpart), EffectV::DrawPart])
}

/// A key while an escape sequence is read.
pub open spec fn escape_key(s: EditorV, ch: char) -> (EditorV, Seq<EffectV>, bool) {
    let s0 = EditorV { escape: false, ..s };
    if ch == ESC {
        (s0, seq![], true)
    } else if ch == ANSI {
        if s.escape_chars.len() == 0 {
            (EditorV { escape_chars: seq![ANSI], ..s }, seq![], true)
        } else {
            (s0, seq![], true)
        }
    } else if ch == 'D' {
        if !pop_defined(s.line) {
            (s0, seq![], false)
        } else {
            let (ok, l) = sp_left(s.line);
            if ok {
                (EditorV { line: l, ..s0 }, seq![EffectV::CursorLeft], true)
            } else {
                (EditorV { line: l, ..s0 }, seq![], false)
            }
        }
    } else if ch == 'C' {
        let (ok, l) = sp_right(s.line);
        if ok {
            (EditorV { line: l, ..s0 }, seq![EffectV::CursorRight], true)
        } else {
            (EditorV { line: l, ..s0 }, seq![], false)
        }
    } else if ch == 'B' {
        if s.bhistory.len() == 0 {
            if !line_is_empty(s.line) {
                let (s2, e) = clear_entire(EditorV { history: seq![s.line] + s.history, ..s0 });
                (s2, e, true)
            } else {
                (s0, seq![], false)
            }
        } else {
            let s1 = EditorV { history: seq![s.line] + s.history, bhistory: s.bhistory.drop_last(), ..s0 };
            let (s2, e) = show_line(s1, s.bhistory.last());
            (s2, e, true)
        }
    } else if ch == 'A' {
        if s.history.len() == 0 {
            (s0, seq![], false)
        } else {
            let s1 = EditorV {
                history: s.history.subrange(1, s.history.len() as int),
                bhistory: s.bhistory.push(s.line),
                ..s0
            };
            let (s2, e) = show_line(s1, s.history[0]);
            (s2, e, true)
        }
    } else if ch == 'R' {
        match position_report(s.escape_chars) {
            Some(p) => (s0, seq![EffectV::UpdateCursor(p)], true),
            None => (s0, seq![], false),
        }
    } else {
        let s1 = EditorV { escape_chars: s.escape_chars.push(ch), ..s };
        if s1.escape_chars.len() > MAX_ESCAPE {
            (EditorV { escape: false, ..s1 }, seq![], false)
        } else {
            (s1, seq![], true)
        }
    }
}

/// A control key.
pub open spec fn control_key(s: EditorV, ch: char) -> (EditorV, Seq<EffectV>, bool) {
    if ch == CEOF {
        if line_is_empty(s.line) {
            (EditorV { finished: true, eof: true, ..s }, seq![], true)
        } else {
            (s, seq![], true)
        }
    } else if ch == NL {
        let (ok, l) = sp_push(s.line, NL);
        if !ok {
            (EditorV { line: l, finished: true, ..s }, seq![], true)
        } else {
            (EditorV { line: l, ..s }, seq![EffectV::Out(NL)], true)
        }
    } else if ch == ESC {
        (EditorV { escape: true, escape_chars: seq![], ..s }, seq![], true)
    } else if ch == DEL {
        if !pop_defined(s.line) || s.line.fpart.len() == 0 {
            (s, seq![], false)
        } else {
            let (r, l) = crate::input::sp_pop(s.line);
            if r is None {
                (EditorV { line: l, ..s }, seq![], false)
            } else {
                (EditorV { line: l, ..s }, seq![EffectV::Erase], true)
            }
        }
    } else if ch == CTA {
        (
            EditorV {
                line: LineV { part: s.line.part + s.line.fpart.reverse(), ..empty_line() },
                ..s
            },
            seq![EffectV::CursorsLeft(s.line.fpart.len() as usize)],
            true,
        )
    } else if ch == CTE {
        (
            EditorV { line: crate::input::sp_replay(s.line), ..s },
            seq![EffectV::CursorsRight(s.line.part.len() as usize)],
            true,
        )
    } else if ch == CTK {
        (
            EditorV { line: LineV { part: seq![], ..s.line }, ..s },
            seq![EffectV::ClearLineTo(s.line.part.len() as usize)],
            true,
        )
    } else {
        (s, seq![], false)
    }
}

/// An ordinary key.
pub open spec fn plain_key(s: EditorV, ch: char) -> (EditorV, Seq<EffectV>, bool) {
    let (ok, l) = sp_push(s.line, ch);
    if ok {
        (EditorV { line: l, ..s }, seq![EffectV::Out(ch), EffectV::DrawPart], true)
    } else {
        (EditorV { line: l, ..s }, seq![], false)
    }
}

/// What a key does: the editor after it and what the terminal is asked to
/// do, ending with the bell when the key is refused.
pub open spec fn key_spec(s: EditorV, ch: char) -> (EditorV, Seq<EffectV>) {
    let (s2, e, ok) = if s.escape {
        escape_key(s, ch)
    } else if is_control(ch) {
        control_key(s, ch)
    } else {
        plain_key(s, ch)
    };
    (s2, if ok {
        e
    } else {
        e.push(EffectV::Bell)
    })
}

/// The editor after a sequence of keys.
pub open spec fn keys_spec(s: EditorV, ks: Seq<char>) -> EditorV
    decreases ks.len(),
{
    if ks.len() == 0 {
        s
    } else {
        keys_spec(key_spec(s, ks[0]).0, ks.subrange(1, ks.len() as int))
    }
}

/// Going up the history and back down gives back the line being typed and
/// leaves the history as it was.
pub proof fn law_up_then_down(s: EditorV)
    requires
        !s.escape,
        s.history.len() > 0,
    ensures
        ({
            let t = keys_spec(s, seq![ESC, ANSI, 'A', ESC, ANSI, 'B']);
            t.line == s.line && t.history == s.history && t.bhistory == s.bhistory && !t.escape
        }),
{
    let ks = seq![ESC, ANSI, 'A', ESC, ANSI, 'B'];
    let s1 = key_spec(s, ESC).0;
    let s2 = key_spec(s1, ANSI).0;
    let s3 = key_spec(s2, 'A').0;
    let s4 = key_spec(s3, ESC).0;
    let s5 = key_spec(s4, ANSI).0;
    let s6 = key_spec(s5, 'B').0;
    assert(is_control(ESC));
    assert(s1.escape && s1.line == s.line && s1.history == s.history && s1.bhistory == s.bhistory);
    assert(s2.escape && s2.line == s.line && s2.history == s.history && s2.bhistory == s.bhistory);
    assert(s3.line == s.history[0]);
    assert(s3.bhistory == s.bhistory.push(s.line));
    assert(s3.history == s.history.subrange(1, s.history.len() as int));
    assert(!s3.escape);
    assert(s4.escape && s4.line == s3.line && s4.history == s3.history && s4.bhistory == s3.bhistory);
    assert(s5.escape && s5.line == s3.line && s5.history == s3.history && s5.bhistory == s3.bhistory);
    assert(s6.line == s.line);
    assert(s6.bhistory =~= s.bhistory);
    assert(s6.history =~= s.history);
    assert(ks.subrange(1, 6) =~= seq![ANSI, 'A', ESC, ANSI, 'B']);
    assert(ks.subrange(1, 6).subrange(1, 5) =~= seq!['A', ESC, ANSI, 'B']);
    assert(seq!['A', ESC, ANSI, 'B'].subrange(1, 4) =~= seq![ESC, ANSI, 'B']);
    assert(seq![ESC, ANSI, 'B'].subrange(1, 3) =~= seq![ANSI, 'B']);
    assert(seq![ANSI, 'B'].subrange(1, 2) =~= seq!['B']);
    assert(seq!['B'].subrange(1, 1) =~= Seq::<char>::empty());
    assert(keys_spec(s6, Seq::<char>::empty()) == s6);
    assert(keys_spec(s5, seq!['B']) == s6);
    assert(keys_spec(s4, seq![ANSI, 'B']) == s6);
    assert(keys_spec(s3, seq![ESC, ANSI, 'B']) == s6);
    assert(keys_spec(s2, seq!['A', ESC, ANSI, 'B']) == s6);
    assert(keys_spec(s1, seq![ANSI, 'A', ESC, ANSI, 'B']) == s6);
    assert(keys_spec(s, ks) == s6);
}

/// The history after a line is finished: the lines passed over go back (the
/// empty ones dropped), the line goes first, and the oldest lines beyond
/// the limit are forgotten.
pub open spec fn history_after(s: EditorV) -> Seq<LineV> {
    let h1 = if s.bhistory.len() > 0 {
        seq![s.line] + s.history
    } else {
        s.history
    };
    let h2 = restore_passed(s.bhistory, h1);
    let h3 = seq![s.line] + h2;
    if h3.len() > HISTORY_SIZE {
        h3.subrange(0, HISTORY_SIZE as int)
    } else {
        h3
    }
}

/// A finished line comes first in the history, which never holds more
/// than the limit of lines.
pub proof fn law_history_bounded(s: EditorV)
    ensures
        history_after(s).len() <= HISTORY_SIZE,
        history_after(s).len() > 0,
        history_after(s)[0] == s.line,
{
}

/// Puts the lines passed over back in front of the history, last first.
pub open spec fn restore_passed(b: Seq<LineV>, h: Seq<LineV>) -> Seq<LineV>
    decreases b.len(),
{
    if b.len() == 0 {
        h
    } else {
        let h2 = if !line_is_empty(b.last()) {
            seq![b.last()] + h
        } else {
            h
        };
        restore_passed(b.drop_last(), h2)
    }
}

// ---------------------------------------------------------------------
// The editor.
// ---------------------------------------------------------------------

fn push_effect(v: &mut Vec<Effect>, e: Effect)
    ensures
        effects_view(final(v)@) == effects_view(old(v)@).push(e@),
{
    let ghost before = v@;
    v.push(e);
    proof {
        assert(effects_view(v@) =~= effects_view(before).push(e@));
    }
}

fn is_control_char(c: char) -> (res: bool)
    ensures
        res == is_control(c),
{
    (c as u32) < 0x20 || (0x7f <= (c as u32) && (c as u32) <= 0x9f)
}

fn digits_of(e: &str, from: usize, to: usize) -> (res: Option<usize>)
    requires
        from <= to <= e@.len(),
    ensures
        res is Some <==> number_text(e@.subrange(from as int, to as int)),
        res matches Some(n) ==> n == digits_value(e@.subrange(from as int, to as int)),
{
    if from == to {
        return None;
    }
    let mut v: usize = 0;
    let mut i = from;
    while i < to
        invariant
            from <= i <= to,
            to <= e@.len(),
            forall|j: int| from <= j < i ==> is_digit(e@[j]),
            v == digits_value(e@.subrange(from as int, i as int)),
        decreases to - i,
    {
        let c = e.get_char(i);
        if !('0' <= c && c <= '9') {
            proof {
                assert(e@.subrange(from as int, to as int)[i - from] == c);
            }
            return None;
        }
        let d = (c as u32 - 48) as usize;
        proof {
            let s = e@.subrange(from as int, i + 1);
            assert(s.drop_last() =~= e@.subrange(from as int, i as int));
            assert(s.last() == c);
        }
        let m = match v.checked_mul(10) {
            Some(m) => m,
            None => {
                proof {
                    let whole = e@.subrange(from as int, to as int);
                    if forall|j: int| 0 <= j < whole.len() ==> is_digit(whole[j]) {
                        lemma_digits_grow(whole, (i + 1 - from) as int);
                        assert(whole.subrange(0, i + 1 - from) =~= e@.subrange(from as int, i + 1));
                    }
                }
                return None;
            },
        };
        let w = match m.checked_add(d) {
            Some(w) => w,
            None => {
                proof {
                    let whole = e@.subrange(from as int, to as int);
                    if forall|j: int| 0 <= j < whole.len() ==> is_digit(whole[j]) {
                        lemma_digits_grow(whole, (i + 1 - from) as int);
                        assert(whole.subrange(0, i + 1 - from) =~= e@.subrange(from as int, i + 1));
                    }
                }
                return None;
            },
        };
        v = w;
        i = i + 1;
    }
    Some(v)
}

/// A number's prefixes are no larger than the number.
pub proof fn lemma_digits_grow(s: Seq<char>, k: int)
    requires
        0 <= k <= s.len(),
        forall|i: int| 0 <= i < s.len() ==> is_digit(s[i]),
    ensures
        digits_value(s.subrange(0, k)) <= digits_value(s),
    decreases s.len(),
{
    if k < s.len() {
        assert(s.drop_last().subrange(0, k) =~= s.subrange(0, k));
        lemma_digits_grow(s.drop_last(), k);
    } else {
        assert(s.subrange(0, k) =~= s);
    }
}

fn find_semi(e: &str) -> (res: Option<usize>)
    ensures
        match res {
            Some(k) => k < e@.len() && e@[k as int] == ';' && forall|j: int| 0 <= j < k ==> e@[j] != ';',
            None => !e@.contains(';'),
        },
{
    let n = e.unicode_len();
    let mut i: usize = 0;
    while i < n
        invariant
            i <= n,
            n == e@.len(),
            forall|j: int| 0 <= j < i ==> e@[j] != ';',
        decreases n - i,
    {
        if e.get_char(i) == ';' {
            return Some(i);
        }
        i = i + 1;
    }
    None
}

/// The cursor position in a report from the terminal (see `position_report`).
pub fn parse_position(e: &str) -> (res: Option<Position>)
    ensures
        res == position_report(e@),
{
    let n = e.unicode_len();
    if n == 0 || e.get_char(0) != '[' {
        return None;
    }
    let k = match find_semi(e) {
        None => return None,
        Some(k) => k,
    };
    proof {
        assert(e@.contains(';'));
        let k2 = choose|k2: int| 0 <= k2 < e@.len() && e@[k2] == ';' && forall|j: int| 0 <= j < k2 ==> e@[j] != ';';
        if k2 < k {
            assert(e@[k2] != ';');
        }
        if k < k2 {
            assert(e@[k as int] != ';');
        }
    }
    if k < 1 {
        proof {
            assert(e@[0] == '[');
        }
        return None;
    }
    let row = match digits_of(e, 1, k) {
        None => return None,
        Some(r) => r,
    };
    let col = match digits_of(e, k + 1, n) {
        None => return None,
        Some(c) => c,
    };
    Some(Position { row, col })
}

impl Editor {
    pub closed spec fn view(&self) -> EditorV {
        EditorV {
            line: self.line@,
            escape: self.escape,
            escape_chars: self.escape_chars@,
            finished: self.finished,
            eof: self.eof,
            restarted: self.restarted,
            history: lines_view(self.history@),
            bhistory: lines_view(self.bhistory@),
        }
    }

    /// An editor with an empty line and no history.
    pub fn new() -> (res: Editor)
        ensures
            res@ == (EditorV {
                line: empty_line(),
                escape: false,
                escape_chars: seq![],
                finished: false,
                eof: false,
                restarted: false,
                history: seq![],
                bhistory: seq![],
            }),
    {
        let res = Editor {
            line: InputLine::new(),
            escape: false,
            escape_chars: String::new(),
            finished: false,
            eof: false,
            restarted: false,
            history: VecDeque::new(),
            bhistory: Vec::new(),
        };
        proof {
            assert(lines_view(res.history@) =~= Seq::<LineV>::empty());
            assert(lines_view(res.bhistory@) =~= Seq::<LineV>::empty());
        }
        res
    }

    /// Starts a new line; the history stays.
    pub fn clear(&mut self)
        ensures
            final(self)@ == (EditorV {
                line: empty_line(),
                escape: false,
                escape_chars: seq![],
                finished: false,
                eof: false,
                restarted: false,
                ..old(self)@
            }),
    {
        self.line.clear();
        self.escape = false;
        self.escape_chars.clear();
        self.finished = false;
        self.eof = false;
        self.restarted = false;
    }

    /// Goes on reading the same line after it was refused.
    pub fn restart(&mut self)
        ensures
            final(self)@ == (EditorV { finished: false, eof: false, restarted: true, ..old(self)@ }),
    {
        self.finished = false;
        self.eof = false;
        self.restarted = true;
    }

    /// An interrupt while a line is typed: the line is dropped and counts as
    /// finished, and the terminal is asked to say so.
    pub fn interrupt(&mut self) -> (res: Vec<Effect>)
        ensures
            final(self)@ == (EditorV {
                line: empty_line(),
                escape: false,
                escape_chars: seq![],
                finished: true,
                eof: false,
                restarted: false,
                ..old(self)@
            }),
            effects_view(res@) == seq![EffectV::OutText("\nInterrupt"@)],
    {
        let mut out: Vec<Effect> = Vec::new();
        proof {
            assert(effects_view(out@) =~= Seq::<EffectV>::empty());
        }
        push_effect(&mut out, Effect::OutText(String::from_str("\nInterrupt")));
        self.clear();
        self.finished = true;
        proof {
            assert(effects_view(out@) =~= seq![EffectV::OutText("\nInterrupt"@)]);
        }
        out
    }

    fn clear_entire_line(&mut self, out: &mut Vec<Effect>)
        requires
            old(self)@.line.fpart.len() + old(self)@.line.part.len() <= usize::MAX,
        ensures
            final(self)@ == clear_entire(old(self)@).0,
            effects_view(final(out)@) == effects_view(old(out)@) + clear_entire(old(self)@).1,
    {
        let f = self.line.fpart.as_str().unicode_len();
        let p = self.line.part.as_str().unicode_len();
        push_effect(out, Effect::CursorsLeft(f));
        push_effect(out, Effect::ClearLineTo(f + p));
        self.line.clear();
        proof {
            assert(effects_view(out@) =~= effects_view(old(out)@) + clear_entire(old(self)@).1);
        }
    }

    fn show_history_line(&mut self, l: InputLine, out: &mut Vec<Effect>)
        requires
            old(self)@.line.fpart.len() + old(self)@.line.part.len() <= usize::MAX,
        ensures
            final(self)@ == show_line(old(self)@, l@).0,
            effects_view(final(out)@) == effects_view(old(out)@) + show_line(old(self)@, l@).1,
    {
        self.clear_entire_line(out);
        let text = l.fpart.clone();
        self.line = l;
        push_effect(out, Effect::OutText(text));
        push_effect(out, Effect::DrawPart);
        proof {
            assert(effects_view(out@) =~= effects_view(old(out)@) + show_line(old(self)@, l@).1);
        }
    }

    fn escape_key(&mut self, ch: char, out: &mut Vec<Effect>) -> (ok: bool)
        requires
            effects_view(old(out)@) == Seq::<EffectV>::empty(),
            old(self)@.line.fpart.len() + old(self)@.line.part.len() <= usize::MAX,
        ensures
            (final(self)@, effects_view(final(out)@), ok) == escape_key(old(self)@, ch),
    {
        if ch == ESC {
            self.escape = false;
            return true;
        }
        if ch == ANSI {
            if self.escape_chars.as_str().is_empty() {
                self.escape_chars.push(ANSI);
                proof {
                    assert(self.escape_chars@ =~= seq![ANSI]);
                }
            } else {
                self.escape = false;
            }
            return true;
        }
        if ch == 'D' {
            self.escape = false;
            if !self.line.can_pop() {
                return false;
            }
            if self.line.left() {
                push_effect(out, Effect::CursorLeft);
                proof {
                    assert(effects_view(out@) =~= seq![EffectV::CursorLeft]);
                }
                return true;
            }
            return false;
        }
        if ch == 'C' {
            self.escape = false;
            if self.line.right() {
                push_effect(out, Effect::CursorRight);
                proof {
                    assert(effects_view(out@) =~= seq![EffectV::CursorRight]);
                }
                return true;
            }
            return false;
        }
        if ch == 'B' {
            self.escape = false;
            match self.bhistory.pop() {
                None => {
                    if !self.line.is_empty() {
                        let copy = self.line.clone_line();
                        let ghost before = self.history@;
                        self.history.push_front(copy);
                        proof {
                            assert(lines_view(self.history@) =~= seq![copy@] + lines_view(before));
                        }
                        self.clear_entire_line(out);
                        return true;
                    }
                    return false;
                },
                Some(l) => {
                    proof {
                        assert(lines_view(self.bhistory@) =~= lines_view(old(self).bhistory@).drop_last());
                    }
                    let copy = self.line.clone_line();
                    let ghost before = self.history@;
                    self.history.push_front(copy);
                    proof {
                        assert(lines_view(self.history@) =~= seq![copy@] + lines_view(before));
                    }
                    self.show_history_line(l, out);
                    return true;
                },
            }
        }
        if ch == 'A' {
            self.escape = false;
            let ghost before = self.history@;
            match self.history.pop_front() {
                None => {
                    return false;
                },
                Some(l) => {
                    proof {
                        assert(lines_view(self.history@) =~= lines_view(before).subrange(1, before.len() as int));
                    }
                    let copy = self.line.clone_line();
                    let ghost bbefore = self.bhistory@;
                    self.bhistory.push(copy);
                    proof {
                        assert(lines_view(self.bhistory@) =~= lines_view(bbefore).push(copy@));
                    }
                    self.show_history_line(l, out);
                    return true;
                },
            }
        }
        if ch == 'R' {
            self.escape = false;
            match parse_position(self.escape_chars.as_str()) {
                Some(p) => {
                    push_effect(out, Effect::UpdateCursor(p));
                    proof {
                        assert(effects_view(out@) =~= seq![EffectV::UpdateCursor(p)]);
                    }
                    return true;
                },
                None => {
                    return false;
                },
            }
        }
        self.escape_chars.push(ch);
        if self.escape_chars.as_str().unicode_len() > MAX_ESCAPE {
            self.escape = false;
            return false;
        }
        true
    }

    fn control_key(&mut self, ch: char, out: &mut Vec<Effect>) -> (ok: bool)
        requires
            effects_view(old(out)@) == Seq::<EffectV>::empty(),
        ensures
            (final(self)@, effects_view(final(out)@), ok) == control_key(old(self)@, ch),
    {
        if ch == CEOF {
            if self.line.is_empty() {
                self.finished = true;
                self.eof = true;
            }
            return true;
        }
        if ch == NL {
            if !self.line.push(NL) {
                self.finished = true;
            } else {
                push_effect(out, Effect::Out(NL));
                proof {
                    assert(effects_view(out@) =~= seq![EffectV::Out(NL)]);
                }
            }
            return true;
        }
        if ch == ESC {
            self.escape = true;
            self.escape_chars = String::new();
            return true;
        }
        if ch == DEL {
            if !self.line.can_pop() || self.line.fpart.as_str().is_empty() {
                return false;
            }
            match self.line.pop() {
                None => {
                    return false;
                },
                Some(_) => {
                    push_effect(out, Effect::Erase);
                    proof {
                        assert(effects_view(out@) =~= seq![EffectV::Erase]);
                    }
                    return true;
                },
            }
        }
        if ch == CTA {
            let f = self.line.fpart.as_str().unicode_len();
            push_effect(out, Effect::CursorsLeft(f));
            let ghost fp = self.line.fpart@;
            let ghost p0 = self.line.part@;
            loop
                invariant
                    self.line.part@ + self.line.fpart@.reverse() == p0 + fp.reverse(),
                    self.escape == old(self).escape,
                    self.escape_chars@ == old(self).escape_chars@,
                    self.finished == old(self).finished,
                    self.eof == old(self).eof,
                    self.restarted == old(self).restarted,
                    self.history@ == old(self).history@,
                    self.bhistory@ == old(self).bhistory@,
                ensures
                    self.line.part@ == p0 + fp.reverse(),
                    self.escape == old(self).escape,
                    self.escape_chars@ == old(self).escape_chars@,
                    self.finished == old(self).finished,
                    self.eof == old(self).eof,
                    self.restarted == old(self).restarted,
                    self.history@ == old(self).history@,
                    self.bhistory@ == old(self).bhistory@,
                decreases self.line.fpart@.len(),
            {
                let ghost fb = self.line.fpart@;
                let ghost pb = self.line.part@;
                match self.line.fpart.pop() {
                    Some(c) => {
                        self.line.part.push(c);
                        proof {
                            assert(fb.reverse() =~= seq![c] + fb.drop_last().reverse());
                            assert(pb.push(c) + fb.drop_last().reverse() =~= pb + fb.reverse());
                        }
                    },
                    None => {
                        proof {
                            assert(fb.reverse() =~= Seq::<char>::empty());
                            assert(pb + fb.reverse() =~= pb);
                        }
                        break;
                    },
                }
            }
            let mut part = String::new();
            core::mem::swap(&mut part, &mut self.line.part);
            self.line.clear();
            self.line.part = part;
            proof {
                assert(effects_view(out@) =~= seq![EffectV::CursorsLeft(fp.len() as usize)]);
            }
            return true;
        }
        if ch == CTE {
            let p = self.line.part.as_str().unicode_len();
            push_effect(out, Effect::CursorsRight(p));
            let ghost start = self.line@;
            loop
                invariant
                    crate::input::sp_replay(self.line@) == crate::input::sp_replay(start),
                    self.escape == old(self).escape,
                    self.escape_chars@ == old(self).escape_chars@,
                    self.finished == old(self).finished,
                    self.eof == old(self).eof,
                    self.restarted == old(self).restarted,
                    self.history@ == old(self).history@,
                    self.bhistory@ == old(self).bhistory@,
                ensures
                    self.line@ == crate::input::sp_replay(start),
                    self.escape == old(self).escape,
                    self.escape_chars@ == old(self).escape_chars@,
                    self.finished == old(self).finished,
                    self.eof == old(self).eof,
                    self.restarted == old(self).restarted,
                    self.history@ == old(self).history@,
                    self.bhistory@ == old(self).bhistory@,
                decreases self.line@.part.len(),
            {
                let ghost before = self.line@;
                if !self.line.right() {
                    break;
                }
            }
            proof {
                assert(effects_view(out@) =~= seq![EffectV::CursorsRight(start.part.len() as usize)]);
            }
            return true;
        }
        if ch == CTK {
            let p = self.line.part.as_str().unicode_len();
            push_effect(out, Effect::ClearLineTo(p));
            self.line.part.clear();
            proof {
                assert(effects_view(out@) =~= seq![EffectV::ClearLineTo(p)]);
            }
            return true;
        }
        false
    }

    /// Handles one key (see `key_spec`) and returns what the terminal is asked to do.
    pub fn key(&mut self, ch: char) -> (res: Vec<Effect>)
        requires
            old(self)@.line.fpart.len() + old(self)@.line.part.len() <= usize::MAX,
        ensures
            (final(self)@, effects_view(res@)) == key_spec(old(self)@, ch),
    {
        let mut out: Vec<Effect> = Vec::new();
        proof {
            assert(effects_view(out@) =~= Seq::<EffectV>::empty());
        }
        let ok = if self.escape {
            self.escape_key(ch, &mut out)
        } else if is_control_char(ch) {
            self.control_key(ch, &mut out)
        } else {
            let ok = self.line.push(ch);
            if ok {
                push_effect(&mut out, Effect::Out(ch));
                push_effect(&mut out, Effect::DrawPart);
                proof {
                    assert(effects_view(out@) =~= seq![EffectV::Out(ch), EffectV::DrawPart]);
                }
            }
            ok
        };
        if !ok {
            push_effect(&mut out, Effect::Bell);
        }
        out
    }

    /// Ends the line: `None` when input has ended.  Otherwise the line goes
    /// into the history (see `history_after`) and its value is returned
    /// (see `sp_process`).
    pub fn finish_line(&mut self) -> (res: Option<Option<InputValue>>)
        ensures
            old(self)@.eof ==> res is None && final(self)@ == old(self)@,
            !old(self)@.eof ==> (res matches Some(v) && match v {
                None => sp_process(old(self)@.line) is None,
                Some(x) => sp_process(old(self)@.line) == Some(x@),
            }) && final(self)@ == (EditorV { history: history_after(old(self)@), bhistory: seq![], ..old(self)@ }),
    {
        if self.eof {
            return None;
        }
        let ghost s = self@;
        if self.bhistory.len() > 0 {
            let copy = self.line.clone_line();
            let ghost before = self.history@;
            self.history.push_front(copy);
            proof {
                assert(lines_view(self.history@) =~= seq![copy@] + lines_view(before));
            }
        }
        proof {
            assert(restore_passed(s.bhistory, lines_view(self.history@)) == restore_passed(
                lines_view(self.bhistory@),
                lines_view(self.history@),
            ));
        }
        while self.bhistory.len() > 0
            invariant
                restore_passed(lines_view(self.bhistory@), lines_view(self.history@)) == restore_passed(
                    s.bhistory,
                    if s.bhistory.len() > 0 {
                        seq![s.line] + s.history
                    } else {
                        s.history
                    },
                ),
                self.line@ == s.line,
                self.escape == s.escape,
                self.escape_chars@ == s.escape_chars,
                self.finished == s.finished,
                self.eof == s.eof,
                self.restarted == s.restarted,
            decreases self.bhistory@.len(),
        {
            let ghost bb = self.bhistory@;
            let ghost hb = self.history@;
            match self.bhistory.pop() {
                None => {},
                Some(popped) => {
                    proof {
                        assert(lines_view(self.bhistory@) =~= lines_view(bb).drop_last());
                        assert(lines_view(bb).last() == popped@);
                    }
                    if !popped.is_empty() {
                        self.history.push_front(popped);
                        proof {
                            assert(lines_view(self.history@) =~= seq![popped@] + lines_view(hb));
                        }
                    }
                },
            }
        }
        proof {
            assert(lines_view(self.bhistory@) =~= Seq::<LineV>::empty());
        }
        let copy = self.line.clone_line();
        let ghost hb = self.history@;
        self.history.push_front(copy);
        let ghost h3 = lines_view(self.history@);
        proof {
            assert(lines_view(self.history@) =~= seq![copy@] + lines_view(hb));
            assert(lines_view(self.bhistory@) =~= Seq::<LineV>::empty());
            assert(h3.subrange(0, h3.len() as int) =~= h3);
        }
        while self.history.len() > HISTORY_SIZE
            invariant
                lines_view(self.history@) == h3.subrange(0, self.history@.len() as int),
                self.history@.len() <= h3.len(),
                h3.len() > HISTORY_SIZE ==> self.history@.len() >= HISTORY_SIZE,
                h3.len() <= HISTORY_SIZE ==> self.history@.len() == h3.len(),
                h3 == seq![s.line] + restore_passed(
                    s.bhistory,
                    if s.bhistory.len() > 0 {
                        seq![s.line] + s.history
                    } else {
                        s.history
                    },
                ),
                lines_view(self.bhistory@) == Seq::<LineV>::empty(),
                self.line@ == s.line,
                self.escape == s.escape,
                self.escape_chars@ == s.escape_chars,
                self.finished == s.finished,
                self.eof == s.eof,
                self.restarted == s.restarted,
            decreases self.history@.len(),
        {
            let ghost hb2 = self.history@;
            self.history.pop_back();
            proof {
                assert(lines_view(self.history@) =~= h3.subrange(0, self.history@.len() as int));
            }
        }
        proof {
            assert(lines_view(self.history@) =~= history_after(s));
        }
        Some(self.line.process())
    }
}

} // verus!
