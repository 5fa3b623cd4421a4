use vstd::prelude::*;
use std::collections::HashMap;

use crate::strings::append_str;
use crate::text::{decimal, decimal_text};
use crate::types::Position;

verus! {

broadcast use vstd::std_specs::hash::group_hash_axioms;

// ---------------------------------------------------------------------
// The model of the screen: where the cursor is and how long the rows
// written so far are.
// ---------------------------------------------------------------------

/// The size of the terminal in rows and columns.
#[derive(Clone, Copy, PartialEq, Eq, Structural, Debug)]
pub struct WinSize {
    pub row: u16,
    pub col: u16,
}

impl WinSize {
    pub fn new() -> (res: WinSize)
        ensures
            res.row == 0 && res.col == 0,
    {
        WinSize { row: 0, col: 0 }
    }
}

/// The cursor on the screen, the terminal's size, and the length of each
/// row written, by the row's index among all rows written (the screen row
/// plus how far the screen has scrolled, `roff`).
pub struct Controls {
    pub cursor: Position,
    pub tsize: WinSize,
    rows: HashMap<isize, usize>,
    pub roff: isize,
}

pub struct ControlsV {
    pub cursor: Position,
    pub tsize: WinSize,
    pub rows: Map<isize, usize>,
    pub roff: isize,
}

impl Controls {
    pub closed spec fn view(&self) -> ControlsV {
        ControlsV { cursor: self.cursor, tsize: self.tsize, rows: self.rows@, roff: self.roff }
    }
}

/// Whether `x` fits an `isize`.
pub open spec fn in_isize(x: int) -> bool {
    isize::MIN <= x <= isize::MAX
}

/// The length of the row with index `key`: 1 for a row not written.
pub open spec fn row_size(rows: Map<isize, usize>, key: int) -> int {
    if in_isize(key) && rows.contains_key(key as isize) {
        rows[key as isize] as int
    } else {
        1
    }
}

/// The rows written from index `key` on.
pub open spec fn keys_from(rows: Map<isize, usize>, key: int) -> Set<isize> {
    rows.dom().filter(|k: isize| k >= key)
}

/// The rows written up to index `key`.
pub open spec fn keys_upto(rows: Map<isize, usize>, key: int) -> Set<isize> {
    rows.dom().filter(|k: isize| k <= key)
}

pub proof fn lemma_keys_from_step(rows: Map<isize, usize>, key: int)
    requires
        rows.dom().finite(),
    ensures
        keys_from(rows, key + 1).len() <= keys_from(rows, key).len(),
        row_size(rows, key) == 0 ==> keys_from(rows, key + 1).len() < keys_from(rows, key).len(),
        keys_from(rows, key).finite(),
{
    let a = keys_from(rows, key + 1);
    let b = keys_from(rows, key);
    vstd::set_lib::lemma_len_subset(b, rows.dom());
    vstd::set_lib::lemma_len_subset(a, b);
    if row_size(rows, key) == 0 {
        let k = key as isize;
        assert(b.contains(k));
        vstd::set_lib::lemma_len_subset(a, b.remove(k));
    }
}

pub proof fn lemma_keys_upto_step(rows: Map<isize, usize>, key: int)
    requires
        rows.dom().finite(),
    ensures
        keys_upto(rows, key - 1).len() <= keys_upto(rows, key).len(),
        (in_isize(key) && rows.contains_key(key as isize)) ==> keys_upto(rows, key - 1).len() < keys_upto(
            rows,
            key,
        ).len(),
        keys_upto(rows, key).finite(),
{
    let a = keys_upto(rows, key - 1);
    let b = keys_upto(rows, key);
    vstd::set_lib::lemma_len_subset(b, rows.dom());
    vstd::set_lib::lemma_len_subset(a, b);
    if in_isize(key) && rows.contains_key(key as isize) {
        let k = key as isize;
        assert(b.contains(k));
        vstd::set_lib::lemma_len_subset(a, b.remove(k));
    }
}

/// Moving right through the rows from index `key`, `col` columns into its
/// row: how many rows down the cursor ends, and in which column.
pub open spec fn right_walk(rows: Map<isize, usize>, key: int, col: int) -> (int, int)
    decreases keys_from(rows, key).len(), col,
    when rows.dom().finite() && col >= 0
{
    let rs = row_size(rows, key);
    if col > rs {
        proof {
            lemma_keys_from_step(rows, key);
        }
        let (n, c) = right_walk(rows, key + 1, col - rs);
        (n + 1, c)
    } else {
        (0, col)
    }
}

pub proof fn lemma_right_walk_nonneg(rows: Map<isize, usize>, key: int, col: int)
    requires
        rows.dom().finite(),
        col >= 0,
    ensures
        right_walk(rows, key, col).0 >= 0,
        0 <= right_walk(rows, key, col).1 <= col,
    decreases keys_from(rows, key).len(), col,
{
    let rs = row_size(rows, key);
    if col > rs {
        lemma_keys_from_step(rows, key);
        lemma_right_walk_nonneg(rows, key + 1, col - rs);
    }
}

/// Moving `by` columns left from column `col` of the row with index `key`:
/// how many rows up the cursor ends, and in which column.
pub open spec fn left_walk(rows: Map<isize, usize>, key: int, col: int, by: int) -> (int, int)
    decreases by, keys_upto(rows, key).len(), (if col == 0 && row_size(rows, key) != 0 {
        1int
    } else {
        0int
    }),
    when rows.dom().finite() && col >= 0 && by >= 0
{
    if by > col {
        proof {
            lemma_keys_upto_step(rows, key);
        }
        let (n, c) = left_walk(rows, key - 1, row_size(rows, key - 1), by - col);
        (n + 1, c)
    } else {
        (0, col - by)
    }
}

pub proof fn lemma_left_walk_nonneg(rows: Map<isize, usize>, key: int, col: int, by: int)
    requires
        rows.dom().finite(),
        col >= 0,
        by >= 0,
    ensures
        left_walk(rows, key, col, by).0 >= 0,
        left_walk(rows, key, col, by).1 >= 0,
    decreases by, keys_upto(rows, key).len(), (if col == 0 && row_size(rows, key) != 0 {
        1int
    } else {
        0int
    }),
{
    if by > col {
        lemma_keys_upto_step(rows, key);
        lemma_left_walk_nonneg(rows, key - 1, row_size(rows, key - 1), by - col);
    }
}

// ---------------------------------------------------------------------
// How the model changes.
// ---------------------------------------------------------------------

/// The index of the cursor's row among all rows written.
pub open spec fn cur_key(s: ControlsV) -> int {
    s.cursor.row + s.roff
}

/// The model with the cursor at `row`, `col` and the screen scrolled by `roff`.
pub open spec fn placed(s: ControlsV, row: int, col: int, roff: int) -> ControlsV {
    ControlsV { cursor: Position { row: row as usize, col: col as usize }, roff: roff as isize, ..s }
}

/// Whether a cursor at `row` with the screen scrolled by `roff` can be
/// written down: the row and its index fit the machine's integers.
pub open spec fn fits(row: int, roff: int) -> bool {
    0 <= row <= isize::MAX && in_isize(roff) && in_isize(row + roff)
}

/// A cursor past the last row of the terminal stays on the last row and
/// the screen scrolls instead.
pub open spec fn settle(row: int, roff: int, tsize: WinSize) -> (int, int) {
    if row > tsize.row {
        (tsize.row as int, roff + row - tsize.row)
    } else {
        (row, roff)
    }
}

/// The model after the cursor moved `by` columns right, following the
/// lengths of the rows written; `None` where a number would not fit.
pub open spec fn move_right_spec(s: ControlsV, by: int) -> Option<ControlsV> {
    let col = s.cursor.col + by;
    let key = cur_key(s);
    if col > usize::MAX || !fits(s.cursor.row as int, s.roff as int) {
        None
    } else if col > row_size(s.rows, key) {
        let (n, c) = right_walk(s.rows, key, col);
        let (row, roff) = settle(s.cursor.row + n, s.roff as int, s.tsize);
        if fits(s.cursor.row + n, s.roff as int) && fits(row, roff) {
            Some(placed(s, row, c, roff))
        } else {
            None
        }
    } else {
        Some(placed(s, s.cursor.row as int, col, s.roff as int))
    }
}

/// The model after the cursor moved `by` columns left, following the
/// lengths of the rows written: above the top row the screen scrolls back.
/// `None` where a number would not fit.
pub open spec fn move_left_spec(s: ControlsV, by: int) -> Option<ControlsV> {
    let key = cur_key(s);
    if !fits(s.cursor.row as int, s.roff as int) {
        None
    } else {
        let (n, c) = left_walk(s.rows, key, s.cursor.col as int, by);
        let up = if n <= s.cursor.row {
            n
        } else {
            s.cursor.row as int
        };
        let roff = s.roff - (n - up);
        if in_isize(key - n) && in_isize(roff) {
            Some(placed(s, s.cursor.row - up, c, roff))
        } else {
            None
        }
    }
}

/// The model after `by` more columns were written at the cursor: a row
/// that overflows the terminal's width is full, and the writing goes on
/// in the rows below (the screen scrolls past the last one); the cursor's
/// row then ends at the cursor. `None` where a number would not fit or the
/// terminal has no width.
pub open spec fn grow_spec(s: ControlsV, by: int) -> Option<ControlsV> {
    let col = s.cursor.col + by;
    let key = cur_key(s);
    let width = s.tsize.col as int;
    if col > usize::MAX || !fits(s.cursor.row as int, s.roff as int) {
        None
    } else if col > width {
        if width == 0 {
            None
        } else {
            let rows1 = s.rows.insert(key as isize, width as usize);
            let row = s.cursor.row + col / width;
            let c = col % width;
            let (r2, o2) = settle(row, s.roff as int, s.tsize);
            if row <= usize::MAX && fits(r2, o2) {
                Some(
                    ControlsV {
                        cursor: Position { row: r2 as usize, col: c as usize },
                        rows: rows1.insert((r2 + o2) as isize, c as usize),
                        roff: o2 as isize,
                        tsize: s.tsize,
                    },
                )
            } else {
                None
            }
        }
    } else {
        Some(
            ControlsV {
                cursor: Position { row: s.cursor.row, col: col as usize },
                rows: s.rows.insert(key as isize, col as usize),
                ..s
            },
        )
    }
}

/// The model after `by` columns before the cursor were removed: past the
/// start of its row the cursor goes back into the full rows above. `None`
/// where a number would not fit or the terminal has no width.
pub open spec fn shrink_spec(s: ControlsV, by: int) -> Option<ControlsV> {
    let key = cur_key(s);
    let width = s.tsize.col as int;
    if !fits(s.cursor.row as int, s.roff as int) {
        None
    } else if by >= s.cursor.col {
        if width == 0 || (by - s.cursor.col) / width >= usize::MAX {
            None
        } else {
            let diff = by - s.cursor.col;
            let c = width - diff % width;
            let rdiff = diff / width + 1;
            let row = if rdiff > s.cursor.row {
                0
            } else {
                s.cursor.row - rdiff
            };
            Some(
                ControlsV {
                    cursor: Position { row: row as usize, col: c as usize },
                    rows: s.rows.remove(key as isize).insert((row + s.roff) as isize, c as usize),
                    ..s
                },
            )
        }
    } else {
        let c = s.cursor.col - by;
        Some(
            ControlsV {
                cursor: Position { row: s.cursor.row, col: c as usize },
                rows: s.rows.insert(key as isize, c as usize),
                ..s
            },
        )
    }
}

/// The model after a line break: the cursor starts the next row, and on
/// the last row of the terminal the screen scrolls. `None` where a number
/// would not fit.
pub open spec fn new_row_spec(s: ControlsV) -> Option<ControlsV> {
    if s.cursor.row == s.tsize.row {
        if s.roff + 1 > isize::MAX {
            None
        } else {
            Some(ControlsV { cursor: Position { row: s.cursor.row, col: 0 }, roff: (s.roff + 1) as isize, ..s })
        }
    } else if s.cursor.row + 1 > usize::MAX {
        None
    } else {
        Some(ControlsV { cursor: Position { row: (s.cursor.row + 1) as usize, col: 0 }, ..s })
    }
}

impl Controls {
    /// The length of the row with index `key` (see `row_size`).
    fn row_len(&self, key: isize) -> (res: usize)
        ensures
            res == row_size(self@.rows, key as int),
    {
        match self.rows.get(&key) {
            Some(v) => *v,
            None => 1,
        }
    }

    /// The index of the cursor's row, where it fits.
    fn key(&self) -> (res: Option<isize>)
        ensures
            res is Some <==> fits(self@.cursor.row as int, self@.roff as int),
            res matches Some(k) ==> k == cur_key(self@),
    {
        if self.cursor.row > isize::MAX as usize {
            return None;
        }
        let r = self.cursor.row as isize;
        r.checked_add(self.roff)
    }
}

impl Controls {
    /// Follows `right_walk` from the row with index `key`; `None` where an
    /// index passed would not fit.
    fn walk_right(&self, key: isize, col: usize) -> (res: Option<(usize, usize)>)
        ensures
            res is Some <==> in_isize(key + right_walk(self@.rows, key as int, col as int).0),
            res matches Some((n, c)) ==> (n as int, c as int) == right_walk(self@.rows, key as int, col as int),
    {
        let ghost rows = self@.rows;
        let ghost goal = right_walk(rows, key as int, col as int);
        let mut k = key;
        let mut c = col;
        let mut n: usize = 0;
        loop
            invariant
                rows == self@.rows,
                rows.dom().finite(),
                goal == right_walk(rows, key as int, col as int),
                k == key + n,
                right_walk(rows, k as int, c as int) == (goal.0 - n, goal.1),
            decreases keys_from(rows, k as int).len(), c,
        {
            let r = self.row_len(k);
            if c > r {
                proof {
                    lemma_keys_from_step(rows, k as int);
                    lemma_right_walk_nonneg(rows, k + 1, c - r);
                }
                let k2 = match k.checked_add(1) {
                    Some(k2) => k2,
                    None => return None,
                };
                c = c - r;
                k = k2;
                n = n + 1;
            } else {
                return Some((n, c));
            }
        }
    }

    /// Moves the cursor `by` columns right (see `move_right_spec`); false,
    /// with nothing changed, where a number would not fit.
    fn move_right(&mut self, by: usize) -> (ok: bool)
        ensures
            match move_right_spec(old(self)@, by as int) {
                Some(v) => ok && final(self)@ == v,
                None => !ok && final(self)@ == old(self)@,
            },
    {
        let col = match self.cursor.col.checked_add(by) {
            Some(c) => c,
            None => return false,
        };
        let key = match self.key() {
            Some(k) => k,
            None => return false,
        };
        if col > self.row_len(key) {
            let (n, c) = match self.walk_right(key, col) {
                Some(w) => w,
                None => return false,
            };
            let row = match self.cursor.row.checked_add(n) {
                Some(r) => r,
                None => return false,
            };
            if row > isize::MAX as usize {
                return false;
            }
            let (row2, roff2) = if row > self.tsize.row as usize {
                let extra = (row - self.tsize.row as usize) as isize;
                match self.roff.checked_add(extra) {
                    Some(o) => (self.tsize.row as usize, o),
                    None => return false,
                }
            } else {
                (row, self.roff)
            };
            self.cursor = Position { row: row2, col: c };
            self.roff = roff2;
        } else {
            self.cursor = Position { row: self.cursor.row, col };
        }
        true
    }
}

impl Controls {
    /// Follows `left_walk` from the row with index `key`: the rows passed,
    /// the column reached and the index of its row; `None` where an index
    /// passed would not fit.
    fn walk_left(&self, key: isize, col: usize, by: usize) -> (res: Option<(usize, usize, isize)>)
        ensures
            res is Some <==> in_isize(key - left_walk(self@.rows, key as int, col as int, by as int).0),
            res matches Some((n, c, k)) ==> (n as int, c as int) == left_walk(
                self@.rows,
                key as int,
                col as int,
                by as int,
            ) && k == key - n,
    {
        let ghost rows = self@.rows;
        let ghost goal = left_walk(rows, key as int, col as int, by as int);
        let mut k = key;
        let mut c = col;
        let mut b = by;
        let mut n: usize = 0;
        loop
            invariant
                rows == self@.rows,
                rows.dom().finite(),
                goal == left_walk(rows, key as int, col as int, by as int),
                k == key - n,
                left_walk(rows, k as int, c as int, b as int) == (goal.0 - n, goal.1),
            decreases b, keys_upto(rows, k as int).len(), (if c == 0 && row_size(rows, k as int) != 0 {
                1int
            } else {
                0int
            }),
        {
            if b > c {
                proof {
                    lemma_keys_upto_step(rows, k as int);
                    lemma_left_walk_nonneg(rows, k - 1, row_size(rows, k - 1), b - c);
                }
                let k2 = match k.checked_sub(1) {
                    Some(k2) => k2,
                    None => return None,
                };
                b = b - c;
                c = self.row_len(k2);
                k = k2;
                n = n + 1;
            } else {
                return Some((n, c - b, k));
            }
        }
    }

    /// Moves the cursor `by` columns left (see `move_left_spec`); false,
    /// with nothing changed, where a number would not fit.
    fn move_left(&mut self, by: usize) -> (ok: bool)
        ensures
            match move_left_spec(old(self)@, by as int) {
                Some(v) => ok && final(self)@ == v,
                None => !ok && final(self)@ == old(self)@,
            },
    {
        let key = match self.key() {
            Some(k) => k,
            None => return false,
        };
        let (n, c, k) = match self.walk_left(key, self.cursor.col, by) {
            Some(w) => w,
            None => return false,
        };
        if n <= self.cursor.row {
            self.cursor = Position { row: self.cursor.row - n, col: c };
        } else {
            self.cursor = Position { row: 0, col: c };
            self.roff = k;
        }
        true
    }
}

impl Controls {
    /// Writes `by` more columns at the cursor (see `grow_spec`); false, with
    /// nothing changed, where a number would not fit or the terminal has no width.
    fn grow(&mut self, by: usize) -> (ok: bool)
        ensures
            match grow_spec(old(self)@, by as int) {
                Some(v) => ok && final(self)@ == v,
                None => !ok && final(self)@ == old(self)@,
            },
    {
        let col = match self.cursor.col.checked_add(by) {
            Some(c) => c,
            None => return false,
        };
        let key = match self.key() {
            Some(k) => k,
            None => return false,
        };
        let width = self.tsize.col as usize;
        if col > width {
            if width == 0 {
                return false;
            }
            let row = match self.cursor.row.checked_add(col / width) {
                Some(r) => r,
                None => return false,
            };
            let c = col % width;
            let limit = self.tsize.row as usize;
            let (row2, roff2) = if row > limit {
                let o = self.roff as i128 + (row - limit) as i128;
                if o > isize::MAX as i128 {
                    return false;
                }
                (limit, o as isize)
            } else {
                (row, self.roff)
            };
            if row2 > isize::MAX as usize {
                return false;
            }
            let key2 = match (row2 as isize).checked_add(roff2) {
                Some(k) => k,
                None => return false,
            };
            self.rows.insert(key, width);
            self.rows.insert(key2, c);
            self.cursor = Position { row: row2, col: c };
            self.roff = roff2;
        } else {
            self.rows.insert(key, col);
            self.cursor = Position { row: self.cursor.row, col };
        }
        true
    }

    /// Removes `by` columns before the cursor (see `shrink_spec`); false,
    /// with nothing changed, where a number would not fit or the terminal
    /// has no width.
    fn shrink(&mut self, by: usize) -> (ok: bool)
        ensures
            match shrink_spec(old(self)@, by as int) {
                Some(v) => ok && final(self)@ == v,
                None => !ok && final(self)@ == old(self)@,
            },
    {
        let key = match self.key() {
            Some(k) => k,
            None => return false,
        };
        let width = self.tsize.col as usize;
        if by >= self.cursor.col {
            if width == 0 {
                return false;
            }
            let diff = by - self.cursor.col;
            if diff / width >= usize::MAX {
                return false;
            }
            let c = width - diff % width;
            let rdiff = diff / width + 1;
            let row = if rdiff > self.cursor.row {
                0
            } else {
                self.cursor.row - rdiff
            };
            self.rows.remove(&key);
            let key2 = row as isize + self.roff;
            self.rows.insert(key2, c);
            self.cursor = Position { row, col: c };
        } else {
            let c = self.cursor.col - by;
            self.rows.insert(key, c);
            self.cursor = Position { row: self.cursor.row, col: c };
        }
        true
    }

    /// Starts the next row (see `new_row_spec`); false, with nothing
    /// changed, where a number would not fit.
    fn new_row(&mut self) -> (ok: bool)
        ensures
            match new_row_spec(old(self)@) {
                Some(v) => ok && final(self)@ == v,
                None => !ok && final(self)@ == old(self)@,
            },
    {
        if self.cursor.row == self.tsize.row as usize {
            match self.roff.checked_add(1) {
                Some(o) => {
                    self.roff = o;
                    self.cursor = Position { row: self.cursor.row, col: 0 };
                    true
                },
                None => false,
            }
        } else {
            match self.cursor.row.checked_add(1) {
                Some(r) => {
                    self.cursor = Position { row: r, col: 0 };
                    true
                },
                None => false,
            }
        }
    }
}

// ---------------------------------------------------------------------
// What is written to the terminal.
// ---------------------------------------------------------------------

/// The control sequence that puts the cursor at `p`.
pub open spec fn pointer_seq(p: Position) -> Seq<char> {
    seq!['\u{1b}', '['] + decimal(p.row as nat) + seq![';'] + decimal(p.col as nat) + seq!['f']
}

/// The control sequence that moves the cursor `n` columns in direction `d`.
pub open spec fn move_seq(n: nat, d: char) -> Seq<char> {
    seq!['\u{1b}', '['] + decimal(n) + seq![d]
}

/// The control sequence that clears the line from the cursor on.
pub open spec fn clear_seq() -> Seq<char> {
    seq!['\u{1b}', '[', 'K']
}

/// The model after the cursor went to `p`, and what is written for it.
pub open spec fn move_to_spec(s: ControlsV, p: Position) -> (ControlsV, Seq<char>) {
    (ControlsV { cursor: p, ..s }, pointer_seq(p))
}

/// The model after the cursor's line was cleared, and what is written for it.
pub open spec fn clear_line_spec(s: ControlsV) -> (ControlsV, Seq<char>) {
    (ControlsV { rows: s.rows.remove(s.cursor.row as isize), ..s }, clear_seq())
}

fn pointer_text(p: Position) -> (res: String)
    ensures
        res@ == pointer_seq(p),
{
    let mut out = String::new();
    out.push('\u{1b}');
    out.push('[');
    append_str(&mut out, decimal_text(p.row).as_str());
    out.push(';');
    append_str(&mut out, decimal_text(p.col).as_str());
    out.push('f');
    proof {
        assert(out@ =~= pointer_seq(p));
    }
    out
}

fn move_text(n: usize, d: char) -> (res: String)
    ensures
        res@ == move_seq(n as nat, d),
{
    let mut out = String::new();
    out.push('\u{1b}');
    out.push('[');
    append_str(&mut out, decimal_text(n).as_str());
    out.push(d);
    proof {
        assert(out@ =~= move_seq(n as nat, d));
    }
    out
}

fn clear_text() -> (res: String)
    ensures
        res@ == clear_seq(),
{
    let mut out = String::new();
    out.push('\u{1b}');
    out.push('[');
    out.push('K');
    proof {
        assert(out@ =~= clear_seq());
    }
    out
}

impl Controls {
    /// A cursor in the top left corner of a terminal of no size, with no
    /// rows written.
    pub fn new() -> (res: Controls)
        ensures
            res@ == (ControlsV {
                cursor: Position { row: 0, col: 0 },
                tsize: WinSize { row: 0, col: 0 },
                rows: Map::empty(),
                roff: 0,
            }),
    {
        Controls { cursor: Position::new(), tsize: WinSize::new(), rows: HashMap::new(), roff: 0 }
    }

    /// The cursor is where the terminal reported it.
    pub fn update_cursor(&mut self, pos: Position)
        ensures
            final(self)@ == (ControlsV { cursor: pos, ..old(self)@ }),
    {
        self.cursor = pos;
    }

    /// The terminal has the size `size`.
    pub fn update_size(&mut self, size: WinSize)
        ensures
            final(self)@ == (ControlsV { tsize: size, ..old(self)@ }),
    {
        self.tsize = size;
    }

    /// Forgets the rows written, and the scrolling.
    pub fn clear_rows(&mut self)
        ensures
            final(self)@ == (ControlsV { rows: Map::empty(), roff: 0, ..old(self)@ }),
    {
        self.rows.clear();
        self.roff = 0;
    }

    /// Puts the cursor at `pos`; returns what to write for it.
    pub fn move_to(&mut self, pos: Position) -> (res: String)
        ensures
            (final(self)@, res@) == move_to_spec(old(self)@, pos),
    {
        self.cursor = pos;
        pointer_text(pos)
    }

    /// Clears the cursor's line; returns what to write for it.
    pub fn clear_line(&mut self) -> (res: String)
        ensures
            (final(self)@, res@) == clear_line_spec(old(self)@),
    {
        let key = self.cursor.row as isize;
        self.rows.remove(&key);
        clear_text()
    }

    /// What to write to ask the terminal where the cursor is.
    pub fn query_cursor(&self) -> (res: String)
        ensures
            res@ == seq!['\u{1b}', '[', '6', 'n'],
    {
        let mut out = String::new();
        out.push('\u{1b}');
        out.push('[');
        out.push('6');
        out.push('n');
        proof {
            assert(out@ =~= seq!['\u{1b}', '[', '6', 'n']);
        }
        out
    }

    /// What to write to ring the terminal's bell.
    pub fn bell(&self) -> (res: String)
        ensures
            res@ == seq!['\u{7}'],
    {
        let mut out = String::new();
        out.push('\u{7}');
        proof {
            assert(out@ =~= seq!['\u{7}']);
        }
        out
    }
}

/// What writing `ch` does to the model (a line break starts the next
/// row), and what is written.
pub open spec fn outc_spec(s: ControlsV, ch: char) -> Option<(ControlsV, Seq<char>)> {
    match (if ch == '\n' {
        new_row_spec(s)
    } else {
        grow_spec(s, 1)
    }) {
        Some(v) => Some((v, seq![ch])),
        None => None,
    }
}

/// Deleting the character before the cursor: the terminal's delete
/// character within the row, the cursor put in place otherwise.
pub open spec fn del_spec(s: ControlsV) -> Option<(ControlsV, Seq<char>)> {
    match shrink_spec(s, 1) {
        Some(v) => Some(
            (
                v,
                if s.cursor.col > 1 {
                    seq!['\u{7f}']
                } else {
                    pointer_seq(v.cursor)
                },
            ),
        ),
        None => None,
    }
}

/// One column left: the delete character within the row, the cursor put
/// in place otherwise.
pub open spec fn cursor_left_spec(s: ControlsV) -> Option<(ControlsV, Seq<char>)> {
    match move_left_spec(s, 1) {
        Some(v) => Some(
            (
                v,
                if s.cursor.col > 1 {
                    seq!['\u{7f}']
                } else {
                    pointer_seq(v.cursor)
                },
            ),
        ),
        None => None,
    }
}

/// One column right: "cursor right" within the terminal's width, the
/// cursor put in place otherwise.
pub open spec fn cursor_right_spec(s: ControlsV) -> Option<(ControlsV, Seq<char>)> {
    match move_right_spec(s, 1) {
        Some(v) => Some(
            (
                v,
                if s.cursor.col < s.tsize.col {
                    seq!['\u{1b}', '[', 'C']
                } else {
                    pointer_seq(v.cursor)
                },
            ),
        ),
        None => None,
    }
}

/// `by` columns left: a few delete characters when they stay within the
/// width, a relative move within the row, the cursor put in place otherwise.
pub open spec fn cursors_left_spec(s: ControlsV, by: nat) -> Option<(ControlsV, Seq<char>)> {
    if by == 0 {
        Some((s, seq![]))
    } else if by <= 3 && by + s.cursor.col > usize::MAX {
        None
    } else {
        match move_left_spec(s, by as int) {
            Some(v) => Some(
                (
                    v,
                    if by <= 3 && by + s.cursor.col < s.tsize.col {
                        Seq::new(by, |i: int| '\u{7f}')
                    } else if by < s.cursor.col {
                        move_seq(by, 'D')
                    } else {
                        pointer_seq(v.cursor)
                    },
                ),
            ),
            None => None,
        }
    }
}

/// `by` columns right: a relative move within the width, the cursor put in
/// place otherwise.
pub open spec fn cursors_right_spec(s: ControlsV, by: nat) -> Option<(ControlsV, Seq<char>)> {
    if by == 0 {
        Some((s, seq![]))
    } else {
        match move_right_spec(s, by as int) {
            Some(v) => Some(
                (
                    v,
                    if by + s.cursor.col < s.tsize.col {
                        move_seq(by, 'C')
                    } else {
                        pointer_seq(v.cursor)
                    },
                ),
            ),
            None => None,
        }
    }
}

pub open spec fn out_view(r: Option<String>) -> Option<Seq<char>> {
    match r {
        Some(t) => Some(t@),
        None => None,
    }
}

/// Whether an operation left the model as `x` says, with the text it
/// returned; where `x` is `None`, it returned nothing and changed nothing.
pub open spec fn done(x: Option<(ControlsV, Seq<char>)>, before: ControlsV, after: ControlsV, res: Option<String>) -> bool {
    match x {
        Some((v, t)) => after == v && out_view(res) == Some(t),
        None => after == before && res is None,
    }
}

impl Controls {
    /// Writes `ch` (see `outc_spec`): returns what to write.
    pub fn outc(&mut self, ch: char) -> (res: Option<String>)
        ensures
            done(outc_spec(old(self)@, ch), old(self)@, final(self)@, res),
    {
        let ok = if ch == '\n' {
            self.new_row()
        } else {
            self.grow(1)
        };
        if !ok {
            return None;
        }
        let mut out = String::new();
        out.push(ch);
        proof {
            assert(out@ =~= seq![ch]);
        }
        Some(out)
    }

    /// Deletes the character before the cursor (see `del_spec`): returns
    /// what to write.
    pub fn del(&mut self) -> (res: Option<String>)
        ensures
            done(del_spec(old(self)@), old(self)@, final(self)@, res),
    {
        let within = self.cursor.col > 1;
        if !self.shrink(1) {
            return None;
        }
        if within {
            let mut out = String::new();
            out.push('\u{7f}');
            proof {
                assert(out@ =~= seq!['\u{7f}']);
            }
            Some(out)
        } else {
            Some(pointer_text(self.cursor))
        }
    }

    /// Moves the cursor one column left (see `cursor_left_spec`): returns
    /// what to write.
    pub fn cursor_left(&mut self) -> (res: Option<String>)
        ensures
            done(cursor_left_spec(old(self)@), old(self)@, final(self)@, res),
    {
        let within = self.cursor.col > 1;
        if !self.move_left(1) {
            return None;
        }
        if within {
            let mut out = String::new();
            out.push('\u{7f}');
            proof {
                assert(out@ =~= seq!['\u{7f}']);
            }
            Some(out)
        } else {
            Some(pointer_text(self.cursor))
        }
    }

    /// Moves the cursor one column right (see `cursor_right_spec`): returns
    /// what to write.
    pub fn cursor_right(&mut self) -> (res: Option<String>)
        ensures
            done(cursor_right_spec(old(self)@), old(self)@, final(self)@, res),
    {
        let within = self.cursor.col < self.tsize.col as usize;
        if !self.move_right(1) {
            return None;
        }
        if within {
            let mut out = String::new();
            out.push('\u{1b}');
            out.push('[');
            out.push('C');
            proof {
                assert(out@ =~= seq!['\u{1b}', '[', 'C']);
            }
            Some(out)
        } else {
            Some(pointer_text(self.cursor))
        }
    }

    /// Moves the cursor `by` columns left (see `cursors_left_spec`):
    /// returns what to write.
    pub fn cursors_left(&mut self, by: usize) -> (res: Option<String>)
        ensures
            done(cursors_left_spec(old(self)@, by as nat), old(self)@, final(self)@, res),
    {
        if by == 0 {
            let out = String::new();
            proof {
                assert(out@ =~= Seq::<char>::empty());
            }
            return Some(out);
        }
        if by <= 3 && self.cursor.col > usize::MAX - by {
            return None;
        }
        let few = by <= 3 && by + self.cursor.col < self.tsize.col as usize;
        let within = by < self.cursor.col;
        if !self.move_left(by) {
            return None;
        }
        if few {
            let out = crate::util::build_string('\u{7f}', by);
            proof {
                assert(out@ =~= Seq::new(by as nat, |i: int| '\u{7f}'));
            }
            Some(out)
        } else if within {
            Some(move_text(by, 'D'))
        } else {
            Some(pointer_text(self.cursor))
        }
    }

    /// Moves the cursor `by` columns right (see `cursors_right_spec`):
    /// returns what to write.
    pub fn cursors_right(&mut self, by: usize) -> (res: Option<String>)
        ensures
            done(cursors_right_spec(old(self)@, by as nat), old(self)@, final(self)@, res),
    {
        if by == 0 {
            let out = String::new();
            proof {
                assert(out@ =~= Seq::<char>::empty());
            }
            return Some(out);
        }
        if self.cursor.col > usize::MAX - by {
            return None;
        }
        let within = by + self.cursor.col < self.tsize.col as usize;
        if !self.move_right(by) {
            return None;
        }
        if within {
            Some(move_text(by, 'C'))
        } else {
            Some(pointer_text(self.cursor))
        }
    }
}

/// The number of bytes of `c` in UTF-8.
pub open spec fn utf8_len(c: char) -> nat {
    if (c as u32) < 0x80 {
        1
    } else if (c as u32) < 0x800 {
        2
    } else if (c as u32) < 0x10000 {
        3
    } else {
        4
    }
}

/// Writing `text` after a part of a line `len` bytes long: each line of
/// it grows the model by its length in bytes, then a new row starts.
pub open spec fn outs_rec(s: ControlsV, text: Seq<char>, len: nat) -> Option<ControlsV>
    decreases text.len(),
{
    if text.len() == 0 {
        match grow_spec(s, len as int) {
            Some(a) => new_row_spec(a),
            None => None,
        }
    } else if text[0] == '\n' {
        match grow_spec(s, len as int) {
            Some(a) => match new_row_spec(a) {
                Some(b) => outs_rec(b, text.drop_first(), 0),
                None => None,
            },
            None => None,
        }
    } else if len + utf8_len(text[0]) > usize::MAX {
        None
    } else {
        outs_rec(s, text.drop_first(), len + utf8_len(text[0]))
    }
}

/// Writing `text` (see `outs_rec`), and what is written: the text itself.
pub open spec fn outs_spec(s: ControlsV, text: Seq<char>) -> Option<(ControlsV, Seq<char>)> {
    match outs_rec(s, text, 0) {
        Some(v) => Some((v, text)),
        None => None,
    }
}

/// The rows with screen indexes `from` up to `to` forgotten.
pub open spec fn clear_rows_from(rows: Map<isize, usize>, from: int, to: int) -> Map<isize, usize>
    decreases to - from,
{
    if from >= to {
        rows
    } else {
        clear_rows_from(rows.remove(from as isize), from + 1, to)
    }
}

/// What clears the screen rows `from` up to `to`: each is gone to and cleared.
pub open spec fn clear_rows_text(from: int, to: int) -> Seq<char>
    decreases to - from,
{
    if from >= to {
        seq![]
    } else {
        pointer_seq(Position { row: from as usize, col: 1 }) + clear_seq() + clear_rows_text(from + 1, to)
    }
}

/// Clearing the cursor's line and, when `len` more columns from the cursor
/// run past the terminal's width, the rows they run into; the cursor is
/// then put back. `None` where a number would not fit or the terminal has
/// no width.
pub open spec fn clear_line_to_spec(s: ControlsV, len: nat) -> Option<(ControlsV, Seq<char>)> {
    let (s1, t1) = clear_line_spec(s);
    let total = len + s.cursor.col;
    let width = s.tsize.col as int;
    if total > usize::MAX {
        None
    } else if total > width {
        if width == 0 || s.cursor.row + total / width + 1 > usize::MAX {
            None
        } else {
            let from = s.cursor.row + 1;
            let to = s.cursor.row + total / width + 1;
            Some(
                (
                    ControlsV { rows: clear_rows_from(s1.rows, from, to), ..s1 },
                    t1 + clear_rows_text(from, to) + pointer_seq(s.cursor),
                ),
            )
        }
    } else {
        Some((s1, t1))
    }
}

fn utf8_width(c: char) -> (res: usize)
    ensures
        res == utf8_len(c),
{
    let n = c as u32;
    if n < 0x80 {
        1
    } else if n < 0x800 {
        2
    } else if n < 0x10000 {
        3
    } else {
        4
    }
}

impl Controls {
    /// A copy of the model.
    fn snapshot(&self) -> (res: Controls)
        ensures
            res@ == self@,
    {
        Controls { cursor: self.cursor, tsize: self.tsize, rows: self.rows.clone(), roff: self.roff }
    }

    /// Writes `text` (see `outs_spec`): returns what to write.
    pub fn outs(&mut self, text: &str) -> (res: Option<String>)
        ensures
            done(outs_spec(old(self)@, text@), old(self)@, final(self)@, res),
    {
        let saved = self.snapshot();
        let ghost goal = outs_rec(old(self)@, text@, 0);
        let n = text.unicode_len();
        let mut i: usize = 0;
        let mut len: usize = 0;
        proof {
            assert(text@.subrange(0, n as int) =~= text@);
        }
        while i < n
            invariant
                i <= n,
                n == text@.len(),
                saved@ == old(self)@,
                goal == outs_rec(old(self)@, text@, 0),
                outs_rec(self@, text@.subrange(i as int, n as int), len as nat) == goal,
            decreases n - i,
        {
            let c = text.get_char(i);
            proof {
                let t = text@.subrange(i as int, n as int);
                assert(t[0] == c);
                assert(t.drop_first() =~= text@.subrange(i + 1, n as int));
            }
            if c == '\n' {
                if !self.grow(len) || !self.new_row() {
                    *self = saved;
                    return None;
                }
                len = 0;
            } else {
                let w = utf8_width(c);
                if len > usize::MAX - w {
                    *self = saved;
                    return None;
                }
                len = len + w;
            }
            i = i + 1;
        }
        proof {
            assert(text@.subrange(n as int, n as int) =~= Seq::<char>::empty());
        }
        if !self.grow(len) || !self.new_row() {
            *self = saved;
            return None;
        }
        Some(text.to_owned())
    }

    /// Writes `text` to the error stream, which shares the screen with the
    /// output (see `outs_spec`): returns what to write.
    pub fn err(&mut self, text: &str) -> (res: Option<String>)
        ensures
            done(outs_spec(old(self)@, text@), old(self)@, final(self)@, res),
    {
        self.outs(text)
    }

    /// Clears the cursor's line and the rows that `len` more columns run
    /// into (see `clear_line_to_spec`): returns what to write.
    pub fn clear_line_to(&mut self, len: usize) -> (res: Option<String>)
        ensures
            done(clear_line_to_spec(old(self)@, len as nat), old(self)@, final(self)@, res),
    {
        if len > usize::MAX - self.cursor.col {
            return None;
        }
        let total = len + self.cursor.col;
        let width = self.tsize.col as usize;
        if total > width {
            if width == 0 || self.cursor.row >= usize::MAX - total / width {
                return None;
            }
        }
        let mut out = self.clear_line();
        if total > width {
            let old_pos = self.cursor;
            let from = self.cursor.row + 1;
            let to = self.cursor.row + total / width + 1;
            let ghost rows1 = self@.rows;
            let mut r = from;
            proof {
                assert(out@ + clear_rows_text(from as int, to as int) =~= clear_seq() + clear_rows_text(
                    from as int,
                    to as int,
                ));
            }
            while r < to
                invariant
                    from <= r <= to,
                    self@.tsize == old(self)@.tsize,
                    self@.roff == old(self)@.roff,
                    clear_rows_from(self@.rows, r as int, to as int) == clear_rows_from(rows1, from as int, to as int),
                    out@ + clear_rows_text(r as int, to as int) == clear_seq() + clear_rows_text(from as int, to as int),
                decreases to - r,
            {
                let t1 = self.move_to(Position { row: r, col: 1 });
                let t2 = self.clear_line();
                let ghost before = out@;
                append_str(&mut out, t1.as_str());
                append_str(&mut out, t2.as_str());
                proof {
                    assert(before + clear_rows_text(r as int, to as int) =~= out@ + clear_rows_text(r + 1, to as int));
                }
                r = r + 1;
            }
            let t3 = self.move_to(old_pos);
            proof {
                assert(clear_rows_from(self@.rows, to as int, to as int) == self@.rows);
                assert(clear_rows_text(to as int, to as int) == Seq::<char>::empty());
                assert(out@ =~= clear_seq() + clear_rows_text(from as int, to as int));
            }
            append_str(&mut out, t3.as_str());
        }
        Some(out)
    }
}

} // verus!
