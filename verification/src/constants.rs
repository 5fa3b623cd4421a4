use vstd::prelude::*;

verus! {

/// End of input (C-d).
pub const CEOF: char = '\u{4}';
/// The delete key.
pub const DEL: char = '\u{7f}';
pub const NL: char = '\n';
pub const ESC: char = '\u{1b}';
/// The character after ESC that starts an ANSI sequence.
pub const ANSI: char = '\u{5b}';
pub const BS: char = '\u{8}';
pub const SPC: char = ' ';
pub const BEL: char = '\u{7}';
/// The separator between arguments.
pub const CMA: char = ',';
/// Opens an argument list or the arguments of a call.
pub const OPR: char = '(';
/// Closes an argument list.
pub const CPR: char = ')';
/// Starts and ends a literal.
pub const QUT: char = '"';
/// C-a: to the start of the line.
pub const CTA: char = '\u{1}';
/// C-e: to the end of the line.
pub const CTE: char = '\u{5}';
/// C-k: clear the rest of the line.
pub const CTK: char = '\u{b}';

/// The longest escape sequence that is collected before it is given up.
pub const MAX_ESCAPE: usize = 16;
/// How many lines the history keeps.
pub const HISTORY_SIZE: usize = 100;
/// The start of an ANSI control sequence.
pub const ANSI_BEGIN: &'static str = "\u{1b}[";
/// Asks the terminal where the cursor is.
pub const CRSR_POS: &'static str = "\u{1b}[6n";
/// Moves the cursor right.
pub const CRSR_RIGHT: &'static str = "\u{1b}[C";

/// The message of the silent error that stops a line without a report.
pub const STOP: &'static str = "\u{0}STOP";

} // verus!
