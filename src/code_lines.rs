use crate::text::{chars_of, lines_of, split_lines, trim, trimmed};
use vstd::prelude::*;

verus! {

pub const WHITE_SPACE: char = ' ';

pub const COMMENT_OUTER: char = '/';

pub const COMMENT_MULTI_INNER: char = '*';

pub const STR_LITERAL_EDGES: char = '"';

pub const CHAR_EDGES: char = '\'';

/// Where the reader stands while scanning a line of source code.
#[derive(Debug, Clone, Copy, PartialEq, Eq, Structural)]
pub enum ReadState {
    /// Between symbols; the state every line starts from.
    OnWhiteSpace,
    /// Just after a slash, which may open a comment.
    OnSlash,
    /// On code.
    OnIdentifiedSymbol,
    /// Inside a comment that runs to the end of the line.
    InEndOfLineComment,
    /// Inside a block comment, just after a star if `ending_comment`.
    InMultilineComment { ending_comment: bool },
    /// Inside a string or character literal closed by the given quote.
    InQuotation(char),
}

/// The state after reading `next` in state `s`.
pub open spec fn next_state(s: ReadState, next: char) -> ReadState {
    match s {
        ReadState::OnWhiteSpace => if next == WHITE_SPACE {
            ReadState::OnWhiteSpace
        } else if next == COMMENT_OUTER {
            ReadState::OnSlash
        } else if next == STR_LITERAL_EDGES || next == CHAR_EDGES {
            ReadState::InQuotation(next)
        } else {
            ReadState::OnIdentifiedSymbol
        },
        ReadState::OnSlash => if next == WHITE_SPACE {
            ReadState::OnWhiteSpace
        } else if next == COMMENT_OUTER {
            ReadState::InEndOfLineComment
        } else if next == COMMENT_MULTI_INNER {
            ReadState::InMultilineComment { ending_comment: false }
        } else if next == STR_LITERAL_EDGES || next == CHAR_EDGES {
            ReadState::InQuotation(next)
        } else {
            ReadState::OnIdentifiedSymbol
        },
        ReadState::OnIdentifiedSymbol => if next == COMMENT_OUTER {
            ReadState::OnSlash
        } else if next == STR_LITERAL_EDGES || next == CHAR_EDGES {
            ReadState::InQuotation(next)
        } else {
            ReadState::OnIdentifiedSymbol
        },
        ReadState::InEndOfLineComment => ReadState::InEndOfLineComment,
        ReadState::InMultilineComment { ending_comment } => if next == COMMENT_OUTER && ending_comment {
            ReadState::OnWhiteSpace
        } else {
            ReadState::InMultilineComment { ending_comment: next == COMMENT_MULTI_INNER }
        },
        ReadState::InQuotation(boundary) => if next == boundary {
            ReadState::OnIdentifiedSymbol
        } else {
            ReadState::InQuotation(boundary)
        },
    }
}

/// The state carries over into the next line.
pub open spec fn spans_lines(s: ReadState) -> bool {
    s matches ReadState::InMultilineComment { .. } || s matches ReadState::InQuotation(_)
}

impl ReadState {
    /// The state after reading `next`; a line comment is never read on.
    pub fn after_next_char_in_line(&self, next: char) -> (r: ReadState)
        requires
            *self != ReadState::InEndOfLineComment,
        ensures
            r == next_state(*self, next),
    {
        match *self {
            ReadState::OnWhiteSpace => if next == WHITE_SPACE {
                ReadState::OnWhiteSpace
            } else if next == COMMENT_OUTER {
                ReadState::OnSlash
            } else if next == STR_LITERAL_EDGES || next == CHAR_EDGES {
                ReadState::InQuotation(next)
            } else {
                ReadState::OnIdentifiedSymbol
            },
            ReadState::OnSlash => if next == WHITE_SPACE {
                ReadState::OnWhiteSpace
            } else if next == COMMENT_OUTER {
                ReadState::InEndOfLineComment
            } else if next == COMMENT_MULTI_INNER {
                ReadState::InMultilineComment { ending_comment: false }
            } else if next == STR_LITERAL_EDGES || next == CHAR_EDGES {
                ReadState::InQuotation(next)
            } else {
                ReadState::OnIdentifiedSymbol
            },
            ReadState::OnIdentifiedSymbol => if next == COMMENT_OUTER {
                ReadState::OnSlash
            } else if next == STR_LITERAL_EDGES || next == CHAR_EDGES {
                ReadState::InQuotation(next)
            } else {
                ReadState::OnIdentifiedSymbol
            },
            ReadState::InEndOfLineComment => ReadState::InEndOfLineComment,
            ReadState::InMultilineComment { ending_comment } => if next == COMMENT_OUTER
                && ending_comment {
                ReadState::OnWhiteSpace
            } else {
                ReadState::InMultilineComment { ending_comment: next == COMMENT_MULTI_INNER }
            },
            ReadState::InQuotation(boundary) => if next == boundary {
                ReadState::OnIdentifiedSymbol
            } else {
                ReadState::InQuotation(boundary)
            },
        }
    }

    /// Whether this state carries over into the next line.
    pub fn is_multi_line(&self) -> (r: bool)
        ensures
            r == spans_lines(*self),
    {
        match self {
            ReadState::InMultilineComment { .. } => true,
            ReadState::InQuotation(_) => true,
            _ => false,
        }
    }
}

/// A step from `prev` to `new` shows code on the line.
pub open spec fn shows_code(prev: ReadState, new: ReadState) -> bool {
    new matches ReadState::OnIdentifiedSymbol || new matches ReadState::InQuotation(_) || (prev
        == ReadState::OnSlash && new == ReadState::OnWhiteSpace)
}

/// The state, and whether code was seen, after reading the first `n`
/// characters of `line` from `start`; reading stops at a line comment.
pub open spec fn scan_prefix(start: ReadState, line: Seq<char>, n: int) -> (ReadState, bool)
    decreases n,
{
    if n <= 0 {
        (start, false)
    } else {
        let (st, seen) = scan_prefix(start, line, n - 1);
        if st == ReadState::InEndOfLineComment {
            (st, seen)
        } else {
            let new = next_state(st, line[n - 1]);
            if new == ReadState::InEndOfLineComment {
                (new, seen)
            } else {
                (new, seen || shows_code(st, new))
            }
        }
    }
}

/// The state a line starts from, after a line that ended in `s`.
pub open spec fn line_start(s: ReadState) -> ReadState {
    if spans_lines(s) {
        s
    } else {
        ReadState::OnWhiteSpace
    }
}

/// The state after the first `n` lines and how many of them hold code.
pub open spec fn scan_lines(lines: Seq<Seq<char>>, n: int) -> (ReadState, nat)
    decreases n,
{
    if n <= 0 {
        (ReadState::OnWhiteSpace, 0)
    } else {
        let (st, count) = scan_lines(lines, n - 1);
        let line = lines[n - 1];
        let (end, seen) = scan_prefix(line_start(st), line, line.len() as int);
        (end, count + if seen || end == ReadState::OnSlash {
            1nat
        } else {
            0nat
        })
    }
}

/// Scans one line from `start`: the end state and whether it holds code.
fn scan_line(start: ReadState, line: &Vec<char>) -> (r: (ReadState, bool))
    requires
        start != ReadState::InEndOfLineComment,
    ensures
        r == scan_prefix(start, line@, line@.len() as int),
{
    let mut prev_state = start;
    let mut symbol_in_line = false;
    let mut i: usize = 0;
    while i < line.len()
        invariant
            0 <= i <= line@.len(),
            prev_state != ReadState::InEndOfLineComment,
            (prev_state, symbol_in_line) == scan_prefix(start, line@, i as int),
        decreases line@.len() - i,
    {
        let new_state = prev_state.after_next_char_in_line(line[i]);
        if new_state == ReadState::InEndOfLineComment {
            proof {
                lemma_comment_stops(start, line@, i + 1);
            }
            return (new_state, symbol_in_line);
        }
        let new_is_counted = match new_state {
            ReadState::OnIdentifiedSymbol => true,
            ReadState::InQuotation(_) => true,
            _ => false,
        };
        let prev_is_counted = prev_state == ReadState::OnSlash && new_state == ReadState::OnWhiteSpace;
        if new_is_counted || prev_is_counted {
            symbol_in_line = true;
        }
        prev_state = new_state;
        i += 1;
    }
    (prev_state, symbol_in_line)
}

/// Once a line comment starts, the rest of the line is not read.
proof fn lemma_comment_stops(start: ReadState, line: Seq<char>, n: int)
    requires
        0 < n <= line.len(),
        scan_prefix(start, line, n).0 == ReadState::InEndOfLineComment,
    ensures
        scan_prefix(start, line, line.len() as int) == scan_prefix(start, line, n),
    decreases line.len() - n,
{
    if n < line.len() {
        lemma_comment_stops(start, line, n + 1);
    }
}

/// The number of lines among `lines` that hold code, reading block comments
/// and literals across line ends.
pub fn count_code_in_lines(lines: &Vec<Vec<char>>) -> (r: usize)
    ensures
        r == scan_lines(lines@.map_values(|l: Vec<char>| l@), lines@.len() as int).1,
{
    let ghost ls = lines@.map_values(|l: Vec<char>| l@);
    let mut lines_with_symbol: usize = 0;
    let mut prev_state = ReadState::OnWhiteSpace;
    let mut k: usize = 0;
    while k < lines.len()
        invariant
            ls == lines@.map_values(|l: Vec<char>| l@),
            0 <= k <= lines@.len(),
            lines_with_symbol <= k,
            (prev_state, lines_with_symbol as nat) == scan_lines(ls, k as int),
        decreases lines@.len() - k,
    {
        if !prev_state.is_multi_line() {
            prev_state = ReadState::OnWhiteSpace;
        }
        let (end, symbol_in_line) = scan_line(prev_state, &lines[k]);
        prev_state = end;
        if symbol_in_line || prev_state == ReadState::OnSlash {
            lines_with_symbol += 1;
        }
        k += 1;
    }
    lines_with_symbol
}

/// The trimmed lines of a text, as `count_valid_code_lines` reads them.
pub open spec fn code_text_lines(literal: Seq<char>) -> Seq<Seq<char>> {
    lines_of(trimmed(literal)).map_values(|l: Seq<char>| trimmed(l))
}

/// The number of lines of `literal` that hold code, once the text and each
/// line are trimmed; a count beyond `u32::MAX` is given as `u32::MAX`.
pub fn count_valid_code_lines(literal: &str) -> (r: u32)
    ensures
        r as nat == if scan_lines(code_text_lines(literal@), code_text_lines(literal@).len() as int).1
            <= u32::MAX {
            scan_lines(code_text_lines(literal@), code_text_lines(literal@).len() as int).1
        } else {
            u32::MAX as nat
        },
{
    let text = trim(literal);
    let raw_lines = split_lines(text.as_str());
    let mut lines: Vec<Vec<char>> = Vec::new();
    let mut k: usize = 0;
    while k < raw_lines.len()
        invariant
            raw_lines@.map_values(|l: String| l@) == lines_of(trimmed(literal@)),
            0 <= k <= raw_lines@.len(),
            lines@.map_values(|l: Vec<char>| l@) == code_text_lines(literal@).subrange(0, k as int),
        decreases raw_lines@.len() - k,
    {
        let line = trim(raw_lines[k].as_str());
        let line_chars = chars_of(line.as_str());
        proof {
            assert(lines@.push(line_chars).map_values(|l: Vec<char>| l@) =~= lines@.map_values(
                |l: Vec<char>| l@,
            ).push(line_chars@));
            assert(raw_lines@.map_values(|l: String| l@)[k as int] == raw_lines@[k as int]@);
        }
        lines.push(line_chars);
        k += 1;
        assert(lines@.map_values(|l: Vec<char>| l@) =~= code_text_lines(literal@).subrange(0, k as int));
    }
    assert(code_text_lines(literal@).subrange(0, raw_lines@.len() as int) =~= code_text_lines(literal@));
    let count = count_code_in_lines(&lines);
    if count > u32::MAX as usize {
        u32::MAX
    } else {
        count as u32
    }
}

} // verus!
