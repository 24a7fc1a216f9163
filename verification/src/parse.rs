//! Reading an edge list from text.
//!
//! The text is a sequence of lines. A line that begins with `#` is a comment.
//! Every other line holds exactly two fields, separated by one tab: the node
//! an edge starts at and the node it leads to. A node is written in decimal
//! digits, with an optional `+` before them.

use vstd::prelude::*;

verus! {

pub const TAB: u8 = 0x09;

pub const LINE_FEED: u8 = 0x0a;

pub const CARRIAGE_RETURN: u8 = 0x0d;

pub const HASH: u8 = 0x23;

pub const PLUS: u8 = 0x2b;

pub const DIGIT_ZERO: u8 = 0x30;

pub const DIGIT_NINE: u8 = 0x39;

/// Why a line holds no edge.
#[derive(Clone, Copy, Debug, PartialEq, Eq, Structural)]
pub enum LineError {
    /// The first field is no node identifier.
    InvalidFrom,
    /// The line has one field only.
    MissingTo,
    /// What follows the first tab is no node identifier.
    InvalidTo,
}

/// The first line of a text that holds no edge and is no comment.
#[derive(Clone, Copy, Debug, PartialEq, Eq, Structural)]
pub struct ParseError {
    /// The number of the line, counted from 1.
    pub line: usize,
    /// What is wrong with the line.
    pub kind: LineError,
}

/// The number of bytes of `s` before the first `b`; the length of `s` where
/// `b` does not occur.
pub open spec fn position_of(s: Seq<u8>, b: u8) -> nat
    decreases s.len(),
{
    if s.len() == 0 || s[0] == b {
        0
    } else {
        1 + position_of(s.skip(1), b)
    }
}

/// The position of the first `b` is the index before which `b` does not
/// occur and at which it does, or the sequence ends.
pub proof fn lemma_position_of(s: Seq<u8>, b: u8, i: int)
    requires
        0 <= i <= s.len(),
        forall|j: int| 0 <= j < i ==> s[j] != b,
        i < s.len() ==> s[i] == b,
    ensures
        position_of(s, b) == i,
    decreases i,
{
    if i > 0 {
        let rest = s.skip(1);
        assert forall|j: int| 0 <= j < i - 1 implies rest[j] != b by {
            assert(rest[j] == s[j + 1]);
        }
        lemma_position_of(rest, b, i - 1);
    }
}

/// The position of the first `b` is within the sequence, and `b` stands
/// there, unless `b` does not occur.
pub proof fn lemma_position_at_tab(s: Seq<u8>, b: u8)
    ensures
        position_of(s, b) <= s.len(),
        position_of(s, b) < s.len() ==> s[position_of(s, b) as int] == b,
    decreases s.len(),
{
    if s.len() > 0 && s[0] != b {
        lemma_position_at_tab(s.skip(1), b);
    }
}

/// Is `b` a decimal digit?
pub open spec fn is_digit(b: u8) -> bool {
    DIGIT_ZERO <= b <= DIGIT_NINE
}

/// The number that a decimal digit stands for.
pub open spec fn digit_value(b: u8) -> nat {
    if is_digit(b) {
        (b - DIGIT_ZERO) as nat
    } else {
        0
    }
}

/// The number that a sequence of decimal digits stands for.
pub open spec fn decimal_value(digits: Seq<u8>) -> nat
    decreases digits.len(),
{
    if digits.len() == 0 {
        0
    } else {
        10 * decimal_value(digits.drop_last()) + digit_value(digits.last())
    }
}

/// The digits of a field: the field without its sign, if it has one.
pub open spec fn digits_of(field: Seq<u8>) -> Seq<u8> {
    if field.len() > 0 && field[0] == PLUS {
        field.skip(1)
    } else {
        field
    }
}

/// The node that a field denotes: the field is an optional `+` and then one
/// or more decimal digits, and their value fits in 32 bits.
pub open spec fn parsed_node(field: Seq<u8>) -> Option<u32> {
    let digits = digits_of(field);
    if digits.len() > 0 && (forall|i: int| 0 <= i < digits.len() ==> is_digit(#[trigger] digits[i]))
        && decimal_value(digits) <= u32::MAX {
        Some(decimal_value(digits) as u32)
    } else {
        None
    }
}

/// The edge that a line denotes, or why it denotes none. The first field ends
/// at the first tab; all that follows the tab is the second field, so a line
/// with a further tab denotes no edge.
#[verifier::opaque]
pub open spec fn parsed_line(line: Seq<u8>) -> Result<(u32, u32), LineError> {
    let end_from: int = position_of(line, TAB) as int;
    match parsed_node(line.take(end_from)) {
        None => Err(LineError::InvalidFrom),
        Some(from) => if end_from == line.len() {
            Err(LineError::MissingTo)
        } else {
            match parsed_node(line.skip(end_from + 1)) {
                None => Err(LineError::InvalidTo),
                Some(to) => Ok((from, to)),
            }
        },
    }
}

/// Is the line two node identifiers with one tab between them, and nothing
/// else?
pub open spec fn is_edge_line(line: Seq<u8>) -> bool {
    exists|i: int|
        0 <= i < line.len() && line[i] == TAB && parsed_node(#[trigger] line.take(i)) is Some
            && parsed_node(line.skip(i + 1)) is Some
}

/// A line without the carriage return at its end, if it has one.
pub open spec fn strip_cr(line: Seq<u8>) -> Seq<u8> {
    if line.len() > 0 && line.last() == CARRIAGE_RETURN {
        line.drop_last()
    } else {
        line
    }
}

/// The lines of a text. A line ends with a line feed, or with a carriage
/// return and a line feed; neither belongs to the line. What follows the last
/// line feed is a line too, unless it is empty.
pub open spec fn lines_of(text: Seq<u8>) -> Seq<Seq<u8>>
    decreases text.len(),
{
    if text.len() == 0 {
        Seq::empty()
    } else {
        let end: int = position_of(text, LINE_FEED) as int;
        if end >= text.len() {
            seq![text]
        } else {
            seq![strip_cr(text.take(end))] + lines_of(text.skip(end + 1))
        }
    }
}

/// Is the line a comment?
pub open spec fn is_comment(line: Seq<u8>) -> bool {
    line.len() > 0 && line[0] == HASH
}

/// Is the line neither a comment nor an edge?
pub open spec fn is_bad_line(line: Seq<u8>) -> bool {
    !is_comment(line) && parsed_line(line) is Err
}

/// Is every line a comment or an edge?
pub open spec fn is_clean(lines: Seq<Seq<u8>>) -> bool {
    forall|i: int| 0 <= i < lines.len() ==> !is_bad_line(#[trigger] lines[i])
}

/// Does `error` name the first line that is neither a comment nor an edge,
/// and what is wrong with it?
pub open spec fn is_first_error(lines: Seq<Seq<u8>>, error: ParseError) -> bool {
    &&& 1 <= error.line <= lines.len()
    &&& is_clean(lines.take(error.line - 1))
    &&& !is_comment(lines[error.line - 1])
    &&& parsed_line(lines[error.line - 1]) == Err::<(u32, u32), LineError>(error.kind)
}

/// The test "this line is no comment".
pub open spec fn holds_edge() -> spec_fn(Seq<u8>) -> bool {
    |line: Seq<u8>| !is_comment(line)
}

/// The edge of a line that denotes one.
pub open spec fn edge_of() -> spec_fn(Seq<u8>) -> (u32, u32) {
    |line: Seq<u8>| parsed_line(line)->Ok_0
}

/// The edges of the lines that are no comments, in the order of the lines.
pub open spec fn edges_in(lines: Seq<Seq<u8>>) -> Seq<(u32, u32)> {
    lines.filter(holds_edge()).map_values(edge_of())
}

/// The value of a prefix of a digit sequence is at most the value of the
/// whole sequence.
pub proof fn lemma_decimal_value_prefix(digits: Seq<u8>, n: int)
    requires
        0 <= n <= digits.len(),
    ensures
        decimal_value(digits.take(n)) <= decimal_value(digits),
    decreases digits.len() - n,
{
    if n < digits.len() {
        assert(digits.drop_last().take(n) =~= digits.take(n));
        lemma_decimal_value_prefix(digits.drop_last(), n);
    } else {
        assert(digits.take(n) =~= digits);
    }
}

/// Finds the first `b` in `text` at or after `start`, or the end of `text`.
fn find_byte(text: &[u8], start: usize, b: u8) -> (end: usize)
    requires
        start <= text@.len(),
    ensures
        start <= end <= text@.len(),
        end - start == position_of(text@.skip(start as int), b),
{
    let mut end: usize = start;
    while end < text.len() && text[end] != b
        invariant
            start <= end <= text@.len(),
            forall|j: int| start <= j < end ==> text@[j] != b,
        decreases text@.len() - end,
    {
        end += 1;
    }
    proof {
        lemma_position_of(text@.skip(start as int), b, end - start);
    }
    end
}

/// Reads a node identifier: an optional `+`, then one or more decimal digits
/// whose value fits in 32 bits. Anything else is no node identifier.
pub fn parse_node(field: &[u8]) -> (node: Option<u32>)
    ensures
        node == parsed_node(field@),
{
    let start: usize = if field.len() > 0 && field[0] == PLUS {
        1
    } else {
        0
    };
    let ghost digits = digits_of(field@);
    assert(digits =~= field@.skip(start as int));
    if start == field.len() {
        return None;
    }
    let mut value: u32 = 0;
    let mut i: usize = start;
    assert(digits.take(0) =~= Seq::<u8>::empty());
    while i < field.len()
        invariant
            start <= i <= field@.len(),
            digits == field@.skip(start as int),
            digits == digits_of(field@),
            forall|j: int| 0 <= j < i - start ==> is_digit(#[trigger] digits[j]),
            value == decimal_value(digits.take(i - start)),
        decreases field@.len() - i,
    {
        let b: u8 = field[i];
        proof {
            assert(digits[i - start] == b);
            assert(digits.take(i - start + 1).drop_last() =~= digits.take(i - start));
            lemma_decimal_value_prefix(digits, i - start + 1);
        }
        if b < DIGIT_ZERO || b > DIGIT_NINE {
            return None;
        }
        let tens: u32 = match value.checked_mul(10) {
            Some(tens) => tens,
            None => {
                return None;
            },
        };
        value = match tens.checked_add((b - DIGIT_ZERO) as u32) {
            Some(sum) => sum,
            None => {
                return None;
            },
        };
        i += 1;
    }
    assert(digits.take(i - start) =~= digits);
    Some(value)
}

/// A node identifier holds no tab.
pub proof fn lemma_node_has_no_tab(field: Seq<u8>)
    requires
        parsed_node(field) is Some,
    ensures
        forall|j: int| 0 <= j < field.len() ==> field[j] != TAB,
{
    let digits = digits_of(field);
    assert forall|j: int| 0 <= j < field.len() implies field[j] != TAB by {
        if field[0] == PLUS {
            if j > 0 {
                assert(is_digit(digits[j - 1]));
            }
        } else {
            assert(is_digit(digits[j]));
        }
    }
}

/// A line denotes an edge exactly when it is two node identifiers with one
/// tab between them: a line with fewer or more fields denotes none.
pub proof fn lemma_edge_iff_two_fields(line: Seq<u8>)
    ensures
        parsed_line(line) is Ok <==> is_edge_line(line),
        parsed_line(line) is Ok ==> forall|i: int, j: int|
            0 <= i < line.len() && 0 <= j < line.len() && line[i] == TAB && line[j] == TAB ==> i
                == j,
{
    reveal(parsed_line);
    let end_from: int = position_of(line, TAB) as int;
    if parsed_line(line) is Ok {
        lemma_node_has_no_tab(line.take(end_from));
        lemma_node_has_no_tab(line.skip(end_from + 1));
        lemma_position_at_tab(line, TAB);
        assert(parsed_node(line.take(end_from)) is Some);
        assert forall|i: int| 0 <= i < line.len() && line[i] == TAB implies i == end_from by {
            if i < end_from {
                assert(line.take(end_from)[i] == line[i]);
            }
            if i > end_from {
                assert(line.skip(end_from + 1)[i - end_from - 1] == line[i]);
            }
        }
    }
    if is_edge_line(line) {
        let i = choose|i: int|
            0 <= i < line.len() && line[i] == TAB && parsed_node(#[trigger] line.take(i)) is Some
                && parsed_node(line.skip(i + 1)) is Some;
        lemma_node_has_no_tab(line.take(i));
        assert forall|j: int| 0 <= j < i implies line[j] != TAB by {
            assert(line.take(i)[j] == line[j]);
        }
        lemma_position_of(line, TAB, i);
    }
}

/// Reads the edge of a line: the node it starts at, one tab, and the node it
/// leads to. A line with one field has no second node; a line with a further
/// tab has none either, since a tab is no part of a node identifier.
pub fn parse_line(line: &[u8]) -> (edge: Result<(u32, u32), LineError>)
    ensures
        edge == parsed_line(line@),
{
    reveal(parsed_line);
    let end_from: usize = find_byte(line, 0, TAB);
    assert(line@.skip(0) =~= line@);
    let from: u32 = match parse_node(&line[0..end_from]) {
        Some(node) => node,
        None => {
            return Err(LineError::InvalidFrom);
        },
    };
    if end_from == line.len() {
        return Err(LineError::MissingTo);
    }
    let start_to: usize = end_from + 1;
    assert(line@.subrange(start_to as int, line@.len() as int) =~= line@.skip(start_to as int));
    match parse_node(&line[start_to..line.len()]) {
        Some(to) => Ok((from, to)),
        None => Err(LineError::InvalidTo),
    }
}

/// Adding a line at the end adds its edge at the end, unless the line is a
/// comment.
pub proof fn lemma_edges_in_push(lines: Seq<Seq<u8>>, line: Seq<u8>)
    ensures
        edges_in(lines.push(line)) == if is_comment(line) {
            edges_in(lines)
        } else {
            edges_in(lines).push(parsed_line(line)->Ok_0)
        },
{
    lines.lemma_filter_push(line, holds_edge());
    if !is_comment(line) {
        lines.filter(holds_edge()).lemma_push_map_commute(edge_of(), line);
    }
}

/// A text has at most one first faulty line: two errors that both name it
/// are equal.
pub proof fn lemma_first_error_unique(lines: Seq<Seq<u8>>, first: ParseError, second: ParseError)
    requires
        is_first_error(lines, first),
        is_first_error(lines, second),
    ensures
        first == second,
{
    if first.line < second.line {
        assert(lines.take(second.line - 1)[first.line - 1] == lines[first.line - 1]);
    }
    if second.line < first.line {
        assert(lines.take(first.line - 1)[second.line - 1] == lines[second.line - 1]);
    }
}

/// A text whose lines are all comments or edges has no faulty line.
pub proof fn lemma_clean_has_no_error(lines: Seq<Seq<u8>>, error: ParseError)
    requires
        is_clean(lines),
    ensures
        !is_first_error(lines, error),
{
    if 1 <= error.line <= lines.len() {
        assert(!is_bad_line(lines[error.line - 1]));
    }
}

/// A text is read without a fault exactly when each of its lines is a comment
/// or two node identifiers with one tab between them.
pub proof fn lemma_clean_iff_two_fields_each(lines: Seq<Seq<u8>>)
    ensures
        is_clean(lines) <==> forall|i: int|
            0 <= i < lines.len() ==> is_comment(#[trigger] lines[i]) || is_edge_line(lines[i]),
{
    assert forall|i: int| 0 <= i < lines.len() implies (!is_bad_line(#[trigger] lines[i]) <==> (
    is_comment(lines[i]) || is_edge_line(lines[i]))) by {
        lemma_edge_iff_two_fields(lines[i]);
    }
}

/// Reads the edges of a text, line by line.
///
/// Comments are skipped. Every other line must hold exactly two node
/// identifiers with one tab between them. The first line that is neither a
/// comment nor such an edge ends the reading: its number and its fault are
/// returned, and no edge.
pub fn parse_edges(text: &[u8]) -> (result: Result<Vec<(u32, u32)>, ParseError>)
    ensures
        match result {
            Ok(edges) => is_clean(lines_of(text@)) && edges@ == edges_in(lines_of(text@)),
            Err(error) => is_first_error(lines_of(text@), error),
        },
{
    let mut edges: Vec<(u32, u32)> = Vec::new();
    let mut pos: usize = 0;
    let mut line_no: usize = 0;
    let ghost mut done: Seq<Seq<u8>> = Seq::empty();
    proof {
        assert(text@.skip(0) =~= text@);
        assert(done + lines_of(text@) =~= lines_of(text@));
        assert(edges_in(done) =~= Seq::<(u32, u32)>::empty()) by {
            reveal(Seq::filter);
        }
    }
    while pos < text.len()
        invariant
            0 <= pos <= text@.len(),
            line_no == done.len(),
            line_no <= pos,
            lines_of(text@) == done + lines_of(text@.skip(pos as int)),
            is_clean(done),
            edges@ == edges_in(done),
        decreases text@.len() - pos,
    {
        let ghost rest = text@.skip(pos as int);
        let end: usize = find_byte(text, pos, LINE_FEED);
        let ended: bool = end < text.len();
        let stop: usize = if ended && end > pos && text[end - 1] == CARRIAGE_RETURN {
            end - 1
        } else {
            end
        };
        let next: usize = if ended {
            end + 1
        } else {
            end
        };
        let line = &text[pos..stop];
        proof {
            assert(rest.take(end - pos) =~= text@.subrange(pos as int, end as int));
            if ended {
                assert(rest.skip(end - pos + 1) =~= text@.skip(end + 1));
                assert(line@ =~= strip_cr(rest.take(end - pos)));
                assert(lines_of(rest) == seq![line@] + lines_of(text@.skip(next as int)));
            } else {
                assert(line@ =~= rest);
                assert(lines_of(text@.skip(next as int)) =~= Seq::<Seq<u8>>::empty());
                assert(lines_of(rest) =~= seq![line@] + lines_of(text@.skip(next as int)));
            }
            assert(lines_of(text@) =~= done.push(line@) + lines_of(text@.skip(next as int)));
            assert(lines_of(text@).take(line_no as int) =~= done);
            assert(lines_of(text@)[line_no as int] == line@);
            lemma_edges_in_push(done, line@);
        }
        line_no += 1;
        if !(stop > pos && text[pos] == HASH) {
            match parse_line(line) {
                Ok(edge) => {
                    edges.push(edge);
                },
                Err(kind) => {
                    return Err(ParseError { line: line_no, kind });
                },
            }
        }
        proof {
            done = done.push(line@);
        }
        pos = next;
    }
    proof {
        assert(lines_of(text@.skip(pos as int)) =~= Seq::<Seq<u8>>::empty());
        assert(lines_of(text@) =~= done);
    }
    Ok(edges)
}

} // verus!
