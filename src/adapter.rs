//! Decisions of the editor front end that depend on the text alone: which
//! typed braces a completion snippet replaces, and which statements are reported.
use crate::stmt::{Spanned, Stmt};
use std::ops::Range;
use vstd::prelude::*;

verus! {

/// Position `i` of `line` holds `c`.
pub open spec fn char_is(line: Seq<char>, i: int, c: char) -> bool {
    0 <= i < line.len() && line[i] == c
}

/// The length of the run of `{` that ends just before `cursor`, at most two.
pub open spec fn braces_before(line: Seq<char>, cursor: int) -> int {
    if !char_is(line, cursor - 1, '{') {
        0
    } else if !char_is(line, cursor - 2, '{') {
        1
    } else {
        2
    }
}

/// The length of the run of `}` that starts at `cursor`, at most two.
pub open spec fn braces_after(line: Seq<char>, cursor: int) -> int {
    if !char_is(line, cursor, '}') {
        0
    } else if !char_is(line, cursor + 1, '}') {
        1
    } else {
        2
    }
}

/// The columns `[start, end)` of `line` that a snippet completed at column
/// `cursor` replaces: the braces already typed right against the cursor, so
/// that the snippet's own braces do not double them. Nothing else is replaced.
pub fn snippet_edit_range(line: &Vec<char>, cursor: usize) -> (r: (usize, usize))
    requires
        cursor <= line@.len(),
    ensures
        r.0 == cursor - braces_before(line@, cursor as int),
        r.1 == cursor + braces_after(line@, cursor as int),
{
    let mut start = cursor;
    let mut end = cursor;
    if cursor > 0 && line[cursor - 1] == '{' {
        start = start - 1;
        if cursor > 1 && line[cursor - 2] == '{' {
            start = start - 1;
        }
    }
    if cursor < line.len() && line[cursor] == '}' {
        end = end + 1;
        if cursor + 1 < line.len() && line[cursor + 1] == '}' {
            end = end + 1;
        }
    }
    (start, end)
}

/// The spans of the `Unknown` statements among `s`, in order.
pub open spec fn unknown_spans(s: Seq<Spanned<Stmt>>) -> Seq<Range<usize>>
    decreases s.len(),
{
    if s.len() == 0 {
        seq![]
    } else {
        let rest = unknown_spans(s.drop_last());
        match s.last().0 {
            Stmt::Unknown(_) => rest.push(s.last().1),
            _ => rest,
        }
    }
}

/// The spans to report as errors: those of the statements that no keyword
/// classified.
pub fn error_spans(stmts: &Vec<Spanned<Stmt>>) -> (r: Vec<Range<usize>>)
    ensures
        r@ == unknown_spans(stmts@),
{
    let mut r: Vec<Range<usize>> = Vec::new();
    let mut i: usize = 0;
    while i < stmts.len()
        invariant
            i <= stmts@.len(),
            r@ == unknown_spans(stmts@.take(i as int)),
        decreases stmts@.len() - i,
    {
        assert(stmts@.take(i as int + 1).drop_last() =~= stmts@.take(i as int));
        if let Stmt::Unknown(_) = &stmts[i].0 {
            r.push(Range { start: stmts[i].1.start, end: stmts[i].1.end });
        }
        i = i + 1;
    }
    assert(stmts@.take(stmts@.len() as int) =~= stmts@);
    r
}

} // verus!
