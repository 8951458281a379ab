//! The template grammar as mathematics over the characters of the source.
use crate::stmt::StmtView;
use vstd::prelude::*;

verus! {

/// A statement located by character positions `[start, end)`.
pub struct Token {
    pub kind: StmtView,
    pub start: int,
    pub end: int,
}

/// `{{` stands at position `k`.
pub open spec fn opens_at(cs: Seq<char>, k: int) -> bool {
    0 <= k && k + 1 < cs.len() && cs[k] == '{' && cs[k + 1] == '{'
}

/// `}}` stands at position `k`.
pub open spec fn closes_at(cs: Seq<char>, k: int) -> bool {
    0 <= k && k + 1 < cs.len() && cs[k] == '}' && cs[k + 1] == '}'
}

/// The first position at or after `j` where `}}` stands, or `cs.len()` when there is none.
/// A lone `}` is body text, never a terminator.
pub open spec fn next_close(cs: Seq<char>, j: int) -> int
    decreases cs.len() - j,
{
    if j + 1 >= cs.len() {
        cs.len() as int
    } else if closes_at(cs, j) {
        j
    } else {
        next_close(cs, j + 1)
    }
}

/// A directive opens at `k`: `{{` stands there and a `}}` follows it.
/// An unterminated `{{` is content.
pub open spec fn directive_at(cs: Seq<char>, k: int) -> bool {
    opens_at(cs, k) && next_close(cs, k + 2) < cs.len()
}

/// The first position at or after `k` where a directive opens, or `cs.len()`.
pub open spec fn next_directive(cs: Seq<char>, k: int) -> int
    decreases cs.len() - k,
{
    if k >= cs.len() {
        cs.len() as int
    } else if directive_at(cs, k) {
        k
    } else {
        next_directive(cs, k + 1)
    }
}

/// A character that may continue an identifier.
pub open spec fn is_ident_char(c: char) -> bool {
    ('a' <= c && c <= 'z') || ('A' <= c && c <= 'Z') || ('0' <= c && c <= '9') || c == '_'
}

/// `body` starts with the keyword `kw`, and a keyword that ends in an identifier
/// character is not continued by another one (`ifx` does not start with `if`).
pub open spec fn keyword_at_start(body: Seq<char>, kw: Seq<char>) -> bool {
    &&& 0 < kw.len() <= body.len()
    &&& body.subrange(0, kw.len() as int) == kw
    &&& (body.len() == kw.len() || !is_ident_char(kw[kw.len() - 1]) || !is_ident_char(
        body[kw.len() as int],
    ))
}

/// `body` starts with the keyword `kw` followed by a non-empty expression.
pub open spec fn keyword_with_expr(body: Seq<char>, kw: Seq<char>) -> bool {
    keyword_at_start(body, kw) && body.len() > kw.len()
}

pub open spec fn kw_comment() -> Seq<char> {
    seq!['!']
}

pub open spec fn kw_each() -> Seq<char> {
    seq!['e', 'a', 'c', 'h']
}

pub open spec fn kw_each_end() -> Seq<char> {
    seq!['/', 'e', 'a', 'c', 'h']
}

pub open spec fn kw_else() -> Seq<char> {
    seq!['e', 'l', 's', 'e']
}

pub open spec fn kw_html() -> Seq<char> {
    seq!['h', 't', 'm', 'l']
}

pub open spec fn kw_if() -> Seq<char> {
    seq!['i', 'f']
}

pub open spec fn kw_if_end() -> Seq<char> {
    seq!['/', 'i', 'f']
}

pub open spec fn kw_print() -> Seq<char> {
    seq!['=']
}

pub open spec fn kw_tmpl() -> Seq<char> {
    seq!['t', 'm', 'p', 'l']
}

pub open spec fn kw_var() -> Seq<char> {
    seq!['v', 'a', 'r']
}

/// Classification of the body of a directive, tried in this order; a body that
/// no keyword matches is kept verbatim as `Unknown`.
pub open spec fn classify(body: Seq<char>) -> StmtView {
    if keyword_at_start(body, kw_comment()) {
        StmtView::Comment
    } else if keyword_with_expr(body, kw_each()) {
        StmtView::Each
    } else if keyword_at_start(body, kw_each_end()) {
        StmtView::EachEnd
    } else if keyword_at_start(body, kw_else()) {
        StmtView::Else
    } else if keyword_with_expr(body, kw_html()) {
        StmtView::Html
    } else if keyword_with_expr(body, kw_if()) {
        StmtView::If
    } else if keyword_at_start(body, kw_if_end()) {
        StmtView::IfEnd
    } else if keyword_with_expr(body, kw_print()) {
        StmtView::Print
    } else if keyword_with_expr(body, kw_tmpl()) {
        StmtView::Tmpl
    } else if keyword_with_expr(body, kw_var()) {
        StmtView::Var
    } else {
        StmtView::Unknown(body)
    }
}

/// Where the statement that begins at `i` ends: after the `}}` of a directive,
/// or, for content, at the next directive or the end of the source.
pub open spec fn token_end(cs: Seq<char>, i: int) -> int {
    if directive_at(cs, i) {
        next_close(cs, i + 2) + 2
    } else {
        next_directive(cs, i + 1)
    }
}

/// The kind of the statement that begins at `i`.
pub open spec fn token_kind(cs: Seq<char>, i: int) -> StmtView {
    if directive_at(cs, i) {
        classify(cs.subrange(i + 2, next_close(cs, i + 2)))
    } else {
        StmtView::Content
    }
}

/// The statements of `cs` from position `i` on.
pub open spec fn tokens_from(cs: Seq<char>, i: int) -> Seq<Token>
    decreases cs.len() - i,
    via tokens_from_decreases
{
    if 0 <= i < cs.len() {
        seq![Token { kind: token_kind(cs, i), start: i, end: token_end(cs, i) }] + tokens_from(
            cs,
            token_end(cs, i),
        )
    } else {
        seq![]
    }
}

#[via_fn]
proof fn tokens_from_decreases(cs: Seq<char>, i: int) {
    if 0 <= i < cs.len() {
        lemma_token_end(cs, i);
    }
}

/// The statements of the whole source.
pub open spec fn tokens_of(cs: Seq<char>) -> Seq<Token> {
    tokens_from(cs, 0)
}

pub proof fn lemma_next_close(cs: Seq<char>, j: int)
    requires
        0 <= j,
    ensures
        next_close(cs, j) == cs.len() || (j <= next_close(cs, j) && closes_at(
            cs,
            next_close(cs, j),
        )),
        next_close(cs, j) <= cs.len(),
    decreases cs.len() - j,
{
    if j + 1 < cs.len() && !closes_at(cs, j) {
        lemma_next_close(cs, j + 1);
    }
}

/// No `}}` is passed over: the first one at or after `j` comes no later than any.
pub proof fn lemma_next_close_first(cs: Seq<char>, j: int, c: int)
    requires
        0 <= j <= c,
        closes_at(cs, c),
    ensures
        next_close(cs, j) <= c,
    decreases c - j,
{
    if !closes_at(cs, j) {
        lemma_next_close_first(cs, j + 1, c);
    }
}

pub proof fn lemma_next_directive(cs: Seq<char>, k: int)
    requires
        0 <= k <= cs.len(),
    ensures
        k <= next_directive(cs, k) <= cs.len(),
    decreases cs.len() - k,
{
    if k < cs.len() && !directive_at(cs, k) {
        lemma_next_directive(cs, k + 1);
    }
}

pub proof fn lemma_token_end(cs: Seq<char>, i: int)
    requires
        0 <= i < cs.len(),
    ensures
        i < token_end(cs, i) <= cs.len(),
        directive_at(cs, i) ==> i + 4 <= token_end(cs, i) && i + 2 <= next_close(cs, i + 2),
{
    if directive_at(cs, i) {
        lemma_next_close(cs, i + 2);
    } else {
        lemma_next_directive(cs, i + 1);
    }
}

} // verus!
