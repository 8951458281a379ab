//! The statement stream driver: alternates directives and content over the whole source.
use crate::grammar::{
    closes_at, lemma_next_close, lemma_token_end, token_end, tokens_from, tokens_of, Token,
};
use crate::recognizer::recognize_range;
use crate::scanner::{
    byte_offset, byte_offsets, chars_of, find_close, find_directive, last_close, opens_directive,
};
use crate::stmt::{Spanned, Stmt};
use std::ops::Range;
use vstd::prelude::*;

verus! {

/// `s` is the token `t` of `cs`, with its character positions turned into byte offsets.
pub open spec fn spanned_token(s: Spanned<Stmt>, t: Token, cs: Seq<char>) -> bool {
    &&& s.0@ == t.kind
    &&& s.1.start == byte_offset(cs, t.start)
    &&& s.1.end == byte_offset(cs, t.end)
}

/// `r` is the statement list of the source `cs`.
pub open spec fn parsed_as(r: Seq<Spanned<Stmt>>, cs: Seq<char>) -> bool {
    &&& r.len() == tokens_of(cs).len()
    &&& forall|k: int| 0 <= k < r.len() ==> spanned_token(#[trigger] r[k], tokens_of(cs)[k], cs)
}

/// Splits `text` into its statements, in source order, each with its byte span.
/// Every text is accepted: what does not form a directive is content.
pub fn parse(text: &str) -> (r: Vec<Spanned<Stmt>>)
    ensures
        parsed_as(r@, text@),
{
    let cs = chars_of(text);
    let offs = byte_offsets(text, &cs);
    let last = last_close(&cs);
    let n = cs.len();
    let mut out: Vec<Spanned<Stmt>> = Vec::new();
    let ghost mut done: Seq<Token> = Seq::empty();
    let mut i: usize = 0;
    assert(tokens_of(cs@) =~= done + tokens_from(cs@, 0));
    while i < n
        invariant
            n == cs@.len(),
            cs@ == text@,
            i <= n,
            offs@.len() == n + 1,
            forall|p: int| 0 <= p <= n ==> offs@[p] == byte_offset(cs@, p),
            last matches Some(c) ==> closes_at(cs@, c as int),
            forall|j: int| closes_at(cs@, j) ==> (last matches Some(c) && j <= c),
            tokens_of(cs@) == done + tokens_from(cs@, i as int),
            out@.len() == done.len(),
            forall|k: int| 0 <= k < out@.len() ==> spanned_token(#[trigger] out@[k], done[k], cs@),
        decreases n - i,
    {
        proof {
            lemma_token_end(cs@, i as int);
        }
        let ghost t = tokens_from(cs@, i as int)[0];
        let ghost rest = tokens_from(cs@, token_end(cs@, i as int));
        assert(tokens_from(cs@, i as int) =~= seq![t] + rest);
        let e: usize;
        if opens_directive(&cs, i, last) {
            let j = find_close(&cs, i + 2);
            proof {
                lemma_next_close(cs@, i + 2);
            }
            let kind = recognize_range(text, &cs, &offs, i + 2, j);
            out.push(Spanned(kind, Range { start: offs[i], end: offs[j + 2] }));
            e = j + 2;
        } else {
            e = find_directive(&cs, i + 1, last);
            out.push(Spanned(Stmt::Content, Range { start: offs[i], end: offs[e] }));
        }
        proof {
            let old_done = done;
            done = done.push(t);
            assert(tokens_of(cs@) =~= done + tokens_from(cs@, e as int));
            assert forall|k: int| 0 <= k < out@.len() implies spanned_token(
                #[trigger] out@[k],
                done[k],
                cs@,
            ) by {
                if k < old_done.len() {
                    assert(done[k] == old_done[k]);
                }
            }
        }
        i = e;
    }
    assert(done =~= tokens_of(cs@));
    out
}

/// A template parser; `parse` on it is [`parse`].
pub struct TemplateParser;

/// The template parser.
pub fn parser() -> TemplateParser {
    TemplateParser
}

impl TemplateParser {
    /// Splits `text` into its statements, in source order, each with its byte span.
    pub fn parse(&self, text: &str) -> (r: Vec<Spanned<Stmt>>)
        ensures
            parsed_as(r@, text@),
    {
        parse(text)
    }
}

} // verus!
