//! The directive recognizer: classifies the body between `{{` and `}}`.
use crate::grammar::{
    classify, is_ident_char, keyword_at_start, keyword_with_expr, kw_comment, kw_each,
    kw_each_end, kw_else, kw_html, kw_if, kw_if_end, kw_print, kw_tmpl, kw_var,
};
use crate::scanner::{byte_offset, byte_offsets, chars_of, substring};
use crate::stmt::Stmt;
use vstd::prelude::*;

verus! {

fn ident_char(c: char) -> (r: bool)
    ensures
        r == is_ident_char(c),
{
    ('a' <= c && c <= 'z') || ('A' <= c && c <= 'Z') || ('0' <= c && c <= '9') || c == '_'
}

/// Whether the body `cs[lo..hi]` starts with the keyword `kw`.
fn keyword_at(cs: &Vec<char>, lo: usize, hi: usize, kw: &Vec<char>) -> (r: bool)
    requires
        lo <= hi <= cs@.len(),
        kw@.len() > 0,
    ensures
        r == keyword_at_start(cs@.subrange(lo as int, hi as int), kw@),
{
    let ghost body = cs@.subrange(lo as int, hi as int);
    let n = kw.len();
    if hi - lo < n {
        return false;
    }
    let mut m: usize = 0;
    while m < n
        invariant
            n == kw@.len(),
            lo + n <= hi <= cs@.len(),
            body == cs@.subrange(lo as int, hi as int),
            m <= n,
            forall|q: int| 0 <= q < m ==> body[q] == kw@[q],
        decreases n - m,
    {
        if cs[lo + m] != kw[m] {
            assert(body.subrange(0, n as int)[m as int] != kw@[m as int]);
            return false;
        }
        m = m + 1;
    }
    assert(body.subrange(0, n as int) =~= kw@);
    hi - lo == n || !ident_char(kw[n - 1]) || !ident_char(cs[lo + n])
}

/// Whether the body `cs[lo..hi]` starts with `kw` followed by a non-empty expression.
fn keyword_then_expr(cs: &Vec<char>, lo: usize, hi: usize, kw: &Vec<char>) -> (r: bool)
    requires
        lo <= hi <= cs@.len(),
        kw@.len() > 0,
    ensures
        r == keyword_with_expr(cs@.subrange(lo as int, hi as int), kw@),
{
    keyword_at(cs, lo, hi, kw) && hi - lo > kw.len()
}

/// Classifies the directive body at character positions `[lo, hi)` of `text`,
/// whose characters are `cs` and whose byte offsets are `offs`.
pub fn recognize_range(text: &str, cs: &Vec<char>, offs: &Vec<usize>, lo: usize, hi: usize) -> (r:
    Stmt)
    requires
        cs@ == text@,
        offs@.len() == cs@.len() + 1,
        forall|i: int| 0 <= i <= cs@.len() ==> offs@[i] == byte_offset(cs@, i),
        lo <= hi <= cs@.len(),
    ensures
        r@ == classify(cs@.subrange(lo as int, hi as int)),
{
    let comment = vec!['!'];
    let each = vec!['e', 'a', 'c', 'h'];
    let each_end = vec!['/', 'e', 'a', 'c', 'h'];
    let else_ = vec!['e', 'l', 's', 'e'];
    let html = vec!['h', 't', 'm', 'l'];
    let if_ = vec!['i', 'f'];
    let if_end = vec!['/', 'i', 'f'];
    let print = vec!['='];
    let tmpl = vec!['t', 'm', 'p', 'l'];
    let var = vec!['v', 'a', 'r'];
    assert(comment@ =~= kw_comment() && each@ =~= kw_each() && each_end@ =~= kw_each_end());
    assert(else_@ =~= kw_else() && html@ =~= kw_html() && if_@ =~= kw_if());
    assert(if_end@ =~= kw_if_end() && print@ =~= kw_print() && tmpl@ =~= kw_tmpl());
    assert(var@ =~= kw_var());
    if keyword_at(cs, lo, hi, &comment) {
        Stmt::Comment
    } else if keyword_then_expr(cs, lo, hi, &each) {
        Stmt::Each
    } else if keyword_at(cs, lo, hi, &each_end) {
        Stmt::EachEnd
    } else if keyword_at(cs, lo, hi, &else_) {
        Stmt::Else
    } else if keyword_then_expr(cs, lo, hi, &html) {
        Stmt::Html
    } else if keyword_then_expr(cs, lo, hi, &if_) {
        Stmt::If
    } else if keyword_at(cs, lo, hi, &if_end) {
        Stmt::IfEnd
    } else if keyword_then_expr(cs, lo, hi, &print) {
        Stmt::Print
    } else if keyword_then_expr(cs, lo, hi, &tmpl) {
        Stmt::Tmpl
    } else if keyword_then_expr(cs, lo, hi, &var) {
        Stmt::Var
    } else {
        Stmt::Unknown(substring(text, cs, offs, lo, hi))
    }
}

/// Classifies the body of one directive, the text between `{{` and `}}`.
pub fn recognize(body: &str) -> (r: Stmt)
    ensures
        r@ == classify(body@),
{
    let cs = chars_of(body);
    let offs = byte_offsets(body, &cs);
    let r = recognize_range(body, &cs, &offs, 0, cs.len());
    assert(cs@.subrange(0, cs@.len() as int) =~= body@);
    r
}

} // verus!
