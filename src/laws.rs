//! What holds of every parse: empty input, coverage of the source by the spans,
//! and the classification of a single directive.
use crate::grammar::{
    classify, closes_at, directive_at, kw_comment, kw_each, kw_each_end, kw_else, kw_html, kw_if,
    kw_if_end, kw_print, kw_tmpl, kw_var, lemma_token_end, next_close, token_end, tokens_from,
    tokens_of, Token,
};
use crate::parser::parsed_as;
use crate::scanner::{byte_offset, lemma_byte_offset_le, lemma_byte_offset_step};
use crate::stmt::{Spanned, Stmt, StmtView};
use vstd::prelude::*;
use vstd::string::StringSliceAdditionalSpecFns;
use vstd::utf8::encode_utf8;

verus! {

/// The spans `sp` follow one another without gap or overlap, each non-empty,
/// from position `a` to position `b`.
pub open spec fn chain(sp: Seq<(int, int)>, a: int, b: int) -> bool
    decreases sp.len(),
{
    if sp.len() == 0 {
        a == b
    } else {
        sp[0].0 == a && a < sp[0].1 && chain(sp.drop_first(), sp[0].1, b)
    }
}

/// The pieces of `s` that the spans `sp` denote, concatenated in order.
pub open spec fn pieces<A>(s: Seq<A>, sp: Seq<(int, int)>) -> Seq<A>
    decreases sp.len(),
{
    if sp.len() == 0 {
        seq![]
    } else {
        s.subrange(sp[0].0, sp[0].1) + pieces(s, sp.drop_first())
    }
}

/// The character spans of tokens.
pub open spec fn spans_of(ts: Seq<Token>) -> Seq<(int, int)> {
    ts.map_values(|t: Token| (t.start, t.end))
}

/// The byte spans of parsed statements.
pub open spec fn byte_spans(r: Seq<Spanned<Stmt>>) -> Seq<(int, int)> {
    r.map_values(|s: Spanned<Stmt>| (s.1.start as int, s.1.end as int))
}

pub proof fn lemma_chain_pieces<A>(s: Seq<A>, sp: Seq<(int, int)>, a: int, b: int)
    requires
        chain(sp, a, b),
        0 <= a,
        b <= s.len(),
    ensures
        a <= b,
        pieces(s, sp) == s.subrange(a, b),
    decreases sp.len(),
{
    if sp.len() == 0 {
        assert(pieces(s, sp) =~= s.subrange(a, b));
    } else {
        lemma_chain_le(sp.drop_first(), sp[0].1, b);
        lemma_chain_pieces(s, sp.drop_first(), sp[0].1, b);
        assert(s.subrange(a, sp[0].1) + s.subrange(sp[0].1, b) =~= s.subrange(a, b));
    }
}

pub proof fn lemma_chain_le(sp: Seq<(int, int)>, a: int, b: int)
    requires
        chain(sp, a, b),
    ensures
        a <= b,
    decreases sp.len(),
{
    if sp.len() > 0 {
        lemma_chain_le(sp.drop_first(), sp[0].1, b);
    }
}

proof fn lemma_tokens_chain(cs: Seq<char>, i: int)
    requires
        0 <= i <= cs.len(),
    ensures
        chain(spans_of(tokens_from(cs, i)), i, cs.len() as int),
    decreases cs.len() - i,
{
    if i < cs.len() {
        lemma_token_end(cs, i);
        let e = token_end(cs, i);
        lemma_tokens_chain(cs, e);
        assert(spans_of(tokens_from(cs, i)).drop_first() =~= spans_of(tokens_from(cs, e)));
    } else {
        assert(spans_of(tokens_from(cs, i)) =~= Seq::<(int, int)>::empty());
    }
}

/// The empty source has no statements.
pub proof fn law_empty_source(r: Seq<Spanned<Stmt>>)
    requires
        parsed_as(r, Seq::<char>::empty()),
    ensures
        r.len() == 0,
{
}

/// The statements' character spans follow one another from the start of the
/// source to its end, each non-empty, and their pieces put together give back
/// the source.
pub proof fn law_coverage(cs: Seq<char>)
    ensures
        chain(spans_of(tokens_of(cs)), 0, cs.len() as int),
        pieces(cs, spans_of(tokens_of(cs))) == cs,
{
    lemma_tokens_chain(cs, 0);
    lemma_chain_pieces(cs, spans_of(tokens_of(cs)), 0, cs.len() as int);
    assert(cs.subrange(0, cs.len() as int) =~= cs);
}

proof fn lemma_byte_offset_lt(cs: Seq<char>, i: int, j: int)
    requires
        0 <= i < j <= cs.len(),
    ensures
        byte_offset(cs, i) < byte_offset(cs, j),
    decreases j - i,
{
    lemma_byte_offset_step(cs, i);
    if i + 1 < j {
        lemma_byte_offset_lt(cs, i + 1, j);
    }
}

proof fn lemma_chain_bytes(cs: Seq<char>, sp: Seq<(int, int)>, a: int, b: int)
    requires
        chain(sp, a, b),
        0 <= a,
        b <= cs.len(),
    ensures
        chain(
            sp.map_values(|p: (int, int)| (byte_offset(cs, p.0), byte_offset(cs, p.1))),
            byte_offset(cs, a),
            byte_offset(cs, b),
        ),
    decreases sp.len(),
{
    let f = |p: (int, int)| (byte_offset(cs, p.0), byte_offset(cs, p.1));
    if sp.len() > 0 {
        lemma_chain_le(sp.drop_first(), sp[0].1, b);
        lemma_byte_offset_lt(cs, a, sp[0].1);
        lemma_chain_bytes(cs, sp.drop_first(), sp[0].1, b);
        assert(sp.map_values(f).drop_first() =~= sp.drop_first().map_values(f));
    }
}

/// The byte spans of a parse follow one another from offset 0 to the byte
/// length of the source, each non-empty, and the bytes they denote put
/// together give back the source's bytes.
pub proof fn law_byte_coverage(text: &str, r: Seq<Spanned<Stmt>>)
    requires
        parsed_as(r, text@),
    ensures
        chain(byte_spans(r), 0, text.spec_bytes().len() as int),
        pieces(text.spec_bytes(), byte_spans(r)) == text.spec_bytes(),
{
    let cs = text@;
    law_coverage(cs);
    lemma_chain_bytes(cs, spans_of(tokens_of(cs)), 0, cs.len() as int);
    let f = |p: (int, int)| (byte_offset(cs, p.0), byte_offset(cs, p.1));
    assert(byte_spans(r) =~= spans_of(tokens_of(cs)).map_values(f));
    assert(cs.take(0) =~= Seq::<char>::empty());
    lemma_byte_offset_le(cs, 0);
    let bytes = text.spec_bytes();
    lemma_chain_pieces(bytes, byte_spans(r), 0, bytes.len() as int);
    assert(bytes.subrange(0, bytes.len() as int) =~= bytes);
}

/// The keyword of each of the ten directive kinds that a keyword opens.
pub open spec fn keyword_of(k: StmtView) -> Option<Seq<char>> {
    match k {
        StmtView::Comment => Some(kw_comment()),
        StmtView::Each => Some(kw_each()),
        StmtView::EachEnd => Some(kw_each_end()),
        StmtView::Else => Some(kw_else()),
        StmtView::Html => Some(kw_html()),
        StmtView::If => Some(kw_if()),
        StmtView::IfEnd => Some(kw_if_end()),
        StmtView::Print => Some(kw_print()),
        StmtView::Tmpl => Some(kw_tmpl()),
        StmtView::Var => Some(kw_var()),
        _ => None,
    }
}

/// `b`, followed by the `}}` that ends its directive, holds no earlier `}}`.
pub open spec fn legal_body(b: Seq<char>) -> bool {
    forall|q: int| 0 <= q < b.len() ==> !closes_at(#[trigger] b.push('}'), q)
}

/// The directive `{{kw b}}`.
pub open spec fn directive_source(kw: Seq<char>, b: Seq<char>) -> Seq<char> {
    seq!['{', '{'] + kw + seq![' '] + b + seq!['}', '}']
}

proof fn lemma_next_close_at(cs: Seq<char>, j: int, c: int)
    requires
        0 <= j <= c,
        closes_at(cs, c),
        forall|m: int| j <= m < c ==> !closes_at(cs, m),
    ensures
        next_close(cs, j) == c,
    decreases c - j,
{
    if j < c {
        lemma_next_close_at(cs, j + 1, c);
    }
}

proof fn lemma_classify_keyword(k: StmtView, b: Seq<char>)
    requires
        keyword_of(k) is Some,
    ensures
        classify(keyword_of(k)->0 + seq![' '] + b) == k,
{
    let kw = keyword_of(k)->0;
    let body = kw + seq![' '] + b;
    assert(body.subrange(0, kw.len() as int) =~= kw);
    assert(body[kw.len() as int] == ' ');
    assert(forall|q: int| 0 <= q < kw.len() ==> body[q] == kw[q]);
    assert(body[0] == kw[0]);
    assert(kw.len() >= 2 ==> body[1] == kw[1]);
}

/// A single directive `{{kw b}}`, for each keyword `kw` and each body `b` that
/// holds no `}}` of its own, parses as exactly one statement of the keyword's
/// kind, spanning the whole source.
pub proof fn law_directive_classification(k: StmtView, b: Seq<char>, r: Seq<Spanned<Stmt>>)
    requires
        keyword_of(k) is Some,
        legal_body(b),
        parsed_as(r, directive_source(keyword_of(k)->0, b)),
    ensures
        tokens_of(directive_source(keyword_of(k)->0, b)) == seq![
            Token { kind: k, start: 0, end: directive_source(keyword_of(k)->0, b).len() as int },
        ],
        r.len() == 1,
        r[0].0@ == k,
        r[0].1.start == 0,
        r[0].1.end == encode_utf8(directive_source(keyword_of(k)->0, b)).len(),
{
    let kw = keyword_of(k)->0;
    let src = directive_source(kw, b);
    let n = src.len() as int;
    let w = kw.len() as int;
    assert(forall|q: int| 0 <= q < w ==> kw[q] != '}');
    assert(forall|q: int| 0 <= q < w ==> src[2 + q] == kw[q]);
    assert(src[2 + w] == ' ');
    assert forall|q: int| 0 <= q < b.len() implies src[3 + w + q] == b[q] && src[4 + w + q]
        == b.push('}')[q + 1] by {
        if q + 1 < b.len() {
            assert(src[4 + w + q] == b[q + 1]);
        }
    }
    assert forall|m: int| 2 <= m < n - 2 implies !closes_at(src, m) by {
        if m < 2 + w {
            assert(src[m] == kw[m - 2]);
        } else if m > 2 + w {
            let q = m - 3 - w;
            assert(!closes_at(b.push('}'), q));
        }
    }
    assert(closes_at(src, n - 2));
    lemma_next_close_at(src, 2, n - 2);
    assert(directive_at(src, 0));
    assert(src.subrange(2, n - 2) =~= kw + seq![' '] + b);
    lemma_classify_keyword(k, b);
    lemma_token_end(src, 0);
    assert(tokens_from(src, n) =~= Seq::<Token>::empty());
    assert(tokens_of(src) =~= seq![Token { kind: k, start: 0, end: n }]);
    assert(src.take(0) =~= Seq::<char>::empty());
    lemma_byte_offset_le(src, 0);
}

} // verus!
