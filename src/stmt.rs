use std::ops::Range;
use vstd::prelude::*;

verus! {

/// One classified statement of a template.
#[derive(Clone, Debug, PartialEq)]
pub enum Stmt {
    Comment,
    Content,
    Each,
    EachEnd,
    Else,
    Html,
    If,
    IfEnd,
    Print,
    Tmpl,
    Unknown(String),
    Var,
}

/// Mathematical model of a statement: the raw body of `Unknown` as characters.
pub enum StmtView {
    Comment,
    Content,
    Each,
    EachEnd,
    Else,
    Html,
    If,
    IfEnd,
    Print,
    Tmpl,
    Unknown(Seq<char>),
    Var,
}

impl View for Stmt {
    type V = StmtView;

    open spec fn view(&self) -> StmtView {
        match self {
            Stmt::Comment => StmtView::Comment,
            Stmt::Content => StmtView::Content,
            Stmt::Each => StmtView::Each,
            Stmt::EachEnd => StmtView::EachEnd,
            Stmt::Else => StmtView::Else,
            Stmt::Html => StmtView::Html,
            Stmt::If => StmtView::If,
            Stmt::IfEnd => StmtView::IfEnd,
            Stmt::Print => StmtView::Print,
            Stmt::Tmpl => StmtView::Tmpl,
            Stmt::Unknown(body) => StmtView::Unknown(body@),
            Stmt::Var => StmtView::Var,
        }
    }
}

/// A value together with the half-open byte range of the source it came from.
#[derive(Debug, PartialEq)]
pub struct Spanned<T>(pub T, pub Range<usize>);

} // verus!
