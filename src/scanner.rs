//! Character-level scanning: the source's characters and byte offsets, and the
//! searches for `}}` and for the next directive.
use crate::grammar::{closes_at, directive_at, lemma_next_close, lemma_next_close_first, next_close, next_directive};
use vstd::prelude::*;
use vstd::std_specs::iter::IteratorSpec;
use vstd::string::StringSliceAdditionalSpecFns;
use vstd::utf8::{
    char_is_scalar, encode_scalar, encode_utf8, encode_utf8_decode_utf8, encode_utf8_first_scalar,
    encode_utf8_valid_utf8, is_char_boundary, pop_first_scalar,
};

verus! {

/// The byte offset, in UTF-8, of character position `i` of `cs`.
pub open spec fn byte_offset(cs: Seq<char>, i: int) -> int {
    encode_utf8(cs.take(i)).len() as int
}

pub proof fn lemma_encode_concat(a: Seq<char>, b: Seq<char>)
    ensures
        encode_utf8(a + b) == encode_utf8(a) + encode_utf8(b),
    decreases a.len(),
{
    if a.len() == 0 {
        assert(a + b =~= b);
        assert(encode_utf8(a) + encode_utf8(b) =~= encode_utf8(b));
    } else {
        lemma_encode_concat(a.drop_first(), b);
        assert((a + b).drop_first() =~= a.drop_first() + b);
        assert(encode_utf8(a + b) =~= encode_scalar(a[0] as u32) + (encode_utf8(a.drop_first())
            + encode_utf8(b)));
    }
}

/// Each character takes one to four bytes, so byte offsets grow with positions.
pub proof fn lemma_byte_offset_step(cs: Seq<char>, i: int)
    requires
        0 <= i < cs.len(),
    ensures
        byte_offset(cs, i + 1) == byte_offset(cs, i) + encode_scalar(cs[i] as u32).len(),
        1 <= encode_scalar(cs[i] as u32).len() <= 4,
{
    assert(cs.take(i + 1) =~= cs.take(i) + seq![cs[i]]);
    lemma_encode_concat(cs.take(i), seq![cs[i]]);
    assert(seq![cs[i]].drop_first() =~= Seq::<char>::empty());
    assert(encode_utf8(seq![cs[i]]) =~= encode_scalar(cs[i] as u32) + encode_utf8(
        Seq::<char>::empty(),
    ));
}

pub proof fn lemma_byte_offset_le(cs: Seq<char>, i: int)
    requires
        0 <= i <= cs.len(),
    ensures
        byte_offset(cs, i) <= encode_utf8(cs).len(),
        byte_offset(cs, cs.len() as int) == encode_utf8(cs).len(),
{
    assert(cs =~= cs.take(i) + cs.skip(i));
    lemma_encode_concat(cs.take(i), cs.skip(i));
    assert(cs.take(cs.len() as int) =~= cs);
}

/// The number of bytes that `c` takes in UTF-8.
fn utf8_width(c: char) -> (w: usize)
    ensures
        w == encode_scalar(c as u32).len(),
{
    proof {
        char_is_scalar(c);
    }
    let v = c as u32;
    if v <= 0x7F {
        1
    } else if v <= 0x7FF {
        2
    } else if v <= 0xFFFF {
        3
    } else {
        4
    }
}

/// The characters of `text`, in order.
pub fn chars_of(text: &str) -> (r: Vec<char>)
    ensures
        r@ == text@,
{
    let mut it = text.chars();
    let mut r: Vec<char> = Vec::new();
    loop
        invariant
            r@ + it.remaining() == text@,
            it.decrease() is Some,
        ensures
            r@ == text@,
        decreases it.decrease()->0,
    {
        match it.next() {
            Some(c) => {
                r.push(c);
            },
            None => {
                assert(it.remaining().len() == 0);
                assert(r@ =~= text@);
                break ;
            },
        }
    }
    r
}

/// The byte offset of every character position of `cs`, the end included.
pub fn byte_offsets(text: &str, cs: &Vec<char>) -> (offs: Vec<usize>)
    requires
        cs@ == text@,
    ensures
        offs@.len() == cs@.len() + 1,
        forall|i: int| 0 <= i <= cs@.len() ==> offs@[i] == byte_offset(cs@, i),
{
    let total = text.as_bytes().len();
    let mut offs: Vec<usize> = Vec::new();
    let mut acc: usize = 0;
    let mut i: usize = 0;
    proof {
        assert(cs@.take(0) =~= Seq::<char>::empty());
    }
    while i < cs.len()
        invariant
            i <= cs@.len(),
            total == encode_utf8(cs@).len(),
            acc == byte_offset(cs@, i as int),
            offs@.len() == i,
            forall|k: int| 0 <= k < i ==> offs@[k] == byte_offset(cs@, k),
        decreases cs@.len() - i,
    {
        offs.push(acc);
        proof {
            lemma_byte_offset_step(cs@, i as int);
            lemma_byte_offset_le(cs@, i as int + 1);
        }
        acc = acc + utf8_width(cs[i]);
        i = i + 1;
    }
    offs.push(acc);
    offs
}

/// The last position where `}}` stands, if any.
pub fn last_close(cs: &Vec<char>) -> (r: Option<usize>)
    ensures
        r matches Some(c) ==> closes_at(cs@, c as int),
        forall|j: int| closes_at(cs@, j) ==> (r matches Some(c) && j <= c),
{
    let mut r: Option<usize> = None;
    let mut j: usize = 0;
    while j < cs.len() && j + 1 < cs.len()
        invariant
            r matches Some(c) ==> closes_at(cs@, c as int),
            forall|k: int| 0 <= k < j && closes_at(cs@, k) ==> (r matches Some(c) && k <= c),
        decreases cs@.len() - j,
    {
        if cs[j] == '}' && cs[j + 1] == '}' {
            r = Some(j);
        }
        j = j + 1;
    }
    r
}

/// The first position at or after `j` where `}}` stands, or the length of `cs`.
pub fn find_close(cs: &Vec<char>, j: usize) -> (r: usize)
    requires
        j <= cs@.len(),
    ensures
        r == next_close(cs@, j as int),
{
    let mut k: usize = j;
    while k < cs.len() && k + 1 < cs.len() && !(cs[k] == '}' && cs[k + 1] == '}')
        invariant
            j <= k <= cs@.len(),
            next_close(cs@, k as int) == next_close(cs@, j as int),
        decreases cs@.len() - k,
    {
        k = k + 1;
    }
    if k < cs.len() && k + 1 < cs.len() {
        k
    } else {
        cs.len()
    }
}

/// Whether a directive opens at `k`, given the last `}}` of `cs`.
pub fn opens_directive(cs: &Vec<char>, k: usize, last: Option<usize>) -> (r: bool)
    requires
        last matches Some(c) ==> closes_at(cs@, c as int),
        forall|j: int| closes_at(cs@, j) ==> (last matches Some(c) && j <= c),
    ensures
        r == directive_at(cs@, k as int),
{
    let opens = k < cs.len() && k + 1 < cs.len() && cs[k] == '{' && cs[k + 1] == '{';
    let r = match last {
        Some(c) => opens && k + 2 <= c,
        None => false,
    };
    proof {
        if opens {
            lemma_next_close(cs@, k + 2);
            if let Some(c) = last {
                if k + 2 <= c {
                    lemma_next_close_first(cs@, k + 2, c as int);
                }
            }
        }
    }
    r
}

/// The first position at or after `k` where a directive opens, or the length of `cs`.
pub fn find_directive(cs: &Vec<char>, k: usize, last: Option<usize>) -> (r: usize)
    requires
        k <= cs@.len(),
        last matches Some(c) ==> closes_at(cs@, c as int),
        forall|j: int| closes_at(cs@, j) ==> (last matches Some(c) && j <= c),
    ensures
        r == next_directive(cs@, k as int),
{
    let mut p: usize = k;
    while p < cs.len() && !opens_directive(cs, p, last)
        invariant
            k <= p <= cs@.len(),
            last matches Some(c) ==> closes_at(cs@, c as int),
            forall|j: int| closes_at(cs@, j) ==> (last matches Some(c) && j <= c),
            next_directive(cs@, p as int) == next_directive(cs@, k as int),
        decreases cs@.len() - p,
    {
        p = p + 1;
    }
    p
}

/// The byte offset of every character position is a character boundary of the encoding.
pub proof fn lemma_char_boundary(cs: Seq<char>, i: int)
    requires
        0 <= i <= cs.len(),
    ensures
        is_char_boundary(encode_utf8(cs), byte_offset(cs, i)),
    decreases i,
{
    broadcast use encode_utf8_valid_utf8;

    if i > 0 {
        let e = encode_utf8(cs);
        let rest = cs.drop_first();
        encode_utf8_first_scalar(cs);
        assert(pop_first_scalar(e) =~= encode_utf8(rest));
        lemma_char_boundary(rest, i - 1);
        assert(cs.take(i) =~= seq![cs[0]] + rest.take(i - 1));
        lemma_encode_concat(seq![cs[0]], rest.take(i - 1));
        assert(seq![cs[0]].drop_first() =~= Seq::<char>::empty());
        assert(encode_utf8(seq![cs[0]]) =~= encode_scalar(cs[0] as u32) + encode_utf8(
            Seq::<char>::empty(),
        ));
        lemma_byte_offset_le(cs, i);
    }
}

/// The bytes between two character positions encode the characters between them.
proof fn lemma_encode_subrange(cs: Seq<char>, lo: int, hi: int)
    requires
        0 <= lo <= hi <= cs.len(),
    ensures
        encode_utf8(cs).subrange(byte_offset(cs, lo), byte_offset(cs, hi)) == encode_utf8(
            cs.subrange(lo, hi),
        ),
{
    assert(cs =~= cs.take(lo) + (cs.subrange(lo, hi) + cs.skip(hi)));
    assert(cs.take(hi) =~= cs.take(lo) + cs.subrange(lo, hi));
    lemma_encode_concat(cs.take(lo), cs.subrange(lo, hi) + cs.skip(hi));
    lemma_encode_concat(cs.subrange(lo, hi), cs.skip(hi));
    lemma_encode_concat(cs.take(lo), cs.subrange(lo, hi));
    assert(encode_utf8(cs).subrange(byte_offset(cs, lo), byte_offset(cs, hi)) =~= encode_utf8(
        cs.subrange(lo, hi),
    ));
}

/// Characters `[lo, hi)` of `text`, whose characters are `cs` and whose byte
/// offsets are `offs`.
pub fn substring(text: &str, cs: &Vec<char>, offs: &Vec<usize>, lo: usize, hi: usize) -> (r:
    String)
    requires
        cs@ == text@,
        offs@.len() == cs@.len() + 1,
        forall|i: int| 0 <= i <= cs@.len() ==> offs@[i] == byte_offset(cs@, i),
        lo <= hi <= cs@.len(),
    ensures
        r@ == cs@.subrange(lo as int, hi as int),
{
    let ghost tail_cs = cs@.skip(lo as int);
    let ghost body_cs = cs@.subrange(lo as int, hi as int);
    let a = offs[lo];
    let b = offs[hi];
    proof {
        lemma_char_boundary(cs@, lo as int);
        lemma_byte_offset_le(cs@, hi as int);
        lemma_encode_subrange(cs@, lo as int, cs@.len() as int);
        assert(cs@.take(cs@.len() as int) =~= cs@);
        assert(cs@.subrange(lo as int, cs@.len() as int) =~= tail_cs);
    }
    let (_, tail) = text.split_at(a);
    proof {
        encode_utf8_decode_utf8(tail@);
        encode_utf8_decode_utf8(tail_cs);
        assert(tail@ == tail_cs);
        assert(cs@.take(hi as int) =~= cs@.take(lo as int) + tail_cs.take(hi - lo));
        lemma_encode_concat(cs@.take(lo as int), tail_cs.take(hi - lo));
        lemma_char_boundary(tail_cs, hi - lo);
        lemma_encode_subrange(tail_cs, 0, hi - lo);
        assert(tail_cs.take(0) =~= Seq::<char>::empty());
        assert(tail_cs.subrange(0, hi - lo) =~= body_cs);
    }
    let (body, _) = tail.split_at(b - a);
    proof {
        encode_utf8_decode_utf8(body@);
        encode_utf8_decode_utf8(body_cs);
    }
    body.to_owned()
}

} // verus!
