use vstd::prelude::*;

use crate::text::{crlf, is_space, is_space_char, push_char, to_chars};

verus! {

/// Where the run of white space that ends `s` begins.
pub open spec fn trailing_space_start(s: Seq<char>) -> int
    decreases s.len(),
{
    if s.len() > 0 && is_space(s.last()) {
        trailing_space_start(s.drop_last())
    } else {
        s.len() as int
    }
}

/// `s` with each line ending (`\r\n`, a lone `\r` or a lone `\n`) written
/// as `\r\n`.
pub open spec fn unify_breaks(s: Seq<char>) -> Seq<char>
    decreases s.len(),
{
    if s.len() == 0 {
        Seq::empty()
    } else if s[0] == '\r' && s.len() >= 2 && s[1] == '\n' {
        crlf() + unify_breaks(s.skip(2))
    } else if s[0] == '\r' || s[0] == '\n' {
        crlf() + unify_breaks(s.skip(1))
    } else {
        seq![s[0]] + unify_breaks(s.skip(1))
    }
}

/// The canonical form of a text: the white space at its end replaced by one
/// blank line, and every line ending written as `\r\n`.
pub open spec fn normalize(s: Seq<char>) -> Seq<char> {
    unify_breaks(s.take(trailing_space_start(s))) + crlf() + crlf()
}

/// The canonical form of `content` (see `normalize`), as characters.
#[verifier::rlimit(30)]
pub fn normalized(content: &str) -> (r: Vec<char>)
    ensures
        r@ == normalize(content@),
{
    let s = to_chars(content);
    let ghost g = s@;
    let mut e: usize = s.len();
    assert(g.take(e as int) =~= g);
    while e > 0 && is_space_char(s[e - 1])
        invariant
            e <= g.len(),
            g == s@,
            trailing_space_start(g) == trailing_space_start(g.take(e as int)),
        decreases e,
    {
        assert(g.take(e as int).drop_last() =~= g.take(e - 1));
        e = e - 1;
    }
    assert(trailing_space_start(g.take(e as int)) == e);
    let ghost t = g.take(e as int);
    let mut out: Vec<char> = Vec::new();
    let mut i: usize = 0;
    assert(t.subrange(0, e as int) =~= t);
    assert(out@ + t =~= t);
    while i < e
        invariant
            e <= g.len(),
            g == s@,
            t == g.take(e as int),
            i <= e,
            out@ + unify_breaks(t.subrange(i as int, e as int)) == unify_breaks(t),
        decreases e - i,
    {
        let ghost r = t.subrange(i as int, e as int);
        let c = s[i];
        if c == '\r' && i + 1 < e && s[i + 1] == '\n' {
            assert(r.skip(2) =~= t.subrange(i + 2, e as int));
            out.push('\r');
            out.push('\n');
            i = i + 2;
        } else if c == '\r' || c == '\n' {
            assert(r.skip(1) =~= t.subrange(i + 1, e as int));
            out.push('\r');
            out.push('\n');
            i = i + 1;
        } else {
            assert(r.skip(1) =~= t.subrange(i + 1, e as int));
            out.push(c);
            i = i + 1;
        }
        assert(out@ + unify_breaks(t.subrange(i as int, e as int)) =~= unify_breaks(t));
    }
    assert(t.subrange(e as int, e as int) =~= Seq::<char>::empty());
    assert(out@ =~= unify_breaks(t));
    out.push('\r');
    out.push('\n');
    out.push('\r');
    out.push('\n');
    assert(out@ =~= normalize(g));
    out
}

/// The text made of the characters `chars`.
pub fn string_of(chars: &Vec<char>, from: usize, to: usize) -> (r: String)
    requires
        from <= to <= chars@.len(),
    ensures
        r@ == chars@.subrange(from as int, to as int),
{
    let mut out = String::new();
    let mut i: usize = from;
    while i < to
        invariant
            from <= i <= to <= chars@.len(),
            out@ == chars@.subrange(from as int, i as int),
        decreases to - i,
    {
        push_char(&mut out, chars[i]);
        assert(out@ =~= chars@.subrange(from as int, i + 1));
        i = i + 1;
    }
    out
}

/// Puts `content` in canonical form: whatever white space ends it becomes a
/// single blank line (`\r\n\r\n`), and every line ending becomes `\r\n`.
pub fn prepare(content: &str) -> (r: String)
    ensures
        r@ == normalize(content@),
{
    let chars = normalized(content);
    string_of(&chars, 0, chars.len())
}

} // verus!
