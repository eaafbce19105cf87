use vstd::arithmetic::div_mod::lemma_fundamental_div_mod_converse;
use vstd::prelude::*;

use crate::grammar::{
    block_at,
    block_cue,
    blocks,
    first_block,
    header_at,
    lemma_blank_line_from,
    lemma_digits_end,
    lemma_first_block,
    lemma_value_of_prefix,
    parse_text,
    time_at,
    time_value,
    two_digits,
    Block,
};
use crate::normalize::normalize;
use crate::subline::{time_srt, Cue};
use crate::subtitles::{blocks_srt, file_srt};
use crate::text::{crlf, decimal, digit_char, digit_value, is_digit, padded, value_of};
use crate::timestamp::{lemma_total_determines, Timestamp};

verus! {

/// The block `b` is written the way rendering writes a cue: no leading zero
/// in its index, one space on each side of the arrow, and minutes and
/// seconds below 60.
pub open spec fn canonical_block(s: Seq<char>, b: Block) -> bool {
    let d = b.digits_end;
    &&& s[b.start] != '0'
    &&& s[d + 14] == ' '
    &&& s[d + 18] == ' '
    &&& s[d + 5] <= '5'
    &&& s[d + 8] <= '5'
    &&& s[d + 22] <= '5'
    &&& s[d + 25] <= '5'
}

/// From `pos` to its end, `s` is made of canonical blocks alone, each
/// starting where the previous one ends.
pub open spec fn canonical_from(s: Seq<char>, pos: int) -> bool
    decreases s.len() - pos,
{
    if pos >= s.len() {
        pos == s.len()
    } else {
        match first_block(s, pos) {
            Some(b) => {
                proof {
                    lemma_first_block(s, pos);
                }
                b.start == pos && canonical_block(s, b) && canonical_from(s, b.end())
            },
            None => false,
        }
    }
}

proof fn lemma_digit_char(c: char)
    requires
        is_digit(c),
    ensures
        digit_char(digit_value(c)) == c,
        0 <= digit_value(c) < 10,
        digit_value(c) == 0 <==> c == '0',
{
}

proof fn lemma_decimal_two(a: int, b: int)
    requires
        1 <= a < 10,
        0 <= b < 10,
    ensures
        decimal((10 * a + b) as nat) == seq![digit_char(a), digit_char(b)],
{
    let v = 10 * a + b;
    lemma_fundamental_div_mod_converse(v, 10, a, b);
    assert(decimal(a as nat) == seq![digit_char(a)]);
    assert(decimal(v as nat) == decimal(a as nat).push(digit_char(b)));
    assert(decimal(v as nat) =~= seq![digit_char(a), digit_char(b)]);
}

/// The decimal digits of a number without leading zeros are the number's
/// decimal form.
proof fn lemma_decimal_of_digits(t: Seq<char>)
    requires
        t.len() >= 1,
        forall|k: int| 0 <= k < t.len() ==> is_digit(#[trigger] t[k]),
        t[0] != '0',
    ensures
        decimal(value_of(t)) == t,
    decreases t.len(),
{
    let u = t.drop_last();
    let c = t.last();
    lemma_digit_char(c);
    if t.len() == 1 {
        assert(u.len() == 0);
        assert(value_of(t) == digit_value(c));
        assert(decimal(value_of(t)) =~= t);
    } else {
        lemma_decimal_of_digits(u);
        lemma_digit_char(u[0]);
        lemma_value_of_prefix(u, 1);
        assert(u.take(1).drop_last() =~= Seq::<char>::empty());
        assert(value_of(u) >= 1);
        let v = value_of(t);
        assert(v == value_of(u) * 10 + digit_value(c));
        lemma_fundamental_div_mod_converse(v as int, 10, value_of(u) as int, digit_value(c));
        assert(decimal(v) == decimal(value_of(u)).push(digit_char(digit_value(c))));
        assert(decimal(v) =~= t);
    }
}

/// Two digits written zero-padded to width two are the same two digits.
proof fn lemma_padded_two(s: Seq<char>, p: int)
    requires
        0 <= p,
        p + 2 <= s.len(),
        is_digit(s[p]),
        is_digit(s[p + 1]),
    ensures
        padded(two_digits(s, p) as nat, 2) == s.subrange(p, p + 2),
{
    let a = digit_value(s[p]);
    let b = digit_value(s[p + 1]);
    lemma_digit_char(s[p]);
    lemma_digit_char(s[p + 1]);
    if a == 0 {
        assert(decimal(b as nat) == seq![digit_char(b)]);
        assert(padded(two_digits(s, p) as nat, 2) =~= s.subrange(p, p + 2));
    } else {
        lemma_decimal_two(a, b);
        assert(padded(two_digits(s, p) as nat, 2) =~= s.subrange(p, p + 2));
    }
}

/// Three digits written zero-padded to width three are the same three
/// digits.
proof fn lemma_padded_three(s: Seq<char>, p: int)
    requires
        0 <= p,
        p + 3 <= s.len(),
        is_digit(s[p]),
        is_digit(s[p + 1]),
        is_digit(s[p + 2]),
    ensures
        padded((two_digits(s, p) * 10 + digit_value(s[p + 2])) as nat, 3) == s.subrange(p, p + 3),
{
    let a = digit_value(s[p]);
    let b = digit_value(s[p + 1]);
    let c = digit_value(s[p + 2]);
    let v = 100 * a + 10 * b + c;
    lemma_digit_char(s[p]);
    lemma_digit_char(s[p + 1]);
    lemma_digit_char(s[p + 2]);
    assert(two_digits(s, p) * 10 + c == v);
    if a == 0 && b == 0 {
        assert(decimal(v as nat) == seq![digit_char(c)]);
        assert(padded(v as nat, 3) =~= s.subrange(p, p + 3));
    } else if a == 0 {
        lemma_decimal_two(b, c);
        assert(padded(v as nat, 3) =~= s.subrange(p, p + 3));
    } else {
        lemma_decimal_two(a, b);
        lemma_fundamental_div_mod_converse(v, 10, 10 * a + b, c);
        assert(decimal(v as nat) == decimal((10 * a + b) as nat).push(digit_char(c)));
        assert(padded(v as nat, 3) =~= s.subrange(p, p + 3));
    }
}

/// A time whose minutes and seconds are below 60 renders as it is written.
#[verifier::rlimit(30)]
proof fn lemma_time_text(s: Seq<char>, p: int)
    requires
        time_at(s, p),
        s[p + 3] <= '5',
        s[p + 6] <= '5',
    ensures
        time_srt(time_value(s, p)) == s.subrange(p, p + 12),
{
    let h = two_digits(s, p);
    let m = two_digits(s, p + 3);
    let sec = two_digits(s, p + 6);
    let ms = two_digits(s, p + 9) * 10 + digit_value(s[p + 11]);
    lemma_digit_char(s[p]);
    lemma_digit_char(s[p + 1]);
    lemma_digit_char(s[p + 3]);
    lemma_digit_char(s[p + 4]);
    lemma_digit_char(s[p + 6]);
    lemma_digit_char(s[p + 7]);
    lemma_digit_char(s[p + 9]);
    lemma_digit_char(s[p + 10]);
    lemma_digit_char(s[p + 11]);
    let t = Timestamp {
        hours: h as u32,
        minutes: m as u32,
        seconds: sec as u32,
        miliseconds: ms as u32,
    };
    assert(t.wf());
    assert(t.total() == Timestamp::raw_total(h, m, sec, ms));
    lemma_total_determines(t);
    assert(time_value(s, p) == t);
    lemma_padded_two(s, p);
    lemma_padded_two(s, p + 3);
    lemma_padded_two(s, p + 6);
    lemma_padded_three(s, p + 9);
    assert(time_srt(t) =~= s.subrange(p, p + 12));
}

/// The index and time lines of a canonical block render as they are
/// written.
#[verifier::rlimit(30)]
proof fn lemma_header_text(s: Seq<char>, b: Block)
    requires
        0 <= b.start,
        block_at(s, b.start) == Some(b),
        canonical_block(s, b),
    ensures
        ({
            let c = block_cue(s, b);
            decimal(c.index as nat) + crlf() + time_srt(c.start) + seq![' ', '-', '-', '>', ' ']
                + time_srt(c.end) + crlf() == s.subrange(b.start, b.digits_end + 33)
        }),
{
    let d = b.digits_end;
    lemma_digits_end(s, b.start);
    assert(header_at(s, d));
    let digits = s.subrange(b.start, d);
    assert forall|k: int| 0 <= k < digits.len() implies is_digit(#[trigger] digits[k]) by {
        assert(digits[k] == s[b.start + k]);
    }
    lemma_decimal_of_digits(digits);
    lemma_time_text(s, d + 2);
    lemma_time_text(s, d + 19);
    assert(s.subrange(d, d + 2) =~= crlf());
    assert(s.subrange(d + 14, d + 19) =~= seq![' ', '-', '-', '>', ' ']);
    assert(s.subrange(d + 31, d + 33) =~= crlf());
    assert(s.subrange(b.start, d + 33) =~= digits + s.subrange(d, d + 2) + s.subrange(d + 2, d + 14)
        + s.subrange(d + 14, d + 19) + s.subrange(d + 19, d + 31) + s.subrange(d + 31, d + 33));
}

/// A canonical block renders as it is written.
#[verifier::rlimit(30)]
proof fn lemma_block_text(s: Seq<char>, b: Block)
    requires
        0 <= b.start,
        block_at(s, b.start) == Some(b),
        canonical_block(s, b),
    ensures
        block_cue(s, b).srt() == s.subrange(b.start, b.end()),
{
    let d = b.digits_end;
    let q = b.text_end;
    lemma_digits_end(s, b.start);
    lemma_blank_line_from(s, d + 33);
    lemma_header_text(s, b);
    assert(s.subrange(q, q + 4) =~= crlf() + crlf());
    assert(s.subrange(b.start, b.end()) =~= s.subrange(b.start, d + 33) + s.subrange(d + 33, q)
        + s.subrange(q, q + 4));
}

proof fn lemma_blocks_srt_cons(c: Cue, rest: Seq<Cue>)
    ensures
        blocks_srt(seq![c] + rest) == c.srt() + blocks_srt(rest),
    decreases rest.len(),
{
    if rest.len() == 0 {
        assert(seq![c] + rest =~= seq![c]);
        assert(seq![c].drop_last() =~= Seq::<Cue>::empty());
        assert(seq![c].last() == c);
        assert(blocks_srt(Seq::<Cue>::empty()) == Seq::<char>::empty());
        assert(blocks_srt(seq![c]) == blocks_srt(Seq::<Cue>::empty()) + c.srt());
        assert(blocks_srt(seq![c]) =~= c.srt());
    } else {
        lemma_blocks_srt_cons(c, rest.drop_last());
        assert((seq![c] + rest).drop_last() =~= seq![c] + rest.drop_last());
        assert(blocks_srt(seq![c] + rest) =~= c.srt() + blocks_srt(rest));
    }
}

/// Text made of canonical blocks alone renders back to itself.
#[verifier::rlimit(30)]
proof fn lemma_canonical_blocks(s: Seq<char>, pos: int)
    requires
        0 <= pos,
        canonical_from(s, pos),
    ensures
        blocks_srt(blocks(s, pos).map_values(|b: Block| block_cue(s, b))) == s.subrange(
            pos,
            s.len() as int,
        ),
    decreases s.len() - pos,
{
    lemma_first_block(s, pos);
    if pos >= s.len() {
        assert(first_block(s, pos) is None);
        assert(blocks(s, pos).map_values(|b: Block| block_cue(s, b)) =~= Seq::<Cue>::empty());
        assert(s.subrange(pos, s.len() as int) =~= Seq::<char>::empty());
    } else {
        let b = first_block(s, pos)->Some_0;
        lemma_canonical_blocks(s, b.end());
        lemma_block_text(s, b);
        let rest = blocks(s, b.end());
        assert(blocks(s, pos) == seq![b] + rest);
        assert(blocks(s, pos).map_values(|b: Block| block_cue(s, b)) =~= seq![block_cue(s, b)]
            + rest.map_values(|b: Block| block_cue(s, b)));
        lemma_blocks_srt_cons(block_cue(s, b), rest.map_values(|b: Block| block_cue(s, b)));
        assert(s.subrange(pos, s.len() as int) =~= s.subrange(pos, b.end()) + s.subrange(
            b.end(),
            s.len() as int,
        ));
    }
}

/// Round trip: when the canonical form of an accepted text is made of
/// canonical blocks alone, rendering what parsing gives yields that
/// canonical form again, followed by the one extra blank line that ends a
/// rendered file.
pub proof fn lemma_round_trip(content: Seq<char>)
    requires
        parse_text(content) is Ok,
        canonical_from(normalize(content), 0),
    ensures
        file_srt(parse_text(content)->Ok_0) == normalize(content) + crlf() + crlf(),
{
    let s = normalize(content);
    lemma_canonical_blocks(s, 0);
    assert(s.subrange(0, s.len() as int) =~= s);
}

} // verus!
