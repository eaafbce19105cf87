use vstd::prelude::*;

use crate::error::SrtError;
use crate::normalize::{normalize, normalized, string_of};
use crate::subline::{Cue, SubLine};
use crate::subtitles::{valid_cues, Subtitles};
use crate::text::{digit_value, is_digit, is_space, is_space_char, to_chars, value_of};
use crate::timestamp::Timestamp;

verus! {

// An SRT block, over text in canonical form:
//
//     index-line       digits, then \r\n
//     time-range-line  HH:MM:SS,mmm <space>--><space> HH:MM:SS,mmm, then \r\n
//     text             any characters, up to the first blank line
//     terminator       the blank line, \r\n\r\n
//
// Blocks are found left to right, each search starting where the previous
// block ended; text between blocks is skipped.

/// Where a block was found in a text. Its index digits are
/// `[start, digits_end)`, its text `[digits_end + 33, text_end)`, and its
/// terminator `[text_end, text_end + 4)`.
pub struct Block {
    pub start: int,
    pub digits_end: int,
    pub text_end: int,
}

impl Block {
    pub open spec fn text_start(self) -> int {
        self.digits_end + 33
    }

    pub open spec fn end(self) -> int {
        self.text_end + 4
    }
}

/// The end of the run of digits that begins at `p`.
pub open spec fn digits_end(s: Seq<char>, p: int) -> int
    decreases s.len() - p,
{
    if 0 <= p < s.len() && is_digit(s[p]) {
        digits_end(s, p + 1)
    } else {
        p
    }
}

/// `HH:MM:SS,mmm` stands at `p`.
pub open spec fn time_at(s: Seq<char>, p: int) -> bool {
    &&& 0 <= p
    &&& p + 12 <= s.len()
    &&& is_digit(s[p])
    &&& is_digit(s[p + 1])
    &&& s[p + 2] == ':'
    &&& is_digit(s[p + 3])
    &&& is_digit(s[p + 4])
    &&& s[p + 5] == ':'
    &&& is_digit(s[p + 6])
    &&& is_digit(s[p + 7])
    &&& s[p + 8] == ','
    &&& is_digit(s[p + 9])
    &&& is_digit(s[p + 10])
    &&& is_digit(s[p + 11])
}

/// After index digits ending at `d` come a line break, a time range and
/// another line break.
pub open spec fn header_at(s: Seq<char>, d: int) -> bool {
    &&& 0 <= d
    &&& d + 33 <= s.len()
    &&& s[d] == '\r'
    &&& s[d + 1] == '\n'
    &&& time_at(s, d + 2)
    &&& is_space(s[d + 14])
    &&& s[d + 15] == '-'
    &&& s[d + 16] == '-'
    &&& s[d + 17] == '>'
    &&& is_space(s[d + 18])
    &&& time_at(s, d + 19)
    &&& s[d + 31] == '\r'
    &&& s[d + 32] == '\n'
}

/// A blank line, `\r\n\r\n`, stands at `q`.
pub open spec fn blank_line_at(s: Seq<char>, q: int) -> bool {
    &&& 0 <= q
    &&& q + 4 <= s.len()
    &&& s[q] == '\r'
    &&& s[q + 1] == '\n'
    &&& s[q + 2] == '\r'
    &&& s[q + 3] == '\n'
}

/// The first blank line at or after `q`.
pub open spec fn blank_line_from(s: Seq<char>, q: int) -> Option<int>
    decreases s.len() - q,
{
    if q < 0 || q + 4 > s.len() {
        None
    } else if blank_line_at(s, q) {
        Some(q)
    } else {
        blank_line_from(s, q + 1)
    }
}

/// The block that starts exactly at `p`, if one does.
pub open spec fn block_at(s: Seq<char>, p: int) -> Option<Block> {
    let d = digits_end(s, p);
    if 0 <= p && p < d && header_at(s, d) {
        match blank_line_from(s, d + 33) {
            Some(q) => Some(Block { start: p, digits_end: d, text_end: q }),
            None => None,
        }
    } else {
        None
    }
}

/// The first block that starts at or after `pos`.
pub open spec fn first_block(s: Seq<char>, pos: int) -> Option<Block>
    decreases s.len() - pos,
{
    if pos < 0 || pos >= s.len() {
        None
    } else if block_at(s, pos) is Some {
        block_at(s, pos)
    } else {
        first_block(s, pos + 1)
    }
}

pub proof fn lemma_digits_end(s: Seq<char>, p: int)
    requires
        0 <= p <= s.len(),
    ensures
        p <= digits_end(s, p) <= s.len(),
        forall|k: int| p <= k < digits_end(s, p) ==> is_digit(#[trigger] s[k]),
    decreases s.len() - p,
{
    if p < s.len() && is_digit(s[p]) {
        lemma_digits_end(s, p + 1);
    }
}

pub proof fn lemma_blank_line_from(s: Seq<char>, q: int)
    requires
        0 <= q,
    ensures
        blank_line_from(s, q) matches Some(r) ==> q <= r && blank_line_at(s, r) && forall|k: int|
            q <= k < r ==> !#[trigger] blank_line_at(s, k),
        blank_line_from(s, q) is None ==> forall|k: int|
            q <= k ==> !#[trigger] blank_line_at(s, k),
    decreases s.len() - q,
{
    if q < 0 || q + 4 > s.len() {
    } else if blank_line_at(s, q) {
    } else {
        lemma_blank_line_from(s, q + 1);
    }
}

pub proof fn lemma_first_block(s: Seq<char>, pos: int)
    ensures
        first_block(s, pos) matches Some(b) ==> {
            &&& pos <= b.start
            &&& block_at(s, b.start) == Some(b)
            &&& b.start < b.digits_end
            &&& b.digits_end + 33 <= b.text_end
            &&& b.text_end + 4 <= s.len()
        },
    decreases s.len() - pos,
{
    if pos < 0 || pos >= s.len() {
    } else if block_at(s, pos) is Some {
        lemma_blank_line_from(s, digits_end(s, pos) + 33);
    } else {
        lemma_first_block(s, pos + 1);
    }
}

/// The blocks found scanning from `pos`, in order.
pub open spec fn blocks(s: Seq<char>, pos: int) -> Seq<Block>
    decreases s.len() - pos,
{
    match first_block(s, pos) {
        Some(b) => {
            proof {
                lemma_first_block(s, pos);
            }
            seq![b] + blocks(s, b.end())
        },
        None => Seq::empty(),
    }
}

/// The value of the two digits at `p`.
pub open spec fn two_digits(s: Seq<char>, p: int) -> int {
    digit_value(s[p]) * 10 + digit_value(s[p + 1])
}

/// The time written at `p` as `HH:MM:SS,mmm`.
pub open spec fn time_value(s: Seq<char>, p: int) -> Timestamp {
    Timestamp::from_total(
        Timestamp::raw_total(
            two_digits(s, p),
            two_digits(s, p + 3),
            two_digits(s, p + 6),
            two_digits(s, p + 9) * 10 + digit_value(s[p + 11]),
        ),
    )
}

/// The cue that a block describes.
pub open spec fn block_cue(s: Seq<char>, b: Block) -> Cue {
    Cue {
        index: value_of(s.subrange(b.start, b.digits_end)) as int,
        start: time_value(s, b.digits_end + 2),
        end: time_value(s, b.digits_end + 19),
        text: s.subrange(b.text_start(), b.text_end),
    }
}

/// What parsing `content` gives: `NotSrtFormat` when its canonical form
/// holds no block; otherwise the cues of its blocks, in order, or
/// `IndexContiguityFault` when they do not form a valid sequence.
pub open spec fn parse_text(content: Seq<char>) -> Result<Seq<Cue>, SrtError> {
    let s = normalize(content);
    let found = blocks(s, 0);
    let cues = found.map_values(|b: Block| block_cue(s, b));
    if found.len() == 0 {
        Err(SrtError::NotSrtFormat)
    } else if valid_cues(cues) {
        Ok(cues)
    } else {
        Err(SrtError::IndexContiguityFault)
    }
}

/// Every block found from `pos` on starts where a block stands and lies
/// within the text.
pub proof fn lemma_blocks(s: Seq<char>, pos: int)
    ensures
        forall|k: int|
            0 <= k < blocks(s, pos).len() ==> {
                let b = #[trigger] blocks(s, pos)[k];
                &&& pos <= b.start
                &&& block_at(s, b.start) == Some(b)
                &&& b.start < b.digits_end
                &&& b.digits_end + 33 <= b.text_end
                &&& b.text_end + 4 <= s.len()
            },
    decreases s.len() - pos,
{
    lemma_first_block(s, pos);
    if let Some(b) = first_block(s, pos) {
        lemma_blocks(s, b.end());
        let rest = blocks(s, b.end());
        assert forall|k: int| 0 < k < blocks(s, pos).len() implies #[trigger] blocks(s, pos)[k]
            == rest[k - 1] by {}
    }
}

/// A longer run of digits never spells a smaller number.
pub proof fn lemma_value_of_prefix(t: Seq<char>, j: int)
    requires
        0 <= j <= t.len(),
        forall|k: int| 0 <= k < t.len() ==> is_digit(#[trigger] t[k]),
    ensures
        value_of(t.take(j)) <= value_of(t),
    decreases t.len(),
{
    if j < t.len() {
        let u = t.drop_last();
        assert(u.take(j) =~= t.take(j));
        lemma_value_of_prefix(u, j);
    } else {
        assert(t.take(j) =~= t);
    }
}

fn digit_val(c: char) -> (r: u32)
    requires
        is_digit(c),
    ensures
        r == digit_value(c),
        r < 10,
{
    (c as u32) - ('0' as u32)
}

/// The number spelled by the digits `s[from..to]`, or `None` when it does
/// not fit in a `u32`.
#[verifier::rlimit(30)]
fn index_value(s: &Vec<char>, from: usize, to: usize) -> (r: Option<u32>)
    requires
        from <= to <= s@.len(),
        forall|k: int| from <= k < to ==> is_digit(#[trigger] s@[k]),
    ensures
        r matches Some(v) ==> v == value_of(s@.subrange(from as int, to as int)),
        r is None ==> value_of(s@.subrange(from as int, to as int)) > u32::MAX,
{
    let ghost t = s@.subrange(from as int, to as int);
    let mut v: u64 = 0;
    let mut i: usize = from;
    assert(s@.subrange(from as int, from as int) =~= Seq::<char>::empty());
    while i < to
        invariant
            from <= i <= to <= s@.len(),
            t == s@.subrange(from as int, to as int),
            forall|k: int| from <= k < to ==> is_digit(#[trigger] s@[k]),
            v == value_of(s@.subrange(from as int, i as int)),
            v <= u32::MAX,
        decreases to - i,
    {
        let d = digit_val(s[i]);
        assert(s@.subrange(from as int, i + 1).drop_last() =~= s@.subrange(from as int, i as int));
        v = v * 10 + d as u64;
        i = i + 1;
        if v > u32::MAX as u64 {
            proof {
                assert forall|k: int| 0 <= k < t.len() implies is_digit(#[trigger] t[k]) by {
                    assert(t[k] == s@[from + k]);
                }
                assert(t.take(i - from) =~= s@.subrange(from as int, i as int));
                lemma_value_of_prefix(t, i - from);
            }
            return None;
        }
    }
    Some(v as u32)
}

/// The time written at `p` as `HH:MM:SS,mmm`.
fn time_exec(s: &Vec<char>, p: usize) -> (r: Timestamp)
    requires
        time_at(s@, p as int),
    ensures
        r == time_value(s@, p as int),
{
    assert(s@.len() == s.len());
    let h = digit_val(s[p]) * 10 + digit_val(s[p + 1]);
    let m = digit_val(s[p + 3]) * 10 + digit_val(s[p + 4]);
    let sec = digit_val(s[p + 6]) * 10 + digit_val(s[p + 7]);
    let ms = digit_val(s[p + 9]) * 100 + digit_val(s[p + 10]) * 10 + digit_val(s[p + 11]);
    proof {
        let raw = Timestamp::raw_total(h as int, m as int, sec as int, ms as int);
        assert(raw < 720000000);
        vstd::arithmetic::div_mod::lemma_div_is_ordered(raw, 720000000, 3600000);
    }
    Timestamp::new(h, m, sec, ms)
}

/// A cue whose index does not fit in a `u32` cannot be part of a valid
/// sequence.
proof fn lemma_index_too_large(cues: Seq<Cue>, i: int)
    requires
        0 <= i < cues.len(),
        cues[i].index > u32::MAX,
    ensures
        !valid_cues(cues),
{
    if cues.len() <= u32::MAX {
        assert(cues[i].index != i + 1);
    }
}

/// The cue of the block `f`, or `None` when its index does not fit in a
/// `u32`.
fn line_of(s: &Vec<char>, f: &Found) -> (r: Option<SubLine>)
    requires
        0 <= f.start,
        block_at(s@, f.start as int) == Some(f@),
        f.start < f.digits_end,
        f.digits_end + 33 <= f.text_end,
        f.text_end + 4 <= s@.len(),
    ensures
        r matches Some(l) ==> l@ == block_cue(s@, f@),
        r is None ==> block_cue(s@, f@).index > u32::MAX,
{
    proof {
        lemma_digits_end(s@, f.start as int);
    }
    let index = match index_value(s, f.start, f.digits_end) {
        Some(v) => v,
        None => {
            return None;
        },
    };
    let start = time_exec(s, f.digits_end + 2);
    let end = time_exec(s, f.digits_end + 19);
    let text = string_of(s, f.digits_end + 33, f.text_end);
    Some(SubLine { index, start, end, text })
}

impl Subtitles {
    /// Reads subtitles from the text of an SRT file: puts the text in
    /// canonical form (see `prepare`), fails with `NotSrtFormat` when it holds
    /// no block, and otherwise makes a cue of each block, skipping whatever
    /// stands between blocks. Fails with `IndexContiguityFault` when the
    /// cues are not numbered `1, 2, ...`, are not well formed, or are not
    /// sorted by start time.
    #[verifier::rlimit(30)]
    pub fn parse(content: &str) -> (r: Result<Subtitles, SrtError>)
        ensures
            match parse_text(content@) {
                Ok(cues) => r matches Ok(subs) && subs.cues() == cues,
                Err(e) => r == Err::<Subtitles, SrtError>(e),
            },
    {
        let s = normalized(content);
        let found = find_blocks(&s);
        let ghost bs = blocks(s@, 0);
        let ghost cues = bs.map_values(|b: Block| block_cue(s@, b));
        if found.len() == 0 {
            assert(bs.len() == 0);
            return Err(SrtError::NotSrtFormat);
        }
        proof {
            assert(found@.map_values(|f: Found| f@).len() == found@.len());
            assert(s@ == normalize(content@));
        }
        let mut lines: Vec<SubLine> = Vec::new();
        let mut i: usize = 0;
        while i < found.len()
            invariant
                found@.map_values(|f: Found| f@) == bs,
                bs == blocks(s@, 0),
                cues == bs.map_values(|b: Block| block_cue(s@, b)),
                i <= found@.len() == bs.len(),
                lines@.map_values(|l: SubLine| l@) == cues.take(i as int),
                valid_cues(cues) ==> parse_text(content@) == Ok::<Seq<Cue>, SrtError>(cues),
                !valid_cues(cues) ==> parse_text(content@) == Err::<Seq<Cue>, SrtError>(
                    SrtError::IndexContiguityFault,
                ),
            decreases found@.len() - i,
        {
            let ghost b = bs[i as int];
            proof {
                lemma_blocks(s@, 0);
                assert(found@[i as int]@ == b);
                assert(cues[i as int] == block_cue(s@, b));
            }
            let line = match line_of(&s, &found[i]) {
                Some(l) => l,
                None => {
                    proof {
                        lemma_index_too_large(cues, i as int);
                    }
                    return Err(SrtError::IndexContiguityFault);
                },
            };
            let ghost prev = lines@;
            lines.push(line);
            proof {
                assert(lines@.map_values(|l: SubLine| l@) =~= prev.map_values(|l: SubLine| l@).push(
                    cues[i as int],
                ));
                assert(cues.take(i + 1) =~= cues.take(i as int).push(cues[i as int]));
            }
            i = i + 1;
        }
        assert(cues.take(i as int) =~= cues);
        Subtitles::from_sequence(lines)
    }
}

/// A block found in a text, by positions (see `Block`).
pub struct Found {
    pub start: usize,
    pub digits_end: usize,
    pub text_end: usize,
}

impl View for Found {
    type V = Block;

    open spec fn view(&self) -> Block {
        Block {
            start: self.start as int,
            digits_end: self.digits_end as int,
            text_end: self.text_end as int,
        }
    }
}

fn is_digit_char(c: char) -> (r: bool)
    ensures
        r == is_digit(c),
{
    '0' <= c && c <= '9'
}

fn digits_end_exec(s: &Vec<char>, p: usize) -> (r: usize)
    requires
        p <= s@.len(),
    ensures
        r == digits_end(s@, p as int),
{
    let mut i = p;
    while i < s.len() && is_digit_char(s[i])
        invariant
            p <= i <= s@.len(),
            digits_end(s@, p as int) == digits_end(s@, i as int),
        decreases s@.len() - i,
    {
        i = i + 1;
    }
    i
}

fn time_ok(s: &Vec<char>, p: usize) -> (r: bool)
    requires
        p <= s@.len(),
    ensures
        r == time_at(s@, p as int),
{
    s.len() - p >= 12 && is_digit_char(s[p]) && is_digit_char(s[p + 1]) && s[p + 2] == ':'
        && is_digit_char(s[p + 3]) && is_digit_char(s[p + 4]) && s[p + 5] == ':' && is_digit_char(
        s[p + 6],
    ) && is_digit_char(s[p + 7]) && s[p + 8] == ',' && is_digit_char(s[p + 9]) && is_digit_char(
        s[p + 10],
    ) && is_digit_char(s[p + 11])
}

fn header_ok(s: &Vec<char>, d: usize) -> (r: bool)
    requires
        d <= s@.len(),
    ensures
        r == header_at(s@, d as int),
{
    s.len() - d >= 33 && s[d] == '\r' && s[d + 1] == '\n' && time_ok(s, d + 2) && is_space_char(
        s[d + 14],
    ) && s[d + 15] == '-' && s[d + 16] == '-' && s[d + 17] == '>' && is_space_char(s[d + 18])
        && time_ok(s, d + 19) && s[d + 31] == '\r' && s[d + 32] == '\n'
}

fn blank_line_exec(s: &Vec<char>, q: usize) -> (r: Option<usize>)
    requires
        q <= s@.len(),
    ensures
        r matches Some(x) ==> blank_line_from(s@, q as int) == Some(x as int),
        r is None ==> blank_line_from(s@, q as int) is None,
{
    let mut i = q;
    while s.len() - i >= 4
        invariant
            q <= i <= s@.len(),
            blank_line_from(s@, q as int) == blank_line_from(s@, i as int),
        decreases s@.len() - i,
    {
        if s[i] == '\r' && s[i + 1] == '\n' && s[i + 2] == '\r' && s[i + 3] == '\n' {
            return Some(i);
        }
        i = i + 1;
    }
    None
}

fn block_at_exec(s: &Vec<char>, p: usize) -> (r: Option<Found>)
    requires
        p <= s@.len(),
    ensures
        r matches Some(f) ==> block_at(s@, p as int) == Some(f@),
        r is None ==> block_at(s@, p as int) is None,
{
    let d = digits_end_exec(s, p);
    proof {
        lemma_digits_end(s@, p as int);
    }
    if p < d && header_ok(s, d) {
        assert(d + 33 <= s@.len() && s@.len() == s.len());
        match blank_line_exec(s, d + 33) {
            Some(q) => Some(Found { start: p, digits_end: d, text_end: q }),
            None => None,
        }
    } else {
        None
    }
}

fn first_block_exec(s: &Vec<char>, pos: usize) -> (r: Option<Found>)
    requires
        pos <= s@.len(),
    ensures
        r matches Some(f) ==> first_block(s@, pos as int) == Some(f@),
        r is None ==> first_block(s@, pos as int) is None,
{
    let mut p = pos;
    while p < s.len()
        invariant
            pos <= p <= s@.len(),
            first_block(s@, pos as int) == first_block(s@, p as int),
        decreases s@.len() - p,
    {
        let b = block_at_exec(s, p);
        if b.is_some() {
            return b;
        }
        p = p + 1;
    }
    None
}

/// The blocks of `s`, in order.
pub fn find_blocks(s: &Vec<char>) -> (r: Vec<Found>)
    ensures
        r@.map_values(|f: Found| f@) == blocks(s@, 0),
{
    let mut found: Vec<Found> = Vec::new();
    let mut pos: usize = 0;
    loop
        invariant
            pos <= s@.len(),
            found@.map_values(|f: Found| f@) + blocks(s@, pos as int) == blocks(s@, 0),
        decreases s@.len() - pos,
    {
        proof {
            lemma_first_block(s@, pos as int);
        }
        match first_block_exec(s, pos) {
            Some(f) => {
                let ghost prev = found@;
                assert(f.text_end + 4 <= s@.len() && s@.len() == s.len());
                pos = f.text_end + 4;
                found.push(f);
                assert(found@.map_values(|f: Found| f@) =~= prev.map_values(|f: Found| f@).push(
                    f@,
                ));
                assert(found@.map_values(|f: Found| f@) + blocks(s@, pos as int) =~= blocks(s@, 0));
            },
            None => {
                assert(found@.map_values(|f: Found| f@) =~= blocks(s@, 0));
                return found;
            },
        }
    }
}

/// Whether `content` holds at least one block.
pub fn check(content: &str) -> (r: bool)
    ensures
        r == (first_block(content@, 0) is Some),
{
    let s = to_chars(content);
    first_block_exec(&s, 0).is_some()
}

/// The number of blocks in `content`.
pub fn count_blocks(content: &str) -> (r: usize)
    ensures
        r == blocks(content@, 0).len(),
{
    let s = to_chars(content);
    let found = find_blocks(&s);
    found.len()
}

} // verus!
