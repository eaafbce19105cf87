use vstd::prelude::*;

use crate::error::SrtError;
use crate::text::{crlf, padded, decimal, push_char, push_decimal, push_padded, push_str};
use crate::timestamp::Timestamp;

verus! {

/// One subtitle cue: its position in the file, when it is shown and what it
/// says.
#[derive(Clone, Debug, PartialEq, Eq)]
pub struct SubLine {
    pub index: u32,
    pub start: Timestamp,
    pub end: Timestamp,
    pub text: String,
}

/// What a `SubLine` holds, with its text as characters.
pub struct Cue {
    pub index: int,
    pub start: Timestamp,
    pub end: Timestamp,
    pub text: Seq<char>,
}

impl View for SubLine {
    type V = Cue;

    open spec fn view(&self) -> Cue {
        Cue { index: self.index as int, start: self.start, end: self.end, text: self.text@ }
    }
}

impl Cue {
    /// Both times are normalized and the cue does not end before it starts.
    pub open spec fn wf(self) -> bool {
        &&& self.start.wf()
        &&& self.end.wf()
        &&& self.start.total() <= self.end.total()
    }

    /// `t` lies in `[start, end]`.
    pub open spec fn contains(self, t: int) -> bool {
        self.start.total() <= t <= self.end.total()
    }

    /// The cue as an SRT block: index, time range, text and a blank line.
    pub open spec fn srt(self) -> Seq<char> {
        decimal(self.index as nat) + crlf() + time_srt(self.start) + seq![' ', '-', '-', '>', ' ']
            + time_srt(self.end) + crlf() + self.text + crlf() + crlf()
    }
}

/// A time as SRT writes it: `HH:MM:SS,mmm`, each field zero-padded.
pub open spec fn time_srt(t: Timestamp) -> Seq<char> {
    padded(t.hours as nat, 2) + seq![':'] + padded(t.minutes as nat, 2) + seq![':'] + padded(
        t.seconds as nat,
        2,
    ) + seq![','] + padded(t.miliseconds as nat, 3)
}

/// Appends a time as SRT writes it.
pub fn push_time(out: &mut String, t: Timestamp)
    ensures
        final(out)@ == old(out)@ + time_srt(t),
{
    let ghost start = out@;
    push_padded(out, t.hours as u64, 2);
    push_char(out, ':');
    push_padded(out, t.minutes as u64, 2);
    push_char(out, ':');
    push_padded(out, t.seconds as u64, 2);
    push_char(out, ',');
    push_padded(out, t.miliseconds as u64, 3);
    assert(out@ == start + time_srt(t));
}

impl SubLine {
    /// Builds a cue; `start` must not come after `end`.
    pub fn new(index: u32, text: String, start: Timestamp, end: Timestamp) -> (r: SubLine)
        requires
            start.total() <= end.total(),
        ensures
            r@ == (Cue { index: index as int, start, end, text: text@ }),
    {
        SubLine { index, text, start, end }
    }

    /// How long the cue is shown: `end - start`.
    pub fn duration(&self) -> (r: Timestamp)
        requires
            self.start.total() <= self.end.total(),
            Timestamp::representable(self.end.total() - self.start.total()),
        ensures
            r == Timestamp::from_total(self.end.total() - self.start.total()),
            r.wf(),
    {
        Timestamp::from_milliseconds(self.end.total_miliseconds() - self.start.total_miliseconds())
    }

    /// Moves the cue by `offset` milliseconds, later when positive and
    /// earlier when negative. When that would take its start or its end
    /// below zero, fails with `NegativeDuration` and leaves the cue as it was.
    pub fn shift(&mut self, offset: i64) -> (r: Result<(), SrtError>)
        requires
            old(self).start.total() + offset >= 0 ==> Timestamp::representable(
                old(self).start.total() + offset,
            ),
            old(self).end.total() + offset >= 0 ==> Timestamp::representable(
                old(self).end.total() + offset,
            ),
        ensures
            old(self).start.total() + offset < 0 || old(self).end.total() + offset < 0 ==> r
                == Err::<(), SrtError>(SrtError::NegativeDuration) && *final(self) == *old(self),
            old(self).start.total() + offset >= 0 && old(self).end.total() + offset >= 0 ==> r
                is Ok && final(self)@ == (Cue {
                start: Timestamp::from_total(old(self).start.total() + offset),
                end: Timestamp::from_total(old(self).end.total() + offset),
                ..old(self)@
            }),
    {
        let start = self.start.total_miliseconds() as i128 + offset as i128;
        let end = self.end.total_miliseconds() as i128 + offset as i128;
        if start < 0 || end < 0 {
            return Err(SrtError::NegativeDuration);
        }
        self.start = Timestamp::from_milliseconds(start as u64);
        self.end = Timestamp::from_milliseconds(end as u64);
        Ok(())
    }

    /// The cue as an SRT block: index, time range, text and a blank line.
    pub fn to_string(&self) -> (r: String)
        ensures
            r@ == self@.srt(),
    {
        let mut out = String::new();
        self.write_srt(&mut out);
        out
    }

    /// Appends the cue as an SRT block.
    #[verifier::rlimit(40)]
    pub fn write_srt(&self, out: &mut String)
        ensures
            final(out)@ == old(out)@ + self@.srt(),
    {
        let ghost start = out@;
        push_decimal(out, self.index as u64);
        push_char(out, '\r');
        push_char(out, '\n');
        push_time(out, self.start);
        push_char(out, ' ');
        push_char(out, '-');
        push_char(out, '-');
        push_char(out, '>');
        push_char(out, ' ');
        push_time(out, self.end);
        push_char(out, '\r');
        push_char(out, '\n');
        push_str(out, self.text.as_str());
        push_char(out, '\r');
        push_char(out, '\n');
        push_char(out, '\r');
        push_char(out, '\n');
        assert(out@ == start + self@.srt());
    }
}

} // verus!
