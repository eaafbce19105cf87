use vstd::prelude::*;

use crate::error::SrtError;
use crate::subline::{Cue, SubLine};
use crate::text::{crlf, push_char};
use crate::timestamp::{lemma_from_total, Timestamp};

verus! {

/// The cues are numbered `1, 2, ...` in order, each is well formed, and
/// their start times never decrease.
pub open spec fn valid_cues(cues: Seq<Cue>) -> bool {
    &&& cues.len() <= u32::MAX
    &&& forall|i: int| 0 <= i < cues.len() ==> #[trigger] cues[i].index == i + 1
    &&& forall|i: int| 0 <= i < cues.len() ==> #[trigger] cues[i].wf()
    &&& starts_sorted(cues)
}

/// The start times never decrease.
pub open spec fn starts_sorted(cues: Seq<Cue>) -> bool {
    forall|i: int, j: int|
        0 <= i <= j < cues.len() ==> #[trigger] cues[i].start.total()
            <= #[trigger] cues[j].start.total()
}

/// No cue ends before it starts, and no cue starts before an earlier one
/// ends (a cue may start at the very time the previous one ends).
pub open spec fn ranges_ordered(cues: Seq<Cue>) -> bool {
    &&& forall|i: int| 0 <= i < cues.len() ==> #[trigger] cues[i].start.total() <= cues[i].end.total()
    &&& forall|i: int, j: int|
        0 <= i < j < cues.len() ==> #[trigger] cues[i].end.total() <= #[trigger] cues[j].start.total()
}

/// Cue `i` is the one on screen at time `t` when each cue stays up until the
/// next one starts, and the last one until its own end.
pub open spec fn shows(cues: Seq<Cue>, i: int, t: int) -> bool {
    &&& 0 <= i < cues.len()
    &&& cues[i].start.total() <= t
    &&& i + 1 < cues.len() ==> t < cues[i + 1].start.total()
    &&& i + 1 == cues.len() ==> t <= cues[i].end.total()
}

/// `c` put at position `c.index - 1`, and every cue from there on moved one
/// place up with its index raised by one.
pub open spec fn inserted(cues: Seq<Cue>, c: Cue) -> Seq<Cue> {
    cues.take(c.index - 1) + seq![c] + cues.skip(c.index - 1).map_values(
        |d: Cue| Cue { index: d.index + 1, ..d },
    )
}

/// Each cue moved by `offset` milliseconds.
pub open spec fn shifted(cues: Seq<Cue>, offset: int) -> Seq<Cue> {
    cues.map_values(
        |d: Cue|
            Cue {
                start: Timestamp::from_total(d.start.total() + offset),
                end: Timestamp::from_total(d.end.total() + offset),
                ..d
            },
    )
}

/// Moving some cue by `offset` would take its start or its end below zero.
pub open spec fn shift_underflows(cues: Seq<Cue>, offset: int) -> bool {
    exists|i: int|
        0 <= i < cues.len() && (#[trigger] cues[i].start.total() + offset < 0 || cues[i].end.total()
            + offset < 0)
}

/// Every time moved by `offset` that stays at or above zero still has hours
/// that fit a `u32`.
pub open spec fn shift_representable(cues: Seq<Cue>, offset: int) -> bool {
    forall|i: int|
        0 <= i < cues.len() ==> {
            &&& #[trigger] cues[i].start.total() + offset >= 0 ==> Timestamp::representable(
                cues[i].start.total() + offset,
            )
            &&& cues[i].end.total() + offset >= 0 ==> Timestamp::representable(
                cues[i].end.total() + offset,
            )
        }
}

/// The cues as SRT blocks, one after the other.
pub open spec fn blocks_srt(cues: Seq<Cue>) -> Seq<char>
    decreases cues.len(),
{
    if cues.len() == 0 {
        Seq::empty()
    } else {
        blocks_srt(cues.drop_last()) + cues.last().srt()
    }
}

/// A whole SRT file: the blocks, then one more blank line.
pub open spec fn file_srt(cues: Seq<Cue>) -> Seq<char> {
    blocks_srt(cues) + crlf() + crlf()
}

/// An ordered sequence of cues.
///
/// A well-formed value (see `valid_cues`) numbers its cues `1, 2, ...` and
/// keeps them sorted by start time. Construction, `push` and `insert` check
/// this and refuse what would break it; an edit made through a `&mut SubLine`
/// handed out by one of the `_mut` queries is the caller's to keep consistent.
#[derive(Clone, Debug, PartialEq, Eq)]
pub struct Subtitles {
    inner: Vec<SubLine>,
}

impl View for Subtitles {
    type V = Seq<SubLine>;

    closed spec fn view(&self) -> Seq<SubLine> {
        self.inner@
    }
}

/// The last cue that starts at or before `t`, among the first `k`.
proof fn last_started(cues: Seq<Cue>, t: int, k: int) -> (i: int)
    requires
        0 < k <= cues.len(),
        cues[0].start.total() <= t,
    ensures
        0 <= i < k,
        cues[i].start.total() <= t,
        forall|j: int| i < j < k ==> t < (#[trigger] cues[j]).start.total(),
    decreases k,
{
    if cues[k - 1].start.total() <= t || k == 1 {
        k - 1
    } else {
        last_started(cues, t, k - 1)
    }
}

/// Time queries on a valid sequence whose cues are separated by gaps: at
/// most one cue holds any time, so `by_time` finds that cue or, in a gap,
/// none; a cue is on screen (`shows`, what `nearest_by_time` finds) exactly
/// from the first start to the last end; the cue holding a time is the one
/// on screen; and in a gap the cue before it stays on screen.
#[verifier::rlimit(30)]
pub proof fn lemma_time_queries(cues: Seq<Cue>, t: int)
    requires
        valid_cues(cues),
        forall|i: int, j: int|
            0 <= i < j < cues.len() ==> #[trigger] cues[i].end.total()
                < #[trigger] cues[j].start.total(),
    ensures
        ranges_ordered(cues),
        forall|i: int, j: int|
            0 <= i < cues.len() && 0 <= j < cues.len() && (#[trigger] cues[i]).contains(t) && (
            #[trigger] cues[j]).contains(t) ==> i == j,
        forall|i: int|
            0 <= i < cues.len() && (#[trigger] cues[i]).contains(t) ==> shows(cues, i, t),
        (exists|i: int| shows(cues, i, t)) <==> (cues.len() > 0 && cues[0].start.total() <= t
            <= cues[cues.len() - 1].end.total()),
        forall|i: int|
            0 <= i < cues.len() - 1 && (#[trigger] cues[i]).end.total() < t < cues[i
                + 1].start.total() ==> shows(cues, i, t),
{
    let n = cues.len();
    assert forall|i: int| 0 <= i < n implies #[trigger] cues[i].start.total()
        <= cues[i].end.total() by {
        assert(cues[i].wf());
    }
    assert forall|i: int| 0 <= i < n && (#[trigger] cues[i]).contains(t) implies shows(
        cues,
        i,
        t,
    ) by {
        if i + 1 < n {
            assert(cues[i].end.total() < cues[i + 1].start.total());
        }
    }
    if exists|i: int| shows(cues, i, t) {
        let i = choose|i: int| shows(cues, i, t);
        assert(cues[0].start.total() <= cues[i].start.total());
        if i + 1 < n {
            assert(cues[i + 1].start.total() <= cues[n - 1].start.total());
            assert(cues[n - 1].wf());
        }
    }
    if n > 0 && cues[0].start.total() <= t <= cues[n - 1].end.total() {
        let i = last_started(cues, t, n as int);
        assert(shows(cues, i, t));
    }
}

/// `c` can follow `cues`: it is numbered next, is well formed, and does not
/// start before the last cue.
pub open spec fn appendable(cues: Seq<Cue>, c: Cue) -> bool {
    &&& c.index == cues.len() + 1
    &&& c.wf()
    &&& cues.len() > 0 ==> cues.last().start.total() <= c.start.total()
}

/// `c` fits at position `c.index - 1` of the valid `cues`: it is well
/// formed, starts neither before the cue in front of it nor after the cue it
/// pushes back, and the longer sequence can still be numbered.
pub open spec fn insertable(cues: Seq<Cue>, c: Cue) -> bool {
    &&& 1 <= c.index <= cues.len() + 1
    &&& valid_cues(cues)
    &&& c.wf()
    &&& cues.len() + 1 <= u32::MAX
    &&& c.index >= 2 ==> cues[c.index - 2].start.total() <= c.start.total()
    &&& c.index <= cues.len() ==> c.start.total() <= cues[c.index - 1].start.total()
}

/// Where each cue of `inserted(cues, c)` comes from.
proof fn lemma_inserted_at(cues: Seq<Cue>, c: Cue)
    requires
        1 <= c.index <= cues.len() + 1,
    ensures
        inserted(cues, c).len() == cues.len() + 1,
        inserted(cues, c)[c.index - 1] == c,
        forall|i: int| 0 <= i < c.index - 1 ==> #[trigger] inserted(cues, c)[i] == cues[i],
        forall|i: int|
            c.index <= i <= cues.len() ==> #[trigger] inserted(cues, c)[i] == (Cue {
                index: cues[i - 1].index + 1,
                ..cues[i - 1]
            }),
{
}

/// Inserting keeps a sequence valid exactly when the cue fits where it goes.
#[verifier::rlimit(30)]
proof fn lemma_inserted_valid(cues: Seq<Cue>, c: Cue)
    requires
        1 <= c.index <= cues.len() + 1,
    ensures
        valid_cues(inserted(cues, c)) <==> insertable(cues, c),
{
    let q = inserted(cues, c);
    let k = c.index;
    let n = cues.len();
    lemma_inserted_at(cues, c);
    if insertable(cues, c) {
        assert forall|i: int| 0 <= i < q.len() implies #[trigger] q[i].index == i + 1 by {
            if i >= k {
                assert(cues[i - 1].index == i);
            }
        }
        assert forall|i: int| 0 <= i < q.len() implies #[trigger] q[i].wf() by {
            if i >= k {
                assert(cues[i - 1].wf());
            } else if i < k - 1 {
                assert(cues[i].wf());
            }
        }
        assert forall|a: int, b: int| 0 <= a <= b < q.len() implies #[trigger] q[a].start.total()
            <= #[trigger] q[b].start.total() by {
            if a < k - 1 && b < k - 1 {
                assert(cues[a].start.total() <= cues[b].start.total());
            } else if a < k - 1 && b == k - 1 {
                assert(cues[a].start.total() <= cues[k - 2].start.total());
            } else if a < k - 1 {
                assert(cues[a].start.total() <= cues[b - 1].start.total());
            } else if a == k - 1 && b > a {
                assert(cues[k - 1].start.total() <= cues[b - 1].start.total());
            } else if a > k - 1 {
                assert(cues[a - 1].start.total() <= cues[b - 1].start.total());
            }
        }
    }
    if valid_cues(q) {
        assert forall|i: int| 0 <= i < n implies #[trigger] cues[i].index == i + 1 by {
            if i < k - 1 {
                assert(q[i].index == i + 1);
            } else {
                assert(q[i + 1].index == i + 2);
            }
        }
        assert forall|i: int| 0 <= i < n implies #[trigger] cues[i].wf() by {
            if i < k - 1 {
                assert(q[i].wf());
            } else {
                assert(q[i + 1].wf());
            }
        }
        assert forall|a: int, b: int| 0 <= a <= b < n implies #[trigger] cues[a].start.total()
            <= #[trigger] cues[b].start.total() by {
            let a2 = if a < k - 1 { a } else { a + 1 };
            let b2 = if b < k - 1 { b } else { b + 1 };
            assert(q[a2].start.total() <= q[b2].start.total());
        }
        assert(q[k - 1].wf());
        if k >= 2 {
            assert(q[k - 2].start.total() <= q[k - 1].start.total());
        }
        if k <= n {
            assert(q[k - 1].start.total() <= q[k].start.total());
        }
    }
}

/// Whether a cue is well formed.
fn cue_ok(l: &SubLine) -> (r: bool)
    ensures
        r == l@.wf(),
{
    l.start.minutes < 60 && l.start.seconds < 60 && l.start.miliseconds < 1000 && l.end.minutes
        < 60 && l.end.seconds < 60 && l.end.miliseconds < 1000 && l.start.total_miliseconds()
        <= l.end.total_miliseconds()
}

/// Whether `lines` form a valid sequence.
#[verifier::rlimit(30)]
fn lines_valid(lines: &Vec<SubLine>) -> (r: bool)
    ensures
        r == valid_cues(lines@.map_values(|l: SubLine| l@)),
{
    let ghost cues = lines@.map_values(|l: SubLine| l@);
    let n = lines.len();
    let mut i: usize = 0;
    while i < n
        invariant
            n == lines@.len(),
            cues == lines@.map_values(|l: SubLine| l@),
            cues.len() == n,
            i <= n,
            forall|k: int| 0 <= k < i ==> #[trigger] cues[k].index == k + 1,
            forall|k: int| 0 <= k < i ==> #[trigger] cues[k].wf(),
            forall|a: int, b: int|
                0 <= a <= b < i ==> #[trigger] cues[a].start.total() <= #[trigger] cues[b].start.total(),
        decreases n - i,
    {
        let l = &lines[i];
        assert(cues[i as int] == l@);
        if l.index as u64 != i as u64 + 1 {
            assert(cues[i as int].index != i + 1);
            return false;
        }
        if !(l.start.minutes < 60 && l.start.seconds < 60 && l.start.miliseconds < 1000) {
            assert(!cues[i as int].wf());
            return false;
        }
        if !(l.end.minutes < 60 && l.end.seconds < 60 && l.end.miliseconds < 1000) {
            assert(!cues[i as int].wf());
            return false;
        }
        if l.start.total_miliseconds() > l.end.total_miliseconds() {
            assert(!cues[i as int].wf());
            return false;
        }
        if i > 0 && lines[i - 1].start.total_miliseconds() > l.start.total_miliseconds() {
            assert(!starts_sorted(cues)) by {
                assert(cues[i - 1].start.total() > cues[i as int].start.total());
            }
            return false;
        }
        proof {
            assert forall|a: int, b: int| 0 <= a <= b < i + 1 implies #[trigger] cues[a].start.total()
                <= #[trigger] cues[b].start.total() by {
                if b == i && a < i {
                    assert(cues[a].start.total() <= cues[i - 1].start.total());
                }
            }
        }
        i = i + 1;
    }
    proof {
        if n > 0 {
            assert(cues[n - 1] == lines@[n - 1]@);
            assert(cues[n - 1].index == n);
        }
    }
    true
}

impl Subtitles {
    /// The cues, as values.
    pub open spec fn cues(&self) -> Seq<Cue> {
        self@.map_values(|l: SubLine| l@)
    }

    /// The cues are numbered `1, 2, ...`, well formed and sorted.
    pub open spec fn wf(&self) -> bool {
        valid_cues(self.cues())
    }

    /// An empty sequence of cues.
    pub fn new() -> (r: Subtitles)
        ensures
            r@ == Seq::<SubLine>::empty(),
            r.wf(),
    {
        let r = Subtitles { inner: Vec::new() };
        assert(r.cues() =~= Seq::<Cue>::empty());
        r
    }

    /// Wraps `lines` after checking that they form a valid sequence; fails
    /// with `IndexContiguityFault` when they do not.
    pub fn from_sequence(lines: Vec<SubLine>) -> (r: Result<Subtitles, SrtError>)
        ensures
            valid_cues(lines@.map_values(|l: SubLine| l@)) ==> (r matches Ok(s) && s@ == lines@),
            !valid_cues(lines@.map_values(|l: SubLine| l@)) ==> r == Err::<Subtitles, SrtError>(
                SrtError::IndexContiguityFault,
            ),
    {
        if lines_valid(&lines) {
            Ok(Subtitles { inner: lines })
        } else {
            Err(SrtError::IndexContiguityFault)
        }
    }

    /// The number of cues.
    pub fn len(&self) -> (r: usize)
        ensures
            r == self@.len(),
    {
        self.inner.len()
    }

    /// The cue at position `index - 1`, which in a well-formed sequence is
    /// the one numbered `index`; `None` when there is no such position.
    pub fn by_index(&self, index: usize) -> (r: Option<&SubLine>)
        ensures
            1 <= index <= self@.len() ==> (r matches Some(l) && *l == self@[index - 1]),
            !(1 <= index <= self@.len()) ==> r is None,
            self.wf() && 1 <= index <= self@.len() ==> self@[index - 1].index == index,
    {
        if index >= 1 && index <= self.inner.len() {
            proof {
                let k = index - 1;
                assert(self.cues()[k] == self@[k]@);
                if self.wf() {
                    assert(self.cues()[k].index == k + 1);
                }
            }
            Some(&self.inner[index - 1])
        } else {
            None
        }
    }

    /// `by_index`, with the cue handed out for editing.
    pub fn by_index_mut(&mut self, index: usize) -> (r: Option<&mut SubLine>)
        ensures
            1 <= index <= old(self)@.len() ==> (r matches Some(l) && *l == old(self)@[index - 1]
                && final(self)@ == old(self)@.update(index - 1, *final(l))),
            !(1 <= index <= old(self)@.len()) ==> r is None && *final(self) == *old(self),
    {
        if index >= 1 && index <= self.inner.len() {
            Some(&mut self.inner[index - 1])
        } else {
            None
        }
    }

    /// The position of the first cue whose range `[start, end]` holds the
    /// time `t` (in milliseconds), found by binary search.
    #[verifier::rlimit(30)]
    fn time_position(&self, t: u64) -> (r: Option<usize>)
        ensures
            r matches Some(i) ==> i < self@.len() && self.cues()[i as int].contains(t as int) && (
            ranges_ordered(self.cues()) ==> forall|j: int|
                0 <= j < i ==> !(#[trigger] self.cues()[j]).contains(t as int)),
            r is None ==> (ranges_ordered(self.cues()) ==> forall|j: int|
                0 <= j < self@.len() ==> !(#[trigger] self.cues()[j]).contains(t as int)),
    {
        let ghost cues = self.cues();
        let n = self.inner.len();
        let mut lo: usize = 0;
        let mut hi: usize = n;
        while lo < hi
            invariant
                cues == self.cues(),
                n == cues.len(),
                lo <= hi <= n,
                ranges_ordered(cues) ==> forall|j: int|
                    0 <= j < lo ==> (#[trigger] cues[j]).end.total() < t,
                ranges_ordered(cues) ==> forall|j: int|
                    hi <= j < n ==> (#[trigger] cues[j]).end.total() >= t,
            decreases hi - lo,
        {
            let mid = lo + (hi - lo) / 2;
            assert(cues[mid as int] == self.inner@[mid as int]@);
            if self.inner[mid].end.total_miliseconds() < t {
                proof {
                    if ranges_ordered(cues) {
                        assert forall|j: int| 0 <= j < mid + 1 implies (
                        #[trigger] cues[j]).end.total() < t by {
                            if j < mid {
                                assert(cues[j].end.total() <= cues[mid as int].start.total());
                            }
                        }
                    }
                }
                lo = mid + 1;
            } else {
                proof {
                    if ranges_ordered(cues) {
                        assert forall|j: int| mid <= j < n implies (#[trigger] cues[j]).end.total()
                            >= t by {
                            if j > mid {
                                assert(cues[mid as int].end.total() <= cues[j].start.total());
                            }
                        }
                    }
                }
                hi = mid;
            }
        }
        if lo < n {
            assert(cues[lo as int] == self.inner@[lo as int]@);
            let c = &self.inner[lo];
            if c.start.total_miliseconds() <= t && t <= c.end.total_miliseconds() {
                return Some(lo);
            }
            proof {
                if ranges_ordered(cues) {
                    assert forall|j: int| 0 <= j < n implies !(#[trigger] cues[j]).contains(
                        t as int,
                    ) by {
                        assert(cues[lo as int].start.total() <= cues[lo as int].end.total());
                        if j > lo {
                            assert(cues[lo as int].end.total() <= cues[j].start.total());
                        }
                    }
                }
            }
        }
        None
    }

    /// The cue whose range `[start, end]` holds `time`: when ranges touch,
    /// the earlier cue. Found by binary search; exact when the ranges are
    /// ordered (`ranges_ordered`), and any cue returned holds `time`.
    pub fn by_time(&self, time: Timestamp) -> (r: Option<&SubLine>)
        ensures
            r matches Some(l) ==> exists|i: int|
                0 <= i < self@.len() && *l == self@[i] && self.cues()[i].contains(time.total()) && (
                ranges_ordered(self.cues()) ==> forall|j: int|
                    0 <= j < i ==> !(#[trigger] self.cues()[j]).contains(time.total())),
            r is None ==> (ranges_ordered(self.cues()) ==> forall|j: int|
                0 <= j < self@.len() ==> !(#[trigger] self.cues()[j]).contains(time.total())),
    {
        match self.time_position(time.total_miliseconds()) {
            Some(i) => Some(&self.inner[i]),
            None => None,
        }
    }

    /// `by_time`, with the cue handed out for editing.
    pub fn by_time_mut(&mut self, time: Timestamp) -> (r: Option<&mut SubLine>)
        ensures
            r matches Some(l) ==> exists|i: int|
                0 <= i < old(self)@.len() && *l == old(self)@[i] && final(self)@ == old(
                    self,
                )@.update(i, *final(l)) && old(self).cues()[i].contains(time.total()) && (
                ranges_ordered(old(self).cues()) ==> forall|j: int|
                    0 <= j < i ==> !(#[trigger] old(self).cues()[j]).contains(time.total())),
            r is None ==> *final(self) == *old(self) && (ranges_ordered(old(self).cues())
                ==> forall|j: int|
                0 <= j < old(self)@.len() ==> !(#[trigger] old(self).cues()[j]).contains(
                    time.total(),
                )),
    {
        match self.time_position(time.total_miliseconds()) {
            Some(i) => Some(&mut self.inner[i]),
            None => None,
        }
    }

    /// The position of the cue on screen at time `t` (in milliseconds) when
    /// each cue stays up until the next one starts, found by binary search.
    #[verifier::rlimit(30)]
    fn nearest_position(&self, t: u64) -> (r: Option<usize>)
        ensures
            r matches Some(i) ==> shows(self.cues(), i as int, t as int),
            r is None ==> (starts_sorted(self.cues()) ==> forall|j: int|
                !#[trigger] shows(self.cues(), j, t as int)),
    {
        let ghost cues = self.cues();
        let n = self.inner.len();
        let mut lo: usize = 0;
        let mut hi: usize = n;
        while lo < hi
            invariant
                cues == self.cues(),
                n == cues.len(),
                lo <= hi <= n,
                starts_sorted(cues) ==> forall|j: int|
                    0 <= j < lo ==> (#[trigger] cues[j]).start.total() <= t,
                starts_sorted(cues) ==> forall|j: int|
                    hi <= j < n ==> (#[trigger] cues[j]).start.total() > t,
            decreases hi - lo,
        {
            let mid = lo + (hi - lo) / 2;
            assert(cues[mid as int] == self.inner@[mid as int]@);
            if self.inner[mid].start.total_miliseconds() <= t {
                proof {
                    if starts_sorted(cues) {
                        assert forall|j: int| 0 <= j < mid + 1 implies (
                        #[trigger] cues[j]).start.total() <= t by {
                            assert(cues[j].start.total() <= cues[mid as int].start.total());
                        }
                    }
                }
                lo = mid + 1;
            } else {
                proof {
                    if starts_sorted(cues) {
                        assert forall|j: int| mid <= j < n implies (#[trigger] cues[j]).start.total()
                            > t by {
                            assert(cues[mid as int].start.total() <= cues[j].start.total());
                        }
                    }
                }
                hi = mid;
            }
        }
        if lo == 0 {
            proof {
                if starts_sorted(cues) && n > 0 {
                    assert forall|j: int| !#[trigger] shows(cues, j, t as int) by {
                        if 0 <= j < n {
                            assert(cues[j].start.total() > t);
                        }
                    }
                }
            }
            return None;
        }
        let i = lo - 1;
        assert(cues[i as int] == self.inner@[i as int]@);
        let c = &self.inner[i];
        if c.start.total_miliseconds() <= t {
            if i + 1 < n {
                assert(cues[i + 1] == self.inner@[i + 1]@);
                if t < self.inner[i + 1].start.total_miliseconds() {
                    return Some(i);
                }
            } else if t <= c.end.total_miliseconds() {
                return Some(i);
            }
        }
        proof {
            if starts_sorted(cues) {
                assert forall|j: int| !#[trigger] shows(cues, j, t as int) by {
                    if 0 <= j < i {
                        assert(cues[j + 1].start.total() <= t);
                    }
                }
            }
        }
        None
    }

    /// The cue on screen at `time` when each cue stays up until the next one
    /// starts and the last one until its own end: when one cue ends at the
    /// time the next starts, the later cue. `None` before the first start and
    /// after the last end. Found by binary search; exact when the start times
    /// are sorted, and any cue returned is the one `shows` names.
    pub fn nearest_by_time(&self, time: Timestamp) -> (r: Option<&SubLine>)
        ensures
            r matches Some(l) ==> exists|i: int|
                shows(self.cues(), i, time.total()) && *l == self@[i],
            r is None ==> (starts_sorted(self.cues()) ==> forall|j: int|
                !#[trigger] shows(self.cues(), j, time.total())),
    {
        match self.nearest_position(time.total_miliseconds()) {
            Some(i) => Some(&self.inner[i]),
            None => None,
        }
    }

    /// `nearest_by_time`, with the cue handed out for editing.
    pub fn nearest_by_time_mut(&mut self, time: Timestamp) -> (r: Option<&mut SubLine>)
        ensures
            r matches Some(l) ==> exists|i: int|
                shows(old(self).cues(), i, time.total()) && *l == old(self)@[i] && final(self)@
                    == old(self)@.update(i, *final(l)),
            r is None ==> *final(self) == *old(self) && (starts_sorted(old(self).cues())
                ==> forall|j: int| !#[trigger] shows(old(self).cues(), j, time.total())),
    {
        match self.nearest_position(time.total_miliseconds()) {
            Some(i) => Some(&mut self.inner[i]),
            None => None,
        }
    }

    /// Appends `line`. It must be numbered `len() + 1`, be well formed and
    /// not start before the last cue; otherwise nothing changes and the
    /// result is `IndexContiguityFault`.
    pub fn push(&mut self, line: SubLine) -> (r: Result<(), SrtError>)
        ensures
            appendable(old(self).cues(), line@) ==> r is Ok && final(self)@ == old(self)@.push(line),
            !appendable(old(self).cues(), line@) ==> r == Err::<(), SrtError>(
                SrtError::IndexContiguityFault,
            ) && *final(self) == *old(self),
            old(self).wf() && r is Ok ==> final(self).wf(),
    {
        let n = self.inner.len();
        let ghost cues = self.cues();
        if line.index == 0 || (line.index - 1) as usize != n || !cue_ok(&line) {
            return Err(SrtError::IndexContiguityFault);
        }
        if n > 0 {
            assert(cues.last() == self@[n - 1]@);
            if self.inner[n - 1].start.total_miliseconds() > line.start.total_miliseconds() {
                return Err(SrtError::IndexContiguityFault);
            }
        }
        let ghost l = line@;
        self.inner.push(line);
        proof {
            assert(self.cues() =~= cues.push(l));
            if valid_cues(cues) {
                let q = self.cues();
                assert forall|a: int, b: int| 0 <= a <= b < q.len() implies #[trigger] q[a].start.total()
                    <= #[trigger] q[b].start.total() by {
                    if b == n && a < n {
                        assert(q[a].start.total() <= q[n - 1].start.total());
                    }
                }
            }
        }
        Ok(())
    }

    /// Puts `line` at position `line.index - 1` and raises the index of every
    /// cue from there on by one. The sequence must be valid and `line` must
    /// fit there (see `insertable`); otherwise nothing changes and the result
    /// is `IndexContiguityFault`.
    #[verifier::rlimit(30)]
    pub fn insert(&mut self, line: SubLine) -> (r: Result<(), SrtError>)
        ensures
            insertable(old(self).cues(), line@) ==> r is Ok && final(self).cues() == inserted(
                old(self).cues(),
                line@,
            ) && final(self).wf(),
            !insertable(old(self).cues(), line@) ==> r == Err::<(), SrtError>(
                SrtError::IndexContiguityFault,
            ) && *final(self) == *old(self),
    {
        let n = self.inner.len();
        let ghost cues = self.cues();
        if line.index == 0 || (line.index - 1) as usize > n {
            return Err(SrtError::IndexContiguityFault);
        }
        let k = line.index as usize;
        if !lines_valid(&self.inner) || !cue_ok(&line) || n >= u32::MAX as usize {
            return Err(SrtError::IndexContiguityFault);
        }
        if k >= 2 {
            assert(cues[k - 2] == self@[k - 2]@);
            if self.inner[k - 2].start.total_miliseconds() > line.start.total_miliseconds() {
                return Err(SrtError::IndexContiguityFault);
            }
        }
        if k <= n {
            assert(cues[k - 1] == self@[k - 1]@);
            if line.start.total_miliseconds() > self.inner[k - 1].start.total_miliseconds() {
                return Err(SrtError::IndexContiguityFault);
            }
        }
        proof {
            lemma_inserted_valid(cues, line@);
        }
        let ghost before = self.inner@;
        let mut j: usize = k - 1;
        while j < n
            invariant
                1 <= k <= n + 1,
                k - 1 <= j <= n,
                n == before.len(),
                n < u32::MAX,
                valid_cues(cues),
                cues == before.map_values(|l: SubLine| l@),
                self.inner@.len() == n,
                forall|i: int| 0 <= i < k - 1 ==> #[trigger] self.inner@[i] == before[i],
                forall|i: int| j <= i < n ==> #[trigger] self.inner@[i] == before[i],
                forall|i: int|
                    k - 1 <= i < j ==> #[trigger] self.inner@[i]@ == (Cue {
                        index: before[i]@.index + 1,
                        ..before[i]@
                    }),
            decreases n - j,
        {
            assert(cues[j as int] == before[j as int]@);
            assert(cues[j as int].index == j + 1);
            let ghost prev = self.inner@;
            let e = &mut self.inner[j];
            e.index = e.index + 1;
            assert(self.inner@ == prev.update(j as int, self.inner@[j as int]));
            assert forall|i: int| k - 1 <= i < j + 1 implies #[trigger] self.inner@[i]@ == (Cue {
                index: before[i]@.index + 1,
                ..before[i]@
            }) by {
                if i < j {
                    assert(self.inner@[i] == prev[i]);
                }
            }
            j = j + 1;
        }
        self.inner.insert(k - 1, line);
        proof {
            let q = inserted(cues, line@);
            lemma_inserted_at(cues, line@);
            assert(self.cues().len() == q.len());
            assert forall|i: int| 0 <= i < q.len() implies #[trigger] self.cues()[i] == q[i] by {
                if i >= k {
                    assert(cues[i - 1] == before[i - 1]@);
                } else if i < k - 1 {
                    assert(cues[i] == before[i]@);
                }
            }
            assert(self.cues() =~= q);
        }
        Ok(())
    }

    /// Moves every cue by `offset` milliseconds, later when positive and
    /// earlier when negative. When that would take any start or end below
    /// zero, fails with `NegativeDuration` and changes nothing.
    #[verifier::rlimit(30)]
    pub fn shift(&mut self, offset: i64) -> (r: Result<(), SrtError>)
        requires
            shift_representable(old(self).cues(), offset as int),
        ensures
            shift_underflows(old(self).cues(), offset as int) ==> r == Err::<(), SrtError>(
                SrtError::NegativeDuration,
            ) && *final(self) == *old(self),
            !shift_underflows(old(self).cues(), offset as int) ==> r is Ok && final(self).cues()
                == shifted(old(self).cues(), offset as int),
            old(self).wf() && r is Ok ==> final(self).wf(),
    {
        let ghost cues = self.cues();
        let n = self.inner.len();
        let mut i: usize = 0;
        while i < n
            invariant
                n == cues.len(),
                cues == self.cues(),
                i <= n,
                forall|k: int|
                    0 <= k < i ==> #[trigger] cues[k].start.total() + offset >= 0
                        && cues[k].end.total() + offset >= 0,
            decreases n - i,
        {
            assert(cues[i as int] == self@[i as int]@);
            let l = &self.inner[i];
            if (l.start.total_miliseconds() as i128) + (offset as i128) < 0 || (
            l.end.total_miliseconds() as i128) + (offset as i128) < 0 {
                assert(cues[i as int].start.total() + offset < 0 || cues[i as int].end.total()
                    + offset < 0);
                return Err(SrtError::NegativeDuration);
            }
            i = i + 1;
        }
        let ghost before = self.inner@;
        let mut j: usize = 0;
        while j < n
            invariant
                n == cues.len(),
                cues == before.map_values(|l: SubLine| l@),
                shift_representable(cues, offset as int),
                forall|k: int|
                    0 <= k < n ==> #[trigger] cues[k].start.total() + offset >= 0
                        && cues[k].end.total() + offset >= 0,
                j <= n,
                self.inner@.len() == n,
                forall|k: int| j <= k < n ==> #[trigger] self.inner@[k] == before[k],
                forall|k: int| 0 <= k < j ==> #[trigger] self.inner@[k]@ == shifted(cues, offset as int)[k],
            decreases n - j,
        {
            assert(cues[j as int] == before[j as int]@);
            assert(cues[j as int].start.total() + offset >= 0);
            assert(self.inner@[j as int] == before[j as int]);
            let ghost prev = self.inner@;
            let e = &mut self.inner[j];
            let _ = e.shift(offset);
            assert forall|k: int| 0 <= k < j + 1 implies #[trigger] self.inner@[k]@ == shifted(
                cues,
                offset as int,
            )[k] by {
                if k < j {
                    assert(self.inner@[k] == prev[k]);
                }
            }
            j = j + 1;
        }
        proof {
            let q = shifted(cues, offset as int);
            assert(self.cues() =~= q);
            if valid_cues(cues) {
                assert forall|k: int| 0 <= k < n implies #[trigger] q[k].wf() by {
                    lemma_from_total(cues[k].start.total() + offset);
                    lemma_from_total(cues[k].end.total() + offset);
                    assert(cues[k].wf());
                }
                assert forall|a: int, b: int| 0 <= a <= b < n implies #[trigger] q[a].start.total()
                    <= #[trigger] q[b].start.total() by {
                    lemma_from_total(cues[a].start.total() + offset);
                    lemma_from_total(cues[b].start.total() + offset);
                    assert(cues[a].start.total() <= cues[b].start.total());
                }
                assert forall|k: int| 0 <= k < n implies #[trigger] q[k].index == k + 1 by {
                    assert(cues[k].index == k + 1);
                }
            }
        }
        Ok(())
    }

    /// Removes the last cue and returns it; `None` when there is none.
    pub fn pop(&mut self) -> (r: Option<SubLine>)
        ensures
            old(self)@.len() == 0 ==> r is None && final(self)@ == old(self)@,
            old(self)@.len() > 0 ==> r == Some(old(self)@.last()) && final(self)@ == old(
                self,
            )@.drop_last(),
            old(self).wf() ==> final(self).wf(),
    {
        let ghost cues = self.cues();
        let r = self.inner.pop();
        proof {
            if cues.len() > 0 {
                assert(self.cues() =~= cues.drop_last());
            }
        }
        r
    }

    /// The whole file: each cue as an SRT block, then one more blank line.
    pub fn to_string(&self) -> (r: String)
        ensures
            r@ == file_srt(self.cues()),
    {
        let ghost cues = self.cues();
        let mut out = String::new();
        let n = self.inner.len();
        let mut i: usize = 0;
        while i < n
            invariant
                n == cues.len(),
                cues == self.cues(),
                i <= n,
                out@ == blocks_srt(cues.take(i as int)),
            decreases n - i,
        {
            assert(cues[i as int] == self@[i as int]@);
            self.inner[i].write_srt(&mut out);
            assert(cues.take(i + 1).drop_last() =~= cues.take(i as int));
            i = i + 1;
        }
        assert(cues.take(n as int) =~= cues);
        push_char(&mut out, '\r');
        push_char(&mut out, '\n');
        push_char(&mut out, '\r');
        push_char(&mut out, '\n');
        out
    }

    /// The cues, in order.
    pub fn as_slice(&self) -> (r: &[SubLine])
        ensures
            r@ == self@,
    {
        self.inner.as_slice()
    }

    /// The cues, in order, handed out for editing in place. An edit that
    /// changes an index or puts the start times out of order leaves the
    /// sequence no longer well formed; keeping it so is the caller's part.
    pub fn as_mut_slice(&mut self) -> (r: &mut [SubLine])
        ensures
            r@ == old(self)@,
            final(self)@ == final(r)@,
    {
        self.inner.as_mut_slice()
    }

    /// Gives up the cues, in order.
    pub fn into_vec(self) -> (r: Vec<SubLine>)
        ensures
            r@ == self@,
    {
        self.inner
    }
}

} // verus!
