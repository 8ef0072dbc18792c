//! Timed tags of synced lyrics: segments and lines, with the rules on the order
//! of their timestamps.
use vstd::prelude::*;

use crate::duration::{Duration, MAX_NANOS, NANOS_PER_MILLI};
use crate::error::{
    later_or_equal_message, later_or_equal_text, later_than_message, later_than_text, Error,
};
use crate::text::push_char;

verus! {

/// A segment as a mathematical value: its timestamp in nanoseconds and its text.
pub struct SegmentView {
    pub timestamp: nat,
    pub content: Seq<char>,
}

/// A line as a mathematical value: its timestamp in nanoseconds and its segments.
pub struct LineView {
    pub timestamp: nat,
    pub segments: Seq<SegmentView>,
}

/// Segment of lyrics in a [single line](LineTag), associated with a timestamp.
#[derive(Clone, PartialEq, Eq, PartialOrd, Ord, Hash, Debug, Default)]
pub struct SegmentTag {
    /// The timestamp at which the segment starts.
    pub timestamp: Duration,
    /// The content of the segment.
    pub content: String,
}

/// A single line in the [synced lyrics](crate::SyncedLyrics).
#[derive(Clone, PartialEq, Eq, PartialOrd, Ord, Hash, Debug, Default)]
pub struct LineTag {
    /// The timestamp at which the line starts.
    ///
    /// Can be the same as or earlier than the timestamp of first segment (if the A2 extension is
    /// used).
    pub timestamp: Duration,
    /// Timestamped segments of the line.
    ///
    /// With regular LRC files, this will contain at most one element. If the enhanced LRC format is
    /// used, it may contain more elements.
    pub segments: Vec<SegmentTag>,
}

impl View for SegmentTag {
    type V = SegmentView;

    open spec fn view(&self) -> SegmentView {
        SegmentView { timestamp: self.timestamp@, content: self.content@ }
    }
}

impl View for LineTag {
    type V = LineView;

    open spec fn view(&self) -> LineView {
        LineView { timestamp: self.timestamp@, segments: segment_views(self.segments@) }
    }
}

/// The views of a sequence of segments.
pub open spec fn segment_views(s: Seq<SegmentTag>) -> Seq<SegmentView> {
    s.map_values(|t: SegmentTag| t@)
}

/// The views of a sequence of lines.
pub open spec fn line_views(s: Seq<LineTag>) -> Seq<LineView> {
    s.map_values(|t: LineTag| t@)
}

/// The timestamps of a sequence of segments.
pub open spec fn segment_stamps(s: Seq<SegmentView>) -> Seq<nat> {
    s.map_values(|t: SegmentView| t.timestamp)
}

/// The timestamp of the last segment of a line, or of the line itself when it has
/// no segments.
pub open spec fn last_stamp(l: LineView) -> nat {
    if l.segments.len() == 0 {
        l.timestamp
    } else {
        l.segments.last().timestamp
    }
}

/// The first position from `i` on where a segment does not come strictly after the
/// one before it, with the message that reports it.
pub open spec fn segment_break_from(s: Seq<SegmentView>, i: nat) -> Option<(nat, Seq<char>)>
    decreases s.len() - i,
{
    if i >= s.len() || i == 0 {
        None
    } else if s[i as int].timestamp <= s[i - 1].timestamp {
        Some((i, later_than_text(s[i - 1].timestamp)))
    } else {
        segment_break_from(s, i + 1)
    }
}

/// Where the timestamps of a line break their order, and the message that reports it:
/// the first segment may not come before the line, and every later segment must come
/// strictly after the one before it.
pub open spec fn line_order_issue(l: LineView) -> Option<(nat, Seq<char>)> {
    if l.segments.len() == 0 {
        None
    } else if l.segments[0].timestamp < l.timestamp {
        Some((0, later_or_equal_text(l.timestamp)))
    } else {
        segment_break_from(l.segments, 1)
    }
}

/// A line whose timestamps are in order: segments not before the line, and each
/// segment strictly after the one before it.
pub open spec fn line_ordered(l: LineView) -> bool {
    &&& l.segments.len() > 0 ==> l.timestamp <= l.segments[0].timestamp
    &&& forall|i: int, j: int|
        0 <= i < j < l.segments.len() ==> l.segments[i].timestamp < l.segments[j].timestamp
}

/// Whether `r` is the outcome that an order check reports for `issue`.
pub open spec fn order_outcome(r: Result<(), Error>, issue: Option<(nat, Seq<char>)>) -> bool {
    match issue {
        None => r is Ok,
        Some((i, m)) => r matches Err(Error::InvalidTimestampOrder { index, message }) && index
            == i && message@ == m,
    }
}

/// The index of the last of the first `n` stamps at or before `t`.
pub open spec fn last_at_or_before(stamps: Seq<nat>, t: nat, n: nat) -> Option<nat>
    decreases n,
{
    if n == 0 {
        None
    } else if stamps[n - 1] <= t {
        Some((n - 1) as nat)
    } else {
        last_at_or_before(stamps, t, (n - 1) as nat)
    }
}

/// The segment of a line that is active at `t`: none before the line starts, else
/// the last segment that has started.
pub open spec fn line_active(l: LineView, t: nat) -> Option<nat> {
    if l.segments.len() == 0 || t < l.timestamp {
        None
    } else {
        last_at_or_before(segment_stamps(l.segments), t, l.segments.len())
    }
}

/// The text of a line without timestamps: its segments joined together.
pub open spec fn joined_contents(s: Seq<SegmentView>) -> Seq<char>
    decreases s.len(),
{
    if s.len() == 0 {
        Seq::empty()
    } else {
        joined_contents(s.drop_last()) + s.last().content
    }
}

/// Where appending `new` to a line breaks its order, as checked before appending.
///
/// To a line without segments, the first new segment may not come before the line,
/// and each later one must come strictly after the new segment before it; to a line
/// with segments, each new one must come strictly after the last segment or the new
/// segment before it.
pub open spec fn append_segments_issue(l: LineView, new: Seq<SegmentView>) -> Option<(nat, Seq<char>)> {
    if new.len() == 0 {
        None
    } else if l.segments.len() == 0 {
        if new[0].timestamp < l.timestamp {
            Some((0, later_or_equal_text(l.timestamp)))
        } else {
            first_not_after(new, 1, new[0].timestamp)
        }
    } else {
        first_not_after(new, 0, last_stamp(l))
    }
}

/// The first position from `i` on whose timestamp does not come strictly after `ts`,
/// where `ts` moves on to each timestamp that passed.
pub open spec fn first_not_after(s: Seq<SegmentView>, i: nat, ts: nat) -> Option<(nat, Seq<char>)>
    decreases s.len() - i,
{
    if i >= s.len() {
        None
    } else if s[i as int].timestamp <= ts {
        Some((i, later_than_text(ts)))
    } else {
        first_not_after(s, i + 1, s[i as int].timestamp)
    }
}

/// Accessor trait for synced lyrics.
pub trait LyricsAccess: Sized {
    /// Returns unsynced lyrics without timestamps or additional metadata.
    fn to_unsynced(self) -> String;

    /// Returns the index of the active tag or [`None`] if no tag is active for the given
    /// timestamp.
    ///
    /// **WARNING**: This function might return wrong results if the segment timestamp order is nor
    /// correct.
    fn active_tag(&self, timestamp: Duration) -> Option<usize>;

    /// Checks if timed tag timestamps are ordered correctly.
    ///
    /// The first [segment tag](SegmentTag) may have the same timestamp as its [line](LineTag).
    fn check_timestamp_order(&self) -> Result<(), Error>;
}

impl SegmentTag {
    /// A copy of the segment.
    pub fn copy(&self) -> (r: SegmentTag)
        ensures
            r == *self,
    {
        SegmentTag { timestamp: self.timestamp, content: self.content.clone() }
    }

    /// Checks if the segment is active at the given timestamp.
    pub fn is_active(&self, timestamp: Duration) -> (b: bool)
        ensures
            b == (self.timestamp@ <= timestamp@),
    {
        self.timestamp.as_nanos() <= timestamp.as_nanos()
    }

    /// Set the timestamp of the segment.
    pub fn timestamp(&mut self, timestamp: Duration) -> (r: &mut Self)
        ensures
            *r == (SegmentTag { timestamp, ..*old(self) }),
            *final(self) == *final(r),
    {
        self.timestamp = timestamp;
        self
    }

    /// Set the content of the segment.
    pub fn content(&mut self, content: String) -> (r: &mut Self)
        ensures
            *r == (SegmentTag { content, ..*old(self) }),
            *final(self) == *final(r),
    {
        self.content = content;
        self
    }
}

/// Copies of the given segments, in order.
pub fn copy_segments(s: &[SegmentTag]) -> (r: Vec<SegmentTag>)
    ensures
        r@ == s@,
{
    let mut r: Vec<SegmentTag> = Vec::new();
    let mut i: usize = 0;
    while i < s.len()
        invariant
            i <= s@.len(),
            r@ == s@.subrange(0, i as int),
        decreases s@.len() - i,
    {
        r.push(s[i].copy());
        i = i + 1;
        assert(r@ =~= s@.subrange(0, i as int));
    }
    assert(s@.subrange(0, s@.len() as int) =~= s@);
    r
}

impl LineTag {
    /// A copy of the line.
    pub fn copy(&self) -> (r: LineTag)
        ensures
            r@ == self@,
    {
        LineTag { timestamp: self.timestamp, segments: copy_segments(self.segments.as_slice()) }
    }

    /// The timestamp of the last segment, or of the line itself when it has no segments.
    pub fn last_timestamp(&self) -> (d: Duration)
        ensures
            d@ == last_stamp(self@),
    {
        if self.segments.len() == 0 {
            self.timestamp
        } else {
            self.segments[self.segments.len() - 1].timestamp
        }
    }

    /// Create a new line tag with a single segment with the same timestamp.
    pub fn new(timestamp: Duration, content: String) -> (l: LineTag)
        ensures
            l.timestamp == timestamp,
            l.segments@ == seq![SegmentTag { timestamp, content }],
            line_ordered(l@),
    {
        let mut segments = Vec::new();
        segments.push(SegmentTag { timestamp, content });
        LineTag { timestamp, segments }
    }

    /// Set the timestamp of the line.
    pub fn timestamp(&mut self, timestamp: Duration) -> (r: &mut Self)
        ensures
            r.timestamp == timestamp,
            r.segments == old(self).segments,
            *final(self) == *final(r),
    {
        self.timestamp = timestamp;
        self
    }
}

impl LyricsAccess for LineTag {
    /// The segments' contents joined together.
    fn to_unsynced(self) -> (s: String)
        ensures
            s@ == joined_contents(self@.segments),
    {
        self.contents()
    }

    /// The segment active at `timestamp`: none if the line has no segments or starts
    /// later, else the last segment whose timestamp is not after `timestamp`.
    fn active_tag(&self, timestamp: Duration) -> (r: Option<usize>)
        ensures
            r matches Some(i) ==> line_active(self@, timestamp@) == Some(i as nat),
            r is None ==> line_active(self@, timestamp@) is None,
    {
        let n = self.segments.len();
        if n == 0 {
            return None;
        } else if timestamp.as_nanos() < self.timestamp.as_nanos() {
            return None;
        }
        let ghost stamps = segment_stamps(self@.segments);
        let mut k: usize = n;
        while k > 0
            invariant
                k <= n,
                n == self.segments@.len(),
                stamps == segment_stamps(self@.segments),
                self@.timestamp <= timestamp@,
                last_at_or_before(stamps, timestamp@, n as nat) == last_at_or_before(
                    stamps,
                    timestamp@,
                    k as nat,
                ),
            decreases k,
        {
            assert(stamps[k - 1] == self.segments@[k - 1].timestamp@);
            if self.segments[k - 1].is_active(timestamp) {
                return Some(k - 1);
            }
            k = k - 1;
        }
        None
    }

    /// Checks that no segment comes before the line and each segment comes strictly
    /// after the one before it.
    fn check_timestamp_order(&self) -> (r: Result<(), Error>)
        ensures
            order_outcome(r, line_order_issue(self@)),
    {
        let n = self.segments.len();
        if n == 0 {
            return Ok(());
        }
        if self.segments[0].timestamp.as_nanos() < self.timestamp.as_nanos() {
            return Err(
                Error::InvalidTimestampOrder {
                    index: 0,
                    message: later_or_equal_message(self.timestamp),
                },
            );
        }
        let ghost v = self@.segments;
        let mut ts = self.segments[0].timestamp;
        let mut i: usize = 1;
        while i < n
            invariant
                1 <= i <= n,
                n == v.len(),
                v == self@.segments,
                self@.timestamp <= v[0].timestamp,
                ts@ == v[i - 1].timestamp,
                segment_break_from(v, 1) == segment_break_from(v, i as nat),
            decreases n - i,
        {
            assert(v[i as int].timestamp == self.segments@[i as int].timestamp@);
            if self.segments[i].timestamp.as_nanos() <= ts.as_nanos() {
                return Err(
                    Error::InvalidTimestampOrder { index: i, message: later_than_message(ts) },
                );
            }
            ts = self.segments[i].timestamp;
            i = i + 1;
        }
        Ok(())
    }
}

impl LineTag {
    /// The segments' contents joined together.
    pub fn contents(&self) -> (s: String)
        ensures
            s@ == joined_contents(self@.segments),
    {
        let mut s = String::new();
        let n = self.segments.len();
        let mut i: usize = 0;
        while i < n
            invariant
                n == self.segments@.len(),
                i <= n,
                s@ == joined_contents(self@.segments.subrange(0, i as int)),
            decreases n - i,
        {
            s.append(self.segments[i].content.as_str());
            proof {
                let v = self@.segments;
                assert(v.subrange(0, i + 1).drop_last() =~= v.subrange(0, i as int));
            }
            i = i + 1;
        }
        assert(self@.segments.subrange(0, n as int) =~= self@.segments);
        s
    }

    /// Add a segment to the line.
    ///
    /// Prefer using this method over manually adding segments to lines as it ensures that the
    /// timestamp order stays correct.
    pub fn segment(&mut self, segment: SegmentTag) -> (r: Result<&mut Self, Error>)
        ensures
            append_segments_issue(old(self)@, seq![segment@]) is None ==> (r matches Ok(m) && m@
                == (LineView {
                segments: old(self)@.segments.push(segment@),
                ..old(self)@
            }) && *final(self) == *final(m)),
            append_segments_issue(old(self)@, seq![segment@]) matches Some((i, msg)) ==> (
            r matches Err(Error::InvalidTimestampOrder { index, message }) && index == i
                && message@ == msg && *final(self) == *old(self)),
            line_ordered(old(self)@) ==> (r is Ok <==> line_ordered(
                LineView { segments: old(self)@.segments.push(segment@), ..old(self)@ },
            )),
    {
        proof {
            if line_ordered(old(self)@) {
                crate::laws::adding_a_segment_keeps_order(old(self)@, segment@);
            }
        }
        let mut one: Vec<SegmentTag> = Vec::new();
        one.push(segment);
        proof {
            assert(segment_views(one@) =~= seq![segment@]);
            assert(old(self)@.segments.push(segment@) =~= old(self)@.segments + seq![segment@]);
        }
        self.segments(one.as_slice())
    }

    /// Add multiple segments to the line.
    ///
    /// Prefer using this method over manually adding segments to lines as it ensures that the
    /// timestamp order stays correct. If you need to add segments manually, use the
    /// [`check_timestamp_order`](LyricsAccess::check_timestamp_order) method to verify timestamp order.
    pub fn segments(&mut self, segments: &[SegmentTag]) -> (r: Result<&mut Self, Error>)
        ensures
            append_segments_issue(old(self)@, segment_views(segments@)) is None ==> (r matches Ok(
                m,
            ) && m@ == (LineView {
                segments: old(self)@.segments + segment_views(segments@),
                ..old(self)@
            }) && *final(self) == *final(m)),
            append_segments_issue(old(self)@, segment_views(segments@)) matches Some((i, msg)) ==> (
            r matches Err(Error::InvalidTimestampOrder { index, message }) && index == i
                && message@ == msg && *final(self) == *old(self)),
            line_ordered(old(self)@) ==> (r is Ok <==> line_ordered(
                LineView { segments: old(self)@.segments + segment_views(segments@), ..old(self)@ },
            )),
    {
        proof {
            if line_ordered(old(self)@) {
                crate::laws::adding_segments_keeps_order(old(self)@, segment_views(segments@));
            }
        }
        let ghost new = segment_views(segments@);
        let n = segments.len();
        if n == 0 {
            assert(old(self)@.segments + new =~= old(self)@.segments);
            return Ok(self);
        }
        let mut ts;
        let mut i: usize;
        if self.segments.len() == 0 {
            if segments[0].timestamp.as_nanos() < self.timestamp.as_nanos() {
                return Err(
                    Error::InvalidTimestampOrder {
                        index: 0,
                        message: later_or_equal_message(self.timestamp),
                    },
                );
            }
            ts = segments[0].timestamp;
            i = 1;
        } else {
            ts = self.last_timestamp();
            i = 0;
        }
        while i < n
            invariant
                i <= n,
                n == new.len(),
                new == segment_views(segments@),
                append_segments_issue(old(self)@, new) == first_not_after(new, i as nat, ts@),
                *self == *old(self),
                line_ordered(old(self)@) ==> (append_segments_issue(old(self)@, new) is None
                    <==> line_ordered(LineView { segments: old(self)@.segments + new, ..old(self)@ })),
            decreases n - i,
        {
            assert(new[i as int].timestamp == segments@[i as int].timestamp@);
            if segments[i].timestamp.as_nanos() <= ts.as_nanos() {
                return Err(
                    Error::InvalidTimestampOrder { index: i, message: later_than_message(ts) },
                );
            }
            ts = segments[i].timestamp;
            i = i + 1;
        }
        let mut copies = copy_segments(segments);
        self.segments.append(&mut copies);
        assert(self@.segments =~= old(self)@.segments + new);
        Ok(self)
    }
}

/// A timestamp of `t` nanoseconds moved by `offset_ms` milliseconds, or `None` when the
/// result is negative or beyond the largest duration.
pub open spec fn shifted(t: nat, offset_ms: int) -> Option<nat> {
    let x = t + offset_ms * NANOS_PER_MILLI;
    if 0 <= x <= MAX_NANOS {
        Some(x as nat)
    } else {
        None
    }
}

/// A segment moved by `offset_ms` milliseconds, assuming the move stays in range.
pub open spec fn shifted_segment(s: SegmentView, offset_ms: int) -> SegmentView {
    SegmentView { timestamp: shifted(s.timestamp, offset_ms)->0, ..s }
}

/// Whether every timestamp of a line stays in range when moved by `offset_ms`.
pub open spec fn line_shiftable(l: LineView, offset_ms: int) -> bool {
    &&& shifted(l.timestamp, offset_ms) is Some
    &&& forall|i: int|
        0 <= i < l.segments.len() ==> #[trigger] shifted(l.segments[i].timestamp, offset_ms) is Some
}

/// A line with all its timestamps moved by `offset_ms`, assuming they stay in range.
pub open spec fn shifted_line(l: LineView, offset_ms: int) -> LineView {
    LineView {
        timestamp: shifted(l.timestamp, offset_ms)->0,
        segments: l.segments.map_values(|s: SegmentView| shifted_segment(s, offset_ms)),
    }
}

/// Moves a timestamp by `offset_ms` milliseconds, failing when the result would be
/// negative or beyond the largest duration.
pub fn duration_offset(dur: Duration, offset_ms: i64) -> (r: Result<Duration, Error>)
    ensures
        match shifted(dur@, offset_ms as int) {
            Some(t) => r matches Ok(d) && d@ == t,
            None => r matches Err(Error::TimestampOffsetOverflow),
        },
{
    let _ = dur.as_nanos();
    if offset_ms >= 0 {
        match dur.checked_add(Duration::from_millis(offset_ms as u64)) {
            Some(d) => Ok(d),
            None => Err(Error::TimestampOffsetOverflow),
        }
    } else {
        let magnitude: u64 = (-(offset_ms + 1)) as u64 + 1;
        match dur.checked_sub(Duration::from_millis(magnitude)) {
            Some(d) => Ok(d),
            None => Err(Error::TimestampOffsetOverflow),
        }
    }
}

impl LineTag {
    /// Moves every timestamp of the line by `offset_ms` milliseconds; when one of them
    /// would leave the range of durations, fails and leaves the line as it was.
    pub fn offset(&mut self, offset_ms: i64) -> (r: Result<(), Error>)
        ensures
            line_shiftable(old(self)@, offset_ms as int) ==> (r is Ok && final(self)@
                == shifted_line(old(self)@, offset_ms as int)),
            !line_shiftable(old(self)@, offset_ms as int) ==> (r matches Err(
                Error::TimestampOffsetOverflow,
            ) && *final(self) == *old(self)),
    {
        let ghost off = offset_ms as int;
        let ghost v = self@.segments;
        let timestamp = match duration_offset(self.timestamp, offset_ms) {
            Ok(t) => t,
            Err(e) => return Err(e),
        };
        let n = self.segments.len();
        let mut moved: Vec<SegmentTag> = Vec::new();
        let mut i: usize = 0;
        while i < n
            invariant
                i <= n,
                n == v.len(),
                v == self@.segments,
                *self == *old(self),
                off == offset_ms as int,
                shifted(old(self)@.timestamp, off) == Some(timestamp@),
                forall|j: int| 0 <= j < i ==> #[trigger] shifted(v[j].timestamp, off) is Some,
                segment_views(moved@) == v.subrange(0, i as int).map_values(
                    |s: SegmentView| shifted_segment(s, off),
                ),
            decreases n - i,
        {
            assert(v[i as int] == self.segments@[i as int]@);
            let ts = self.segments[i].timestamp;
            assert(ts@ == v[i as int].timestamp);
            let t = match duration_offset(ts, offset_ms) {
                Ok(t) => t,
                Err(e) => {
                    assert(shifted(ts@, off) is None);
                    assert(old(self)@.segments[i as int] == v[i as int]);
                    assert(shifted(old(self)@.segments[i as int].timestamp, off) is None);
                    return Err(e);
                },
            };
            let content = self.segments[i].content.clone();
            let seg = SegmentTag { timestamp: t, content };
            assert(seg@ == shifted_segment(v[i as int], off));
            let ghost before = moved@;
            moved.push(seg);
            proof {
                assert(segment_views(before.push(seg)) =~= segment_views(before).push(seg@));
                assert(segment_views(moved@) =~= v.subrange(0, i + 1).map_values(
                    |s: SegmentView| shifted_segment(s, off),
                ));
            }
            i = i + 1;
        }
        assert(v.subrange(0, n as int) =~= v);
        self.timestamp = timestamp;
        self.segments = moved;
        assert(self@ =~= shifted_line(old(self)@, off));
        Ok(())
    }
}

} // verus!
