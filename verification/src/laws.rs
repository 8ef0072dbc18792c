//! Properties of the library as a whole: what the order checks accept, what adding
//! tags keeps, which tag is active at a time, and how stripping tags relates to
//! unsyncing parsed lyrics.
use vstd::prelude::*;

use crate::assemble::{
    all_shiftable, assembled, comments_of, measured_lines, moved_lines, raw_contents, read_tags,
    read_tag, scan_view, stripped_text, timed_of, MetaView,
};
use crate::lyrics::{
    append_lines_issue, line_stamps, uses_a2, lines_break_from, lines_not_after, lyrics_order_issue,
    unsynced_text, LyricsView,
};
use crate::parser::{
    body_item, body_items, comment, header_item, header_items, line_endings_end, newline_or_end,
    prepend, scan_items, spaces_end, tag_end, until_char, is_space, ItemView, RawLineView,
    RawSegmentView, Step,
};
use crate::scanner::lemma_skip;
use crate::tags::{
    append_segments_issue, first_not_after, joined_contents, last_at_or_before, last_stamp,
    line_active, line_order_issue, line_ordered, line_shiftable, segment_break_from,
    segment_stamps, shifted, shifted_line, LineView, SegmentView,
};

verus! {

/// Adjacent timestamps of segments from position `i` on rise strictly.
spec fn rising_from(s: Seq<SegmentView>, i: int) -> bool {
    forall|j: int| i <= j < s.len() ==> #[trigger] rises_at(s, j)
}

/// The segment at `j` starts strictly after the one before it.
spec fn rises_at(s: Seq<SegmentView>, j: int) -> bool {
    s[j].timestamp > s[j - 1].timestamp
}

/// The segment order search from `i` finds nothing exactly when adjacent timestamps
/// rise strictly from `i` on.
proof fn lemma_break_none(s: Seq<SegmentView>, i: int)
    requires
        1 <= i,
    ensures
        segment_break_from(s, i as nat) is None <==> rising_from(s, i),
    decreases s.len() - i,
{
    if i < s.len() {
        lemma_break_none(s, i + 1);
        if segment_break_from(s, i as nat) is None {
            assert forall|j: int| i <= j < s.len() implies rises_at(s, j) by {
                if j > i {
                    assert(rising_from(s, i + 1));
                }
            }
        }
        if rising_from(s, i) {
            assert(rises_at(s, i));
            assert(rising_from(s, i + 1));
        }
    }
}

/// Strictly rising adjacent timestamps rise strictly between any two positions.
proof fn lemma_rising_pairwise(s: Seq<SegmentView>, i: int, j: int)
    requires
        rising_from(s, 1),
        0 <= i < j < s.len(),
    ensures
        s[i].timestamp < s[j].timestamp,
    decreases j - i,
{
    assert(rises_at(s, j));
    if i < j - 1 {
        lemma_rising_pairwise(s, i, j - 1);
    }
}

/// A line passes its order check exactly when its timestamps are in order: no segment
/// starts before the line (the first may start with it), and each segment starts
/// strictly after the one before it.
pub proof fn line_check_accepts_exactly_ordered(l: LineView)
    ensures
        line_order_issue(l) is None <==> line_ordered(l),
{
    let s = l.segments;
    if s.len() > 0 {
        lemma_break_none(s, 1);
        if line_order_issue(l) is None {
            assert forall|i: int, j: int| 0 <= i < j < s.len() implies s[i].timestamp
                < s[j].timestamp by {
                lemma_rising_pairwise(s, i, j);
            }
        }
        if line_ordered(l) {
            assert forall|j: int| 1 <= j < s.len() implies rises_at(s, j) by {
                assert(s[j - 1].timestamp < s[j].timestamp);
            }
        }
    }
}

/// Lines in order: each in order in itself, and each starting strictly after the last
/// timestamp of the line before it.
pub open spec fn lyrics_ordered(ls: Seq<LineView>) -> bool {
    &&& forall|i: int| 0 <= i < ls.len() ==> #[trigger] line_ordered(ls[i])
    &&& forall|i: int| 1 <= i < ls.len() ==> #[trigger] ls[i].timestamp > last_stamp(ls[i - 1])
}

/// The line order search from `i` finds nothing exactly when every line from `i` on
/// is in order in itself and starts after the last timestamp of the line before it.
proof fn lemma_lines_break_none(ls: Seq<LineView>, i: int)
    requires
        1 <= i,
    ensures
        lines_break_from(ls, i as nat) is None <==> forall|j: int|
            i <= j < ls.len() ==> line_order_issue(#[trigger] ls[j]) is None && ls[j].timestamp
                > last_stamp(ls[j - 1]),
    decreases ls.len() - i,
{
    if i < ls.len() {
        lemma_lines_break_none(ls, i + 1);
    }
}

/// Lyrics pass their order check exactly when their lines are in order: each line in
/// order in itself, and each starting strictly after the last timestamp of the line
/// before it.
pub proof fn lyrics_check_accepts_exactly_ordered(ls: Seq<LineView>)
    ensures
        lyrics_order_issue(ls) is None <==> lyrics_ordered(ls),
{
    if ls.len() > 0 {
        lemma_lines_break_none(ls, 1);
        assert forall|i: int| 0 <= i < ls.len() implies (line_order_issue(ls[i]) is None
            <==> line_ordered(#[trigger] ls[i])) by {
            line_check_accepts_exactly_ordered(ls[i]);
        }
        if lyrics_order_issue(ls) is None {
            assert forall|i: int| 1 <= i < ls.len() implies #[trigger] ls[i].timestamp
                > last_stamp(ls[i - 1]) by {
                assert(line_order_issue(ls[i]) is None);
            }
        }
        if lyrics_ordered(ls) {
            assert(line_ordered(ls[0]));
            assert forall|j: int| 1 <= j < ls.len() implies line_order_issue(#[trigger] ls[j]) is None
                && ls[j].timestamp > last_stamp(ls[j - 1]) by {
                assert(line_ordered(ls[j]));
            }
        }
    }
}

/// The search for a new segment not after `ts` from `i` finds nothing exactly when
/// the segment at `i` starts strictly after `ts` and each later one strictly after the
/// one before it.
proof fn lemma_not_after_none(s: Seq<SegmentView>, i: int, ts: nat)
    requires
        0 <= i,
    ensures
        first_not_after(s, i as nat, ts) is None <==> ((i < s.len() ==> s[i].timestamp > ts)
            && rising_from(s, i + 1)),
    decreases s.len() - i,
{
    if i < s.len() {
        lemma_not_after_none(s, i + 1, s[i].timestamp);
        if i + 1 < s.len() {
            assert(rising_from(s, i + 1) <==> (rises_at(s, i + 1) && rising_from(s, i + 2)));
        }
    }
}

/// Adding segments to a line without segments succeeds exactly when the new segments,
/// as the line's segments, are in order.
proof fn lemma_adding_to_empty_line(l: LineView, new: Seq<SegmentView>)
    requires
        l.segments.len() == 0,
        new.len() > 0,
    ensures
        append_segments_issue(l, new) is None <==> line_ordered(LineView { segments: new, ..l }),
{
    let m = LineView { segments: new, ..l };
    lemma_not_after_none(new, 1, new[0].timestamp);
    if append_segments_issue(l, new) is None {
        assert(rising_from(new, 1));
        assert forall|i: int, j: int| 0 <= i < j < new.len() implies new[i].timestamp
            < new[j].timestamp by {
            lemma_rising_pairwise(new, i, j);
        }
    }
    if line_ordered(m) {
        assert forall|k: int| 1 < k < new.len() implies rises_at(new, k) by {
            assert(new[k - 1].timestamp < new[k].timestamp);
        }
        if new.len() > 1 {
            assert(new[0].timestamp < new[1].timestamp);
        }
    }
}

/// Adding segments to a line with segments succeeds exactly when the line with the new
/// segments appended is in order.
proof fn lemma_adding_to_line(l: LineView, new: Seq<SegmentView>)
    requires
        line_ordered(l),
        l.segments.len() > 0,
        new.len() > 0,
    ensures
        append_segments_issue(l, new) is None <==> line_ordered(
            LineView { segments: l.segments + new, ..l },
        ),
{
    let old = l.segments;
    let r = old + new;
    let m = LineView { segments: r, ..l };
    let n = old.len() as int;
    let last = last_stamp(l);
    lemma_not_after_none(new, 0, last);
    if append_segments_issue(l, new) is None {
        assert(rising_from(new, 1));
        assert forall|i: int, j: int| 0 <= i < j < r.len() implies r[i].timestamp
            < r[j].timestamp by {
            if j < n {
                assert(r[i] == old[i] && r[j] == old[j]);
            } else if i < n {
                assert(r[j] == new[j - n]);
                if j - n > 0 {
                    lemma_rising_pairwise(new, 0, j - n);
                }
                if i < n - 1 {
                    assert(old[i].timestamp < old[n - 1].timestamp);
                }
            } else {
                lemma_rising_pairwise(new, i - n, j - n);
            }
        }
    }
    if line_ordered(m) {
        assert(r[n - 1] == old[n - 1] && r[n] == new[0]);
        assert(r[n - 1].timestamp < r[n].timestamp);
        assert forall|k: int| 0 < k < new.len() implies rises_at(new, k) by {
            assert(r[n + k - 1] == new[k - 1] && r[n + k] == new[k]);
            assert(r[n + k - 1].timestamp < r[n + k].timestamp);
        }
    }
}

/// Adding segments to a line in order succeeds exactly when the line with the new
/// segments appended is in order.
pub proof fn adding_segments_keeps_order(l: LineView, new: Seq<SegmentView>)
    requires
        line_ordered(l),
    ensures
        append_segments_issue(l, new) is None <==> line_ordered(
            LineView { segments: l.segments + new, ..l },
        ),
{
    if new.len() == 0 {
        assert(l.segments + new =~= l.segments);
    } else if l.segments.len() == 0 {
        assert(l.segments + new =~= new);
        lemma_adding_to_empty_line(l, new);
    } else {
        lemma_adding_to_line(l, new);
    }
}

/// The search for a new line out of order from `i` finds nothing exactly when each
/// line from `i` on is in order in itself, the one at `i` starts after `ts`, and each
/// later one starts after the last timestamp of the line before it.
proof fn lemma_lines_not_after_none(s: Seq<LineView>, i: int, ts: nat)
    requires
        0 <= i,
    ensures
        lines_not_after(s, i as nat, ts) is None <==> ((forall|k: int|
            i <= k < s.len() ==> line_order_issue(#[trigger] s[k]) is None) && (i < s.len()
            ==> s[i].timestamp > ts) && forall|k: int|
            i < k < s.len() ==> #[trigger] s[k].timestamp > last_stamp(s[k - 1])),
    decreases s.len() - i,
{
    if i < s.len() {
        lemma_lines_not_after_none(s, i + 1, last_stamp(s[i]));
    }
}

/// Adding lines to lyrics in order succeeds exactly when the lyrics with the new lines
/// appended are in order.
pub proof fn adding_lines_keeps_order(existing: Seq<LineView>, new: Seq<LineView>)
    requires
        lyrics_ordered(existing),
    ensures
        append_lines_issue(existing, new) is None <==> lyrics_ordered(existing + new),
{
    let r = existing + new;
    let n = existing.len() as int;
    if new.len() > 0 {
        lemma_lines_not_after_none(new, 1, last_stamp(new[0]));
        assert forall|k: int| 0 <= k < new.len() implies (line_order_issue(new[k]) is None
            <==> line_ordered(#[trigger] new[k])) by {
            line_check_accepts_exactly_ordered(new[k]);
        }
        if append_lines_issue(existing, new) is None {
            assert forall|i: int| 0 <= i < r.len() implies #[trigger] line_ordered(r[i]) by {
                if i >= n {
                    assert(r[i] == new[i - n]);
                } else {
                    assert(r[i] == existing[i]);
                }
            }
            assert forall|i: int| 1 <= i < r.len() implies #[trigger] r[i].timestamp
                > last_stamp(r[i - 1]) by {
                if i < n {
                    assert(r[i] == existing[i] && r[i - 1] == existing[i - 1]);
                } else if i == n {
                    assert(r[i] == new[0] && r[i - 1] == existing.last());
                } else {
                    assert(r[i] == new[i - n] && r[i - 1] == new[i - n - 1]);
                }
            }
        }
        if lyrics_ordered(r) {
            assert forall|k: int| 0 <= k < new.len() implies line_order_issue(#[trigger] new[k])
                is None by {
                assert(r[n + k] == new[k]);
                assert(line_ordered(r[n + k]));
            }
            if n > 0 {
                assert(r[n] == new[0] && r[n - 1] == existing.last());
                assert(r[n].timestamp > last_stamp(r[n - 1]));
            }
            assert forall|k: int| 1 < k < new.len() implies #[trigger] new[k].timestamp
                > last_stamp(new[k - 1]) by {
                assert(r[n + k] == new[k] && r[n + k - 1] == new[k - 1]);
                assert(r[n + k].timestamp > last_stamp(r[n + k - 1]));
            }
            if new.len() > 1 {
                assert(r[n + 1] == new[1] && r[n] == new[0]);
                assert(r[n + 1].timestamp > last_stamp(r[n]));
            }
        }
    } else {
        assert(r =~= existing);
    }
}

/// Adding a line to lyrics in order succeeds exactly when the lyrics with the line
/// appended are in order.
pub proof fn adding_a_line_keeps_order(existing: Seq<LineView>, line: LineView)
    requires
        lyrics_ordered(existing),
    ensures
        append_lines_issue(existing, seq![line]) is None <==> lyrics_ordered(existing.push(line)),
{
    adding_lines_keeps_order(existing, seq![line]);
    assert(existing + seq![line] =~= existing.push(line));
}

/// Adding a segment to a line in order succeeds exactly when the line with the segment
/// appended is in order.
pub proof fn adding_a_segment_keeps_order(l: LineView, segment: SegmentView)
    requires
        line_ordered(l),
    ensures
        append_segments_issue(l, seq![segment]) is None <==> line_ordered(
            LineView { segments: l.segments.push(segment), ..l },
        ),
{
    adding_segments_keeps_order(l, seq![segment]);
    assert(l.segments + seq![segment] =~= l.segments.push(segment));
}

/// Moving a line in order by an offset that keeps every timestamp in range keeps it in
/// order.
pub proof fn offset_keeps_order(l: LineView, offset_ms: int)
    requires
        line_ordered(l),
        line_shiftable(l, offset_ms),
    ensures
        line_ordered(shifted_line(l, offset_ms)),
{
    let m = shifted_line(l, offset_ms);
    let s = l.segments;
    assert forall|i: int| 0 <= i < s.len() implies #[trigger] m.segments[i].timestamp == s[i].timestamp
        + offset_ms * 1_000_000 by {
        assert(shifted(s[i].timestamp, offset_ms) is Some);
    }
    if s.len() > 0 {
        assert(m.segments[0].timestamp == s[0].timestamp + offset_ms * 1_000_000);
    }
    assert forall|i: int, j: int| 0 <= i < j < m.segments.len() implies m.segments[i].timestamp
        < m.segments[j].timestamp by {
        assert(s[i].timestamp < s[j].timestamp);
        assert(m.segments[i].timestamp == s[i].timestamp + offset_ms * 1_000_000);
        assert(m.segments[j].timestamp == s[j].timestamp + offset_ms * 1_000_000);
    }
}

/// What the search for the last stamp at or before `t` among the first `n` finds: the
/// last such stamp, with every later one after `t`; or, when it finds none, that all
/// of them come after `t`.
proof fn lemma_last_at_or_before(stamps: Seq<nat>, t: nat, n: nat)
    requires
        n <= stamps.len(),
    ensures
        last_at_or_before(stamps, t, n) matches Some(k) ==> k < n && stamps[k as int] <= t
            && forall|j: int| k < j < n ==> #[trigger] stamps[j] > t,
        last_at_or_before(stamps, t, n) is None ==> forall|j: int| 0 <= j < n ==> #[trigger] stamps[j] > t,
    decreases n,
{
    if n > 0 {
        lemma_last_at_or_before(stamps, t, (n - 1) as nat);
    }
}

/// Among strictly rising stamps, the search for the last stamp at or before `t` finds
/// `k` exactly when stamp `k` is at or before `t` and the next one, if any, after it.
proof fn lemma_rising_search(stamps: Seq<nat>, t: nat, k: nat)
    requires
        forall|i: int, j: int| 0 <= i < j < stamps.len() ==> stamps[i] < stamps[j],
    ensures
        last_at_or_before(stamps, t, stamps.len()) == Some(k) <==> (k < stamps.len()
            && stamps[k as int] <= t && (k + 1 == stamps.len() || t < stamps[k + 1int])),
{
    let n = stamps.len();
    lemma_last_at_or_before(stamps, t, n);
    match last_at_or_before(stamps, t, n) {
        Some(f) => {
            if f + 1 < n {
                assert(stamps[f + 1int] > t);
            }
            if k < n && stamps[k as int] <= t && (k + 1 == n || t < stamps[k + 1int]) {
                if k < f {
                    assert(stamps[k + 1int] <= stamps[f as int]);
                } else if k > f {
                    assert(stamps[k as int] > t);
                }
            }
        },
        None => {
            if 0 <= k < n {
                assert(stamps[k as int] > t);
            }
        },
    }
}

/// The segment of a line in order that is active at `t`: the line has started, and the
/// segment has started while the next one, if any, has not.
pub open spec fn segment_active_at(l: LineView, t: nat, i: int) -> bool {
    &&& l.timestamp <= t
    &&& 0 <= i < l.segments.len()
    &&& l.segments[i].timestamp <= t
    &&& i + 1 == l.segments.len() || t < l.segments[i + 1].timestamp
}

/// In a line in order, the segment that the active search reports at `t` is the one
/// active at `t`, and it reports none when no segment is.
pub proof fn active_segment_is_the_one_playing(l: LineView, t: nat, i: nat)
    requires
        line_ordered(l),
    ensures
        line_active(l, t) == Some(i) <==> segment_active_at(l, t, i as int),
{
    let stamps = segment_stamps(l.segments);
    assert(stamps.len() == l.segments.len());
    assert forall|a: int, b: int| 0 <= a < b < stamps.len() implies stamps[a] < stamps[b] by {
        assert(stamps[a] == l.segments[a].timestamp && stamps[b] == l.segments[b].timestamp);
    }
    lemma_rising_search(stamps, t, i);
    if i < stamps.len() {
        assert(stamps[i as int] == l.segments[i as int].timestamp);
        if i + 1 < stamps.len() {
            assert(stamps[i + 1int] == l.segments[i + 1int].timestamp);
        }
    }
}

/// The line of lyrics in order that is active at `t`: it has started, and the next
/// line, if any, has not.
pub open spec fn line_active_at(ls: Seq<LineView>, t: nat, i: int) -> bool {
    &&& 0 <= i < ls.len()
    &&& ls[i].timestamp <= t
    &&& i + 1 == ls.len() || t < ls[i + 1].timestamp
}

/// In lyrics in order, the line that the active search reports at `t` is the one
/// active at `t`, and it reports none before the first line starts.
pub proof fn active_line_is_the_one_playing(ls: Seq<LineView>, t: nat, i: nat)
    requires
        lyrics_ordered(ls),
    ensures
        last_at_or_before(line_stamps(ls), t, ls.len()) == Some(i)
            <==> line_active_at(ls, t, i as int),
{
    let stamps = line_stamps(ls);
    assert forall|a: int| 0 <= a < ls.len() implies ls[a].timestamp <= last_stamp(#[trigger] ls[a]) by {
        assert(line_ordered(ls[a]));
        if ls[a].segments.len() > 1 {
            assert(ls[a].segments[0].timestamp < ls[a].segments.last().timestamp);
        }
    }
    assert forall|a: int, b: int| 0 <= a < b < stamps.len() implies stamps[a] < stamps[b] by {
        lemma_lines_rise(ls, a, b);
    }
    lemma_rising_search(stamps, t, i);
}

/// In lyrics in order, line starts rise strictly.
proof fn lemma_lines_rise(ls: Seq<LineView>, a: int, b: int)
    requires
        lyrics_ordered(ls),
        forall|c: int| 0 <= c < ls.len() ==> ls[c].timestamp <= last_stamp(#[trigger] ls[c]),
        0 <= a < b < ls.len(),
    ensures
        ls[a].timestamp < ls[b].timestamp,
    decreases b - a,
{
    assert(ls[b].timestamp > last_stamp(ls[b - 1]));
    assert(ls[b - 1].timestamp <= last_stamp(ls[b - 1]));
    if a < b - 1 {
        lemma_lines_rise(ls, a, b - 1);
    }
}

/// Synced lyrics parsed from LRC text whose timestamps, as written, measure `t` in
/// order: the text is scanned, its ID tags are read, and the lyrics are assembled.
pub open spec fn parsed(text: Seq<char>, t: Seq<nat>) -> Option<LyricsView> {
    match scan_items(text) {
        Ok(items) => match read_tags(items) {
            Ok(m) => match assembled(scan_view(m, items), t) {
                Ok(l) => Some(l),
                Err(_) => None,
            },
            Err(_) => None,
        },
        Err(_) => None,
    }
}

/// Segments with the same texts as segments as written join to the same text.
proof fn lemma_segment_contents(a: Seq<SegmentView>, b: Seq<RawSegmentView>)
    requires
        a.len() == b.len(),
        forall|j: int| 0 <= j < a.len() ==> #[trigger] a[j].content == b[j].content,
    ensures
        joined_contents(a) == raw_contents(b),
    decreases a.len(),
{
    if a.len() > 0 {
        lemma_segment_contents(a.drop_last(), b.drop_last());
        assert(a.last().content == b.last().content);
    }
}

/// Measuring lines as written keeps their number, and the number and texts of their
/// segments.
proof fn lemma_measured_shape(rl: Seq<RawLineView>, t: Seq<nat>, i: int)
    requires
        0 <= i < rl.len(),
    ensures
        measured_lines(rl, t).len() == rl.len(),
        measured_lines(rl, t)[i].segments.len() == rl[i].segments.len(),
        forall|j: int| 0 <= j < rl[i].segments.len() ==> #[trigger] measured_lines(rl, t)[i].segments[j].content
            == rl[i].segments[j].content,
    decreases rl.len(),
{
    let front = rl.drop_last();
    if i == rl.len() - 1 {
        if front.len() > 0 {
            lemma_measured_shape(front, t, 0);
        } else {
            assert(measured_lines(front, t).len() == 0);
        }
    } else {
        lemma_measured_shape(front, t, i);
        assert(front[i] == rl[i]);
    }
}

/// Stripping the tags of LRC text gives the unsynced text of the lyrics parsed from
/// it, whatever its timestamps measure, whenever parsing succeeds.
pub proof fn stripping_tags_unsyncs_parsed_lyrics(text: Seq<char>, t: Seq<nat>)
    requires
        parsed(text, t) is Some,
    ensures
        scan_items(text) is Ok,
        unsynced_text(parsed(text, t)->0) == stripped_text(scan_items(text)->Ok_0),
{
    let items = scan_items(text)->Ok_0;
    let m = read_tags(items)->Ok_0;
    let v = scan_view(m, items);
    let lv = parsed(text, t)->0;
    let rl = timed_of(items);
    let base = if v.length is Some {
        1int
    } else {
        0int
    };
    let measured = measured_lines(rl, t.skip(base));
    let ls = moved_lines(v, t)->0;
    assert(lv.lines == ls);
    let left = ls.map_values(|x: LineView| joined_contents(x.segments));
    let right = rl.map_values(|l: RawLineView| raw_contents(l.segments));
    if rl.len() > 0 {
        lemma_measured_shape(rl, t.skip(base), 0);
    } else {
        assert(measured =~= Seq::<LineView>::empty());
    }
    assert(ls.len() == rl.len());
    assert forall|i: int| 0 <= i < rl.len() implies #[trigger] left[i] == right[i] by {
        lemma_measured_shape(rl, t.skip(base), i);
        match v.offset {
            Some(o) => {
                assert(all_shiftable(measured, o));
                assert(ls[i] == shifted_line(measured[i], o));
            },
            None => {},
        }
        assert forall|j: int| 0 <= j < ls[i].segments.len() implies #[trigger] ls[i].segments[j].content
            == rl[i].segments[j].content by {
            assert(measured[i].segments[j].content == rl[i].segments[j].content);
        }
        lemma_segment_contents(ls[i].segments, rl[i].segments);
    }
    assert(left =~= right);
}


/// Lyrics parsed from LRC text are in order, as their order check accepts them,
/// whatever their timestamps measure.
pub proof fn parsed_lyrics_are_ordered(text: Seq<char>, t: Seq<nat>)
    requires
        parsed(text, t) is Some,
    ensures
        lyrics_order_issue(parsed(text, t)->0.lines) is None,
        lyrics_ordered(parsed(text, t)->0.lines),
{
    lyrics_check_accepts_exactly_ordered(parsed(text, t)->0.lines);
}


/// The text of an element that is a comment.
pub open spec fn comment_of(x: ItemView) -> Option<Seq<char>> {
    match x {
        ItemView::Comment(c) => Some(c),
        _ => None,
    }
}

/// The timed line of an element that is one.
pub open spec fn timed_line_of(x: ItemView) -> Option<RawLineView> {
    match x {
        ItemView::Timed(l) => Some(l),
        _ => None,
    }
}

proof fn lemma_comments_filter(items: Seq<ItemView>)
    ensures
        comments_of(items) == items.filter_map(|x: ItemView| comment_of(x)),
        timed_of(items) == items.filter_map(|x: ItemView| timed_line_of(x)),
    decreases items.len(),
{
    if items.len() > 0 {
        lemma_comments_filter(items.drop_last());
        match items.last() {
            ItemView::Comment(c) => {
                assert(comments_of(items) =~= comments_of(items.drop_last()) + seq![c]);
                assert(timed_of(items) =~= timed_of(items.drop_last()));
            },
            ItemView::Timed(l) => {
                assert(comments_of(items) =~= comments_of(items.drop_last()));
                assert(timed_of(items) =~= timed_of(items.drop_last()) + seq![l]);
            },
            _ => {
                assert(comments_of(items) =~= comments_of(items.drop_last()));
                assert(timed_of(items) =~= timed_of(items.drop_last()));
            },
        }
    }
}

/// Scanned text keeps every comment and every timed line of the text, in order: its
/// comments are exactly the texts of the comment elements, and its lines exactly the
/// timed-line elements, whatever ID tags were read.
pub proof fn scanned_text_keeps_all_comments_and_lines(m: MetaView, items: Seq<ItemView>)
    ensures
        scan_view(m, items).comments == items.filter_map(|x: ItemView| comment_of(x)),
        scan_view(m, items).lines == items.filter_map(|x: ItemView| timed_line_of(x)),
{
    lemma_comments_filter(items);
}

/// Lyrics parsed from LRC text keep every comment of the text, in order, whatever its
/// timestamps measure.
pub proof fn parsed_lyrics_keep_all_comments(text: Seq<char>, t: Seq<nat>)
    requires
        parsed(text, t) is Some,
    ensures
        parsed(text, t)->0.comments == scan_items(text)->Ok_0.filter_map(
            |x: ItemView| comment_of(x),
        ),
        parsed(text, t)->0.lines.len() == scan_items(text)->Ok_0.filter_map(
            |x: ItemView| timed_line_of(x),
        ).len(),
{
    let items = scan_items(text)->Ok_0;
    let m = read_tags(items)->Ok_0;
    scanned_text_keeps_all_comments_and_lines(m, items);
    let v = scan_view(m, items);
    let base = if v.length is Some {
        1int
    } else {
        0int
    };
    if v.lines.len() > 0 {
        lemma_measured_shape(v.lines, t.skip(base), 0);
    } else {
        assert(measured_lines(v.lines, t.skip(base)).len() == 0);
    }
}


/// Lyrics use the A2 extension exactly when some line has two or more segments, or a
/// segment that starts after the line.
pub proof fn a2_lyrics_are_those_with_several_or_late_segments(ls: Seq<LineView>)
    ensures
        (exists|i: int| 0 <= i < ls.len() && #[trigger] uses_a2(ls[i])) <==> (exists|i: int|
            0 <= i < ls.len() && (#[trigger] ls[i].segments.len() >= 2 || (ls[i].segments.len()
                >= 1 && ls[i].timestamp < ls[i].segments[0].timestamp))),
{
    if exists|i: int| 0 <= i < ls.len() && #[trigger] uses_a2(ls[i]) {
        let i = choose|i: int| 0 <= i < ls.len() && #[trigger] uses_a2(ls[i]);
        assert(ls[i].segments.len() >= 2 || (ls[i].segments.len() >= 1 && ls[i].timestamp
            < ls[i].segments[0].timestamp));
    }
    if exists|i: int|
        0 <= i < ls.len() && (#[trigger] ls[i].segments.len() >= 2 || (ls[i].segments.len() >= 1
            && ls[i].timestamp < ls[i].segments[0].timestamp)) {
        let i = choose|i: int|
            0 <= i < ls.len() && (#[trigger] ls[i].segments.len() >= 2 || (ls[i].segments.len()
                >= 1 && ls[i].timestamp < ls[i].segments[0].timestamp));
        assert(uses_a2(ls[i]));
    }
}


/// A run of line endings ends between where it starts and the end of the text.
proof fn lemma_line_endings_bound(s: Seq<char>, i: int)
    requires
        0 <= i <= s.len(),
    ensures
        i <= line_endings_end(s, i) <= s.len(),
    decreases s.len() - i,
{
    if i < s.len() && s[i] == '\n' {
        lemma_line_endings_bound(s, i + 1);
    } else if i + 1 < s.len() && s[i] == '\r' && s[i + 1] == '\n' {
        lemma_line_endings_bound(s, i + 2);
    }
}

/// A comment read at `i` ends after `i` and within the text.
proof fn lemma_comment_bounds(s: Seq<char>, i: int)
    requires
        0 <= i,
        comment(s, i) is Done,
    ensures
        i < comment(s, i)->Done_0 <= s.len(),
{
    assert(i + 2 < s.len());
    let k = spaces_end(s, i + 3);
    lemma_skip(s, i + 3, |c: char| is_space(c));
    assert(i + 3 <= k <= s.len());
    let e = until_char(s, k, ']');
    lemma_until_bound(s, k, ']');
    assert(tag_end(s, e) is Done);
    assert(e < s.len());
    let f = spaces_end(s, e + 1);
    lemma_skip(s, e + 1, |c: char| is_space(c));
    assert(e + 1 <= f <= s.len());
    lemma_line_endings_bound(s, f);
    assert(newline_or_end(s, f) is Done);
    assert(comment(s, i) == match newline_or_end(s, f) {
        Step::Done(g, _) => Step::Done(g, s.subrange(k, e)),
        Step::Error(p, kd) => Step::<int, Seq<char>>::Error(p, kd),
        Step::Failure(p, kd) => Step::Failure(p, kd),
    });
}

/// The search for `stop` from `i` ends within the text.
proof fn lemma_until_bound(s: Seq<char>, i: int, stop: char)
    requires
        0 <= i <= s.len(),
    ensures
        i <= until_char(s, i, stop) <= s.len(),
    decreases s.len() - i,
{
    if i < s.len() && s[i] != stop {
        lemma_until_bound(s, i + 1, stop);
        assert(until_char(s, i, stop) == until_char(s, i + 1, stop));
    }
}

/// Comments are read wherever they stand, in the header among ID tags and in the body
/// between timed lines: a comment at `i` is read as that comment, and reading the body
/// goes on after it.
pub proof fn comments_are_read_anywhere(s: Seq<char>, i: int)
    requires
        0 <= i,
        comment(s, i) is Done,
    ensures
        header_item(s, i) == Step::Done(comment(s, i)->Done_0, ItemView::Comment(comment(s, i)->Done_1)),
        body_item(s, i) == Step::Done(comment(s, i)->Done_0, ItemView::Comment(comment(s, i)->Done_1)),
        body_items(s, i) == prepend(
            ItemView::Comment(comment(s, i)->Done_1),
            body_items(s, comment(s, i)->Done_0),
        ),
        header_items(s, i) == prepend(
            ItemView::Comment(comment(s, i)->Done_1),
            header_items(s, comment(s, i)->Done_0),
        ),
{
    lemma_comment_bounds(s, i);
}


/// The value of an element that is an ID tag with one of the keys `a` and `b`.
pub open spec fn tag_value_of(x: ItemView, a: Seq<char>, b: Seq<char>) -> Option<Seq<char>> {
    match x {
        ItemView::Id { key, value } => if key == a || key == b {
            Some(value)
        } else {
            None
        },
        _ => None,
    }
}

/// The value of the last ID tag among the elements with one of the keys `a` and `b`.
pub open spec fn last_tag_value(items: Seq<ItemView>, a: Seq<char>, b: Seq<char>) -> Option<
    Seq<char>,
> {
    let vs = items.filter_map(|x: ItemView| tag_value_of(x, a, b));
    if vs.len() == 0 {
        None
    } else {
        Some(vs.last())
    }
}

/// What the ID tags read from elements say, field by field: each text field holds the
/// value of the last tag with its key.
pub open spec fn tags_as_read(m: MetaView, items: Seq<ItemView>) -> bool {
    &&& m.title == last_tag_value(items, "ti"@, "ti"@)
    &&& m.artist == last_tag_value(items, "ar"@, "ar"@)
    &&& m.album == last_tag_value(items, "al"@, "al"@)
    &&& m.author == last_tag_value(items, "au"@, "au"@)
    &&& m.lyricist == last_tag_value(items, "lr"@, "lr"@)
    &&& m.file_author == last_tag_value(items, "by"@, "by"@)
    &&& m.tool_name == last_tag_value(items, "re"@, "tool"@)
    &&& m.tool_version == last_tag_value(items, "ve"@, "ve"@)
}

/// One more element changes the last value of a key only when it is a tag with it.
proof fn lemma_last_tag_step(items: Seq<ItemView>, a: Seq<char>, b: Seq<char>)
    requires
        items.len() > 0,
    ensures
        last_tag_value(items, a, b) == match tag_value_of(items.last(), a, b) {
            Some(v) => Some(v),
            None => last_tag_value(items.drop_last(), a, b),
        },
{
    let f = |x: ItemView| tag_value_of(x, a, b);
    match tag_value_of(items.last(), a, b) {
        Some(v) => {
            assert(items.filter_map(f) =~= items.drop_last().filter_map(f) + seq![v]);
        },
        None => {
            assert(items.filter_map(f) =~= items.drop_last().filter_map(f));
        },
    }
}

/// ID tags are read so that each text field of the lyrics, and the tool's name and
/// version, hold the value of the last tag with their key (`re` and `tool` both name
/// the tool), whenever reading succeeds.
#[verifier::rlimit(40)]
pub proof fn id_tags_last_one_wins(items: Seq<ItemView>)
    requires
        read_tags(items) is Ok,
    ensures
        tags_as_read(read_tags(items)->Ok_0, items),
    decreases items.len(),
{
    reveal_strlit("ti");
    reveal_strlit("ar");
    reveal_strlit("al");
    reveal_strlit("au");
    reveal_strlit("lr");
    reveal_strlit("length");
    reveal_strlit("by");
    reveal_strlit("offset");
    reveal_strlit("re");
    reveal_strlit("tool");
    reveal_strlit("ve");
    if items.len() > 0 {
        let front = items.drop_last();
        assert(read_tags(front) is Ok);
        id_tags_last_one_wins(front);
        lemma_last_tag_step(items, "ti"@, "ti"@);
        lemma_last_tag_step(items, "ar"@, "ar"@);
        lemma_last_tag_step(items, "al"@, "al"@);
        lemma_last_tag_step(items, "au"@, "au"@);
        lemma_last_tag_step(items, "lr"@, "lr"@);
        lemma_last_tag_step(items, "by"@, "by"@);
        lemma_last_tag_step(items, "re"@, "tool"@);
        lemma_last_tag_step(items, "ve"@, "ve"@);
        match items.last() {
            ItemView::Id { key, value } => {
                assert(read_tags(items) == read_tag(read_tags(front)->Ok_0, key, value));
                lemma_read_tag_fields(read_tags(front)->Ok_0, key, value);
            },
            _ => {
                assert(read_tags(items) == read_tags(front));
            },
        }
    } else {
        lemma_last_tag_empty(items, "ti"@, "ti"@);
        lemma_last_tag_empty(items, "ar"@, "ar"@);
        lemma_last_tag_empty(items, "al"@, "al"@);
        lemma_last_tag_empty(items, "au"@, "au"@);
        lemma_last_tag_empty(items, "lr"@, "lr"@);
        lemma_last_tag_empty(items, "by"@, "by"@);
        lemma_last_tag_empty(items, "re"@, "tool"@);
        lemma_last_tag_empty(items, "ve"@, "ve"@);
    }
}

/// Reading one ID tag sets the field of its key and keeps the others.
proof fn lemma_read_tag_fields(m: MetaView, key: Seq<char>, value: Seq<char>)
    requires
        read_tag(m, key, value) is Ok,
    ensures
        read_tag(m, key, value)->Ok_0.title == if key == "ti"@ {
            Some(value)
        } else {
            m.title
        },
        read_tag(m, key, value)->Ok_0.artist == if key == "ar"@ {
            Some(value)
        } else {
            m.artist
        },
        read_tag(m, key, value)->Ok_0.album == if key == "al"@ {
            Some(value)
        } else {
            m.album
        },
        read_tag(m, key, value)->Ok_0.author == if key == "au"@ {
            Some(value)
        } else {
            m.author
        },
        read_tag(m, key, value)->Ok_0.lyricist == if key == "lr"@ {
            Some(value)
        } else {
            m.lyricist
        },
        read_tag(m, key, value)->Ok_0.file_author == if key == "by"@ {
            Some(value)
        } else {
            m.file_author
        },
        read_tag(m, key, value)->Ok_0.tool_name == if key == "re"@ || key == "tool"@ {
            Some(value)
        } else {
            m.tool_name
        },
        read_tag(m, key, value)->Ok_0.tool_version == if key == "ve"@ {
            Some(value)
        } else {
            m.tool_version
        },
{
    reveal_strlit("ti");
    reveal_strlit("ar");
    reveal_strlit("al");
    reveal_strlit("au");
    reveal_strlit("lr");
    reveal_strlit("length");
    reveal_strlit("by");
    reveal_strlit("offset");
    reveal_strlit("re");
    reveal_strlit("tool");
    reveal_strlit("ve");
    assert(key == "ti"@ ==> key.len() == 2 && key[0] == 't' && key[1] == 'i');
    assert(key == "ar"@ ==> key.len() == 2 && key[0] == 'a' && key[1] == 'r');
    assert(key == "al"@ ==> key.len() == 2 && key[0] == 'a' && key[1] == 'l');
    assert(key == "au"@ ==> key.len() == 2 && key[0] == 'a' && key[1] == 'u');
    assert(key == "lr"@ ==> key.len() == 2 && key[0] == 'l' && key[1] == 'r');
    assert(key == "length"@ ==> key.len() == 6 && key[0] == 'l' && key[1] == 'e');
    assert(key == "by"@ ==> key.len() == 2 && key[0] == 'b' && key[1] == 'y');
    assert(key == "offset"@ ==> key.len() == 6 && key[0] == 'o' && key[1] == 'f');
    assert(key == "re"@ ==> key.len() == 2 && key[0] == 'r' && key[1] == 'e');
    assert(key == "tool"@ ==> key.len() == 4 && key[0] == 't' && key[1] == 'o');
    assert(key == "ve"@ ==> key.len() == 2 && key[0] == 'v' && key[1] == 'e');
}

/// No elements hold no tag.
proof fn lemma_last_tag_empty(items: Seq<ItemView>, a: Seq<char>, b: Seq<char>)
    requires
        items.len() == 0,
    ensures
        last_tag_value(items, a, b) is None,
{
    assert(items.filter_map(|x: ItemView| tag_value_of(x, a, b)).len() == 0);
}

/// Lyrics parsed from LRC text hold, in each text field, the value of the last ID tag
/// with its key, whatever its timestamps measure.
pub proof fn parsed_lyrics_take_the_last_id_tags(text: Seq<char>, t: Seq<nat>)
    requires
        parsed(text, t) is Some,
    ensures
        parsed(text, t)->0.title == last_tag_value(scan_items(text)->Ok_0, "ti"@, "ti"@),
        parsed(text, t)->0.artist == last_tag_value(scan_items(text)->Ok_0, "ar"@, "ar"@),
        parsed(text, t)->0.album == last_tag_value(scan_items(text)->Ok_0, "al"@, "al"@),
        parsed(text, t)->0.author == last_tag_value(scan_items(text)->Ok_0, "au"@, "au"@),
        parsed(text, t)->0.lyricist == last_tag_value(scan_items(text)->Ok_0, "lr"@, "lr"@),
        parsed(text, t)->0.file_author == last_tag_value(scan_items(text)->Ok_0, "by"@, "by"@),
{
    id_tags_last_one_wins(scan_items(text)->Ok_0);
}

} // verus!
