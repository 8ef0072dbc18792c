//! Writing timed tags in LRC syntax: timestamps as `mm:ss.cc`, segments and lines.
use vstd::prelude::*;

use crate::duration::{Duration, NANOS_PER_MILLI, NANOS_PER_SEC};
use crate::tags::{segment_views, LineTag, LineView, SegmentTag, SegmentView};
use crate::text::{push_char, push_zero_padded, zero_padded};

verus! {

/// The number of decimal digits of `n` (one for zero).
pub open spec fn digit_count(n: nat) -> nat
    decreases n,
{
    if n < 10 {
        1
    } else {
        1 + digit_count(n / 10)
    }
}

/// Ten to the power `e`.
pub open spec fn pow10(e: nat) -> nat
    decreases e,
{
    if e == 0 {
        1
    } else {
        10 * pow10((e - 1) as nat)
    }
}

/// A fraction brought to two digits: a single digit is read as tenths, two digits
/// stay, and longer fractions are rounded to their first two digits (halves up).
pub open spec fn normalized_fraction(f: nat) -> nat {
    let d = digit_count(f);
    if d == 1 {
        f * 10
    } else if d == 2 {
        f
    } else {
        let p = pow10((d - 2) as nat);
        (f + p / 2) / p
    }
}

/// The centiseconds written for a duration of `d` nanoseconds: its milliseconds
/// rounded to hundredths (halves up) and then brought to two digits.
pub open spec fn centis(d: nat) -> nat {
    normalized_fraction((((d % NANOS_PER_SEC as nat) / NANOS_PER_MILLI as nat) + 5) / 10)
}

/// A duration of `d` nanoseconds as `mm:ss.cc`, each field padded to two digits.
pub open spec fn timestamp_text(d: nat) -> Seq<char> {
    let secs = d / NANOS_PER_SEC as nat;
    zero_padded(secs / 60) + seq![':'] + zero_padded(secs % 60) + seq!['.'] + zero_padded(
        centis(d),
    )
}

/// A line timestamp: `[mm:ss.cc]`.
pub open spec fn standard_timestamp_text(d: nat) -> Seq<char> {
    seq!['['] + timestamp_text(d) + seq![']']
}

/// A segment timestamp of the A2 extension: `<mm:ss.cc>`.
pub open spec fn a2_timestamp_text(d: nat) -> Seq<char> {
    seq!['<'] + timestamp_text(d) + seq!['>']
}

/// A segment, with its A2 timestamp and a space in front when `a2_tag` holds.
pub open spec fn segment_text(s: SegmentView, a2_tag: bool) -> Seq<char> {
    if a2_tag {
        a2_timestamp_text(s.timestamp) + seq![' '] + s.content
    } else {
        s.content
    }
}

/// The segments written one after the other.
pub open spec fn segments_text(s: Seq<SegmentView>, a2_tag: bool) -> Seq<char>
    decreases s.len(),
{
    if s.len() == 0 {
        Seq::empty()
    } else {
        segments_text(s.drop_last(), a2_tag) + segment_text(s.last(), a2_tag)
    }
}

/// A line in LRC syntax: the line timestamp, then the segments with their A2
/// timestamps when there are several, or the only one starts after the line or has no
/// text (which a standard line could not tell from a line without segments), else the
/// only segment's text.
pub open spec fn line_text(l: LineView) -> Seq<char> {
    let head = standard_timestamp_text(l.timestamp);
    let n = l.segments.len();
    if n > 1 || (n == 1 && (l.segments[0].timestamp > l.timestamp || l.segments[0].content.len()
        == 0)) {
        head + seq![' '] + segments_text(l.segments, true)
    } else if n == 1 {
        head + seq![' '] + segments_text(l.segments, false)
    } else {
        head
    }
}

proof fn lemma_below_pow10(n: nat)
    ensures
        n < pow10(digit_count(n)),
        digit_count(n) >= 1,
    decreases n,
{
    assert(pow10(0) == 1);
    assert(pow10(1) == 10);
    if n >= 10 {
        lemma_below_pow10(n / 10);
        let k = digit_count(n / 10);
        assert(digit_count(n) == k + 1);
        assert(pow10(k + 1) == 10 * pow10(k));
        assert(n / 10 + 1 <= pow10(k));
        assert(n < 10 * (n / 10 + 1));
    }
}

proof fn lemma_digit_count_u32(n: nat)
    requires
        n <= u32::MAX,
    ensures
        digit_count(n) <= 10,
{
    reveal_with_fuel(digit_count, 11);
}

proof fn lemma_pow10_small(e: nat)
    requires
        e <= 9,
    ensures
        1 <= pow10(e) <= 1_000_000_000,
{
    reveal_with_fuel(pow10, 10);
}

/// Brings a fraction to two digits, so for example 139 -> 14 and 1 -> 10; a longer
/// fraction that rounds up to a power of ten comes out as 100 (995 -> 100).
pub fn normalize_fraction(frac: u32) -> (r: u32)
    ensures
        r == normalized_fraction(frac as nat),
{
    let mut d: u64 = 1;
    let mut p: u64 = 1;
    let mut rest: u32 = frac;
    proof {
        lemma_digit_count_u32(frac as nat);
        lemma_below_pow10(rest as nat);
    }
    while rest >= 10
        invariant
            1 <= d <= 10,
            p == pow10((d - 1) as nat),
            d - 1 + digit_count(rest as nat) == digit_count(frac as nat),
            digit_count(frac as nat) <= 10,
        decreases rest,
    {
        proof {
            lemma_below_pow10((rest / 10) as nat);
            lemma_pow10_small((d - 1) as nat);
        }
        rest = rest / 10;
        d = d + 1;
        p = p * 10;
    }
    proof {
        lemma_below_pow10(frac as nat);
    }
    if d == 1 {
        frac * 10
    } else if d == 2 {
        frac
    } else {
        let q: u64 = p / 10;
        proof {
            lemma_pow10_small((d - 1) as nat);
            assert(q == pow10((d - 2) as nat));
            assert(frac < 10 * p);
        }
        let x: u64 = frac as u64 + q / 2;
        assert(x / q <= 100) by (nonlinear_arith)
            requires
                x < 101 * q,
                q > 0,
        ;
        (x / q) as u32
    }
}

/// Formats a duration as `mm:ss.cc` for timed tags.
pub fn duration_to_timestamp(dur: Duration) -> (s: String)
    ensures
        s@ == timestamp_text(dur@),
{
    let mut s = String::new();
    push_timestamp(&mut s, dur);
    s
}

/// Appends a duration as `mm:ss.cc`.
fn push_timestamp(out: &mut String, dur: Duration)
    ensures
        final(out)@ == old(out)@ + timestamp_text(dur@),
{
    let secs = dur.as_secs();
    let millis = dur.subsec_millis();
    let cs = normalize_fraction((millis + 5) / 10);
    push_zero_padded(out, (secs / 60) as u128);
    push_char(out, ':');
    push_zero_padded(out, (secs % 60) as u128);
    push_char(out, '.');
    push_zero_padded(out, cs as u128);
    assert(final(out)@ =~= old(out)@ + timestamp_text(dur@));
}

/// Formats a duration as a line timestamp, `[mm:ss.cc]`.
pub fn duration_to_standard_timestamp(dur: Duration) -> (s: String)
    ensures
        s@ == standard_timestamp_text(dur@),
{
    let mut s = String::new();
    push_char(&mut s, '[');
    push_timestamp(&mut s, dur);
    push_char(&mut s, ']');
    assert(s@ =~= standard_timestamp_text(dur@));
    s
}

/// Formats a duration as a segment timestamp of the A2 extension, `<mm:ss.cc>`.
pub fn duration_to_a2_timestamp(dur: Duration) -> (s: String)
    ensures
        s@ == a2_timestamp_text(dur@),
{
    let mut s = String::new();
    push_char(&mut s, '<');
    push_timestamp(&mut s, dur);
    push_char(&mut s, '>');
    assert(s@ =~= a2_timestamp_text(dur@));
    s
}

impl SegmentTag {
    /// The segment in LRC syntax: with its A2 timestamp and a space in front when
    /// `a2_tag` holds, else its text alone.
    pub fn serialize(self, a2_tag: bool) -> (s: String)
        ensures
            s@ == segment_text(self@, a2_tag),
    {
        if a2_tag {
            let mut s = duration_to_a2_timestamp(self.timestamp);
            push_char(&mut s, ' ');
            s.append(self.content.as_str());
            assert(s@ =~= segment_text(self@, a2_tag));
            s
        } else {
            self.content
        }
    }
}

impl LineTag {
    /// The line in LRC syntax.
    pub fn serialize(self) -> (s: String)
        ensures
            s@ == line_text(self@),
    {
        self.text()
    }

    /// The line in LRC syntax.
    pub fn text(&self) -> (s: String)
        ensures
            s@ == line_text(self@),
    {
        let n = self.segments.len();
        let mut s = duration_to_standard_timestamp(self.timestamp);
        if n == 0 {
            return s;
        }
        let a2 = n > 1 || self.segments[0].timestamp.as_nanos() > self.timestamp.as_nanos()
            || self.segments[0].content.as_str().unicode_len() == 0;
        push_char(&mut s, ' ');
        let ghost head = s@;
        let ghost v = self@.segments;
        let mut i: usize = 0;
        while i < n
            invariant
                i <= n,
                n == v.len(),
                v == self@.segments,
                s@ == head + segments_text(v.subrange(0, i as int), a2),
            decreases n - i,
        {
            let seg = self.segments[i].copy();
            let t = seg.serialize(a2);
            s.append(t.as_str());
            proof {
                assert(v.subrange(0, i + 1).drop_last() =~= v.subrange(0, i as int));
                assert(s@ =~= head + segments_text(v.subrange(0, i + 1), a2));
            }
            i = i + 1;
        }
        assert(v.subrange(0, n as int) =~= v);
        s
    }
}

} // verus!
