//! The LRC grammar: a scanner from text to ID tags, comments and timed lines whose
//! timestamps are kept as written.
//!
//! The grammar, in order of preference at each step:
//! - a header of comments `[#: text]` and ID tags `[key: value]`, each followed by
//!   optional spaces and a line end or the end of the input;
//! - then a body of comments and timed lines: `[m:s]` followed by A2 segments
//!   `<m:s> text` and a line end, or `[m:s]` followed by the rest of the line;
//! - then the end of the input.
//!
//! A timestamp `m:s` is a decimal count of minutes that fits in a `u64`, a colon and
//! a floating point number of seconds; its seconds are kept as text.
use vstd::prelude::*;

use crate::error::ErrorKind;

verus! {

/// The outcome of one step of the scanner at a position: it consumed input up to a
/// position and produced a value, it stopped with a recoverable error at a position,
/// or it failed at a position in a way that ends the whole scan.
pub enum Step<P, T> {
    Done(P, T),
    Error(P, ErrorKind),
    Failure(P, ErrorKind),
}

/// A timestamp as written: whole minutes and the text of the seconds.
pub struct StampView {
    pub minutes: nat,
    pub seconds: Seq<char>,
}

/// A segment as written.
pub struct RawSegmentView {
    pub timestamp: StampView,
    pub content: Seq<char>,
}

/// A timed line as written.
pub struct RawLineView {
    pub timestamp: StampView,
    pub segments: Seq<RawSegmentView>,
}

/// A scanned element as written.
pub enum ItemView {
    Id { key: Seq<char>, value: Seq<char> },
    Comment(Seq<char>),
    Timed(RawLineView),
}

/// Whether `r`, returned by an executable step, is the spec step `s` with its value
/// seen through `f`.
pub open spec fn agrees<T, V>(r: Step<usize, T>, s: Step<int, V>, f: spec_fn(T) -> V) -> bool {
    match (r, s) {
        (Step::Done(p, t), Step::Done(q, v)) => p == q && f(t) == v,
        (Step::Error(p, k), Step::Error(q, l)) => p == q && k == l,
        (Step::Failure(p, k), Step::Failure(q, l)) => p == q && k == l,
        _ => false,
    }
}

/// A decimal digit.
pub open spec fn is_digit(c: char) -> bool {
    '0' <= c && c <= '9'
}

/// A space or a tab.
pub open spec fn is_space(c: char) -> bool {
    c == ' ' || c == '\t'
}

/// The first position from `i` on whose character `keep` rejects, or the end.
pub open spec fn skip(s: Seq<char>, i: int, keep: spec_fn(char) -> bool) -> int
    decreases s.len() - i,
{
    if i < 0 || i >= s.len() || !keep(s[i]) {
        i
    } else {
        skip(s, i + 1, keep)
    }
}

/// The end of the run of digits from `i`.
pub open spec fn digits_end(s: Seq<char>, i: int) -> int {
    skip(s, i, |c: char| is_digit(c))
}

/// The end of the run of spaces and tabs from `i`.
pub open spec fn spaces_end(s: Seq<char>, i: int) -> int {
    skip(s, i, |c: char| is_space(c))
}

/// The first position from `i` on that holds `stop`, or the end.
pub open spec fn until_char(s: Seq<char>, i: int, stop: char) -> int {
    skip(s, i, |c: char| c != stop)
}

/// The first position from `i` on that holds `<` or a newline, or the end.
pub open spec fn until_a2(s: Seq<char>, i: int) -> int {
    skip(s, i, |c: char| c != '<' && c != '\n')
}

/// The value of a run of decimal digits.
pub open spec fn digits_value(d: Seq<char>) -> nat
    decreases d.len(),
{
    if d.len() == 0 {
        0
    } else {
        digits_value(d.drop_last()) * 10 + (d.last() as nat - 48) as nat
    }
}

/// Whether position `i` holds `c`.
pub open spec fn at(s: Seq<char>, i: int, c: char) -> bool {
    0 <= i < s.len() && s[i] == c
}

/// Whether position `i` holds a digit.
pub open spec fn digit_at(s: Seq<char>, i: int) -> bool {
    0 <= i < s.len() && is_digit(s[i])
}

/// The end of the run of line endings (`\n` or `\r\n`) from `i`.
pub open spec fn line_endings_end(s: Seq<char>, i: int) -> int
    decreases s.len() - i,
{
    if at(s, i, '\n') {
        line_endings_end(s, i + 1)
    } else if at(s, i, '\r') && at(s, i + 1, '\n') {
        line_endings_end(s, i + 2)
    } else {
        i
    }
}

/// One or more line endings, or the end of the input.
pub open spec fn newline_or_end(s: Seq<char>, i: int) -> Step<int, ()> {
    let j = line_endings_end(s, i);
    if j > i {
        Step::Done(j, ())
    } else if i == s.len() {
        Step::Done(i, ())
    } else {
        Step::Error(i, ErrorKind::Eof)
    }
}

/// A decimal number that fits in a `u64`.
pub open spec fn unsigned_u64(s: Seq<char>, i: int) -> Step<int, nat> {
    if !digit_at(s, i) {
        Step::Error(i, ErrorKind::Digit)
    } else {
        let j = digits_end(s, i);
        let v = digits_value(s.subrange(i, j));
        if v > u64::MAX {
            Step::Error(i, ErrorKind::Digit)
        } else {
            Step::Done(j, v)
        }
    }
}

/// A decimal number that fits in a `u32`; a run of digits worth more is a failed
/// conversion at the start of the digits.
pub open spec fn unsigned_int(s: Seq<char>, i: int) -> Step<int, nat> {
    if !digit_at(s, i) {
        Step::Error(i, ErrorKind::Digit)
    } else {
        let j = digits_end(s, i);
        let v = digits_value(s.subrange(i, j));
        if v > u32::MAX {
            Step::Error(i, ErrorKind::MapRes)
        } else {
            Step::Done(j, v)
        }
    }
}

/// Whether the characters from `i` spell the small letters `w`, ignoring ASCII case.
pub open spec fn word_at(s: Seq<char>, i: int, w: Seq<char>) -> bool {
    0 <= i && i + w.len() <= s.len() && forall|k: int|
        0 <= k < w.len() ==> #[trigger] lower(s[i + k]) == w[k]
}

/// A character with ASCII capitals made small.
pub open spec fn lower(c: char) -> char {
    if 'A' <= c && c <= 'Z' {
        ((c as nat) + 32) as char
    } else {
        c
    }
}

/// The special spellings of a floating point number: `nan`, `infinity` or `inf`, in
/// any ASCII case.
pub open spec fn float_word(s: Seq<char>, i: int) -> Step<int, ()> {
    if word_at(s, i, seq!['n', 'a', 'n']) {
        Step::Done(i + 3, ())
    } else if word_at(s, i, seq!['i', 'n', 'f', 'i', 'n', 'i', 't', 'y']) {
        Step::Done(i + 8, ())
    } else if word_at(s, i, seq!['i', 'n', 'f']) {
        Step::Done(i + 3, ())
    } else {
        Step::Error(i, ErrorKind::Float)
    }
}

/// The end of the mantissa of a floating point number whose sign ends at `p`: digits
/// with an optional point and fraction, or a point and digits.
pub open spec fn mantissa_end(s: Seq<char>, p: int) -> Option<int> {
    if digit_at(s, p) {
        let a = digits_end(s, p);
        if at(s, a, '.') {
            Some(digits_end(s, a + 1))
        } else {
            Some(a)
        }
    } else if at(s, p, '.') && digit_at(s, p + 1) {
        Some(digits_end(s, p + 1))
    } else {
        None
    }
}

/// A floating point number in text: an optional sign, a mantissa and an optional
/// exponent whose digits are required once `e` or `E` is seen, or one of the special
/// spellings. The produced position is the end of the number.
pub open spec fn float_number(s: Seq<char>, i: int) -> Step<int, ()> {
    let p = if at(s, i, '+') || at(s, i, '-') {
        i + 1
    } else {
        i
    };
    match mantissa_end(s, p) {
        None => float_word(s, i),
        Some(q) => if at(s, q, 'e') || at(s, q, 'E') {
            let r = if at(s, q + 1, '+') || at(s, q + 1, '-') {
                q + 2
            } else {
                q + 1
            };
            if digit_at(s, r) {
                Step::Done(digits_end(s, r), ())
            } else {
                Step::Failure(i, ErrorKind::Float)
            }
        } else {
            Step::Done(q, ())
        },
    }
}

/// A timestamp `m:s`: minutes that fit in a `u64`, a colon and seconds.
pub open spec fn timestamp(s: Seq<char>, i: int) -> Step<int, StampView> {
    match unsigned_u64(s, i) {
        Step::Done(j, m) => if at(s, j, ':') {
            match float_number(s, j + 1) {
                Step::Done(e, _) => Step::Done(
                    e,
                    StampView { minutes: m, seconds: s.subrange(j + 1, e) },
                ),
                Step::Error(p, k) => Step::Error(p, k),
                Step::Failure(p, k) => Step::Failure(p, k),
            }
        } else {
            Step::Error(j, ErrorKind::Char)
        },
        Step::Error(p, k) => Step::Error(p, k),
        Step::Failure(p, k) => Step::Failure(p, k),
    }
}

/// A timestamp between `open` and `close`.
pub open spec fn delimited_timestamp(s: Seq<char>, i: int, open: char, close: char) -> Step<
    int,
    StampView,
> {
    if !at(s, i, open) {
        Step::Error(i, ErrorKind::Char)
    } else {
        match timestamp(s, i + 1) {
            Step::Done(j, t) => if at(s, j, close) {
                Step::Done(j + 1, t)
            } else {
                Step::Error(j, ErrorKind::Char)
            },
            Step::Error(p, k) => Step::Error(p, k),
            Step::Failure(p, k) => Step::Failure(p, k),
        }
    }
}

/// An A2 segment: `<m:s>`, spaces, then text up to `<`, a newline or the end.
pub open spec fn a2_tag(s: Seq<char>, i: int) -> Step<int, RawSegmentView> {
    match delimited_timestamp(s, i, '<', '>') {
        Step::Done(j, t) => {
            let k = spaces_end(s, j);
            let e = until_a2(s, k);
            Step::Done(e, RawSegmentView { timestamp: t, content: s.subrange(k, e) })
        },
        Step::Error(p, k) => Step::Error(p, k),
        Step::Failure(p, k) => Step::Failure(p, k),
    }
}

/// `v` in front of what a repeated step produced.
pub open spec fn prepend<T>(v: T, rest: Step<int, Seq<T>>) -> Step<int, Seq<T>> {
    match rest {
        Step::Done(p, vs) => Step::Done(p, seq![v] + vs),
        Step::Error(p, k) => Step::Error(p, k),
        Step::Failure(p, k) => Step::Failure(p, k),
    }
}

/// As many A2 segments as follow each other from `i`.
pub open spec fn a2_tags(s: Seq<char>, i: int) -> Step<int, Seq<RawSegmentView>>
    decreases s.len() - i,
{
    match a2_tag(s, i) {
        Step::Done(j, v) => if i < j <= s.len() {
            prepend(v, a2_tags(s, j))
        } else {
            Step::Done(i, Seq::empty())
        },
        Step::Error(_, _) => Step::Done(i, Seq::empty()),
        Step::Failure(p, k) => Step::Failure(p, k),
    }
}

/// What ends a tag: `]`, spaces, then line endings or the end of the input.
pub open spec fn tag_end(s: Seq<char>, e: int) -> Step<int, ()> {
    if !at(s, e, ']') {
        Step::Error(e, ErrorKind::Char)
    } else {
        newline_or_end(s, spaces_end(s, e + 1))
    }
}

/// A comment `[#: text]`.
pub open spec fn comment(s: Seq<char>, i: int) -> Step<int, Seq<char>> {
    if !at(s, i, '[') {
        Step::Error(i, ErrorKind::Char)
    } else if !(at(s, i + 1, '#') && at(s, i + 2, ':')) {
        Step::Error(i + 1, ErrorKind::Tag)
    } else {
        let k = spaces_end(s, i + 3);
        let e = until_char(s, k, ']');
        match tag_end(s, e) {
            Step::Done(g, _) => Step::Done(g, s.subrange(k, e)),
            Step::Error(p, kd) => Step::Error(p, kd),
            Step::Failure(p, kd) => Step::Failure(p, kd),
        }
    }
}

/// An ID tag `[key: value]`.
pub open spec fn id_tag(s: Seq<char>, i: int) -> Step<int, (Seq<char>, Seq<char>)> {
    if !at(s, i, '[') {
        Step::Error(i, ErrorKind::Char)
    } else {
        let c = until_char(s, i + 1, ':');
        if !at(s, c, ':') {
            Step::Error(c, ErrorKind::Char)
        } else {
            let v = spaces_end(s, c + 1);
            let e = until_char(s, v, ']');
            match tag_end(s, e) {
                Step::Done(g, _) => Step::Done(g, (s.subrange(i + 1, c), s.subrange(v, e))),
                Step::Error(p, kd) => Step::Error(p, kd),
                Step::Failure(p, kd) => Step::Failure(p, kd),
            }
        }
    }
}

/// A timed line of A2 segments: `[m:s]`, spaces, segments, then line endings or the
/// end of the input.
pub open spec fn line_with_a2(s: Seq<char>, i: int) -> Step<int, RawLineView> {
    match delimited_timestamp(s, i, '[', ']') {
        Step::Done(j, t) => match a2_tags(s, spaces_end(s, j)) {
            Step::Done(m, segs) => match newline_or_end(s, m) {
                Step::Done(n, _) => Step::Done(n, RawLineView { timestamp: t, segments: segs }),
                Step::Error(p, k) => Step::Error(p, k),
                Step::Failure(p, k) => Step::Failure(p, k),
            },
            Step::Error(p, k) => Step::Error(p, k),
            Step::Failure(p, k) => Step::Failure(p, k),
        },
        Step::Error(p, k) => Step::Error(p, k),
        Step::Failure(p, k) => Step::Failure(p, k),
    }
}

/// A standard timed line: `[m:s]`, spaces, the rest of the line as one segment with
/// the line's timestamp, then line endings or the end of the input.
pub open spec fn standard_line(s: Seq<char>, i: int) -> Step<int, RawLineView> {
    match delimited_timestamp(s, i, '[', ']') {
        Step::Done(j, t) => {
            let k = spaces_end(s, j);
            let e = until_char(s, k, '\n');
            match newline_or_end(s, e) {
                Step::Done(n, _) => Step::Done(
                    n,
                    RawLineView {
                        timestamp: t,
                        segments: seq![RawSegmentView { timestamp: t, content: s.subrange(k, e) }],
                    },
                ),
                Step::Error(p, kd) => Step::Error(p, kd),
                Step::Failure(p, kd) => Step::Failure(p, kd),
            }
        },
        Step::Error(p, k) => Step::Error(p, k),
        Step::Failure(p, k) => Step::Failure(p, k),
    }
}

/// An element of the header: a comment, else an ID tag.
pub open spec fn header_item(s: Seq<char>, i: int) -> Step<int, ItemView> {
    match comment(s, i) {
        Step::Done(j, c) => Step::Done(j, ItemView::Comment(c)),
        Step::Failure(p, k) => Step::Failure(p, k),
        Step::Error(_, _) => match id_tag(s, i) {
            Step::Done(j, kv) => Step::Done(j, ItemView::Id { key: kv.0, value: kv.1 }),
            Step::Error(p, k) => Step::Error(p, k),
            Step::Failure(p, k) => Step::Failure(p, k),
        },
    }
}

/// An element of the body: a comment, else a line of A2 segments, else a standard line.
pub open spec fn body_item(s: Seq<char>, i: int) -> Step<int, ItemView> {
    match comment(s, i) {
        Step::Done(j, c) => Step::Done(j, ItemView::Comment(c)),
        Step::Failure(p, k) => Step::Failure(p, k),
        Step::Error(_, _) => match line_with_a2(s, i) {
            Step::Done(j, l) => Step::Done(j, ItemView::Timed(l)),
            Step::Failure(p, k) => Step::Failure(p, k),
            Step::Error(_, _) => match standard_line(s, i) {
                Step::Done(j, l) => Step::Done(j, ItemView::Timed(l)),
                Step::Error(p, k) => Step::Error(p, k),
                Step::Failure(p, k) => Step::Failure(p, k),
            },
        },
    }
}

/// As many header elements as follow each other from `i`.
pub open spec fn header_items(s: Seq<char>, i: int) -> Step<int, Seq<ItemView>>
    decreases s.len() - i,
{
    match header_item(s, i) {
        Step::Done(j, v) => if i < j <= s.len() {
            prepend(v, header_items(s, j))
        } else {
            Step::Done(i, Seq::empty())
        },
        Step::Error(_, _) => Step::Done(i, Seq::empty()),
        Step::Failure(p, k) => Step::Failure(p, k),
    }
}

/// As many body elements as follow each other from `i`.
pub open spec fn body_items(s: Seq<char>, i: int) -> Step<int, Seq<ItemView>>
    decreases s.len() - i,
{
    match body_item(s, i) {
        Step::Done(j, v) => if i < j <= s.len() {
            prepend(v, body_items(s, j))
        } else {
            Step::Done(i, Seq::empty())
        },
        Step::Error(_, _) => Step::Done(i, Seq::empty()),
        Step::Failure(p, k) => Step::Failure(p, k),
    }
}

/// The elements of an LRC text in order, or the position and kind of the syntax error
/// that stops it.
pub open spec fn scan_items(s: Seq<char>) -> Result<Seq<ItemView>, (int, ErrorKind)> {
    match header_items(s, 0) {
        Step::Done(j, head) => match body_items(s, j) {
            Step::Done(k, body) => if k == s.len() {
                Ok(head + body)
            } else {
                Err((k, ErrorKind::Eof))
            },
            Step::Error(p, kd) => Err((p, kd)),
            Step::Failure(p, kd) => Err((p, kd)),
        },
        Step::Error(p, kd) => Err((p, kd)),
        Step::Failure(p, kd) => Err((p, kd)),
    }
}

/// A timestamp as written: whole minutes and the text of the seconds.
#[derive(Clone, PartialEq, Eq, Hash, Debug)]
pub struct RawTimestamp {
    /// Whole minutes.
    pub minutes: u64,
    /// The seconds, as the text of a floating point number.
    pub seconds: String,
}

/// A segment of a timed line as written.
#[derive(Clone, PartialEq, Eq, Hash, Debug)]
pub struct RawSegment {
    /// The timestamp at which the segment starts.
    pub timestamp: RawTimestamp,
    /// The content of the segment.
    pub content: String,
}

/// A timed line as written.
#[derive(Clone, PartialEq, Eq, Hash, Debug)]
pub struct RawLine {
    /// The timestamp at which the line starts.
    pub timestamp: RawTimestamp,
    /// The segments of the line.
    pub segments: Vec<RawSegment>,
}

/// An element of LRC text as written.
#[derive(Clone, PartialEq, Eq, Hash, Debug)]
pub enum ScannedLine {
    /// An ID tag `[key: value]`.
    Id { key: String, value: String },
    /// A comment `[#: text]`.
    Comment(String),
    /// A timed line.
    Timed(RawLine),
}

impl View for RawTimestamp {
    type V = StampView;

    open spec fn view(&self) -> StampView {
        StampView { minutes: self.minutes as nat, seconds: self.seconds@ }
    }
}

impl View for RawSegment {
    type V = RawSegmentView;

    open spec fn view(&self) -> RawSegmentView {
        RawSegmentView { timestamp: self.timestamp@, content: self.content@ }
    }
}

impl View for RawLine {
    type V = RawLineView;

    open spec fn view(&self) -> RawLineView {
        RawLineView {
            timestamp: self.timestamp@,
            segments: self.segments@.map_values(|x: RawSegment| x@),
        }
    }
}

impl View for ScannedLine {
    type V = ItemView;

    open spec fn view(&self) -> ItemView {
        match self {
            ScannedLine::Id { key, value } => ItemView::Id { key: key@, value: value@ },
            ScannedLine::Comment(c) => ItemView::Comment(c@),
            ScannedLine::Timed(l) => ItemView::Timed(l@),
        }
    }
}

/// The views of scanned elements.
pub open spec fn item_views(s: Seq<ScannedLine>) -> Seq<ItemView> {
    s.map_values(|x: ScannedLine| x@)
}

/// Whether the positions of an executable step lie in the text: a finished step ends
/// between its start and the end (strictly after its start when `progress` holds),
/// and a stopped step stops within the text.
pub open spec fn in_bounds<T>(r: Step<usize, T>, i: usize, n: nat, progress: bool) -> bool {
    match r {
        Step::Done(j, _) => i <= j <= n && (progress ==> i < j),
        Step::Error(p, _) => p <= n,
        Step::Failure(p, _) => p <= n,
    }
}

/// `vs` in front of what a repeated step produced.
pub open spec fn prefixed<T>(vs: Seq<T>, rest: Step<int, Seq<T>>) -> Step<int, Seq<T>> {
    match rest {
        Step::Done(p, xs) => Step::Done(p, vs + xs),
        Step::Error(p, k) => Step::Error(p, k),
        Step::Failure(p, k) => Step::Failure(p, k),
    }
}

/// Putting `v` in front of a step, then `vs`, is putting `vs` and `v` in front of it.
pub proof fn lemma_prefixed_prepend<T>(vs: Seq<T>, v: T, rest: Step<int, Seq<T>>)
    ensures
        prefixed(vs, prepend(v, rest)) == prefixed(vs.push(v), rest),
{
    match rest {
        Step::Done(p, xs) => {
            assert(vs + (seq![v] + xs) =~= vs.push(v) + xs);
        },
        _ => {},
    }
}

} // verus!
