//! The scanner that follows the LRC grammar of [`crate::parser`] over the characters
//! of a text.
use vstd::prelude::*;

use crate::error::{Error, ErrorKind};
use crate::parser::{
    a2_tag, a2_tags, body_item, body_items, comment, header_item, header_items, id_tag, item_views,
    lemma_prefixed_prepend, line_endings_end, line_with_a2, newline_or_end, prefixed, scan_items,
    standard_line, tag_end, ItemView, RawLine, RawLineView, RawSegment, RawSegmentView, ScannedLine,
    agrees, at, in_bounds, digit_at, digits_end, digits_value, float_number, float_word, is_digit, lower,
    mantissa_end, skip, spaces_end, timestamp, delimited_timestamp, unsigned_int, unsigned_u64, until_a2,
    until_char, word_at, RawTimestamp, StampView, Step,
};
use crate::text::push_char;
use vstd::std_specs::iter::IteratorSpec;

verus! {

/// The positions from `i` to where `skip` stops hold characters that `keep` accepts,
/// and the stop lies between `i` and the end.
pub proof fn lemma_skip(s: Seq<char>, i: int, keep: spec_fn(char) -> bool)
    requires
        0 <= i <= s.len(),
    ensures
        i <= skip(s, i, keep) <= s.len(),
        forall|k: int| i <= k < skip(s, i, keep) ==> keep(#[trigger] s[k]),
        skip(s, i, keep) < s.len() ==> !keep(s[skip(s, i, keep)]),
    decreases s.len() - i,
{
    if i < s.len() && keep(s[i]) {
        lemma_skip(s, i + 1, keep);
    }
}

/// The characters of a text.
pub fn chars_of(text: &str) -> (v: Vec<char>)
    ensures
        v@ == text@,
{
    let mut v: Vec<char> = Vec::new();
    let mut it = text.chars();
    broadcast use vstd::string::group_string_axioms;
    loop
        invariant
            v@ + it.remaining() == text@,
        ensures
            v@ == text@,
        decreases text@.len() - v@.len(),
    {
        match it.next() {
            Some(c) => {
                v.push(c);
            },
            None => {
                break ;
            },
        }
    }
    v
}

/// A string of the characters from `a` to `b`.
pub fn text_of(s: &Vec<char>, a: usize, b: usize) -> (r: String)
    requires
        a <= b <= s@.len(),
    ensures
        r@ == s@.subrange(a as int, b as int),
{
    let mut r = String::new();
    let mut k = a;
    while k < b
        invariant
            a <= k <= b,
            b <= s@.len(),
            r@ == s@.subrange(a as int, k as int),
        decreases b - k,
    {
        push_char(&mut r, s[k]);
        k = k + 1;
        assert(r@ =~= s@.subrange(a as int, k as int));
    }
    r
}

fn is_digit_char(c: char) -> (b: bool)
    ensures
        b == is_digit(c),
{
    '0' <= c && c <= '9'
}

/// Whether position `i` holds `c`.
pub fn char_at(s: &Vec<char>, i: usize, c: char) -> (b: bool)
    ensures
        b == at(s@, i as int, c),
        s@.len() <= usize::MAX,
{
    i < s.len() && s[i] == c
}

/// Whether position `i` holds a decimal digit.
pub fn digit_at_exec(s: &Vec<char>, i: usize) -> (b: bool)
    ensures
        b == digit_at(s@, i as int),
        s@.len() <= usize::MAX,
{
    i < s.len() && is_digit_char(s[i])
}

/// The end of the run of digits from `i`.
pub fn skip_digits(s: &Vec<char>, i: usize) -> (j: usize)
    requires
        i <= s@.len(),
    ensures
        j == digits_end(s@, i as int),
        i <= j <= s@.len(),
{
    let mut k = i;
    while k < s.len() && is_digit_char(s[k])
        invariant
            i <= k <= s@.len(),
            digits_end(s@, k as int) == digits_end(s@, i as int),
        decreases s@.len() - k,
    {
        k = k + 1;
    }
    k
}

/// The end of the run of spaces and tabs from `i`.
pub fn skip_spaces(s: &Vec<char>, i: usize) -> (j: usize)
    requires
        i <= s@.len(),
    ensures
        j == spaces_end(s@, i as int),
        i <= j <= s@.len(),
{
    let mut k = i;
    while k < s.len() && (s[k] == ' ' || s[k] == '\t')
        invariant
            i <= k <= s@.len(),
            spaces_end(s@, k as int) == spaces_end(s@, i as int),
        decreases s@.len() - k,
    {
        k = k + 1;
    }
    k
}

/// The first position from `i` on that holds `stop`, or the end.
pub fn skip_until(s: &Vec<char>, i: usize, stop: char) -> (j: usize)
    requires
        i <= s@.len(),
    ensures
        j == until_char(s@, i as int, stop),
        i <= j <= s@.len(),
{
    let mut k = i;
    while k < s.len() && s[k] != stop
        invariant
            i <= k <= s@.len(),
            until_char(s@, k as int, stop) == until_char(s@, i as int, stop),
        decreases s@.len() - k,
    {
        k = k + 1;
    }
    k
}

/// The first position from `i` on that holds `<` or a newline, or the end.
pub fn skip_until_a2(s: &Vec<char>, i: usize) -> (j: usize)
    requires
        i <= s@.len(),
    ensures
        j == until_a2(s@, i as int),
        i <= j <= s@.len(),
{
    let mut k = i;
    while k < s.len() && s[k] != '<' && s[k] != '\n'
        invariant
            i <= k <= s@.len(),
            until_a2(s@, k as int) == until_a2(s@, i as int),
        decreases s@.len() - k,
    {
        k = k + 1;
    }
    k
}

/// A run of digits that starts with a digit is not empty.
proof fn lemma_digits_end_advances(s: Seq<char>, p: int)
    requires
        0 <= p,
        digit_at(s, p),
    ensures
        p < digits_end(s, p) <= s.len(),
{
    lemma_skip(s, p + 1, |c: char| is_digit(c));
}

/// A longer run of digits is worth at least as much as its prefix.
proof fn lemma_digits_value_grows(d: Seq<char>, k: int)
    requires
        0 <= k <= d.len(),
        forall|m: int| 0 <= m < d.len() ==> is_digit(#[trigger] d[m]),
    ensures
        digits_value(d.subrange(0, k)) <= digits_value(d),
    decreases d.len() - k,
{
    if k < d.len() {
        let e = d.drop_last();
        assert forall|m: int| 0 <= m < e.len() implies is_digit(#[trigger] e[m]) by {
            assert(e[m] == d[m]);
        }
        lemma_digits_value_grows(e, k);
        assert(e.subrange(0, k) =~= d.subrange(0, k));
        assert(is_digit(d.last()));
        assert(digits_value(d) == digits_value(e) * 10 + (d.last() as nat - 48) as nat);
    } else {
        assert(d.subrange(0, k) =~= d);
    }
}

/// The value of the run of digits from `i` to `j`, or `None` when it exceeds `limit`.
pub fn run_value(s: &Vec<char>, i: usize, j: usize, limit: u64) -> (r: Option<u64>)
    requires
        i <= j == digits_end(s@, i as int),
        j <= s@.len(),
    ensures
        match r {
            Some(v) => v as nat == digits_value(s@.subrange(i as int, j as int)) && v <= limit,
            None => digits_value(s@.subrange(i as int, j as int)) > limit,
        },
{
    proof {
        lemma_skip(s@, i as int, |c: char| is_digit(c));
    }
    let ghost run = s@.subrange(i as int, j as int);
    let mut v: u64 = 0;
    let mut k = i;
    while k < j
        invariant
            i <= k <= j,
            j <= s@.len(),
            run == s@.subrange(i as int, j as int),
            forall|m: int| i <= m < j ==> is_digit(#[trigger] s@[m]),
            v as nat == digits_value(s@.subrange(i as int, k as int)),
            v <= limit,
        decreases j - k,
    {
        let c = s[k];
        assert(is_digit(s@[k as int]));
        let d: u64 = (c as u32 - 48) as u64;
        proof {
            let p = s@.subrange(i as int, k + 1);
            assert(p.drop_last() =~= s@.subrange(i as int, k as int));
            assert(p.last() == c);
        }
        if d > limit || v > (limit - d) / 10 {
            proof {
                assert(digits_value(s@.subrange(i as int, k + 1)) > limit);
                assert forall|m: int| 0 <= m < run.len() implies is_digit(#[trigger] run[m]) by {
                    assert(run[m] == s@[i + m]);
                }
                lemma_digits_value_grows(run, k + 1 - i);
                assert(run.subrange(0, k + 1 - i) =~= s@.subrange(i as int, k + 1));
            }
            return None;
        }
        v = v * 10 + d;
        k = k + 1;
    }
    Some(v)
}

/// A decimal number that fits in a `u64`.
pub fn parse_u64(s: &Vec<char>, i: usize) -> (r: Step<usize, u64>)
    requires
        i <= s@.len(),
    ensures
        agrees(r, unsigned_u64(s@, i as int), |v: u64| v as nat),
        in_bounds(r, i, s@.len(), true),
{
    if !digit_at_exec(s, i) {
        return Step::Error(i, ErrorKind::Digit);
    }
    proof {
        lemma_digits_end_advances(s@, i as int);
    }
    let j = skip_digits(s, i);
    match run_value(s, i, j, u64::MAX) {
        Some(v) => Step::Done(j, v),
        None => Step::Error(i, ErrorKind::Digit),
    }
}

/// A decimal number that fits in a `u32`.
pub fn parse_unsigned_int(s: &Vec<char>, i: usize) -> (r: Step<usize, u32>)
    requires
        i <= s@.len(),
    ensures
        agrees(r, unsigned_int(s@, i as int), |v: u32| v as nat),
        in_bounds(r, i, s@.len(), true),
{
    if !digit_at_exec(s, i) {
        return Step::Error(i, ErrorKind::Digit);
    }
    proof {
        lemma_digits_end_advances(s@, i as int);
    }
    let j = skip_digits(s, i);
    match run_value(s, i, j, 4294967295) {
        Some(v) => Step::Done(j, v as u32),
        None => Step::Error(i, ErrorKind::MapRes),
    }
}

/// Whether position `p` holds the small letter `lo` or the capital `up`.
fn letter_at(s: &Vec<char>, p: usize, lo: char, up: char) -> (b: bool)
    requires
        'A' <= up <= 'Z',
        up as nat + 32 == lo as nat,
    ensures
        b == (p < s@.len() && lower(s@[p as int]) == lo),
        s@.len() <= usize::MAX,
{
    p < s.len() && (s[p] == lo || s[p] == up)
}

/// The special spellings of a floating point number.
fn parse_float_word(s: &Vec<char>, i: usize) -> (r: Step<usize, ()>)
    requires
        i <= s@.len(),
    ensures
        agrees(r, float_word(s@, i as int), |u: ()| u),
        in_bounds(r, i, s@.len(), true),
{
    let nan = letter_at(s, i, 'n', 'N') && letter_at(s, i + 1, 'a', 'A') && letter_at(
        s,
        i + 2,
        'n',
        'N',
    );
    proof {
        let w = seq!['n', 'a', 'n'];
        if nan {
            assert forall|k: int| 0 <= k < w.len() implies #[trigger] lower(s@[i + k]) == w[k] by {}
        } else if word_at(s@, i as int, w) {
            assert(lower(s@[i + 0]) == w[0]);
            assert(lower(s@[i + 1]) == w[1]);
            assert(lower(s@[i + 2]) == w[2]);
        }
    }
    if nan {
        return Step::Done(i + 3, ());
    }
    let inf = letter_at(s, i, 'i', 'I') && letter_at(s, i + 1, 'n', 'N') && letter_at(
        s,
        i + 2,
        'f',
        'F',
    );
    let infinity = inf && letter_at(s, i + 3, 'i', 'I') && letter_at(s, i + 4, 'n', 'N')
        && letter_at(s, i + 5, 'i', 'I') && letter_at(s, i + 6, 't', 'T') && letter_at(
        s,
        i + 7,
        'y',
        'Y',
    );
    proof {
        let w3 = seq!['i', 'n', 'f'];
        let w8 = seq!['i', 'n', 'f', 'i', 'n', 'i', 't', 'y'];
        if infinity {
            assert forall|k: int| 0 <= k < w8.len() implies #[trigger] lower(s@[i + k]) == w8[k] by {}
        } else if word_at(s@, i as int, w8) {
            assert(lower(s@[i + 0]) == w8[0]);
            assert(lower(s@[i + 1]) == w8[1]);
            assert(lower(s@[i + 2]) == w8[2]);
            assert(lower(s@[i + 3]) == w8[3]);
            assert(lower(s@[i + 4]) == w8[4]);
            assert(lower(s@[i + 5]) == w8[5]);
            assert(lower(s@[i + 6]) == w8[6]);
            assert(lower(s@[i + 7]) == w8[7]);
        }
        if inf {
            assert forall|k: int| 0 <= k < w3.len() implies #[trigger] lower(s@[i + k]) == w3[k] by {}
        } else if word_at(s@, i as int, w3) {
            assert(lower(s@[i + 0]) == w3[0]);
            assert(lower(s@[i + 1]) == w3[1]);
            assert(lower(s@[i + 2]) == w3[2]);
        }
    }
    if infinity {
        Step::Done(i + 8, ())
    } else if inf {
        Step::Done(i + 3, ())
    } else {
        Step::Error(i, ErrorKind::Float)
    }
}

/// The end of the mantissa of a floating point number whose sign ends at `p`.
fn parse_mantissa(s: &Vec<char>, p: usize) -> (r: Option<usize>)
    requires
        p <= s@.len(),
    ensures
        match (r, mantissa_end(s@, p as int)) {
            (Some(q), Some(e)) => q == e && p < q <= s@.len(),
            (None, None) => true,
            _ => false,
        },
{
    if digit_at_exec(s, p) {
        proof {
            lemma_digits_end_advances(s@, p as int);
        }
        let a = skip_digits(s, p);
        if char_at(s, a, '.') {
            Some(skip_digits(s, a + 1))
        } else {
            Some(a)
        }
    } else if char_at(s, p, '.') && digit_at_exec(s, p + 1) {
        proof {
            lemma_digits_end_advances(s@, p + 1);
        }
        Some(skip_digits(s, p + 1))
    } else {
        None
    }
}

/// A floating point number in text.
pub fn parse_float(s: &Vec<char>, i: usize) -> (r: Step<usize, ()>)
    requires
        i <= s@.len(),
    ensures
        agrees(r, float_number(s@, i as int), |u: ()| u),
        in_bounds(r, i, s@.len(), true),
{
    let p = if char_at(s, i, '+') || char_at(s, i, '-') {
        i + 1
    } else {
        i
    };
    match parse_mantissa(s, p) {
        None => parse_float_word(s, i),
        Some(q) => {
            if char_at(s, q, 'e') || char_at(s, q, 'E') {
                let r = if char_at(s, q + 1, '+') || char_at(s, q + 1, '-') {
                    q + 2
                } else {
                    q + 1
                };
                if digit_at_exec(s, r) {
                    Step::Done(skip_digits(s, r), ())
                } else {
                    Step::Failure(i, ErrorKind::Float)
                }
            } else {
                Step::Done(q, ())
            }
        },
    }
}

/// A timestamp `m:s`.
pub fn parse_timestamp(s: &Vec<char>, i: usize) -> (r: Step<usize, RawTimestamp>)
    requires
        i <= s@.len(),
    ensures
        agrees(r, timestamp(s@, i as int), |t: RawTimestamp| t@),
        in_bounds(r, i, s@.len(), true),
{
    match parse_u64(s, i) {
        Step::Done(j, m) => {
            if char_at(s, j, ':') {
                match parse_float(s, j + 1) {
                    Step::Done(e, _) => {
                        let seconds = text_of(s, j + 1, e);
                        Step::Done(e, RawTimestamp { minutes: m, seconds })
                    },
                    Step::Error(p, k) => Step::Error(p, k),
                    Step::Failure(p, k) => Step::Failure(p, k),
                }
            } else {
                Step::Error(j, ErrorKind::Char)
            }
        },
        Step::Error(p, k) => Step::Error(p, k),
        Step::Failure(p, k) => Step::Failure(p, k),
    }
}

/// A timestamp between `open` and `close`.
pub fn parse_delimited_timestamp(s: &Vec<char>, i: usize, open: char, close: char) -> (r: Step<
    usize,
    RawTimestamp,
>)
    requires
        i <= s@.len(),
    ensures
        agrees(r, delimited_timestamp(s@, i as int, open, close), |t: RawTimestamp| t@),
        in_bounds(r, i, s@.len(), true),
{
    if !char_at(s, i, open) {
        return Step::Error(i, ErrorKind::Char);
    }
    match parse_timestamp(s, i + 1) {
        Step::Done(j, t) => {
            if char_at(s, j, close) {
                Step::Done(j + 1, t)
            } else {
                Step::Error(j, ErrorKind::Char)
            }
        },
        Step::Error(p, k) => Step::Error(p, k),
        Step::Failure(p, k) => Step::Failure(p, k),
    }
}

/// One or more line endings, or the end of the input.
pub fn parse_newline_or_end(s: &Vec<char>, i: usize) -> (r: Step<usize, ()>)
    requires
        i <= s@.len(),
    ensures
        agrees(r, newline_or_end(s@, i as int), |u: ()| u),
        in_bounds(r, i, s@.len(), false),
{
    let mut k = i;
    loop
        invariant
            i <= k <= s@.len(),
            line_endings_end(s@, k as int) == line_endings_end(s@, i as int),
        ensures
            k == line_endings_end(s@, i as int),
            i <= k <= s@.len(),
        decreases s@.len() - k,
    {
        if char_at(s, k, '\n') {
            k = k + 1;
        } else if char_at(s, k, '\r') && char_at(s, k + 1, '\n') {
            k = k + 2;
        } else {
            break ;
        }
    }
    if k > i {
        Step::Done(k, ())
    } else if i == s.len() {
        Step::Done(i, ())
    } else {
        Step::Error(i, ErrorKind::Eof)
    }
}

/// What ends a tag: `]`, spaces, then line endings or the end of the input.
fn parse_tag_end(s: &Vec<char>, e: usize) -> (r: Step<usize, ()>)
    requires
        e <= s@.len(),
    ensures
        agrees(r, tag_end(s@, e as int), |u: ()| u),
        in_bounds(r, e, s@.len(), true),
{
    if !char_at(s, e, ']') {
        return Step::Error(e, ErrorKind::Char);
    }
    let f = skip_spaces(s, e + 1);
    parse_newline_or_end(s, f)
}

/// An A2 segment: `<m:s>`, spaces, then text up to `<`, a newline or the end.
pub fn parse_a2_tag(s: &Vec<char>, i: usize) -> (r: Step<usize, RawSegment>)
    requires
        i <= s@.len(),
    ensures
        agrees(r, a2_tag(s@, i as int), |x: RawSegment| x@),
        in_bounds(r, i, s@.len(), true),
{
    match parse_delimited_timestamp(s, i, '<', '>') {
        Step::Done(j, t) => {
            let k = skip_spaces(s, j);
            let e = skip_until_a2(s, k);
            let content = text_of(s, k, e);
            Step::Done(e, RawSegment { timestamp: t, content })
        },
        Step::Error(p, k) => Step::Error(p, k),
        Step::Failure(p, k) => Step::Failure(p, k),
    }
}

/// The views of raw segments.
pub open spec fn raw_segment_views(v: Seq<RawSegment>) -> Seq<RawSegmentView> {
    v.map_values(|x: RawSegment| x@)
}

/// As many A2 segments as follow each other from `i`.
pub fn parse_a2_tags(s: &Vec<char>, i: usize) -> (r: Step<usize, Vec<RawSegment>>)
    requires
        i <= s@.len(),
    ensures
        agrees(r, a2_tags(s@, i as int), |v: Vec<RawSegment>| raw_segment_views(v@)),
        in_bounds(r, i, s@.len(), false),
{
    let mut acc: Vec<RawSegment> = Vec::new();
    let mut k = i;
    assert(prefixed(raw_segment_views(acc@), a2_tags(s@, i as int)) == a2_tags(s@, i as int)) by {
        assert(raw_segment_views(acc@) =~= Seq::<RawSegmentView>::empty());
        match a2_tags(s@, i as int) {
            Step::Done(p, xs) => {
                assert(Seq::<RawSegmentView>::empty() + xs =~= xs);
            },
            _ => {},
        }
    }
    loop
        invariant
            i <= k <= s@.len(),
            a2_tags(s@, i as int) == prefixed(raw_segment_views(acc@), a2_tags(s@, k as int)),
        decreases s@.len() - k,
    {
        match parse_a2_tag(s, k) {
            Step::Done(j, seg) => {
                proof {
                    lemma_prefixed_prepend(raw_segment_views(acc@), seg@, a2_tags(s@, j as int));
                    assert(raw_segment_views(acc@.push(seg)) =~= raw_segment_views(acc@).push(
                        seg@,
                    ));
                }
                acc.push(seg);
                k = j;
            },
            Step::Error(_, _) => {
                assert(raw_segment_views(acc@) + Seq::<RawSegmentView>::empty() =~= raw_segment_views(
                    acc@,
                ));
                return Step::Done(k, acc);
            },
            Step::Failure(p, e) => {
                return Step::Failure(p, e);
            },
        }
    }
}

/// A comment `[#: text]`.
pub fn parse_comment(s: &Vec<char>, i: usize) -> (r: Step<usize, String>)
    requires
        i <= s@.len(),
    ensures
        agrees(r, comment(s@, i as int), |x: String| x@),
        in_bounds(r, i, s@.len(), true),
{
    if !char_at(s, i, '[') {
        return Step::Error(i, ErrorKind::Char);
    }
    if !(char_at(s, i + 1, '#') && char_at(s, i + 2, ':')) {
        return Step::Error(i + 1, ErrorKind::Tag);
    }
    let k = skip_spaces(s, i + 3);
    let e = skip_until(s, k, ']');
    match parse_tag_end(s, e) {
        Step::Done(g, _) => Step::Done(g, text_of(s, k, e)),
        Step::Error(p, kd) => Step::Error(p, kd),
        Step::Failure(p, kd) => Step::Failure(p, kd),
    }
}

/// An ID tag `[key: value]`.
pub fn parse_id_tag(s: &Vec<char>, i: usize) -> (r: Step<usize, (String, String)>)
    requires
        i <= s@.len(),
    ensures
        agrees(r, id_tag(s@, i as int), |x: (String, String)| (x.0@, x.1@)),
        in_bounds(r, i, s@.len(), true),
{
    if !char_at(s, i, '[') {
        return Step::Error(i, ErrorKind::Char);
    }
    let c = skip_until(s, i + 1, ':');
    if !char_at(s, c, ':') {
        return Step::Error(c, ErrorKind::Char);
    }
    let v = skip_spaces(s, c + 1);
    let e = skip_until(s, v, ']');
    match parse_tag_end(s, e) {
        Step::Done(g, _) => Step::Done(g, (text_of(s, i + 1, c), text_of(s, v, e))),
        Step::Error(p, kd) => Step::Error(p, kd),
        Step::Failure(p, kd) => Step::Failure(p, kd),
    }
}

/// A timed line of A2 segments.
pub fn parse_line_with_a2(s: &Vec<char>, i: usize) -> (r: Step<usize, RawLine>)
    requires
        i <= s@.len(),
    ensures
        agrees(r, line_with_a2(s@, i as int), |x: RawLine| x@),
        in_bounds(r, i, s@.len(), true),
{
    match parse_delimited_timestamp(s, i, '[', ']') {
        Step::Done(j, t) => {
            let k = skip_spaces(s, j);
            match parse_a2_tags(s, k) {
                Step::Done(m, segments) => match parse_newline_or_end(s, m) {
                    Step::Done(n, _) => Step::Done(n, RawLine { timestamp: t, segments }),
                    Step::Error(p, kd) => Step::Error(p, kd),
                    Step::Failure(p, kd) => Step::Failure(p, kd),
                },
                Step::Error(p, kd) => Step::Error(p, kd),
                Step::Failure(p, kd) => Step::Failure(p, kd),
            }
        },
        Step::Error(p, kd) => Step::Error(p, kd),
        Step::Failure(p, kd) => Step::Failure(p, kd),
    }
}

/// A standard timed line.
pub fn parse_standard_line(s: &Vec<char>, i: usize) -> (r: Step<usize, RawLine>)
    requires
        i <= s@.len(),
    ensures
        agrees(r, standard_line(s@, i as int), |x: RawLine| x@),
        in_bounds(r, i, s@.len(), true),
{
    match parse_delimited_timestamp(s, i, '[', ']') {
        Step::Done(j, t) => {
            let k = skip_spaces(s, j);
            let e = skip_until(s, k, '\n');
            match parse_newline_or_end(s, e) {
                Step::Done(n, _) => {
                    let content = text_of(s, k, e);
                    let stamp = t.clone_raw();
                    let mut segments: Vec<RawSegment> = Vec::new();
                    segments.push(RawSegment { timestamp: stamp, content });
                    let line = RawLine { timestamp: t, segments };
                    assert(line@.segments =~= seq![
                        RawSegmentView { timestamp: line@.timestamp, content: s@.subrange(k as int, e as int) },
                    ]);
                    Step::Done(n, line)
                },
                Step::Error(p, kd) => Step::Error(p, kd),
                Step::Failure(p, kd) => Step::Failure(p, kd),
            }
        },
        Step::Error(p, kd) => Step::Error(p, kd),
        Step::Failure(p, kd) => Step::Failure(p, kd),
    }
}

impl RawTimestamp {
    /// A copy of the timestamp.
    pub fn clone_raw(&self) -> (r: RawTimestamp)
        ensures
            r@ == self@,
    {
        RawTimestamp { minutes: self.minutes, seconds: self.seconds.clone() }
    }
}

/// An element of the header: a comment, else an ID tag.
pub fn parse_header_item(s: &Vec<char>, i: usize) -> (r: Step<usize, ScannedLine>)
    requires
        i <= s@.len(),
    ensures
        agrees(r, header_item(s@, i as int), |x: ScannedLine| x@),
        in_bounds(r, i, s@.len(), true),
{
    match parse_comment(s, i) {
        Step::Done(j, c) => Step::Done(j, ScannedLine::Comment(c)),
        Step::Failure(p, k) => Step::Failure(p, k),
        Step::Error(_, _) => match parse_id_tag(s, i) {
            Step::Done(j, kv) => Step::Done(j, ScannedLine::Id { key: kv.0, value: kv.1 }),
            Step::Error(p, k) => Step::Error(p, k),
            Step::Failure(p, k) => Step::Failure(p, k),
        },
    }
}

/// An element of the body: a comment, else a line of A2 segments, else a standard line.
pub fn parse_body_item(s: &Vec<char>, i: usize) -> (r: Step<usize, ScannedLine>)
    requires
        i <= s@.len(),
    ensures
        agrees(r, body_item(s@, i as int), |x: ScannedLine| x@),
        in_bounds(r, i, s@.len(), true),
{
    match parse_comment(s, i) {
        Step::Done(j, c) => Step::Done(j, ScannedLine::Comment(c)),
        Step::Failure(p, k) => Step::Failure(p, k),
        Step::Error(_, _) => match parse_line_with_a2(s, i) {
            Step::Done(j, l) => Step::Done(j, ScannedLine::Timed(l)),
            Step::Failure(p, k) => Step::Failure(p, k),
            Step::Error(_, _) => match parse_standard_line(s, i) {
                Step::Done(j, l) => Step::Done(j, ScannedLine::Timed(l)),
                Step::Error(p, k) => Step::Error(p, k),
                Step::Failure(p, k) => Step::Failure(p, k),
            },
        },
    }
}

/// As many header elements as follow each other from `i`.
fn parse_header_items(s: &Vec<char>, i: usize, acc: &mut Vec<ScannedLine>) -> (r: Step<usize, ()>)
    requires
        i <= s@.len(),
    ensures
        match (r, prefixed(item_views(old(acc)@), header_items(s@, i as int))) {
            (Step::Done(p, _), Step::Done(q, xs)) => p == q && item_views(final(acc)@) == xs,
            (Step::Error(p, k), Step::Error(q, l)) => p == q && k == l,
            (Step::Failure(p, k), Step::Failure(q, l)) => p == q && k == l,
            _ => false,
        },
        in_bounds(r, i, s@.len(), false),
{
    let mut k = i;
    loop
        invariant
            i <= k <= s@.len(),
            prefixed(item_views(old(acc)@), header_items(s@, i as int)) == prefixed(
                item_views(acc@),
                header_items(s@, k as int),
            ),
        decreases s@.len() - k,
    {
        match parse_header_item(s, k) {
            Step::Done(j, item) => {
                proof {
                    lemma_prefixed_prepend(item_views(acc@), item@, header_items(s@, j as int));
                    assert(item_views(acc@.push(item)) =~= item_views(acc@).push(item@));
                }
                acc.push(item);
                k = j;
            },
            Step::Error(_, _) => {
                assert(item_views(acc@) + Seq::<ItemView>::empty() =~= item_views(acc@));
                return Step::Done(k, ());
            },
            Step::Failure(p, e) => {
                return Step::Failure(p, e);
            },
        }
    }
}

/// As many body elements as follow each other from `i`.
fn parse_body_items(s: &Vec<char>, i: usize, acc: &mut Vec<ScannedLine>) -> (r: Step<usize, ()>)
    requires
        i <= s@.len(),
    ensures
        match (r, prefixed(item_views(old(acc)@), body_items(s@, i as int))) {
            (Step::Done(p, _), Step::Done(q, xs)) => p == q && item_views(final(acc)@) == xs,
            (Step::Error(p, k), Step::Error(q, l)) => p == q && k == l,
            (Step::Failure(p, k), Step::Failure(q, l)) => p == q && k == l,
            _ => false,
        },
        in_bounds(r, i, s@.len(), false),
{
    let mut k = i;
    loop
        invariant
            i <= k <= s@.len(),
            prefixed(item_views(old(acc)@), body_items(s@, i as int)) == prefixed(
                item_views(acc@),
                body_items(s@, k as int),
            ),
        decreases s@.len() - k,
    {
        match parse_body_item(s, k) {
            Step::Done(j, item) => {
                proof {
                    lemma_prefixed_prepend(item_views(acc@), item@, body_items(s@, j as int));
                    assert(item_views(acc@.push(item)) =~= item_views(acc@).push(item@));
                }
                acc.push(item);
                k = j;
            },
            Step::Error(_, _) => {
                assert(item_views(acc@) + Seq::<ItemView>::empty() =~= item_views(acc@));
                return Step::Done(k, ());
            },
            Step::Failure(p, e) => {
                return Step::Failure(p, e);
            },
        }
    }
}

/// The syntax error at position `p` of the text `s`: the rest of the text from there
/// and the kind of error.
pub open spec fn syntax_error(e: Error, s: Seq<char>, p: int, kind: ErrorKind) -> bool {
    e matches Error::Nom { input, error } && input@ == s.subrange(p, s.len() as int) && error
        == kind
}

/// Scans LRC text into its comments, ID tags and timed lines in order, or reports the
/// syntax error that stops it.
pub fn scan_lines(text: &str) -> (r: Result<Vec<ScannedLine>, Error>)
    ensures
        match scan_items(text@) {
            Ok(items) => r matches Ok(v) && item_views(v@) == items,
            Err((p, kind)) => r matches Err(e) && syntax_error(e, text@, p, kind),
        },
{
    let s = chars_of(text);
    let mut items: Vec<ScannedLine> = Vec::new();
    assert(item_views(items@) =~= Seq::<ItemView>::empty());
    proof {
        match header_items(s@, 0) {
            Step::Done(p, xs) => {
                assert(Seq::<ItemView>::empty() + xs =~= xs);
            },
            _ => {},
        }
    }
    let j = match parse_header_items(&s, 0, &mut items) {
        Step::Done(j, _) => j,
        Step::Error(p, kind) => {
            return Err(Error::Nom { input: text_of(&s, p, s.len()), error: kind });
        },
        Step::Failure(p, kind) => {
            return Err(Error::Nom { input: text_of(&s, p, s.len()), error: kind });
        },
    };
    let k = match parse_body_items(&s, j, &mut items) {
        Step::Done(k, _) => k,
        Step::Error(p, kind) => {
            return Err(Error::Nom { input: text_of(&s, p, s.len()), error: kind });
        },
        Step::Failure(p, kind) => {
            return Err(Error::Nom { input: text_of(&s, p, s.len()), error: kind });
        },
    };
    if k == s.len() {
        Ok(items)
    } else {
        Err(Error::Nom { input: text_of(&s, k, s.len()), error: ErrorKind::Eof })
    }
}

} // verus!
