//! Serialized lyrics scan back: the LRC text that [`crate::SyncedLyrics::serialize`]
//! writes is read by the grammar of [`crate::parser`] as the same ID tags, comments
//! and lines, with every timestamp as it was written.
use vstd::prelude::*;

use crate::duration::NANOS_PER_SEC;
use crate::format::{
    a2_timestamp_text, centis, line_text, segment_text, segments_text, standard_timestamp_text,
    timestamp_text,
};
use crate::lyrics::{
    id_tag_text, id_tags_text, joined_lines, lyrics_text,
    minutes_seconds_text, with_block, with_tag, LyricsView,
};
use crate::tags::{LineView, SegmentView};
use crate::parser::{
    a2_tag, a2_tags, at, body_item, comment, delimited_timestamp, line_with_a2, standard_line, digit_at, digits_end, digits_value, float_number,
    body_items, header_item, header_items, id_tag, is_digit, scan_items, is_space, line_endings_end, mantissa_end, newline_or_end,
    skip, spaces_end, tag_end, timestamp, unsigned_u64, until_a2, until_char, ItemView,
    StampView, Step,
};
use crate::text::{decimal, digit_char, zero_padded};

verus! {

/// The text `w` stands in `s` from position `p` on.
pub open spec fn occurs(s: Seq<char>, p: int, w: Seq<char>) -> bool {
    &&& 0 <= p
    &&& p + w.len() <= s.len()
    &&& s.subrange(p, p + w.len()) == w
}

/// Text that stands somewhere stands there part by part.
proof fn lemma_occurs_split(s: Seq<char>, p: int, a: Seq<char>, b: Seq<char>)
    requires
        occurs(s, p, a + b),
    ensures
        occurs(s, p, a),
        occurs(s, p + a.len(), b),
{
    let t = s.subrange(p, p + (a + b).len());
    assert(s.subrange(p, p + a.len()) =~= t.subrange(0, a.len() as int));
    assert(t.subrange(0, a.len() as int) =~= a);
    assert(s.subrange(p + a.len(), p + a.len() + b.len()) =~= t.subrange(
        a.len() as int,
        (a + b).len() as int,
    ));
    assert(t.subrange(a.len() as int, (a + b).len() as int) =~= b);
}

/// The value of a digit character.
proof fn lemma_digit_char(d: nat)
    requires
        d < 10,
    ensures
        digit_char(d) as nat == d + 48,
        is_digit(digit_char(d)),
{
}

/// Each character of text that stands somewhere stands at its place.
proof fn lemma_occurs_at(s: Seq<char>, p: int, w: Seq<char>, j: int)
    requires
        occurs(s, p, w),
        0 <= j < w.len(),
    ensures
        s[p + j] == w[j],
{
    assert(s.subrange(p, p + w.len())[j] == s[p + j]);
}

/// `skip` stops at the first position from `i` on that `keep` rejects.
proof fn lemma_skip_to(s: Seq<char>, i: int, j: int, keep: spec_fn(char) -> bool)
    requires
        0 <= i <= j <= s.len(),
        forall|k: int| i <= k < j ==> keep(#[trigger] s[k]),
        j == s.len() || !keep(s[j]),
    ensures
        skip(s, i, keep) == j,
    decreases j - i,
{
    if i < j {
        lemma_skip_to(s, i + 1, j, keep);
    }
}

/// The decimal digits of `n` are digits, and they are worth `n`.
proof fn lemma_decimal_digits(n: nat)
    ensures
        decimal(n).len() > 0,
        forall|k: int| 0 <= k < decimal(n).len() ==> is_digit(#[trigger] decimal(n)[k]),
        digits_value(decimal(n)) == n,
    decreases n,
{
    if n >= 10 {
        lemma_decimal_digits(n / 10);
        let d = decimal(n);
        assert(d.drop_last() =~= decimal(n / 10));
        assert(d.last() == digit_char(n % 10));
        lemma_digit_char(n % 10);
        assert(forall|k: int| 0 <= k < d.len() - 1 ==> d[k] == decimal(n / 10)[k]);
        assert(digits_value(d) == digits_value(d.drop_last()) * 10 + (d.last() as nat - 48) as nat);
        assert((d.last() as nat - 48) as nat == n % 10);
        assert(n == (n / 10) * 10 + n % 10);
        assert(digits_value(d.drop_last()) == n / 10);
    } else {
        assert(decimal(n).drop_last() =~= Seq::<char>::empty());
        lemma_digit_char(n);
        assert(decimal(n).last() == digit_char(n));
        assert(digits_value(decimal(n)) == digits_value(decimal(n).drop_last()) * 10 + (
        decimal(n).last() as nat - 48) as nat);
        assert(digits_value(Seq::<char>::empty()) == 0);
    }
}

/// The zero-padded digits of `n` are digits, and they are worth `n`.
proof fn lemma_padded_digits(n: nat)
    ensures
        zero_padded(n).len() > 0,
        forall|k: int| 0 <= k < zero_padded(n).len() ==> is_digit(#[trigger] zero_padded(n)[k]),
        digits_value(zero_padded(n)) == n,
{
    lemma_decimal_digits(n);
    if n < 10 {
        let z = zero_padded(n);
        assert(z.drop_last() =~= seq!['0']);
        assert(seq!['0'].drop_last() =~= Seq::<char>::empty());
        assert(digits_value(Seq::<char>::empty()) == 0);
        assert(seq!['0'].last() == '0');
        assert('0' as nat == 48);
        assert(digits_value(seq!['0']) == 0);
        lemma_digit_char(n);
    }
}

/// A run of digits `w` standing at `p` and followed by a character that is not a digit
/// ends there.
proof fn lemma_digit_run(s: Seq<char>, p: int, w: Seq<char>)
    requires
        occurs(s, p, w),
        w.len() > 0,
        forall|k: int| 0 <= k < w.len() ==> is_digit(#[trigger] w[k]),
        p + w.len() == s.len() || !is_digit(s[p + w.len()]),
    ensures
        digit_at(s, p),
        digits_end(s, p) == p + w.len(),
        s.subrange(p, digits_end(s, p)) == w,
{
    assert forall|k: int| p <= k < p + w.len() implies is_digit(#[trigger] s[k]) by {
        lemma_occurs_at(s, p, w, k - p);
    }
    lemma_occurs_at(s, p, w, 0);
    lemma_skip_to(s, p, p + w.len(), |c: char| is_digit(c));
}

/// The timestamp as written for a duration of `d` nanoseconds: its minutes and the
/// text of its seconds.
pub open spec fn stamp_of(d: nat) -> StampView {
    let secs = d / NANOS_PER_SEC as nat;
    StampView {
        minutes: secs / 60,
        seconds: zero_padded(secs % 60) + seq!['.'] + zero_padded(centis(d)),
    }
}

/// A timestamp written for a duration, and followed by a character that neither
/// continues a number nor starts an exponent, reads back as that duration's minutes and
/// text of seconds.
proof fn lemma_timestamp_at(s: Seq<char>, p: int, d: nat)
    requires
        occurs(s, p, timestamp_text(d)),
        p + timestamp_text(d).len() < s.len(),
        !is_digit(s[p + timestamp_text(d).len()]),
        s[p + timestamp_text(d).len()] != '.',
        s[p + timestamp_text(d).len()] != 'e',
        s[p + timestamp_text(d).len()] != 'E',
        d / NANOS_PER_SEC as nat / 60 <= u64::MAX,
    ensures
        timestamp(s, p) == Step::Done(p + timestamp_text(d).len(), stamp_of(d)),
{
    let secs = d / NANOS_PER_SEC as nat;
    let m = zero_padded(secs / 60);
    let sc = zero_padded(secs % 60);
    let cs = zero_padded(centis(d));
    let colon = seq![':'];
    let dot = seq!['.'];
    assert(timestamp_text(d) == m + colon + sc + dot + cs);
    lemma_padded_digits(secs / 60);
    lemma_padded_digits(secs % 60);
    lemma_padded_digits(centis(d));
    lemma_occurs_split(s, p, m + colon + sc + dot, cs);
    lemma_occurs_split(s, p, m + colon + sc, dot);
    lemma_occurs_split(s, p, m + colon, sc);
    lemma_occurs_split(s, p, m, colon);
    let j = p + m.len();
    lemma_occurs_at(s, j, colon, 0);
    lemma_digit_run(s, p, m);
    assert(unsigned_u64(s, p) == Step::<int, nat>::Done(j, secs / 60));
    let a = j + 1 + sc.len();
    lemma_occurs_at(s, a, dot, 0);
    lemma_digit_run(s, j + 1, sc);
    let e = a + 1 + cs.len();
    lemma_digit_run(s, a + 1, cs);
    assert(e == p + timestamp_text(d).len());
    assert(mantissa_end(s, j + 1) == Some(e));
    assert(!at(s, j + 1, '+') && !at(s, j + 1, '-'));
    assert(float_number(s, j + 1) == Step::<int, ()>::Done(e, ()));
    assert(s.subrange(j + 1, a) == sc);
    assert(s.subrange(a, a + 1) == dot);
    assert(s.subrange(a + 1, e) == cs);
    assert(s.subrange(j + 1, e) =~= s.subrange(j + 1, a) + s.subrange(a, a + 1) + s.subrange(
        a + 1,
        e,
    ));
}


/// Texts joined with newlines, joined with a newline between them, are all of them
/// joined with newlines.
proof fn lemma_join_concat(a: Seq<Seq<char>>, b: Seq<Seq<char>>)
    requires
        a.len() > 0,
        b.len() > 0,
    ensures
        joined_lines(a + b) == joined_lines(a) + seq!['\n'] + joined_lines(b),
    decreases b.len(),
{
    if b.len() == 1 {
        assert((a + b).drop_last() =~= a);
        assert((a + b).last() == b[0]);
    } else {
        lemma_join_concat(a, b.drop_last());
        assert((a + b).drop_last() =~= a + b.drop_last());
        assert((a + b).last() == b.last());
    }
}

/// Joined texts of which none is empty are empty exactly when there are none.
proof fn lemma_join_empty(a: Seq<Seq<char>>)
    requires
        forall|k: int| 0 <= k < a.len() ==> #[trigger] a[k].len() > 0,
    ensures
        (joined_lines(a).len() == 0) == (a.len() == 0),
    decreases a.len(),
{
    if a.len() > 1 {
        lemma_join_empty(a.drop_last());
    }
}

/// A non-empty block after a non-empty text, on a line of its own, joins their lines.
proof fn lemma_with_block(a: Seq<Seq<char>>, b: Seq<Seq<char>>)
    requires
        forall|k: int| 0 <= k < a.len() ==> #[trigger] a[k].len() > 0,
        forall|k: int| 0 <= k < b.len() ==> #[trigger] b[k].len() > 0,
    ensures
        with_block(joined_lines(a), joined_lines(b)) == joined_lines(a + b),
{
    lemma_join_empty(a);
    lemma_join_empty(b);
    if b.len() == 0 {
        assert(a + b =~= a);
    } else if a.len() == 0 {
        assert(a + b =~= b);
    } else {
        lemma_join_concat(a, b);
    }
}

/// An ID tag `[key:value]`.
pub open spec fn tag_piece(key: Seq<char>, value: Seq<char>) -> Seq<char> {
    seq!['['] + key + seq![':'] + value + seq![']']
}

/// The ID tag of `key` for `value`, if there is one.
pub open spec fn opt_tag(key: Seq<char>, value: Option<Seq<char>>) -> Seq<(Seq<char>, Seq<char>)> {
    match value {
        Some(v) => seq![(key, v)],
        None => Seq::empty(),
    }
}

/// The ID tags that serialized lyrics write, as keys and values in order.
pub open spec fn id_pairs(v: LyricsView) -> Seq<(Seq<char>, Seq<char>)> {
    opt_tag("ti"@, v.title) + opt_tag("ar"@, v.artist) + opt_tag("al"@, v.album) + opt_tag(
        "au"@,
        v.author,
    ) + opt_tag("lr"@, v.lyricist) + opt_tag(
        "length"@,
        match v.length {
            Some(n) => Some(minutes_seconds_text(n)),
            None => None,
        },
    ) + opt_tag("by"@, v.file_author) + opt_tag(
        "tool"@,
        match v.tool {
            Some(t) => Some(t.name),
            None => None,
        },
    ) + opt_tag(
        "ve"@,
        match v.tool {
            Some(t) => t.version,
            None => None,
        },
    )
}

/// The texts of ID tags.
pub open spec fn tag_pieces(p: Seq<(Seq<char>, Seq<char>)>) -> Seq<Seq<char>> {
    p.map_values(|kv: (Seq<char>, Seq<char>)| tag_piece(kv.0, kv.1))
}

/// The texts that serialized lyrics write one per line: ID tags, comments, lines.
pub open spec fn pieces(v: LyricsView) -> Seq<Seq<char>> {
    tag_pieces(id_pairs(v)) + v.comments.map_values(|c: Seq<char>| tag_piece("#"@, c))
        + v.lines.map_values(|l: LineView| line_text(l))
}

/// Writing the ID tag of `key` after ID tags adds its text as a line of its own.
proof fn lemma_with_tag(p: Seq<(Seq<char>, Seq<char>)>, key: Seq<char>, value: Option<Seq<char>>)
    ensures
        with_tag(joined_lines(tag_pieces(p)), key, value) == joined_lines(
            tag_pieces(p + opt_tag(key, value)),
        ),
{
    assert forall|k: int| 0 <= k < tag_pieces(p).len() implies #[trigger] tag_pieces(p)[k].len()
        > 0 by {
        assert(tag_pieces(p)[k][0] == '[');
    }
    lemma_join_empty(tag_pieces(p));
    match value {
        Some(x) => {
            let q = tag_pieces(p + opt_tag(key, value));
            assert(q =~= tag_pieces(p).push(tag_piece(key, x)));
            assert(q.drop_last() =~= tag_pieces(p));
            if p.len() == 0 {
                assert(id_tag_text(key, x, false) =~= tag_piece(key, x));
            } else {
                assert(id_tag_text(key, x, true) =~= seq!['\n'] + tag_piece(key, x));
            }
        },
        None => {
            assert(p + opt_tag(key, value) =~= p);
        },
    }
}

/// The ID tags of serialized lyrics are their ID tag texts, one per line.
proof fn lemma_id_tags_text(v: LyricsView)
    ensures
        id_tags_text(v) == joined_lines(tag_pieces(id_pairs(v))),
{
    let e = Seq::<(Seq<char>, Seq<char>)>::empty();
    assert(joined_lines(tag_pieces(e)) =~= Seq::<char>::empty());
    let p1 = e + opt_tag("ti"@, v.title);
    lemma_with_tag(e, "ti"@, v.title);
    assert(p1 =~= opt_tag("ti"@, v.title));
    let p2 = p1 + opt_tag("ar"@, v.artist);
    lemma_with_tag(p1, "ar"@, v.artist);
    let p3 = p2 + opt_tag("al"@, v.album);
    lemma_with_tag(p2, "al"@, v.album);
    let p4 = p3 + opt_tag("au"@, v.author);
    lemma_with_tag(p3, "au"@, v.author);
    let p5 = p4 + opt_tag("lr"@, v.lyricist);
    lemma_with_tag(p4, "lr"@, v.lyricist);
    let lo = match v.length {
        Some(n) => Some(minutes_seconds_text(n)),
        None => None,
    };
    let p6 = p5 + opt_tag("length"@, lo);
    lemma_with_tag(p5, "length"@, lo);
    let p7 = p6 + opt_tag("by"@, v.file_author);
    lemma_with_tag(p6, "by"@, v.file_author);
    let to = match v.tool {
        Some(t) => Some(t.name),
        None => None,
    };
    let vo = match v.tool {
        Some(t) => t.version,
        None => None,
    };
    let p8 = p7 + opt_tag("tool"@, to);
    lemma_with_tag(p7, "tool"@, to);
    let p9 = p8 + opt_tag("ve"@, vo);
    lemma_with_tag(p8, "ve"@, vo);
    assert(p9 == id_pairs(v));
    let g = joined_lines(tag_pieces(p7));
    match v.tool {
        Some(t) => {
            let h = joined_lines(tag_pieces(p8));
            assert(h == with_tag(g, "tool"@, Some(t.name)));
            assert(h.len() > 0);
            match t.version {
                Some(x) => {
                    assert(with_tag(h, "ve"@, Some(x)) == h + id_tag_text("ve"@, x, true));
                },
                None => {},
            }
        },
        None => {},
    }
}

/// Serialized lyrics are their pieces, one per line.
proof fn lemma_lyrics_text(v: LyricsView)
    ensures
        lyrics_text(v) == joined_lines(pieces(v)),
{
    let a = tag_pieces(id_pairs(v));
    let b = v.comments.map_values(|c: Seq<char>| tag_piece("#"@, c));
    let c = v.lines.map_values(|l: LineView| line_text(l));
    lemma_id_tags_text(v);
    let b0 = v.comments.map_values(|x: Seq<char>| id_tag_text("#"@, x, false));
    assert(b0 =~= b) by {
        assert forall|k: int| 0 <= k < b.len() implies #[trigger] b0[k] == b[k] by {
            assert(id_tag_text("#"@, v.comments[k], false) =~= tag_piece("#"@, v.comments[k]));
        }
    }
    assert forall|k: int| 0 <= k < a.len() implies #[trigger] a[k].len() > 0 by {
        assert(a[k][0] == '[');
    }
    assert forall|k: int| 0 <= k < b.len() implies #[trigger] b[k].len() > 0 by {
        assert(b[k][0] == '[');
    }
    assert forall|k: int| 0 <= k < c.len() implies #[trigger] c[k].len() > 0 by {
        assert(c[k][0] == '[');
    }
    lemma_with_block(a, b);
    assert forall|k: int| 0 <= k < (a + b).len() implies #[trigger] (a + b)[k].len() > 0 by {
        if k < a.len() {
            assert((a + b)[k] == a[k]);
        } else {
            assert((a + b)[k] == b[k - a.len()]);
        }
    }
    lemma_with_block(a + b, c);
}


/// Texts none of which is empty and each of which starts with a bracket.
pub open spec fn bracketed(ps: Seq<Seq<char>>) -> bool {
    forall|k: int| 0 <= k < ps.len() ==> #[trigger] ps[k].len() > 0 && ps[k][0] == '['
}

/// Where text `k` starts among texts joined with newlines.
pub open spec fn piece_start(ps: Seq<Seq<char>>, k: int) -> int {
    if k == 0 {
        0
    } else {
        joined_lines(ps.take(k)).len() + 1int
    }
}

/// The text `w` stands at `p`, followed by the end of `s` or by a newline and a bracket.
pub open spec fn placed(s: Seq<char>, p: int, w: Seq<char>) -> bool {
    &&& occurs(s, p, w)
    &&& p + w.len() == s.len() || (p + w.len() + 1 < s.len() && s[p + w.len()] == '\n' && s[p
        + w.len() + 1] == '[')
}

/// Where the line after the text `w` at `p` starts, or the end.
pub open spec fn next_pos(s: Seq<char>, p: int, w: Seq<char>) -> int {
    if p + w.len() == s.len() {
        s.len() as int
    } else {
        p + w.len() + 1
    }
}

/// Texts joined with newlines start with the first text, followed by a newline and the
/// start of the second when there is one.
proof fn lemma_join_head(q: Seq<Seq<char>>)
    requires
        q.len() > 0,
        bracketed(q),
    ensures
        occurs(joined_lines(q), 0, q[0]),
        q.len() == 1 ==> joined_lines(q) == q[0],
        q.len() > 1 ==> q[0].len() + 1 < joined_lines(q).len() && joined_lines(q)[q[0].len() as int]
            == '\n' && joined_lines(q)[q[0].len() + 1int] == '[',
    decreases q.len(),
{
    let j = joined_lines(q);
    if q.len() == 1 {
        assert(j.subrange(0, q[0].len() as int) =~= q[0]);
    } else {
        let a = q.take(1);
        let b = q.skip(1);
        assert(q =~= a + b);
        lemma_join_concat(a, b);
        assert(joined_lines(a) == q[0]);
        assert(b[0] == q[1]);
        assert(bracketed(b)) by {
            assert forall|k: int| 0 <= k < b.len() implies #[trigger] b[k].len() > 0 && b[k][0]
                == '[' by {
                assert(b[k] == q[k + 1]);
            }
        }
        lemma_join_head(b);
        let jb = joined_lines(b);
        assert(j == q[0] + seq!['\n'] + jb);
        assert(j.subrange(0, q[0].len() as int) =~= q[0]);
        assert(jb[0] == jb.subrange(0, b[0].len() as int)[0]);
        assert(jb[0] == '[');
    }
}

/// Text `k` of texts joined with newlines stands where it starts, followed by the end
/// or by a newline and the start of the next text.
proof fn lemma_placed(ps: Seq<Seq<char>>, k: int)
    requires
        bracketed(ps),
        0 <= k < ps.len(),
    ensures
        placed(joined_lines(ps), piece_start(ps, k), ps[k]),
        k + 1 < ps.len() ==> piece_start(ps, k + 1) == next_pos(joined_lines(ps), piece_start(ps, k), ps[k]),
        k + 1 == ps.len() ==> next_pos(joined_lines(ps), piece_start(ps, k), ps[k]) == joined_lines(ps).len(),
{
    let s = joined_lines(ps);
    let b = ps.skip(k);
    assert(bracketed(b)) by {
        assert forall|i: int| 0 <= i < b.len() implies #[trigger] b[i].len() > 0 && b[i][0]
            == '[' by {
            assert(b[i] == ps[i + k]);
        }
    }
    assert(b[0] == ps[k]);
    lemma_join_head(b);
    let jb = joined_lines(b);
    let p = piece_start(ps, k);
    if k == 0 {
        assert(b =~= ps);
    } else {
        let a = ps.take(k);
        assert(ps =~= a + b);
        lemma_join_concat(a, b);
        assert(s == joined_lines(a) + seq!['\n'] + jb);
        assert(p == joined_lines(a).len() + 1);
        assert(s.subrange(p, s.len() as int) =~= jb);
        assert(s.subrange(p, p + ps[k].len()) =~= jb.subrange(0, ps[k].len() as int));
        assert forall|i: int| 0 <= i < jb.len() implies s[p + i] == #[trigger] jb[i] by {
            assert(s[p + i] == s.subrange(p, s.len() as int)[i]);
        }
    }
    assert(s.len() == p + jb.len());
    if k + 1 < ps.len() {
        let a1 = ps.take(k + 1);
        if k == 0 {
            assert(a1 =~= seq![ps[0]]);
            assert(joined_lines(a1) == ps[0]);
        } else {
            assert(a1 =~= ps.take(k) + seq![ps[k]]);
            lemma_join_concat(ps.take(k), seq![ps[k]]);
            assert(joined_lines(seq![ps[k]]) == ps[k]);
        }
    } else {
        assert(b.len() == 1);
    }
}


/// After text that is placed, no space follows, and the line ending or the end of the
/// text follows.
proof fn lemma_line_end(s: Seq<char>, p: int, w: Seq<char>)
    requires
        placed(s, p, w),
    ensures
        spaces_end(s, p + w.len()) == p + w.len(),
        newline_or_end(s, p + w.len()) == Step::<int, ()>::Done(next_pos(s, p, w), ()),
{
    let j = p + w.len();
    lemma_skip_to(s, j, j, |c: char| is_space(c));
    if j < s.len() {
        assert(line_endings_end(s, j + 1) == j + 1);
        assert(line_endings_end(s, j) == j + 1);
    } else {
        assert(line_endings_end(s, j) == j);
    }
}

/// Text that a tag value or a comment holds and scans back as it is: no closing
/// bracket, and no space or tab first.
pub open spec fn value_ok(v: Seq<char>) -> bool {
    &&& forall|k: int| 0 <= k < v.len() ==> v[k] != ']'
    &&& v.len() > 0 ==> !is_space(v[0])
}

/// A key that an ID tag written by the lyrics can have: not empty, without a colon,
/// starting with neither a digit nor `#`.
pub open spec fn key_ok(k: Seq<char>) -> bool {
    &&& k.len() > 0
    &&& forall|i: int| 0 <= i < k.len() ==> k[i] != ':'
    &&& !is_digit(k[0])
    &&& k[0] != '#'
}

/// The search for `stop` from `i` stops at the first position that holds it.
proof fn lemma_until_to(s: Seq<char>, i: int, j: int, stop: char)
    requires
        0 <= i <= j <= s.len(),
        forall|k: int| i <= k < j ==> #[trigger] s[k] != stop,
        j == s.len() || s[j] == stop,
    ensures
        until_char(s, i, stop) == j,
    decreases j - i,
{
    if i < j {
        lemma_until_to(s, i + 1, j, stop);
        assert(until_char(s, i, stop) == until_char(s, i + 1, stop));
    }
}

/// The end of a value that stands at `p` and is followed by a closing bracket.
proof fn lemma_value_end(s: Seq<char>, p: int, v: Seq<char>)
    requires
        occurs(s, p, v),
        value_ok(v),
        p + v.len() < s.len(),
        s[p + v.len()] == ']',
    ensures
        spaces_end(s, p) == p,
        until_char(s, p, ']') == p + v.len(),
{
    assert forall|k: int| p <= k < p + v.len() implies #[trigger] s[k] != ']' by {
        lemma_occurs_at(s, p, v, k - p);
    }
    lemma_until_to(s, p, p + v.len(), ']');
    if v.len() > 0 {
        lemma_occurs_at(s, p, v, 0);
    }
    lemma_skip_to(s, p, p, |c: char| is_space(c));
}

/// An ID tag written by the lyrics scans back as that tag.
proof fn lemma_tag_item(s: Seq<char>, p: int, key: Seq<char>, value: Seq<char>)
    requires
        placed(s, p, tag_piece(key, value)),
        key_ok(key),
        value_ok(value),
    ensures
        header_item(s, p) == Step::<int, ItemView>::Done(
            next_pos(s, p, tag_piece(key, value)),
            ItemView::Id { key, value },
        ),
{
    let w = tag_piece(key, value);
    let o = seq!['['];
    let colon = seq![':'];
    let cl = seq![']'];
    lemma_occurs_split(s, p, o + key + colon + value, cl);
    lemma_occurs_split(s, p, o + key + colon, value);
    lemma_occurs_split(s, p, o + key, colon);
    lemma_occurs_split(s, p, o, key);
    let c = p + 1 + key.len();
    let e = c + 1 + value.len();
    lemma_occurs_at(s, p, o, 0);
    lemma_occurs_at(s, p + 1, key, 0);
    lemma_occurs_at(s, c, colon, 0);
    lemma_occurs_at(s, e, cl, 0);
    assert(comment(s, p) is Error);
    assert forall|k: int| p + 1 <= k < c implies #[trigger] s[k] != ':' by {
        lemma_occurs_at(s, p + 1, key, k - p - 1);
    }
    lemma_until_to(s, p + 1, c, ':');
    lemma_value_end(s, c + 1, value);
    lemma_line_end(s, p, w);
    assert(e + 1 == p + w.len());
    assert(tag_end(s, e) == Step::<int, ()>::Done(next_pos(s, p, w), ()));
    assert(id_tag(s, p) == Step::<int, (Seq<char>, Seq<char>)>::Done(
        next_pos(s, p, w),
        (key, value),
    ));
}

/// A comment written by the lyrics scans back as that comment.
proof fn lemma_comment_item(s: Seq<char>, p: int, c: Seq<char>)
    requires
        placed(s, p, tag_piece("#"@, c)),
        value_ok(c),
    ensures
        header_item(s, p) == Step::<int, ItemView>::Done(
            next_pos(s, p, tag_piece("#"@, c)),
            ItemView::Comment(c),
        ),
{
    reveal_strlit("#");
    let w = tag_piece("#"@, c);
    let o = seq!['['];
    let colon = seq![':'];
    let cl = seq![']'];
    let h = "#"@;
    lemma_occurs_split(s, p, o + h + colon + c, cl);
    lemma_occurs_split(s, p, o + h + colon, c);
    lemma_occurs_split(s, p, o + h, colon);
    lemma_occurs_split(s, p, o, h);
    let e = p + 3 + c.len();
    lemma_occurs_at(s, p, o, 0);
    lemma_occurs_at(s, p + 1, h, 0);
    lemma_occurs_at(s, p + 2, colon, 0);
    lemma_occurs_at(s, e, cl, 0);
    lemma_value_end(s, p + 3, c);
    lemma_line_end(s, p, w);
    assert(e + 1 == p + w.len());
    assert(tag_end(s, e) == Step::<int, ()>::Done(next_pos(s, p, w), ()));
    assert(comment(s, p) == Step::<int, Seq<char>>::Done(next_pos(s, p, w), c));
}


/// A duration whose whole minutes fit in a `u64`, as those of every duration do.
pub open spec fn stamp_fits(d: nat) -> bool {
    d / NANOS_PER_SEC as nat / 60 <= u64::MAX
}

/// A timestamp written between `open` and `close` reads back as its minutes and text of
/// seconds.
proof fn lemma_delimited_at(s: Seq<char>, p: int, d: nat, open: char, close: char)
    requires
        occurs(s, p, seq![open] + timestamp_text(d) + seq![close]),
        stamp_fits(d),
        !is_digit(close),
        close != '.' && close != 'e' && close != 'E',
    ensures
        delimited_timestamp(s, p, open, close) == Step::Done(
            p + timestamp_text(d).len() + 2,
            stamp_of(d),
        ),
{
    let t = timestamp_text(d);
    lemma_occurs_split(s, p, seq![open] + t, seq![close]);
    lemma_occurs_split(s, p, seq![open], t);
    lemma_occurs_at(s, p, seq![open], 0);
    lemma_occurs_at(s, p + 1 + t.len(), seq![close], 0);
    lemma_timestamp_at(s, p + 1, d);
}

/// The search for `<` or a newline from `i` stops at the first position that holds one.
proof fn lemma_until_a2_to(s: Seq<char>, i: int, j: int)
    requires
        0 <= i <= j <= s.len(),
        forall|k: int| i <= k < j ==> #[trigger] s[k] != '<' && s[k] != '\n',
        j == s.len() || s[j] == '<' || s[j] == '\n',
    ensures
        until_a2(s, i) == j,
    decreases j - i,
{
    if i < j {
        lemma_until_a2_to(s, i + 1, j);
        assert(until_a2(s, i) == until_a2(s, i + 1));
    }
}

/// The written segments of a prefix of segments are a prefix of the written segments.
proof fn lemma_segments_prefix(s: Seq<char>, b: int, segs: Seq<SegmentView>, m: int, a2: bool)
    requires
        occurs(s, b, segments_text(segs, a2)),
        0 <= m <= segs.len(),
    ensures
        occurs(s, b, segments_text(segs.take(m), a2)),
    decreases segs.len(),
{
    if m == segs.len() {
        assert(segs.take(m) =~= segs);
    } else {
        let f = segs.drop_last();
        lemma_occurs_split(s, b, segments_text(f, a2), segment_text(segs.last(), a2));
        assert(f.take(m) =~= segs.take(m));
        lemma_segments_prefix(s, b, f, m, a2);
    }
}

/// Text a segment holds and scans back as it is: no `<` and no newline, and neither a
/// space, a tab nor a carriage return first.
pub open spec fn content_ok(c: Seq<char>) -> bool {
    &&& forall|k: int| 0 <= k < c.len() ==> c[k] != '<' && c[k] != '\n'
    &&& c.len() > 0 ==> !is_space(c[0]) && c[0] != '\r'
}

/// A line whose timestamps fit and whose segments hold text that scans back.
pub open spec fn line_ok(l: LineView) -> bool {
    &&& stamp_fits(l.timestamp)
    &&& forall|j: int|
        0 <= j < l.segments.len() ==> stamp_fits(#[trigger] l.segments[j].timestamp)
            && content_ok(l.segments[j].content)
}

/// Whether a line is written with A2 timestamps on its segments.
pub open spec fn writes_a2(l: LineView) -> bool {
    let n = l.segments.len();
    n > 1 || (n == 1 && (l.segments[0].timestamp > l.timestamp || l.segments[0].content.len()
        == 0))
}

/// A segment as written with its A2 timestamp.
pub open spec fn raw_segment_of(x: SegmentView) -> crate::parser::RawSegmentView {
    crate::parser::RawSegmentView { timestamp: stamp_of(x.timestamp), content: x.content }
}

/// A line as its LRC text is scanned back.
pub open spec fn raw_line_of(l: LineView) -> crate::parser::RawLineView {
    crate::parser::RawLineView {
        timestamp: stamp_of(l.timestamp),
        segments: if writes_a2(l) {
            l.segments.map_values(|x: SegmentView| raw_segment_of(x))
        } else if l.segments.len() == 1 {
            seq![
                crate::parser::RawSegmentView {
                    timestamp: stamp_of(l.timestamp),
                    content: l.segments[0].content,
                },
            ]
        } else {
            Seq::empty()
        },
    }
}


/// A single segment is written as that segment.
proof fn lemma_one_segment(x: Seq<SegmentView>, a2: bool)
    requires
        x.len() == 1,
    ensures
        segments_text(x, a2) == segment_text(x[0], a2),
{
    assert(x.drop_last() =~= Seq::<SegmentView>::empty());
    assert(segments_text(x.drop_last(), a2) =~= Seq::<char>::empty());
    assert(Seq::<char>::empty() + segment_text(x[0], a2) =~= segment_text(x[0], a2));
}

/// Segments whose timestamps fit and whose texts scan back.
pub open spec fn segments_ok(segs: Seq<SegmentView>) -> bool {
    forall|j: int|
        0 <= j < segs.len() ==> stamp_fits(#[trigger] segs[j].timestamp) && content_ok(
            segs[j].content,
        )
}

/// Segments written with their A2 timestamps, followed by a newline or the end, scan
/// back from segment `j` on as those segments.
#[verifier::spinoff_prover]
#[verifier::rlimit(40)]
proof fn lemma_a2_run(s: Seq<char>, b: int, segs: Seq<SegmentView>, j: int)
    requires
        occurs(s, b, segments_text(segs, true)),
        b + segments_text(segs, true).len() == s.len() || s[b + segments_text(segs, true).len()]
            == '\n',
        segments_ok(segs),
        0 <= j <= segs.len(),
    ensures
        a2_tags(s, b + segments_text(segs.take(j), true).len()) == Step::Done(
            b + segments_text(segs, true).len(),
            segs.subrange(j, segs.len() as int).map_values(|x: SegmentView| raw_segment_of(x)),
        ),
    decreases segs.len() - j,
{
    let n = segs.len() as int;
    let e_all = b + segments_text(segs, true).len();
    let q = b + segments_text(segs.take(j), true).len();
    if j == n {
        assert(segs.take(j) =~= segs);
        assert(!at(s, q, '<'));
        assert(a2_tag(s, q) is Error);
        assert(segs.subrange(j, n).map_values(|x: SegmentView| raw_segment_of(x)) =~= Seq::<
            crate::parser::RawSegmentView,
        >::empty());
    } else {
        let x = segs[j];
        assert(segs.take(j + 1).drop_last() =~= segs.take(j));
        assert(segs.take(j + 1).last() == x);
        let q1 = b + segments_text(segs.take(j + 1), true).len();
        lemma_segments_prefix(s, b, segs, j + 1, true);
        lemma_occurs_split(s, b, segments_text(segs.take(j), true), segment_text(x, true));
        let a2 = a2_timestamp_text(x.timestamp);
        let sp = seq![' '];
        let c = x.content;
        assert(segment_text(x, true) == a2 + sp + c);
        lemma_occurs_split(s, q, a2 + sp, c);
        lemma_occurs_split(s, q, a2, sp);
        assert(a2 == seq!['<'] + timestamp_text(x.timestamp) + seq!['>']);
        lemma_delimited_at(s, q, x.timestamp, '<', '>');
        let g = q + a2.len();
        lemma_occurs_at(s, g, sp, 0);
        assert(q1 == g + 1 + c.len());
        if j + 1 < n {
            lemma_segments_prefix(s, b, segs, j + 2, true);
            let y = segs[j + 1];
            assert(segs.take(j + 2).drop_last() =~= segs.take(j + 1));
            assert(segs.take(j + 2).last() == y);
            lemma_occurs_split(s, b, segments_text(segs.take(j + 1), true), segment_text(y, true));
            assert(segment_text(y, true)[0] == '<');
            lemma_occurs_at(s, q1, segment_text(y, true), 0);
        } else {
            assert(segs.take(j + 1) =~= segs);
        }
        assert(q1 == s.len() || s[q1] == '<' || s[q1] == '\n');
        if c.len() > 0 {
            lemma_occurs_at(s, g + 1, c, 0);
        }
        lemma_skip_to(s, g, g + 1, |ch: char| is_space(ch));
        assert forall|k: int| g + 1 <= k < q1 implies #[trigger] s[k] != '<' && s[k] != '\n' by {
            lemma_occurs_at(s, g + 1, c, k - g - 1);
        }
        lemma_until_a2_to(s, g + 1, q1);
        assert(s.subrange(g + 1, q1) == c);
        assert(a2_tag(s, q) == Step::Done(q1, raw_segment_of(x)));
        lemma_a2_run(s, b, segs, j + 1);
        assert(segs.subrange(j, n).map_values(|x: SegmentView| raw_segment_of(x)) =~= seq![
            raw_segment_of(x),
        ] + segs.subrange(j + 1, n).map_values(|x: SegmentView| raw_segment_of(x)));
    }
}


/// A line with segments, as the lyrics write it, is not read as an ID tag: after the
/// closing bracket of its timestamp, a space and its first segment follow, not the end
/// of a line.
#[verifier::spinoff_prover]
#[verifier::rlimit(40)]
proof fn lemma_line_not_tag(s: Seq<char>, p: int, l: LineView)
    requires
        placed(s, p, line_text(l)),
        line_ok(l),
        l.segments.len() > 0,
    ensures
        id_tag(s, p) is Error,
{
    let segs = l.segments;
    let d = l.timestamp;
    let secs = d / NANOS_PER_SEC as nat;
    let m = zero_padded(secs / 60);
    let sc = zero_padded(secs % 60);
    let cs = zero_padded(centis(d));
    let colon = seq![':'];
    let dot = seq!['.'];
    let tt = timestamp_text(d);
    let head = standard_timestamp_text(d);
    let sp = seq![' '];
    assert(tt == m + colon + sc + dot + cs);
    assert(head == seq!['['] + tt + seq![']']);
    lemma_padded_digits(secs / 60);
    lemma_padded_digits(secs % 60);
    lemma_padded_digits(centis(d));
    let st = if writes_a2(l) {
        segments_text(segs, true)
    } else {
        segments_text(segs, false)
    };
    let w = line_text(l);
    assert(w =~= head + (sp + st));
    lemma_occurs_split(s, p, head, sp + st);
    lemma_occurs_split(s, p + head.len(), sp, st);
    lemma_occurs_split(s, p, seq!['['] + tt, seq![']']);
    lemma_occurs_split(s, p, seq!['['], tt);
    lemma_occurs_split(s, p + 1, m + colon + sc + dot, cs);
    lemma_occurs_split(s, p + 1, m + colon + sc, dot);
    lemma_occurs_split(s, p + 1, m + colon, sc);
    lemma_occurs_split(s, p + 1, m, colon);
    let c = p + 1 + m.len();
    let e = p + 1 + tt.len();
    lemma_occurs_at(s, c, colon, 0);
    lemma_occurs_at(s, c + 1 + sc.len(), dot, 0);
    lemma_occurs_at(s, e, seq![']'], 0);
    lemma_occurs_at(s, e + 1, sp, 0);
    assert forall|k: int| p + 1 <= k < c implies #[trigger] s[k] != ':' by {
        lemma_occurs_at(s, p + 1, m, k - p - 1);
    }
    lemma_until_to(s, p + 1, c, ':');
    lemma_occurs_at(s, c + 1, sc, 0);
    lemma_skip_to(s, c + 1, c + 1, |ch: char| is_space(ch));
    assert forall|k: int| c + 1 <= k < e implies #[trigger] s[k] != ']' by {
        if k < c + 1 + sc.len() {
            lemma_occurs_at(s, c + 1, sc, k - c - 1);
        } else if k > c + 1 + sc.len() {
            lemma_occurs_at(s, c + 2 + sc.len(), cs, k - c - 2 - sc.len());
        }
    }
    lemma_until_to(s, c + 1, e, ']');
    // What follows the space: the first segment.
    if writes_a2(l) {
        lemma_segments_prefix(s, e + 2, segs, 1, true);
        lemma_one_segment(segs.take(1), true);
        assert(segs.take(1)[0] == segs[0]);
        lemma_occurs_at(s, e + 2, segment_text(segs[0], true), 0);
        assert(s[e + 2] == '<');
    } else {
        lemma_one_segment(segs, false);
        let x = segs[0].content;
        assert(content_ok(x));
        assert(x.len() > 0);
        lemma_occurs_at(s, e + 2, x, 0);
        assert(s[e + 2] == x[0]);
    }
    assert(e + 2 < s.len());
    lemma_skip_to(s, e + 1, e + 2, |ch: char| is_space(ch));
    assert(line_endings_end(s, e + 2) == e + 2);
    assert(newline_or_end(s, e + 2) is Error);
    assert(tag_end(s, e) is Error);
}

/// A line written by the lyrics is not read as an ID tag or a comment, and scans back
/// as the line as written.
#[verifier::spinoff_prover]
#[verifier::rlimit(60)]
proof fn lemma_line_item(s: Seq<char>, p: int, l: LineView)
    requires
        placed(s, p, line_text(l)),
        line_ok(l),
    ensures
        l.segments.len() > 0 ==> header_item(s, p) is Error,
        body_item(s, p) == Step::<int, ItemView>::Done(
            next_pos(s, p, line_text(l)),
            ItemView::Timed(raw_line_of(l)),
        ),
{
    let w = line_text(l);
    let segs = l.segments;
    let n = segs.len();
    let head = standard_timestamp_text(l.timestamp);
    let tt = timestamp_text(l.timestamp);
    let e_all = p + w.len();
    let sp = seq![' '];
    assert(head == seq!['['] + tt + seq![']']);
    assert(segments_ok(segs));
    lemma_line_end(s, p, w);
    let rest = if writes_a2(l) {
        sp + segments_text(segs, true)
    } else if n == 1 {
        sp + segments_text(segs, false)
    } else {
        Seq::<char>::empty()
    };
    assert(w =~= head + rest);
    lemma_occurs_split(s, p, head, rest);
    lemma_delimited_at(s, p, l.timestamp, '[', ']');
    let q = p + head.len();
    let t = stamp_of(l.timestamp);
    lemma_padded_digits(l.timestamp / NANOS_PER_SEC as nat / 60);
    lemma_occurs_at(s, p, head, 1);
    assert(digit_at(s, p + 1));
    assert(comment(s, p) is Error);
    if segs.len() > 0 {
        lemma_line_not_tag(s, p, l);
    }
    if writes_a2(l) {
        let st = segments_text(segs, true);
        lemma_occurs_split(s, p + head.len(), sp, st);
        lemma_occurs_at(s, q, sp, 0);
        lemma_segments_prefix(s, q + 1, segs, 1, true);
        lemma_one_segment(segs.take(1), true);
        assert(segs.take(1)[0] == segs[0]);
        lemma_occurs_at(s, q + 1, segment_text(segs[0], true), 0);
        lemma_skip_to(s, q, q + 1, |ch: char| is_space(ch));
        assert(segs.take(0) =~= Seq::<SegmentView>::empty());
        lemma_a2_run(s, q + 1, segs, 0);
        assert(segs.subrange(0, n as int) =~= segs);
        assert(line_with_a2(s, p) == Step::<int, crate::parser::RawLineView>::Done(
            next_pos(s, p, w),
            raw_line_of(l),
        ));
    } else if n == 1 {
        let c = segs[0].content;
        lemma_one_segment(segs, false);
        assert(segments_text(segs, false) == c);
        assert(c.len() > 0);
        assert(content_ok(c));
        lemma_occurs_split(s, q, sp, c);
        lemma_occurs_at(s, q, sp, 0);
        lemma_occurs_at(s, q + 1, c, 0);
        lemma_skip_to(s, q, q + 1, |ch: char| is_space(ch));
        assert(a2_tag(s, q + 1) is Error);
        assert(a2_tags(s, q + 1) == Step::<int, Seq<crate::parser::RawSegmentView>>::Done(
            q + 1,
            Seq::empty(),
        ));
        assert(line_endings_end(s, q + 1) == q + 1);
        assert(newline_or_end(s, q + 1) is Error);
        assert(line_with_a2(s, p) is Error);
        assert forall|k: int| q + 1 <= k < e_all implies #[trigger] s[k] != '\n' by {
            lemma_occurs_at(s, q + 1, c, k - q - 1);
        }
        lemma_until_to(s, q + 1, e_all, '\n');
        assert(s.subrange(q + 1, e_all) == c);
        assert(standard_line(s, p) == Step::<int, crate::parser::RawLineView>::Done(
            next_pos(s, p, w),
            raw_line_of(l),
        ));
    } else {
        assert(q == e_all);
        assert(a2_tag(s, q) is Error);
        assert(a2_tags(s, q) == Step::<int, Seq<crate::parser::RawSegmentView>>::Done(
            q,
            Seq::empty(),
        ));
        assert(raw_line_of(l).segments =~= Seq::<crate::parser::RawSegmentView>::empty());
        assert(line_with_a2(s, p) == Step::<int, crate::parser::RawLineView>::Done(
            next_pos(s, p, w),
            raw_line_of(l),
        ));
    }
}


/// An optional text that scans back as it is.
pub open spec fn opt_ok(o: Option<Seq<char>>) -> bool {
    match o {
        Some(x) => value_ok(x),
        None => true,
    }
}

/// Lyrics whose texts scan back as they are: ID tag values and comments without a
/// closing bracket and without a space or tab first, segments whose text scans back,
/// timestamps whose minutes fit, and a first line with segments (a first line written
/// as a bare timestamp reads as an ID tag).
pub open spec fn lyrics_ok(v: LyricsView) -> bool {
    &&& opt_ok(v.title)
    &&& opt_ok(v.artist)
    &&& opt_ok(v.album)
    &&& opt_ok(v.author)
    &&& opt_ok(v.lyricist)
    &&& opt_ok(v.file_author)
    &&& v.tool matches Some(t) ==> value_ok(t.name) && opt_ok(t.version)
    &&& forall|k: int| 0 <= k < v.comments.len() ==> value_ok(#[trigger] v.comments[k])
    &&& forall|k: int| 0 <= k < v.lines.len() ==> line_ok(#[trigger] v.lines[k])
    &&& v.lines.len() > 0 ==> v.lines[0].segments.len() > 0
}

/// The elements that serialized lyrics scan back as: their ID tags, their comments, and
/// their lines as written.
pub open spec fn serialized_items(v: LyricsView) -> Seq<ItemView> {
    id_pairs(v).map_values(|kv: (Seq<char>, Seq<char>)| ItemView::Id { key: kv.0, value: kv.1 })
        + v.comments.map_values(|c: Seq<char>| ItemView::Comment(c)) + v.lines.map_values(
        |l: LineView| ItemView::Timed(raw_line_of(l)),
    )
}

/// ID tags whose keys and values scan back.
spec fn pairs_ok(p: Seq<(Seq<char>, Seq<char>)>) -> bool {
    forall|k: int| 0 <= k < p.len() ==> key_ok(#[trigger] p[k].0) && value_ok(p[k].1)
}

proof fn lemma_pairs_concat(a: Seq<(Seq<char>, Seq<char>)>, b: Seq<(Seq<char>, Seq<char>)>)
    requires
        pairs_ok(a),
        pairs_ok(b),
    ensures
        pairs_ok(a + b),
{
    assert forall|k: int| 0 <= k < (a + b).len() implies key_ok(#[trigger] (a + b)[k].0)
        && value_ok((a + b)[k].1) by {
        if k < a.len() {
            assert((a + b)[k] == a[k]);
            assert(key_ok(a[k].0) && value_ok(a[k].1));
        } else {
            assert((a + b)[k] == b[k - a.len()]);
            assert(key_ok(b[k - a.len()].0) && value_ok(b[k - a.len()].1));
        }
    }
}

proof fn lemma_opt_tag_ok(key: Seq<char>, o: Option<Seq<char>>)
    requires
        key_ok(key),
        opt_ok(o),
    ensures
        pairs_ok(opt_tag(key, o)),
{
}

/// The text of a length, whole minutes and seconds, scans back as it is.
proof fn lemma_length_ok(n: nat)
    ensures
        value_ok(minutes_seconds_text(n)),
{
    let secs = n / NANOS_PER_SEC as nat;
    let a = decimal(secs / 60);
    let b = decimal(secs % 60);
    lemma_decimal_digits(secs / 60);
    lemma_decimal_digits(secs % 60);
    let t = minutes_seconds_text(n);
    assert(t == a + seq![':'] + b);
    assert forall|k: int| 0 <= k < t.len() implies t[k] != ']' by {
        if k < a.len() {
            assert(is_digit(a[k]));
        } else if k > a.len() {
            assert(t[k] == b[k - a.len() - 1]);
            assert(is_digit(b[k - a.len() - 1]));
        }
    }
    assert(is_digit(a[0]));
}

/// The ID tags of lyrics whose texts scan back have keys and values that scan back.
proof fn lemma_id_pairs_ok(v: LyricsView)
    requires
        lyrics_ok(v),
    ensures
        pairs_ok(id_pairs(v)),
{
    reveal_strlit("ti");
    reveal_strlit("ar");
    reveal_strlit("al");
    reveal_strlit("au");
    reveal_strlit("lr");
    reveal_strlit("length");
    reveal_strlit("by");
    reveal_strlit("tool");
    reveal_strlit("ve");
    let lo = match v.length {
        Some(n) => Some(minutes_seconds_text(n)),
        None => None,
    };
    match v.length {
        Some(n) => lemma_length_ok(n),
        None => {},
    }
    let to = match v.tool {
        Some(t) => Some(t.name),
        None => None,
    };
    let vo = match v.tool {
        Some(t) => t.version,
        None => None,
    };
    let p1 = opt_tag("ti"@, v.title);
    let p2 = p1 + opt_tag("ar"@, v.artist);
    let p3 = p2 + opt_tag("al"@, v.album);
    let p4 = p3 + opt_tag("au"@, v.author);
    let p5 = p4 + opt_tag("lr"@, v.lyricist);
    let p6 = p5 + opt_tag("length"@, lo);
    let p7 = p6 + opt_tag("by"@, v.file_author);
    let p8 = p7 + opt_tag("tool"@, to);
    let p9 = p8 + opt_tag("ve"@, vo);
    lemma_opt_tag_ok("ti"@, v.title);
    lemma_opt_tag_ok("ar"@, v.artist);
    lemma_pairs_concat(p1, opt_tag("ar"@, v.artist));
    lemma_opt_tag_ok("al"@, v.album);
    lemma_pairs_concat(p2, opt_tag("al"@, v.album));
    lemma_opt_tag_ok("au"@, v.author);
    lemma_pairs_concat(p3, opt_tag("au"@, v.author));
    lemma_opt_tag_ok("lr"@, v.lyricist);
    lemma_pairs_concat(p4, opt_tag("lr"@, v.lyricist));
    lemma_opt_tag_ok("length"@, lo);
    lemma_pairs_concat(p5, opt_tag("length"@, lo));
    lemma_opt_tag_ok("by"@, v.file_author);
    lemma_pairs_concat(p6, opt_tag("by"@, v.file_author));
    lemma_opt_tag_ok("tool"@, to);
    lemma_pairs_concat(p7, opt_tag("tool"@, to));
    lemma_opt_tag_ok("ve"@, vo);
    lemma_pairs_concat(p8, opt_tag("ve"@, vo));
    assert(p9 == id_pairs(v));
}

/// The pieces of serialized lyrics all start with a bracket.
proof fn lemma_pieces_bracketed(v: LyricsView)
    ensures
        bracketed(pieces(v)),
{
    let a = tag_pieces(id_pairs(v));
    let b = v.comments.map_values(|c: Seq<char>| tag_piece("#"@, c));
    let c = v.lines.map_values(|l: LineView| line_text(l));
    assert forall|k: int| 0 <= k < pieces(v).len() implies #[trigger] pieces(v)[k].len() > 0
        && pieces(v)[k][0] == '[' by {
        if k < a.len() {
            assert(pieces(v)[k] == a[k]);
        } else if k < a.len() + b.len() {
            assert(pieces(v)[k] == b[k - a.len()]);
        } else {
            assert(pieces(v)[k] == c[k - a.len() - b.len()]);
        }
    }
}

/// Where the line of element `k` of serialized lyrics starts, or the end of the text.
spec fn item_start(v: LyricsView, k: int) -> int {
    if k < pieces(v).len() {
        piece_start(pieces(v), k)
    } else {
        joined_lines(pieces(v)).len() as int
    }
}

/// Element `k` of serialized lyrics scans back: an ID tag or a comment in the header,
/// a line in the body.
#[verifier::spinoff_prover]
#[verifier::rlimit(60)]
proof fn lemma_item(v: LyricsView, k: int)
    requires
        lyrics_ok(v),
        0 <= k < pieces(v).len(),
    ensures
        item_start(v, k) < item_start(v, k + 1) <= joined_lines(pieces(v)).len(),
        k < id_pairs(v).len() + v.comments.len() ==> header_item(
            joined_lines(pieces(v)),
            item_start(v, k),
        ) == Step::Done(item_start(v, k + 1), serialized_items(v)[k]),
        k == id_pairs(v).len() + v.comments.len() ==> header_item(
            joined_lines(pieces(v)),
            item_start(v, k),
        ) is Error,
        k >= id_pairs(v).len() + v.comments.len() ==> body_item(
            joined_lines(pieces(v)),
            item_start(v, k),
        ) == Step::Done(item_start(v, k + 1), serialized_items(v)[k]),
{
    let ps = pieces(v);
    let s = joined_lines(ps);
    let items = serialized_items(v);
    let na = id_pairs(v).len() as int;
    let nb = v.comments.len() as int;
    lemma_pieces_bracketed(v);
    lemma_placed(ps, k);
    let p = piece_start(ps, k);
    assert(item_start(v, k) == p);
    assert(item_start(v, k + 1) == next_pos(s, p, ps[k]));
    if k < na {
        lemma_id_pairs_ok(v);
        let kv = id_pairs(v)[k];
        assert(ps[k] == tag_piece(kv.0, kv.1));
        assert(items[k] == ItemView::Id { key: kv.0, value: kv.1 });
        assert(key_ok(kv.0) && value_ok(kv.1));
        lemma_tag_item(s, p, kv.0, kv.1);
    } else if k < na + nb {
        let c = v.comments[k - na];
        assert(ps[k] == tag_piece("#"@, c));
        assert(items[k] == ItemView::Comment(c));
        assert(value_ok(c));
        lemma_comment_item(s, p, c);
    } else {
        let l = v.lines[k - na - nb];
        assert(ps[k] == line_text(l));
        assert(items[k] == ItemView::Timed(raw_line_of(l)));
        assert(line_ok(l));
        if k == na + nb {
            assert(l == v.lines[0]);
            assert(l.segments.len() > 0);
        }
        lemma_line_item(s, p, l);
    }
}


/// The ID tags and comments of serialized lyrics scan back from element `k` on, up to
/// the first line.
#[verifier::spinoff_prover]
#[verifier::rlimit(40)]
proof fn lemma_header_run(v: LyricsView, k: int)
    requires
        lyrics_ok(v),
        0 <= k <= id_pairs(v).len() + v.comments.len(),
    ensures
        header_items(joined_lines(pieces(v)), item_start(v, k)) == Step::Done(
            item_start(v, id_pairs(v).len() + v.comments.len() as int),
            serialized_items(v).subrange(k, id_pairs(v).len() + v.comments.len() as int),
        ),
    decreases id_pairs(v).len() + v.comments.len() - k,
{
    let s = joined_lines(pieces(v));
    let h = id_pairs(v).len() + v.comments.len() as int;
    let items = serialized_items(v);
    if k < h {
        lemma_item(v, k);
        lemma_header_run(v, k + 1);
        assert(items.subrange(k, h) =~= seq![items[k]] + items.subrange(k + 1, h));
    } else {
        if k < pieces(v).len() {
            lemma_item(v, k);
        } else {
            assert(!at(s, s.len() as int, '['));
        }
        assert(items.subrange(k, h) =~= Seq::<ItemView>::empty());
    }
}

/// The lines of serialized lyrics scan back from element `k` on, up to the end.
#[verifier::spinoff_prover]
#[verifier::rlimit(40)]
proof fn lemma_body_run(v: LyricsView, k: int)
    requires
        lyrics_ok(v),
        id_pairs(v).len() + v.comments.len() <= k <= pieces(v).len(),
    ensures
        body_items(joined_lines(pieces(v)), item_start(v, k)) == Step::Done(
            joined_lines(pieces(v)).len() as int,
            serialized_items(v).subrange(k, pieces(v).len() as int),
        ),
    decreases pieces(v).len() - k,
{
    let s = joined_lines(pieces(v));
    let n = pieces(v).len() as int;
    let items = serialized_items(v);
    if k < n {
        lemma_item(v, k);
        lemma_body_run(v, k + 1);
        assert(items.subrange(k, n) =~= seq![items[k]] + items.subrange(k + 1, n));
    } else {
        let e = s.len() as int;
        assert(item_start(v, k) == e);
        assert(!at(s, e, '['));
        assert(comment(s, e) is Error);
        assert(delimited_timestamp(s, e, '[', ']') is Error);
        assert(line_with_a2(s, e) is Error);
        assert(standard_line(s, e) is Error);
        assert(body_item(s, e) is Error);
        assert(items.subrange(k, n) =~= Seq::<ItemView>::empty());
    }
}

/// Serialized lyrics scan back as their ID tags, their comments and their lines as
/// written, whenever their texts are ones that LRC can hold: ID tag values and comments
/// without a closing bracket and without a space or tab first, segment texts without
/// `<` or a newline and without a space, a tab or a carriage return first, and a first
/// line with segments.
#[verifier::spinoff_prover]
#[verifier::rlimit(40)]
pub proof fn serialized_lyrics_scan_back(v: LyricsView)
    requires
        lyrics_ok(v),
    ensures
        scan_items(lyrics_text(v)) == Ok::<Seq<ItemView>, (int, crate::error::ErrorKind)>(
            serialized_items(v),
        ),
{
    lemma_lyrics_text(v);
    let ps = pieces(v);
    let s = joined_lines(ps);
    let h = id_pairs(v).len() + v.comments.len() as int;
    let n = ps.len() as int;
    let items = serialized_items(v);
    assert(items.len() == n);
    if n == 0 {
        assert(s.len() == 0);
    }
    assert(item_start(v, 0) == 0);
    lemma_header_run(v, 0);
    lemma_body_run(v, h);
    assert(items.subrange(0, h) + items.subrange(h, n) =~= items);
}

} // verus!
