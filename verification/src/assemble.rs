//! From scanned LRC text to synced lyrics: the ID tags are read in order, the
//! timestamps as written are handed out to be measured, and the measured lines are
//! moved by the offset tag and checked for order.
use vstd::prelude::*;

use crate::duration::Duration;
use crate::laws::{
    comment_of, id_tags_last_one_wins, last_tag_value, lyrics_check_accepts_exactly_ordered, lyrics_ordered,
    scanned_text_keeps_all_comments_and_lines, timed_line_of,
};
use crate::error::{Error, ErrorKind};
use crate::lyrics::{
    joined_lines, lyrics_order_issue, text_opt, LRCTool, LyricsView, SyncedLyrics, ToolView,
};
use crate::parser::{
    at, item_views, scan_items, timestamp, unsigned_int, ItemView,
    RawLine, RawLineView, RawSegment, RawSegmentView, RawTimestamp, ScannedLine, StampView, Step,
};
use crate::scanner::{
    char_at, chars_of, parse_timestamp, parse_unsigned_int, scan_lines, syntax_error, text_of,
};
use crate::tags::{
    line_shiftable, line_views, segment_views, shifted_line, LineTag, LineView, LyricsAccess,
    SegmentTag, SegmentView,
};
use crate::text::push_char;
use vstd::string::*;

verus! {

/// The ID tags read so far, as mathematical values.
pub struct MetaView {
    pub title: Option<Seq<char>>,
    pub artist: Option<Seq<char>>,
    pub album: Option<Seq<char>>,
    pub author: Option<Seq<char>>,
    pub lyricist: Option<Seq<char>>,
    pub length: Option<StampView>,
    pub file_author: Option<Seq<char>>,
    pub offset: Option<int>,
    pub tool_name: Option<Seq<char>>,
    pub tool_version: Option<Seq<char>>,
}

/// Why reading the ID tags failed: an unknown key, or a value that is not written as
/// its key requires (the rest of the value from the error on, and the kind of error).
pub enum TagError {
    UnknownKey(Seq<char>),
    Syntax(Seq<char>, ErrorKind),
}

/// Whether `e` is the error `t`.
pub open spec fn tag_error_is(e: Error, t: TagError) -> bool {
    match t {
        TagError::UnknownKey(k) => e matches Error::UnknownKey { key } && key@ == k,
        TagError::Syntax(rest, kind) => e matches Error::Nom { input, error } && input@ == rest
            && error == kind,
    }
}

/// No ID tag read yet.
pub open spec fn empty_meta() -> MetaView {
    MetaView {
        title: None,
        artist: None,
        album: None,
        author: None,
        lyricist: None,
        length: None,
        file_author: None,
        offset: None,
        tool_name: None,
        tool_version: None,
    }
}

/// The value of a `length` tag: a timestamp `m:s` and nothing after it.
pub open spec fn length_value(v: Seq<char>) -> Result<StampView, (int, ErrorKind)> {
    match timestamp(v, 0) {
        Step::Done(e, t) => if e == v.len() {
            Ok(t)
        } else {
            Err((e, ErrorKind::Eof))
        },
        Step::Error(p, k) => Err((p, k)),
        Step::Failure(p, k) => Err((p, k)),
    }
}

/// The digits after a sign at the start of an offset value, as a number that fits in
/// a `u32`, and where they end.
pub open spec fn signed_digits(v: Seq<char>, sign: char) -> Result<(int, nat), (int, ErrorKind)> {
    if !at(v, 0, sign) {
        Err((0, ErrorKind::Char))
    } else {
        match unsigned_int(v, 1) {
            Step::Done(j, n) => Ok((j, n)),
            Step::Error(p, k) => Err((p, k)),
            Step::Failure(p, k) => Err((p, k)),
        }
    }
}

/// `x` as the value of a tag whose text ended at `end`, unless text follows.
pub open spec fn value_ends(v: Seq<char>, end: int, x: int) -> Result<int, (int, ErrorKind)> {
    if end == v.len() {
        Ok(x)
    } else {
        Err((end, ErrorKind::Eof))
    }
}

/// The value of an `offset` tag in milliseconds: `+` or `-`, then digits that fit in
/// a `u32`, and nothing after them.
pub open spec fn offset_value(v: Seq<char>) -> Result<int, (int, ErrorKind)> {
    match signed_digits(v, '+') {
        Ok((j, n)) => value_ends(v, j, n as int),
        Err(_) => match signed_digits(v, '-') {
            Ok((j, n)) => value_ends(v, j, -(n as int)),
            Err(e) => Err(e),
        },
    }
}

/// Reads one ID tag into `m`.
pub open spec fn read_tag(m: MetaView, key: Seq<char>, value: Seq<char>) -> Result<MetaView, TagError> {
    if key == "ti"@ {
        Ok(MetaView { title: Some(value), ..m })
    } else if key == "ar"@ {
        Ok(MetaView { artist: Some(value), ..m })
    } else if key == "al"@ {
        Ok(MetaView { album: Some(value), ..m })
    } else if key == "au"@ {
        Ok(MetaView { author: Some(value), ..m })
    } else if key == "lr"@ {
        Ok(MetaView { lyricist: Some(value), ..m })
    } else if key == "length"@ {
        match length_value(value) {
            Ok(t) => Ok(MetaView { length: Some(t), ..m }),
            Err((p, k)) => Err(TagError::Syntax(value.subrange(p, value.len() as int), k)),
        }
    } else if key == "by"@ {
        Ok(MetaView { file_author: Some(value), ..m })
    } else if key == "offset"@ {
        match offset_value(value) {
            Ok(o) => Ok(MetaView { offset: Some(o), ..m }),
            Err((p, k)) => Err(TagError::Syntax(value.subrange(p, value.len() as int), k)),
        }
    } else if key == "re"@ || key == "tool"@ {
        Ok(MetaView { tool_name: Some(value), ..m })
    } else if key == "ve"@ {
        Ok(MetaView { tool_version: Some(value), ..m })
    } else {
        Err(TagError::UnknownKey(key))
    }
}

/// Reads the ID tags among the elements in order; the first tag that fails stops it.
pub open spec fn read_tags(items: Seq<ItemView>) -> Result<MetaView, TagError>
    decreases items.len(),
{
    if items.len() == 0 {
        Ok(empty_meta())
    } else {
        match read_tags(items.drop_last()) {
            Err(e) => Err(e),
            Ok(m) => match items.last() {
                ItemView::Id { key, value } => read_tag(m, key, value),
                _ => Ok(m),
            },
        }
    }
}

/// The comments among the elements, in order.
pub open spec fn comments_of(items: Seq<ItemView>) -> Seq<Seq<char>>
    decreases items.len(),
{
    if items.len() == 0 {
        Seq::empty()
    } else {
        comments_of(items.drop_last()) + match items.last() {
            ItemView::Comment(c) => seq![c],
            _ => Seq::empty(),
        }
    }
}

/// The timed lines among the elements, in order.
pub open spec fn timed_of(items: Seq<ItemView>) -> Seq<RawLineView>
    decreases items.len(),
{
    if items.len() == 0 {
        Seq::empty()
    } else {
        timed_of(items.drop_last()) + match items.last() {
            ItemView::Timed(l) => seq![l],
            _ => Seq::empty(),
        }
    }
}

/// The segments of a line as written, joined together.
pub open spec fn raw_contents(s: Seq<RawSegmentView>) -> Seq<char>
    decreases s.len(),
{
    if s.len() == 0 {
        Seq::empty()
    } else {
        raw_contents(s.drop_last()) + s.last().content
    }
}

/// The text of the timed lines among the elements without their tags, one per line.
pub open spec fn stripped_text(items: Seq<ItemView>) -> Seq<char> {
    joined_lines(timed_of(items).map_values(|l: RawLineView| raw_contents(l.segments)))
}

/// Strips tags from lyrics.
///
/// This function is primarily useful for removing malformed tags from lyrics that couldn't be
/// parsed if you want to avoid showing users the malformed data. It removes unknown ID
/// tags and incorrectly ordered timed tags alike, but fails on text with syntax errors.
pub fn strip_tags(i: &str) -> (r: Result<String, Error>)
    ensures
        match scan_items(i@) {
            Ok(items) => r matches Ok(s) && s@ == stripped_text(items),
            Err((p, kind)) => r matches Err(e) && syntax_error(e, i@, p, kind),
        },
{
    let lines = match scan_lines(i) {
        Ok(l) => l,
        Err(e) => return Err(e),
    };
    let ghost items = item_views(lines@);
    let ghost parts = timed_of(items).map_values(|l: RawLineView| raw_contents(l.segments));
    let mut s = String::new();
    let mut any = false;
    let mut k: usize = 0;
    while k < lines.len()
        invariant
            k <= lines@.len(),
            items == item_views(lines@),
            any == (timed_of(items.subrange(0, k as int)).len() > 0),
            s@ == joined_lines(
                timed_of(items.subrange(0, k as int)).map_values(
                    |l: RawLineView| raw_contents(l.segments),
                ),
            ),
        decreases lines@.len() - k,
    {
        let ghost prefix = items.subrange(0, k as int);
        let ghost next = items.subrange(0, k + 1);
        assert(next.drop_last() =~= prefix);
        assert(next.last() == lines@[k as int]@);
        match &lines[k] {
            ScannedLine::Timed(line) => {
                let t = raw_line_contents(line);
                let ghost before = timed_of(prefix).map_values(
                    |l: RawLineView| raw_contents(l.segments),
                );
                if any {
                    push_char(&mut s, '\n');
                }
                s.append(t.as_str());
                any = true;
                proof {
                    let after = timed_of(next).map_values(|l: RawLineView| raw_contents(l.segments));
                    assert(timed_of(next) =~= timed_of(prefix).push(line@));
                    assert(after =~= before.push(t@));
                    assert(after.drop_last() =~= before);
                    if before.len() == 0 {
                        assert(s@ =~= joined_lines(after));
                    } else {
                        assert(s@ =~= joined_lines(after));
                    }
                }
            },
            _ => {
                proof {
                    assert(timed_of(next) =~= timed_of(prefix));
                }
            },
        }
        k = k + 1;
    }
    assert(items.subrange(0, lines@.len() as int) =~= items);
    Ok(s)
}

/// The segments of a line as written, joined together.
fn raw_line_contents(line: &RawLine) -> (s: String)
    ensures
        s@ == raw_contents(line@.segments),
{
    let mut s = String::new();
    let n = line.segments.len();
    let mut i: usize = 0;
    while i < n
        invariant
            n == line.segments@.len(),
            i <= n,
            s@ == raw_contents(line@.segments.subrange(0, i as int)),
        decreases n - i,
    {
        s.append(line.segments[i].content.as_str());
        proof {
            let v = line@.segments;
            assert(v.subrange(0, i + 1).drop_last() =~= v.subrange(0, i as int));
            assert(v[i as int] == line.segments@[i as int]@);
        }
        i = i + 1;
    }
    assert(line@.segments.subrange(0, n as int) =~= line@.segments);
    s
}

/// Scanned LRC text: its ID tags read, its comments, and its timed lines with their
/// timestamps as written.
#[derive(Clone, PartialEq, Eq, Hash, Debug)]
pub struct LrcScan {
    pub title: Option<String>,
    pub artist: Option<String>,
    pub album: Option<String>,
    pub author: Option<String>,
    pub lyricist: Option<String>,
    /// The length of the song, as written.
    pub length: Option<RawTimestamp>,
    pub file_author: Option<String>,
    /// The offset in milliseconds by which every timed tag is moved.
    pub offset: Option<i64>,
    pub tool: Option<LRCTool>,
    pub comments: Vec<String>,
    pub lines: Vec<RawLine>,
}

/// Scanned LRC text as a mathematical value.
pub struct ScanView {
    pub title: Option<Seq<char>>,
    pub artist: Option<Seq<char>>,
    pub album: Option<Seq<char>>,
    pub author: Option<Seq<char>>,
    pub lyricist: Option<Seq<char>>,
    pub length: Option<StampView>,
    pub file_author: Option<Seq<char>>,
    pub offset: Option<int>,
    pub tool: Option<ToolView>,
    pub comments: Seq<Seq<char>>,
    pub lines: Seq<RawLineView>,
}

/// The view of an optional timestamp as written.
pub open spec fn raw_stamp_opt(o: Option<RawTimestamp>) -> Option<StampView> {
    match o {
        Some(t) => Some(t@),
        None => None,
    }
}

impl View for LrcScan {
    type V = ScanView;

    open spec fn view(&self) -> ScanView {
        ScanView {
            title: text_opt(self.title),
            artist: text_opt(self.artist),
            album: text_opt(self.album),
            author: text_opt(self.author),
            lyricist: text_opt(self.lyricist),
            length: raw_stamp_opt(self.length),
            file_author: text_opt(self.file_author),
            offset: match self.offset {
                Some(o) => Some(o as int),
                None => None,
            },
            tool: match self.tool {
                Some(t) => Some(t@),
                None => None,
            },
            comments: self.comments@.map_values(|c: String| c@),
            lines: self.lines@.map_values(|l: RawLine| l@),
        }
    }
}

/// The tool tag made of the tool name and version read, if a name was read.
pub open spec fn tool_of(m: MetaView) -> Option<ToolView> {
    match m.tool_name {
        Some(name) => Some(ToolView { name, version: m.tool_version }),
        None => None,
    }
}

/// Scanned text made of the ID tags read and the elements.
pub open spec fn scan_view(m: MetaView, items: Seq<ItemView>) -> ScanView {
    ScanView {
        title: m.title,
        artist: m.artist,
        album: m.album,
        author: m.author,
        lyricist: m.lyricist,
        length: m.length,
        file_author: m.file_author,
        offset: m.offset,
        tool: tool_of(m),
        comments: comments_of(items),
        lines: timed_of(items),
    }
}

/// Whether a string spells the text `lit`.
fn text_is(s: &String, lit: &str) -> (b: bool)
    ensures
        b == (s@ == lit@),
{
    let a = s.as_str();
    let n = a.unicode_len();
    if n != lit.unicode_len() {
        return false;
    }
    let mut i: usize = 0;
    while i < n
        invariant
            n == a@.len(),
            n == lit@.len(),
            a@ == s@,
            i <= n,
            forall|k: int| 0 <= k < i ==> a@[k] == lit@[k],
        decreases n - i,
    {
        if a.get_char(i) != lit.get_char(i) {
            return false;
        }
        i = i + 1;
    }
    assert(a@ =~= lit@);
    true
}

/// Reads the value of a `length` tag: a timestamp `m:s` and nothing after it.
pub fn read_length(value: &String) -> (r: Result<RawTimestamp, Error>)
    ensures
        match length_value(value@) {
            Ok(t) => r matches Ok(x) && x@ == t,
            Err((p, k)) => r matches Err(e) && tag_error_is(
                e,
                TagError::Syntax(value@.subrange(p, value@.len() as int), k),
            ),
        },
{
    let v = chars_of(value.as_str());
    match parse_timestamp(&v, 0) {
        Step::Done(e, t) => {
            if e == v.len() {
                Ok(t)
            } else {
                Err(Error::Nom { input: text_of(&v, e, v.len()), error: ErrorKind::Eof })
            }
        },
        Step::Error(p, k) => Err(Error::Nom { input: text_of(&v, p, v.len()), error: k }),
        Step::Failure(p, k) => Err(Error::Nom { input: text_of(&v, p, v.len()), error: k }),
    }
}

/// The digits after a sign at the start of an offset value.
fn read_signed_digits(v: &Vec<char>, sign: char) -> (r: Result<(usize, u64), (usize, ErrorKind)>)
    ensures
        match (r, signed_digits(v@, sign)) {
            (Ok((j, n)), Ok((j2, n2))) => j == j2 && n == n2 && j <= v@.len(),
            (Err((p, k)), Err((p2, k2))) => p == p2 && k == k2 && p <= v@.len(),
            _ => false,
        },
{
    if !char_at(v, 0, sign) {
        return Err((0, ErrorKind::Char));
    }
    match parse_unsigned_int(v, 1) {
        Step::Done(j, n) => Ok((j, n as u64)),
        Step::Error(p, k) => Err((p, k)),
        Step::Failure(p, k) => Err((p, k)),
    }
}

/// Reads the value of an `offset` tag in milliseconds.
pub fn read_offset(value: &String) -> (r: Result<i64, Error>)
    ensures
        match offset_value(value@) {
            Ok(o) => r matches Ok(x) && x == o,
            Err((p, k)) => r matches Err(e) && tag_error_is(
                e,
                TagError::Syntax(value@.subrange(p, value@.len() as int), k),
            ),
        },
{
    let v = chars_of(value.as_str());
    let (j, x) = match read_signed_digits(&v, '+') {
        Ok((j, n)) => (j, n as i64),
        Err(_) => match read_signed_digits(&v, '-') {
            Ok((j, n)) => (j, -(n as i64)),
            Err((p, k)) => {
                return Err(Error::Nom { input: text_of(&v, p, v.len()), error: k });
            },
        },
    };
    if j == v.len() {
        Ok(x)
    } else {
        Err(Error::Nom { input: text_of(&v, j, v.len()), error: ErrorKind::Eof })
    }
}

impl RawLine {
    /// A copy of the line.
    pub fn copy(&self) -> (r: RawLine)
        ensures
            r@ == self@,
    {
        let mut segments: Vec<RawSegment> = Vec::new();
        let n = self.segments.len();
        let mut i: usize = 0;
        while i < n
            invariant
                i <= n,
                n == self.segments@.len(),
                segments@.map_values(|x: RawSegment| x@) == self@.segments.subrange(0, i as int),
            decreases n - i,
        {
            let seg = &self.segments[i];
            let c = RawSegment { timestamp: seg.timestamp.clone_raw(), content: seg.content.clone() };
            let ghost before = segments@;
            segments.push(c);
            proof {
                assert(before.push(c).map_values(|x: RawSegment| x@) =~= before.map_values(
                    |x: RawSegment| x@,
                ).push(c@));
                assert(self@.segments[i as int] == seg@);
                assert(segments@.map_values(|x: RawSegment| x@) =~= self@.segments.subrange(
                    0,
                    i + 1,
                ));
            }
            i = i + 1;
        }
        let r = RawLine { timestamp: self.timestamp.clone_raw(), segments };
        assert(r@.segments =~= self@.segments);
        r
    }
}

/// The ID tags read so far, as values of the program.
struct Meta {
    title: Option<String>,
    artist: Option<String>,
    album: Option<String>,
    author: Option<String>,
    lyricist: Option<String>,
    length: Option<RawTimestamp>,
    file_author: Option<String>,
    offset: Option<i64>,
    tool_name: Option<String>,
    tool_version: Option<String>,
}

impl View for Meta {
    type V = MetaView;

    closed spec fn view(&self) -> MetaView {
        MetaView {
            title: text_opt(self.title),
            artist: text_opt(self.artist),
            album: text_opt(self.album),
            author: text_opt(self.author),
            lyricist: text_opt(self.lyricist),
            length: raw_stamp_opt(self.length),
            file_author: text_opt(self.file_author),
            offset: match self.offset {
                Some(o) => Some(o as int),
                None => None,
            },
            tool_name: text_opt(self.tool_name),
            tool_version: text_opt(self.tool_version),
        }
    }
}

/// Reads one ID tag into `m`.
fn read_id_tag(m: &mut Meta, key: &String, value: &String) -> (r: Result<(), Error>)
    ensures
        match read_tag(old(m)@, key@, value@) {
            Ok(n) => r is Ok && final(m)@ == n,
            Err(t) => r matches Err(e) && tag_error_is(e, t),
        },
{
    if text_is(key, "ti") {
        m.title = Some(value.clone());
    } else if text_is(key, "ar") {
        m.artist = Some(value.clone());
    } else if text_is(key, "al") {
        m.album = Some(value.clone());
    } else if text_is(key, "au") {
        m.author = Some(value.clone());
    } else if text_is(key, "lr") {
        m.lyricist = Some(value.clone());
    } else if text_is(key, "length") {
        m.length = Some(read_length(value)?);
    } else if text_is(key, "by") {
        m.file_author = Some(value.clone());
    } else if text_is(key, "offset") {
        m.offset = Some(read_offset(value)?);
    } else if text_is(key, "re") || text_is(key, "tool") {
        m.tool_name = Some(value.clone());
    } else if text_is(key, "ve") {
        m.tool_version = Some(value.clone());
    } else {
        return Err(Error::UnknownKey { key: key.clone() });
    }
    Ok(())
}

impl LrcScan {
    /// Scans LRC text: checks its syntax, reads its ID tags in order, and gathers its
    /// comments and its timed lines with their timestamps as written.
    pub fn scan(text: &str) -> (r: Result<LrcScan, Error>)
        ensures
            match scan_items(text@) {
                Err((p, kind)) => r matches Err(e) && syntax_error(e, text@, p, kind),
                Ok(items) => match read_tags(items) {
                    Err(t) => r matches Err(e) && tag_error_is(e, t),
                    Ok(m) => r matches Ok(x) && x@ == scan_view(m, items),
                },
            },
            r matches Ok(x) ==> x@.comments == scan_items(text@)->Ok_0.filter_map(
                |y: ItemView| comment_of(y),
            ) && x@.lines == scan_items(text@)->Ok_0.filter_map(|y: ItemView| timed_line_of(y)),
            r matches Ok(x) ==> x@.title == last_tag_value(scan_items(text@)->Ok_0, "ti"@, "ti"@)
                && x@.artist == last_tag_value(scan_items(text@)->Ok_0, "ar"@, "ar"@)
                && x@.album == last_tag_value(scan_items(text@)->Ok_0, "al"@, "al"@)
                && x@.author == last_tag_value(scan_items(text@)->Ok_0, "au"@, "au"@)
                && x@.lyricist == last_tag_value(scan_items(text@)->Ok_0, "lr"@, "lr"@)
                && x@.file_author == last_tag_value(scan_items(text@)->Ok_0, "by"@, "by"@)
                && x@.tool == match last_tag_value(scan_items(text@)->Ok_0, "re"@, "tool"@) {
                Some(name) => Some(
                    ToolView {
                        name,
                        version: last_tag_value(scan_items(text@)->Ok_0, "ve"@, "ve"@),
                    },
                ),
                None => None,
            },
    {
        let lines = scan_lines(text)?;
        let ghost items = item_views(lines@);
        proof {
            match read_tags(items) {
                Ok(m) => {
                    scanned_text_keeps_all_comments_and_lines(m, items);
                    id_tags_last_one_wins(items);
                },
                Err(_) => {},
            }
        }
        let mut meta = Meta {
            title: None,
            artist: None,
            album: None,
            author: None,
            lyricist: None,
            length: None,
            file_author: None,
            offset: None,
            tool_name: None,
            tool_version: None,
        };
        let mut comments: Vec<String> = Vec::new();
        let mut timed: Vec<RawLine> = Vec::new();
        let mut k: usize = 0;
        while k < lines.len()
            invariant
                k <= lines@.len(),
                items == item_views(lines@),
                scan_items(text@) == Ok::<Seq<ItemView>, (int, ErrorKind)>(items),
                read_tags(items.subrange(0, k as int)) == Ok::<MetaView, TagError>(meta@),
                comments@.map_values(|c: String| c@) == comments_of(items.subrange(0, k as int)),
                timed@.map_values(|l: RawLine| l@) == timed_of(items.subrange(0, k as int)),
            decreases lines@.len() - k,
        {
            let ghost prefix = items.subrange(0, k as int);
            let ghost next = items.subrange(0, k + 1);
            assert(next.drop_last() =~= prefix);
            assert(next.last() == lines@[k as int]@);
            match &lines[k] {
                ScannedLine::Id { key, value } => {
                    let ghost before = meta@;
                    match read_id_tag(&mut meta, key, value) {
                        Ok(()) => {},
                        Err(e) => {
                            proof {
                                assert(read_tags(next) == read_tag(before, key@, value@));
                                lemma_read_tags_stops(items, k as int);
                            }
                            return Err(e);
                        },
                    }
                    assert(comments_of(next) =~= comments_of(prefix));
                    assert(timed_of(next) =~= timed_of(prefix));
                },
                ScannedLine::Comment(c) => {
                    let ghost before = comments@;
                    let c2 = c.clone();
                    comments.push(c2);
                    proof {
                        assert(comments@.map_values(|c: String| c@) =~= before.map_values(
                            |c: String| c@,
                        ).push(c2@));
                        assert(comments_of(next) =~= comments_of(prefix).push(c2@));
                        assert(timed_of(next) =~= timed_of(prefix));
                    }
                },
                ScannedLine::Timed(l) => {
                    let ghost before = timed@;
                    let l2 = l.copy();
                    timed.push(l2);
                    proof {
                        assert(timed@.map_values(|l: RawLine| l@) =~= before.map_values(
                            |l: RawLine| l@,
                        ).push(l2@));
                        assert(timed_of(next) =~= timed_of(prefix).push(l2@));
                        assert(comments_of(next) =~= comments_of(prefix));
                    }
                },
            }
            k = k + 1;
        }
        assert(items.subrange(0, lines@.len() as int) =~= items);
        let tool = match meta.tool_name {
            Some(name) => Some(LRCTool { name, version: meta.tool_version }),
            None => None,
        };
        let r = LrcScan {
            title: meta.title,
            artist: meta.artist,
            album: meta.album,
            author: meta.author,
            lyricist: meta.lyricist,
            length: meta.length,
            file_author: meta.file_author,
            offset: meta.offset,
            tool,
            comments,
            lines: timed,
        };
        Ok(r)
    }
}

/// Once reading the ID tags of a prefix fails, reading them all fails the same way.
proof fn lemma_read_tags_stops(items: Seq<ItemView>, k: int)
    requires
        0 <= k < items.len(),
        read_tags(items.subrange(0, k + 1)) is Err,
    ensures
        read_tags(items) == read_tags(items.subrange(0, k + 1)),
    decreases items.len() - k,
{
    if k + 1 == items.len() {
        assert(items.subrange(0, k + 1) =~= items);
    } else {
        assert(items.subrange(0, k + 2).drop_last() =~= items.subrange(0, k + 1));
        assert(read_tags(items.subrange(0, k + 2)) == read_tags(items.subrange(0, k + 1)));
        lemma_read_tags_stops(items, k + 1);
    }
}

/// The timestamps of a line as written: its own, then its segments'.
pub open spec fn raw_line_stamps(l: RawLineView) -> Seq<StampView> {
    seq![l.timestamp] + l.segments.map_values(|x: RawSegmentView| x.timestamp)
}

/// The timestamps of lines as written, line after line.
pub open spec fn raw_lines_stamps(ls: Seq<RawLineView>) -> Seq<StampView>
    decreases ls.len(),
{
    if ls.len() == 0 {
        Seq::empty()
    } else {
        raw_lines_stamps(ls.drop_last()) + raw_line_stamps(ls.last())
    }
}

/// The timestamps of scanned text as written, in the order in which they are to be
/// measured: the length, if any, then those of the lines.
pub open spec fn scan_stamps(v: ScanView) -> Seq<StampView> {
    (match v.length {
        Some(t) => seq![t],
        None => Seq::empty(),
    }) + raw_lines_stamps(v.lines)
}

/// A line made of a line as written and the measures `t` of its timestamps.
pub open spec fn measured_line(l: RawLineView, t: Seq<nat>) -> LineView {
    LineView {
        timestamp: t[0],
        segments: Seq::new(
            l.segments.len(),
            |j: int| SegmentView { timestamp: t[j + 1], content: l.segments[j].content },
        ),
    }
}

/// Lines made of lines as written and the measures `t` of their timestamps, taken in
/// the order of [`raw_lines_stamps`].
pub open spec fn measured_lines(ls: Seq<RawLineView>, t: Seq<nat>) -> Seq<LineView>
    decreases ls.len(),
{
    if ls.len() == 0 {
        Seq::empty()
    } else {
        let b = raw_lines_stamps(ls.drop_last()).len() as int;
        measured_lines(ls.drop_last(), t).push(
            measured_line(ls.last(), t.subrange(b, b + 1 + ls.last().segments.len())),
        )
    }
}

/// Why assembling failed.
pub enum AssemblyError {
    /// A timestamp left the range of durations when moved by the offset.
    Overflow,
    /// The lines are out of order at a position, with a message.
    Order(nat, Seq<char>),
}

/// Whether every line stays in range when moved by `o` milliseconds.
pub open spec fn all_shiftable(ls: Seq<LineView>, o: int) -> bool {
    forall|i: int| 0 <= i < ls.len() ==> #[trigger] line_shiftable(ls[i], o)
}

/// The lines of scanned text measured with `t`, moved by its offset.
pub open spec fn moved_lines(v: ScanView, t: Seq<nat>) -> Option<Seq<LineView>> {
    let base = if v.length is Some {
        1int
    } else {
        0int
    };
    let ls = measured_lines(v.lines, t.skip(base));
    match v.offset {
        None => Some(ls),
        Some(o) => if all_shiftable(ls, o) {
            Some(ls.map_values(|l: LineView| shifted_line(l, o)))
        } else {
            None
        },
    }
}

/// Synced lyrics assembled from scanned text and the measures `t` of its timestamps.
pub open spec fn assembled(v: ScanView, t: Seq<nat>) -> Result<LyricsView, AssemblyError> {
    match moved_lines(v, t) {
        None => Err(AssemblyError::Overflow),
        Some(ls) => match lyrics_order_issue(ls) {
            Some((i, m)) => Err(AssemblyError::Order(i, m)),
            None => Ok(
                LyricsView {
                    title: v.title,
                    artist: v.artist,
                    album: v.album,
                    author: v.author,
                    lyricist: v.lyricist,
                    length: if v.length is Some {
                        Some(t[0])
                    } else {
                        None
                    },
                    file_author: v.file_author,
                    tool: v.tool,
                    comments: v.comments,
                    lines: ls,
                },
            ),
        },
    }
}

/// The measures of durations.
pub open spec fn measures(d: Seq<Duration>) -> Seq<nat> {
    d.map_values(|x: Duration| x@)
}

/// The stamps of a prefix of lines are a prefix of the stamps of all lines.
proof fn lemma_raw_stamps_prefix(ls: Seq<RawLineView>, i: int)
    requires
        0 <= i <= ls.len(),
    ensures
        raw_lines_stamps(ls.subrange(0, i)).len() <= raw_lines_stamps(ls).len(),
    decreases ls.len() - i,
{
    if i < ls.len() {
        lemma_raw_stamps_prefix(ls, i + 1);
        assert(ls.subrange(0, i + 1).drop_last() =~= ls.subrange(0, i));
    } else {
        assert(ls.subrange(0, i) =~= ls);
    }
}

impl LrcScan {
    /// The timestamps as written that are to be measured, in order: the length, if
    /// any, then for each line its own timestamp followed by its segments'.
    pub fn raw_timestamps(&self) -> (r: Vec<RawTimestamp>)
        ensures
            r@.map_values(|x: RawTimestamp| x@) == scan_stamps(self@),
    {
        let mut r: Vec<RawTimestamp> = Vec::new();
        match &self.length {
            Some(t) => r.push(t.clone_raw()),
            None => {},
        }
        let ghost head = r@.map_values(|x: RawTimestamp| x@);
        assert(head =~= match self@.length {
            Some(t) => seq![t],
            None => Seq::<StampView>::empty(),
        });
        let ghost ls = self@.lines;
        let mut i: usize = 0;
        while i < self.lines.len()
            invariant
                i <= self.lines@.len(),
                ls == self@.lines,
                r@.map_values(|x: RawTimestamp| x@) == head + raw_lines_stamps(
                    ls.subrange(0, i as int),
                ),
            decreases self.lines@.len() - i,
        {
            let line = &self.lines[i];
            assert(ls[i as int] == line@);
            let ghost before = r@.map_values(|x: RawTimestamp| x@);
            let t = line.timestamp.clone_raw();
            r.push(t);
            let n = line.segments.len();
            let mut j: usize = 0;
            while j < n
                invariant
                    j <= n,
                    n == line.segments@.len(),
                    r@.map_values(|x: RawTimestamp| x@) == before + seq![line@.timestamp]
                        + line@.segments.subrange(0, j as int).map_values(
                        |x: RawSegmentView| x.timestamp,
                    ),
                decreases n - j,
            {
                let ghost b2 = r@;
                let t = line.segments[j].timestamp.clone_raw();
                r.push(t);
                proof {
                    assert(line@.segments[j as int] == line.segments@[j as int]@);
                    assert(b2.push(t).map_values(|x: RawTimestamp| x@) =~= b2.map_values(
                        |x: RawTimestamp| x@,
                    ).push(t@));
                    assert(line@.segments.subrange(0, j + 1).map_values(
                        |x: RawSegmentView| x.timestamp,
                    ) =~= line@.segments.subrange(0, j as int).map_values(
                        |x: RawSegmentView| x.timestamp,
                    ).push(line@.segments[j as int].timestamp));
                    assert(r@.map_values(|x: RawTimestamp| x@) =~= before + seq![line@.timestamp]
                        + line@.segments.subrange(0, j + 1).map_values(
                        |x: RawSegmentView| x.timestamp,
                    ));
                }
                j = j + 1;
            }
            proof {
                assert(line@.segments.subrange(0, n as int) =~= line@.segments);
                assert(ls.subrange(0, i + 1).drop_last() =~= ls.subrange(0, i as int));
                assert(r@.map_values(|x: RawTimestamp| x@) =~= head + raw_lines_stamps(
                    ls.subrange(0, i + 1),
                ));
            }
            i = i + 1;
        }
        assert(ls.subrange(0, ls.len() as int) =~= ls);
        r
    }
}

/// Whether `r` is the outcome of assembling that `a` describes.
pub open spec fn assembly_outcome(r: Result<SyncedLyrics, Error>, a: Result<LyricsView, AssemblyError>) -> bool {
    match a {
        Ok(v) => r matches Ok(l) && l@ == v,
        Err(AssemblyError::Overflow) => r matches Err(Error::TimestampOffsetOverflow),
        Err(AssemblyError::Order(i, m)) => r matches Err(Error::InvalidTimestampOrder { index, message })
            && index == i && message@ == m,
    }
}

/// The lines measured so far, moved by the offset if there is one.
pub open spec fn moved_prefix(ls: Seq<LineView>, offset: Option<int>) -> Seq<LineView> {
    match offset {
        None => ls,
        Some(o) => ls.map_values(|l: LineView| shifted_line(l, o)),
    }
}

/// A line measured with the timestamps from position `pos` of `stamps`.
fn measure_line(raw: &RawLine, stamps: &[Duration], pos: usize) -> (l: LineTag)
    requires
        pos + 1 + raw@.segments.len() <= stamps@.len(),
    ensures
        l@ == measured_line(
            raw@,
            measures(stamps@).subrange(pos as int, pos + 1 + raw@.segments.len()),
        ),
{
    let ghost t = measures(stamps@);
    let total = stamps.len();
    let k = raw.segments.len();
    let mut segments: Vec<SegmentTag> = Vec::new();
    let mut j: usize = 0;
    while j < k
        invariant
            j <= k,
            k == raw@.segments.len(),
            pos + 1 + k <= stamps@.len(),
            total == stamps@.len(),
            t == measures(stamps@),
            segment_views(segments@) == Seq::new(
                j as nat,
                |q: int| SegmentView { timestamp: t[pos + 1 + q], content: raw@.segments[q].content },
            ),
        decreases k - j,
    {
        let content = raw.segments[j].content.clone();
        assert(raw@.segments[j as int] == raw.segments@[j as int]@);
        let seg = SegmentTag { timestamp: stamps[pos + 1 + j], content };
        let ghost before = segments@;
        segments.push(seg);
        proof {
            assert(t[pos + 1 + j] == stamps@[pos + 1 + j]@);
            assert(segment_views(before.push(seg)) =~= segment_views(before).push(seg@));
            assert(segment_views(segments@) =~= Seq::new(
                (j + 1) as nat,
                |q: int| SegmentView { timestamp: t[pos + 1 + q], content: raw@.segments[q].content },
            ));
        }
        j = j + 1;
    }
    let line = LineTag { timestamp: stamps[pos], segments };
    proof {
        let ts = t.subrange(pos as int, pos + 1 + k);
        let ml = measured_line(raw@, ts);
        assert(line@.timestamp == ml.timestamp);
        assert(line@.segments =~= ml.segments);
    }
    line
}

/// A line that cannot be moved by the offset makes the whole assembly overflow.
proof fn lemma_overflow(v: ScanView, t: Seq<nat>, i: int, o: int)
    requires
        v.offset == Some(o),
        0 <= i < v.lines.len(),
        !line_shiftable(
            measured_lines(
                v.lines,
                t.skip(
                    if v.length is Some {
                        1int
                    } else {
                        0int
                    },
                ),
            )[i],
            o,
        ),
    ensures
        moved_lines(v, t) is None,
{
    let base = if v.length is Some {
        1int
    } else {
        0int
    };
    let ls = measured_lines(v.lines, t.skip(base));
    lemma_measured_len(v.lines, t.skip(base));
    assert(!line_shiftable(ls[i], o));
    assert(!(forall|j: int| 0 <= j < ls.len() ==> #[trigger] line_shiftable(ls[j], o)));
}

impl SyncedLyrics {
    /// Assembles synced lyrics from scanned text and the measures of its timestamps,
    /// given in the order of [`LrcScan::raw_timestamps`]: every timed tag is moved by
    /// the offset tag, then the lines are checked to be in order in themselves and each
    /// to start strictly after the last timestamp of the line before it, as
    /// [`LyricsAccess::check_timestamp_order`] checks them.
    pub fn from_scan(scan: LrcScan, stamps: &[Duration]) -> (r: Result<SyncedLyrics, Error>)
        requires
            stamps@.len() == scan_stamps(scan@).len(),
        ensures
            assembly_outcome(r, assembled(scan@, measures(stamps@))),
            r matches Ok(l) ==> lyrics_ordered(l@.lines),
    {
        let ghost t = measures(stamps@);
        let ghost v = scan@;
        let base: usize = if scan.length.is_some() {
            1
        } else {
            0
        };
        let ghost tt = t.skip(base as int);
        let ghost ls_all = measured_lines(v.lines, tt);
        let ghost off = v.offset;
        let length = if scan.length.is_some() {
            Some(stamps[0])
        } else {
            None
        };
        let offset = scan.offset;
        let total = stamps.len();
        let mut lines: Vec<LineTag> = Vec::new();
        let mut pos = base;
        let n = scan.lines.len();
        proof {
            lemma_measured_len(v.lines, tt);
        }
        let mut i: usize = 0;
        while i < n
            invariant
                i <= n,
                n == v.lines.len(),
                v == scan@,
                off == v.offset,
                offset == scan.offset,
                t == measures(stamps@),
                total == stamps@.len(),
                stamps@.len() == scan_stamps(v).len(),
                base == (if v.length is Some { 1int } else { 0int }),
                tt == t.skip(base as int),
                ls_all == measured_lines(v.lines, tt),
                ls_all.len() == n,
                pos == base + raw_lines_stamps(v.lines.subrange(0, i as int)).len(),
                line_views(lines@) == moved_prefix(ls_all.subrange(0, i as int), off),
                off matches Some(o) ==> forall|j: int|
                    0 <= j < i ==> #[trigger] line_shiftable(ls_all[j], o),
            decreases n - i,
        {
            let raw = &scan.lines[i];
            let ghost pre = v.lines.subrange(0, i as int);
            let ghost pre1 = v.lines.subrange(0, i + 1);
            let k = raw.segments.len();
            proof {
                assert(pre1.drop_last() =~= pre);
                assert(pre1.last() == raw@);
                lemma_raw_stamps_prefix(v.lines, i + 1);
                assert(raw_line_stamps(raw@).len() == 1 + k);
            }
            let mut line = measure_line(raw, stamps, pos);
            proof {
                let b = raw_lines_stamps(pre).len() as int;
                assert(tt.subrange(b, b + 1 + k) =~= t.subrange(pos as int, pos + 1 + k));
                lemma_measured_len(pre, tt);
                lemma_measured_prefix(v.lines, tt, i + 1);
                assert(measured_lines(pre1, tt) == measured_lines(pre, tt).push(line@));
                assert(measured_lines(pre1, tt)[i as int] == ls_all[i as int]);
                assert(ls_all[i as int] == line@);
            }
            let ghost measured = line@;
            match offset {
                Some(o) => {
                    match line.offset(o) {
                        Ok(()) => {},
                        Err(_) => {
                            proof {
                                lemma_overflow(v, t, i as int, o as int);
                            }
                            return Err(Error::TimestampOffsetOverflow);
                        },
                    }
                },
                None => {},
            }
            let ghost before = lines@;
            lines.push(line);
            proof {
                assert(line_views(before.push(line)) =~= line_views(before).push(line@));
                assert(ls_all.subrange(0, i + 1) =~= ls_all.subrange(0, i as int).push(measured));
                assert(line_views(lines@) =~= moved_prefix(ls_all.subrange(0, i + 1), off));
            }
            pos = pos + 1 + k;
            i = i + 1;
        }
        proof {
            assert(ls_all.subrange(0, n as int) =~= ls_all);
        }
        assert(moved_lines(v, t) == Some(line_views(lines@)));
        let lyrics = SyncedLyrics {
            title: scan.title,
            artist: scan.artist,
            album: scan.album,
            author: scan.author,
            lyricist: scan.lyricist,
            length,
            file_author: scan.file_author,
            tool: scan.tool,
            comments: scan.comments,
            lines,
        };
        match lyrics.check_timestamp_order() {
            Err(e) => return Err(e),
            Ok(()) => {},
        }
        proof {
            lyrics_check_accepts_exactly_ordered(lyrics@.lines);
        }
        Ok(lyrics)
    }
}

/// Measured lines are as many as the lines as written.
proof fn lemma_measured_len(ls: Seq<RawLineView>, t: Seq<nat>)
    ensures
        measured_lines(ls, t).len() == ls.len(),
    decreases ls.len(),
{
    if ls.len() > 0 {
        lemma_measured_len(ls.drop_last(), t);
    }
}

/// Measuring a prefix of the lines gives a prefix of the measured lines.
proof fn lemma_measured_prefix(ls: Seq<RawLineView>, t: Seq<nat>, i: int)
    requires
        0 <= i <= ls.len(),
    ensures
        forall|j: int| 0 <= j < i ==> #[trigger] measured_lines(ls.subrange(0, i), t)[j] == measured_lines(ls, t)[j],
        measured_lines(ls.subrange(0, i), t).len() == i,
    decreases ls.len() - i,
{
    lemma_measured_len(ls.subrange(0, i), t);
    if i < ls.len() {
        lemma_measured_prefix(ls, t, i + 1);
        let a = ls.subrange(0, i);
        let b = ls.subrange(0, i + 1);
        assert(b.drop_last() =~= a);
        assert forall|j: int| 0 <= j < i implies #[trigger] measured_lines(a, t)[j] == measured_lines(
            ls,
            t,
        )[j] by {
            assert(measured_lines(b, t)[j] == measured_lines(a, t)[j]);
        }
    } else {
        assert(ls.subrange(0, i) =~= ls);
    }
}

} // verus!
