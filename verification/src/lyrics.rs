//! Synced lyrics: metadata, comments and timed lines, with their order rules,
//! their LRC text and their unsynced text.
use vstd::prelude::*;

use crate::duration::{Duration, NANOS_PER_SEC};
use crate::error::{
    ErrorKind,
    later_than_message, later_than_text, order_error_message, order_error_text, Error,
};
use crate::format::line_text;
use crate::laws::lyrics_ordered;
use crate::parser::{scan_items, ItemView};
use crate::rescan::{lyrics_ok, serialized_items, serialized_lyrics_scan_back};
use crate::tags::{
    joined_contents, last_at_or_before, last_stamp, line_order_issue, line_views, order_outcome,
    LineTag, LineView, LyricsAccess,
};
use crate::text::{decimal, push_char, push_decimal};

verus! {

/// The tool tag as a mathematical value.
pub struct ToolView {
    pub name: Seq<char>,
    pub version: Option<Seq<char>>,
}

/// Synced lyrics as a mathematical value.
pub struct LyricsView {
    pub title: Option<Seq<char>>,
    pub artist: Option<Seq<char>>,
    pub album: Option<Seq<char>>,
    pub author: Option<Seq<char>>,
    pub lyricist: Option<Seq<char>>,
    pub length: Option<nat>,
    pub file_author: Option<Seq<char>>,
    pub tool: Option<ToolView>,
    pub comments: Seq<Seq<char>>,
    pub lines: Seq<LineView>,
}

/// Info on the player or editor that created the LRC file.
#[derive(Clone, PartialEq, Eq, PartialOrd, Ord, Hash, Debug, Default)]
pub struct LRCTool {
    /// Name of the program.
    pub name: String,
    /// Version of the program.
    pub version: Option<String>,
}

/// Lyrics grouped into timestamped segments with additional metadata.
#[derive(Clone, PartialEq, Eq, PartialOrd, Ord, Hash, Debug, Default)]
pub struct SyncedLyrics {
    /// Title of the song.
    pub title: Option<String>,
    /// Artist performing the song.
    pub artist: Option<String>,
    /// Album the song is from.
    pub album: Option<String>,
    /// Author of the song.
    pub author: Option<String>,
    /// Lyricist of the song.
    pub lyricist: Option<String>,
    /// Length of the song.
    pub length: Option<Duration>,
    /// Author of the LRC file (not the song).
    pub file_author: Option<String>,
    /// Info on the player or editor that created the LRC file.
    pub tool: Option<LRCTool>,
    /// Comments found in the lyrics.
    pub comments: Vec<String>,
    /// LRC segments grouped by lines.
    pub lines: Vec<LineTag>,
}

/// The text of an optional string.
pub open spec fn text_opt(o: Option<String>) -> Option<Seq<char>> {
    match o {
        Some(s) => Some(s@),
        None => None,
    }
}

/// The nanoseconds of an optional duration.
pub open spec fn stamp_opt(o: Option<Duration>) -> Option<nat> {
    match o {
        Some(d) => Some(d@),
        None => None,
    }
}

/// The view of an optional tool tag.
pub open spec fn tool_opt(o: Option<LRCTool>) -> Option<ToolView> {
    match o {
        Some(t) => Some(t@),
        None => None,
    }
}

/// The texts of a sequence of strings.
pub open spec fn texts(s: Seq<String>) -> Seq<Seq<char>> {
    s.map_values(|t: String| t@)
}

impl View for LRCTool {
    type V = ToolView;

    open spec fn view(&self) -> ToolView {
        ToolView { name: self.name@, version: text_opt(self.version) }
    }
}

impl View for SyncedLyrics {
    type V = LyricsView;

    open spec fn view(&self) -> LyricsView {
        LyricsView {
            title: text_opt(self.title),
            artist: text_opt(self.artist),
            album: text_opt(self.album),
            author: text_opt(self.author),
            lyricist: text_opt(self.lyricist),
            length: stamp_opt(self.length),
            file_author: text_opt(self.file_author),
            tool: tool_opt(self.tool),
            comments: texts(self.comments@),
            lines: line_views(self.lines@),
        }
    }
}

/// The timestamps of a sequence of lines.
pub open spec fn line_stamps(s: Seq<LineView>) -> Seq<nat> {
    s.map_values(|l: LineView| l.timestamp)
}

/// Texts joined with a newline between each two.
pub open spec fn joined_lines(s: Seq<Seq<char>>) -> Seq<char>
    decreases s.len(),
{
    if s.len() == 0 {
        Seq::empty()
    } else if s.len() == 1 {
        s[0]
    } else {
        joined_lines(s.drop_last()) + seq!['\n'] + s.last()
    }
}

/// The unsynced text of lyrics: the text of each line, one per line.
pub open spec fn unsynced_text(l: LyricsView) -> Seq<char> {
    joined_lines(l.lines.map_values(|x: LineView| joined_contents(x.segments)))
}

/// Where the order of the lines breaks from position `i` on, and the message that
/// reports it: a line out of order in itself, or a line that does not start strictly
/// after the last timestamp of the line before it.
pub open spec fn lines_break_from(s: Seq<LineView>, i: nat) -> Option<(nat, Seq<char>)>
    decreases s.len() - i,
{
    if i >= s.len() || i == 0 {
        None
    } else {
        match line_order_issue(s[i as int]) {
            Some((j, m)) => Some((i, order_error_text(j, m))),
            None => if s[i as int].timestamp <= last_stamp(s[i - 1]) {
                Some((i, later_than_text(last_stamp(s[i - 1]))))
            } else {
                lines_break_from(s, i + 1)
            },
        }
    }
}

/// Where the order of the lines of lyrics breaks, and the message that reports it.
pub open spec fn lyrics_order_issue(s: Seq<LineView>) -> Option<(nat, Seq<char>)> {
    if s.len() == 0 {
        None
    } else {
        match line_order_issue(s[0]) {
            Some((j, m)) => Some((0, order_error_text(j, m))),
            None => lines_break_from(s, 1),
        }
    }
}

/// The first position from `i` on where a new line is out of order in itself or does
/// not start strictly after `ts`, where `ts` moves on to the last timestamp of each line
/// that passed.
pub open spec fn lines_not_after(s: Seq<LineView>, i: nat, ts: nat) -> Option<(nat, Seq<char>)>
    decreases s.len() - i,
{
    if i >= s.len() {
        None
    } else {
        match line_order_issue(s[i as int]) {
            Some((j, m)) => Some((i, order_error_text(j, m))),
            None => if s[i as int].timestamp <= ts {
                Some((i, later_than_text(ts)))
            } else {
                lines_not_after(s, i + 1, last_stamp(s[i as int]))
            },
        }
    }
}

/// Where appending `new` to the lines `existing` breaks their order, as checked before
/// appending: each new line must be in order in itself, the first must start strictly
/// after the last timestamp of the existing lines, and each later one strictly after
/// the last timestamp of the new line before it.
pub open spec fn append_lines_issue(existing: Seq<LineView>, new: Seq<LineView>) -> Option<
    (nat, Seq<char>),
> {
    if new.len() == 0 {
        None
    } else {
        match line_order_issue(new[0]) {
            Some((j, m)) => Some((0, order_error_text(j, m))),
            None => if existing.len() > 0 && new[0].timestamp <= last_stamp(existing.last()) {
                Some((0, later_than_text(last_stamp(existing.last()))))
            } else {
                lines_not_after(new, 1, last_stamp(new[0]))
            },
        }
    }
}

/// Whether some line uses the A2 extension: several segments, or a single one that
/// starts after the line.
pub open spec fn uses_a2(l: LineView) -> bool {
    l.segments.len() > 1 || (l.segments.len() == 1 && l.timestamp < l.segments[0].timestamp)
}

impl LRCTool {
    /// Set the name of the program.
    pub fn name(&mut self, name: String) -> (r: &mut Self)
        ensures
            *r == (LRCTool { name, ..*old(self) }),
            *final(self) == *final(r),
    {
        self.name = name;
        self
    }

    /// Set the version of the program.
    pub fn version(&mut self, version: Option<String>) -> (r: &mut Self)
        ensures
            *r == (LRCTool { version, ..*old(self) }),
            *final(self) == *final(r),
    {
        self.version = version;
        self
    }
}

impl SyncedLyrics {
    /// Create an empty synced lyrics struct with some timed tags.
    pub fn new(tags: Vec<LineTag>) -> (l: SyncedLyrics)
        ensures
            l.lines == tags,
            l.comments@.len() == 0,
            l.title is None && l.artist is None && l.album is None && l.author is None,
            l.lyricist is None && l.length is None && l.file_author is None && l.tool is None,
    {
        SyncedLyrics {
            title: None,
            artist: None,
            album: None,
            author: None,
            lyricist: None,
            length: None,
            file_author: None,
            tool: None,
            comments: Vec::new(),
            lines: tags,
        }
    }

    /// Set the title of the song.
    pub fn title(&mut self, title: Option<String>) -> (r: &mut Self)
        ensures
            *r == (SyncedLyrics { title, ..*old(self) }),
            *final(self) == *final(r),
    {
        self.title = title;
        self
    }

    /// Set the artist performing the song.
    pub fn artist(&mut self, artist: Option<String>) -> (r: &mut Self)
        ensures
            *r == (SyncedLyrics { artist, ..*old(self) }),
            *final(self) == *final(r),
    {
        self.artist = artist;
        self
    }

    /// Set the album the song is from.
    pub fn album(&mut self, album: Option<String>) -> (r: &mut Self)
        ensures
            *r == (SyncedLyrics { album, ..*old(self) }),
            *final(self) == *final(r),
    {
        self.album = album;
        self
    }

    /// Set the author of the song.
    pub fn author(&mut self, author: Option<String>) -> (r: &mut Self)
        ensures
            *r == (SyncedLyrics { author, ..*old(self) }),
            *final(self) == *final(r),
    {
        self.author = author;
        self
    }

    /// Set the lyricist of the song.
    pub fn lyricist(&mut self, lyricist: Option<String>) -> (r: &mut Self)
        ensures
            *r == (SyncedLyrics { lyricist, ..*old(self) }),
            *final(self) == *final(r),
    {
        self.lyricist = lyricist;
        self
    }

    /// Set the length of the song.
    pub fn length(&mut self, length: Option<Duration>) -> (r: &mut Self)
        ensures
            *r == (SyncedLyrics { length, ..*old(self) }),
            *final(self) == *final(r),
    {
        self.length = length;
        self
    }

    /// Set the author of the LRC file (not the song).
    pub fn file_author(&mut self, file_author: Option<String>) -> (r: &mut Self)
        ensures
            *r == (SyncedLyrics { file_author, ..*old(self) }),
            *final(self) == *final(r),
    {
        self.file_author = file_author;
        self
    }

    /// Set the info on the player or editor that created the LRC file.
    pub fn tool(&mut self, tool: Option<LRCTool>) -> (r: &mut Self)
        ensures
            *r == (SyncedLyrics { tool, ..*old(self) }),
            *final(self) == *final(r),
    {
        self.tool = tool;
        self
    }

    /// Add a comment to the lyrics.
    ///
    /// **NOTE**: In serialized content, comments will be put between ID tags and timed tags.
    pub fn comment(&mut self, comment: String) -> (r: &mut Self)
        ensures
            r@ == (LyricsView { comments: old(self)@.comments.push(comment@), ..old(self)@ }),
            *final(self) == *final(r),
    {
        self.comments.push(comment);
        assert(self@.comments =~= old(self)@.comments.push(comment@));
        self
    }

    /// Add multiple comments to the lyrics.
    ///
    /// **NOTE**: In serialized content, comments will be put between ID tags and timed tags.
    pub fn comments(&mut self, comments: &[String]) -> (r: &mut Self)
        ensures
            r@ == (LyricsView {
                comments: old(self)@.comments + texts(comments@),
                ..old(self)@
            }),
            *final(self) == *final(r),
    {
        let mut i: usize = 0;
        while i < comments.len()
            invariant
                i <= comments@.len(),
                self@ == (LyricsView {
                    comments: old(self)@.comments + texts(comments@.subrange(0, i as int)),
                    ..old(self)@
                }),
            decreases comments@.len() - i,
        {
            let c = comments[i].clone();
            assert(c@ == comments@[i as int]@);
            let ghost before = self.comments@;
            self.comments.push(c);
            proof {
                assert(texts(before.push(c)) =~= texts(before).push(c@));
                assert(texts(comments@.subrange(0, i + 1)) =~= texts(
                    comments@.subrange(0, i as int),
                ).push(c@));
                assert(self@.comments =~= old(self)@.comments + texts(
                    comments@.subrange(0, i + 1),
                ));
            }
            i = i + 1;
        }
        assert(comments@.subrange(0, comments@.len() as int) =~= comments@);
        self
    }
}

impl SyncedLyrics {
    /// Add a line to the lyrics.
    ///
    /// Prefer using this method over manually adding lines to lyrics as it ensures that the
    /// timestamp order stays correct.
    pub fn line(&mut self, line: LineTag) -> (r: Result<&mut Self, Error>)
        ensures
            append_lines_issue(old(self)@.lines, seq![line@]) is None ==> (r matches Ok(m) && m@
                == (LyricsView { lines: old(self)@.lines.push(line@), ..old(self)@ })
                && *final(self) == *final(m)),
            append_lines_issue(old(self)@.lines, seq![line@]) matches Some((i, msg)) ==> (
            r matches Err(Error::InvalidTimestampOrder { index, message }) && index == i
                && message@ == msg && *final(self) == *old(self)),
            lyrics_ordered(old(self)@.lines) ==> (r is Ok <==> lyrics_ordered(
                old(self)@.lines.push(line@),
            )),
    {
        proof {
            if lyrics_ordered(old(self)@.lines) {
                crate::laws::adding_a_line_keeps_order(old(self)@.lines, line@);
            }
        }
        let mut one: Vec<LineTag> = Vec::new();
        one.push(line);
        proof {
            assert(line_views(one@) =~= seq![line@]);
            assert(old(self)@.lines.push(line@) =~= old(self)@.lines + seq![line@]);
        }
        self.lines(one.as_slice())
    }

    /// Add multiple lines to the lyrics.
    ///
    /// Prefer using this method over manually adding lines to lyrics as it ensures that the
    /// timestamp order stays correct. If you need to add lines manually, use the
    /// [`check_timestamp_order`](LyricsAccess::check_timestamp_order) method to verify timestamp order.
    pub fn lines(&mut self, lines: &[LineTag]) -> (r: Result<&mut Self, Error>)
        ensures
            append_lines_issue(old(self)@.lines, line_views(lines@)) is None ==> (r matches Ok(m)
                && m@ == (LyricsView {
                lines: old(self)@.lines + line_views(lines@),
                ..old(self)@
            }) && *final(self) == *final(m)),
            append_lines_issue(old(self)@.lines, line_views(lines@)) matches Some((i, msg)) ==> (
            r matches Err(Error::InvalidTimestampOrder { index, message }) && index == i
                && message@ == msg && *final(self) == *old(self)),
            lyrics_ordered(old(self)@.lines) ==> (r is Ok <==> lyrics_ordered(
                old(self)@.lines + line_views(lines@),
            )),
    {
        proof {
            if lyrics_ordered(old(self)@.lines) {
                crate::laws::adding_lines_keeps_order(old(self)@.lines, line_views(lines@));
            }
        }
        let ghost new = line_views(lines@);
        let n = lines.len();
        if n == 0 {
            assert(old(self)@.lines + new =~= old(self)@.lines);
            return Ok(self);
        }
        assert(new[0] == lines@[0]@);
        match lines[0].check_timestamp_order() {
            Err(e) => {
                return Err(Error::InvalidTimestampOrder { index: 0, message: e.to_message() });
            },
            Ok(()) => {},
        }
        let existing = self.lines.len();
        if existing > 0 {
            let ts = self.lines[existing - 1].last_timestamp();
            assert(self@.lines.last() == self.lines@[existing - 1]@);
            if lines[0].timestamp.as_nanos() <= ts.as_nanos() {
                return Err(
                    Error::InvalidTimestampOrder { index: 0, message: later_than_message(ts) },
                );
            }
        }
        let mut ts = lines[0].last_timestamp();
        let mut i: usize = 1;
        while i < n
            invariant
                1 <= i <= n,
                n == new.len(),
                new == line_views(lines@),
                append_lines_issue(old(self)@.lines, new) == lines_not_after(new, i as nat, ts@),
                *self == *old(self),
                lyrics_ordered(old(self)@.lines) ==> (append_lines_issue(old(self)@.lines, new) is None
                    <==> lyrics_ordered(old(self)@.lines + new)),
            decreases n - i,
        {
            assert(new[i as int] == lines@[i as int]@);
            match lines[i].check_timestamp_order() {
                Err(e) => {
                    return Err(Error::InvalidTimestampOrder { index: i, message: e.to_message() });
                },
                Ok(()) => {},
            }
            if lines[i].timestamp.as_nanos() <= ts.as_nanos() {
                return Err(
                    Error::InvalidTimestampOrder { index: i, message: later_than_message(ts) },
                );
            }
            ts = lines[i].last_timestamp();
            i = i + 1;
        }
        let mut k: usize = 0;
        while k < n
            invariant
                k <= n,
                n == new.len(),
                new == line_views(lines@),
                self@ == (LyricsView {
                    lines: old(self)@.lines + new.subrange(0, k as int),
                    ..old(self)@
                }),
            decreases n - k,
        {
            let c = lines[k].copy();
            let ghost before = self.lines@;
            self.lines.push(c);
            proof {
                assert(line_views(before.push(c)) =~= line_views(before).push(c@));
                assert(self@.lines =~= old(self)@.lines + new.subrange(0, k + 1));
            }
            k = k + 1;
        }
        assert(new.subrange(0, n as int) =~= new);
        Ok(self)
    }

    /// Checks if the lyrics contain any tags from the A2 extension.
    ///
    /// If the enhanced LRC format is used, [line tags](LineTag) may contain more than one segment,
    /// and the first segment in line tags may have a timestamp that is later than the line
    /// timestamp.
    pub fn is_enhanced_lrc(&self) -> (b: bool)
        ensures
            b == exists|i: int| 0 <= i < self@.lines.len() && #[trigger] uses_a2(self@.lines[i]),
            b == exists|i: int|
                0 <= i < self@.lines.len() && (#[trigger] self@.lines[i].segments.len() >= 2 || (
                self@.lines[i].segments.len() >= 1 && self@.lines[i].timestamp
                    < self@.lines[i].segments[0].timestamp)),
    {
        proof {
            crate::laws::a2_lyrics_are_those_with_several_or_late_segments(self@.lines);
        }
        let n = self.lines.len();
        let mut i: usize = 0;
        while i < n
            invariant
                i <= n,
                n == self@.lines.len(),
                forall|j: int| 0 <= j < i ==> !#[trigger] uses_a2(self@.lines[j]),
            decreases n - i,
        {
            let line = &self.lines[i];
            assert(self@.lines[i as int] == line@);
            let k = line.segments.len();
            if k > 1 || (k == 1 && line.timestamp.as_nanos() < line.segments[0].timestamp.as_nanos()) {
                assert(uses_a2(self@.lines[i as int]));
                return true;
            }
            i = i + 1;
        }
        false
    }
}

impl LyricsAccess for SyncedLyrics {
    /// The text of each line, one per line.
    fn to_unsynced(self) -> (s: String)
        ensures
            s@ == unsynced_text(self@),
    {
        let ghost parts = self@.lines.map_values(|x: LineView| joined_contents(x.segments));
        let n = self.lines.len();
        let mut s = String::new();
        let mut i: usize = 0;
        while i < n
            invariant
                i <= n,
                n == parts.len(),
                parts == self@.lines.map_values(|x: LineView| joined_contents(x.segments)),
                s@ == joined_lines(parts.subrange(0, i as int)),
            decreases n - i,
        {
            let t = self.lines[i].contents();
            assert(t@ == parts[i as int]);
            if i > 0 {
                push_char(&mut s, '\n');
            }
            s.append(t.as_str());
            proof {
                assert(parts.subrange(0, i + 1).drop_last() =~= parts.subrange(0, i as int));
                if i == 0 {
                    assert(s@ =~= joined_lines(parts.subrange(0, 1)));
                } else {
                    assert(s@ =~= joined_lines(parts.subrange(0, i + 1)));
                }
            }
            i = i + 1;
        }
        assert(parts.subrange(0, n as int) =~= parts);
        s
    }

    /// The last line whose timestamp is not after `timestamp`.
    fn active_tag(&self, timestamp: Duration) -> (r: Option<usize>)
        ensures
            r matches Some(i) ==> last_at_or_before(line_stamps(self@.lines), timestamp@, self@.lines.len())
                == Some(i as nat),
            r is None ==> last_at_or_before(line_stamps(self@.lines), timestamp@, self@.lines.len()) is None,
    {
        let n = self.lines.len();
        let ghost stamps = line_stamps(self@.lines);
        let mut k: usize = n;
        while k > 0
            invariant
                k <= n,
                n == self@.lines.len(),
                stamps == line_stamps(self@.lines),
                last_at_or_before(stamps, timestamp@, n as nat) == last_at_or_before(
                    stamps,
                    timestamp@,
                    k as nat,
                ),
            decreases k,
        {
            assert(stamps[k - 1] == self.lines@[k - 1].timestamp@);
            if self.lines[k - 1].timestamp.as_nanos() <= timestamp.as_nanos() {
                return Some(k - 1);
            }
            k = k - 1;
        }
        None
    }

    /// Checks that every line is in order in itself and starts strictly after the last
    /// timestamp of the line before it.
    fn check_timestamp_order(&self) -> (r: Result<(), Error>)
        ensures
            order_outcome(r, lyrics_order_issue(self@.lines)),
    {
        let n = self.lines.len();
        if n == 0 {
            return Ok(());
        }
        let ghost v = self@.lines;
        assert(v[0] == self.lines@[0]@);
        match self.lines[0].check_timestamp_order() {
            Err(e) => {
                return Err(Error::InvalidTimestampOrder { index: 0, message: e.to_message() });
            },
            Ok(()) => {},
        }
        let mut ts = self.lines[0].last_timestamp();
        let mut i: usize = 1;
        while i < n
            invariant
                1 <= i <= n,
                n == v.len(),
                v == self@.lines,
                ts@ == last_stamp(v[i - 1]),
                lyrics_order_issue(v) == lines_break_from(v, i as nat),
            decreases n - i,
        {
            assert(v[i as int] == self.lines@[i as int]@);
            match self.lines[i].check_timestamp_order() {
                Err(e) => {
                    return Err(Error::InvalidTimestampOrder { index: i, message: e.to_message() });
                },
                Ok(()) => {},
            }
            if self.lines[i].timestamp.as_nanos() <= ts.as_nanos() {
                return Err(
                    Error::InvalidTimestampOrder { index: i, message: later_than_message(ts) },
                );
            }
            ts = self.lines[i].last_timestamp();
            i = i + 1;
        }
        Ok(())
    }
}

/// A duration of `d` nanoseconds as whole minutes and seconds, `m:s`, without padding.
pub open spec fn minutes_seconds_text(d: nat) -> Seq<char> {
    let secs = d / NANOS_PER_SEC as nat;
    decimal(secs / 60) + seq![':'] + decimal(secs % 60)
}

/// An ID tag `[key:value]`, preceded by a newline when `newline` holds.
pub open spec fn id_tag_text(key: Seq<char>, value: Seq<char>, newline: bool) -> Seq<char> {
    (if newline {
        seq!['\n']
    } else {
        Seq::empty()
    }) + seq!['['] + key + seq![':'] + value + seq![']']
}

/// `acc` followed by the ID tag for `value` if there is one, on a new line unless
/// `acc` is empty.
pub open spec fn with_tag(acc: Seq<char>, key: Seq<char>, value: Option<Seq<char>>) -> Seq<char> {
    match value {
        Some(v) => acc + id_tag_text(key, v, acc.len() > 0),
        None => acc,
    }
}

/// The ID tags of lyrics, in the order title, artist, album, author, lyricist, length,
/// file author, tool and tool version.
pub open spec fn id_tags_text(l: LyricsView) -> Seq<char> {
    let a = with_tag(Seq::empty(), "ti"@, l.title);
    let b = with_tag(a, "ar"@, l.artist);
    let c = with_tag(b, "al"@, l.album);
    let d = with_tag(c, "au"@, l.author);
    let e = with_tag(d, "lr"@, l.lyricist);
    let f = with_tag(
        e,
        "length"@,
        match l.length {
            Some(n) => Some(minutes_seconds_text(n)),
            None => None,
        },
    );
    let g = with_tag(f, "by"@, l.file_author);
    match l.tool {
        Some(t) => {
            let h = g + id_tag_text("tool"@, t.name, g.len() > 0);
            match t.version {
                Some(v) => h + id_tag_text("ve"@, v, true),
                None => h,
            }
        },
        None => g,
    }
}

/// `acc` followed by `block` if it is not empty, on a new line unless `acc` is empty.
pub open spec fn with_block(acc: Seq<char>, block: Seq<char>) -> Seq<char> {
    if block.len() == 0 {
        acc
    } else if acc.len() == 0 {
        block
    } else {
        acc + seq!['\n'] + block
    }
}

/// The comment tags, one per line.
pub open spec fn comments_text(c: Seq<Seq<char>>) -> Seq<char> {
    joined_lines(c.map_values(|x: Seq<char>| id_tag_text("#"@, x, false)))
}

/// The lines in LRC syntax, one per line.
pub open spec fn lines_text(l: Seq<LineView>) -> Seq<char> {
    joined_lines(l.map_values(|x: LineView| line_text(x)))
}

/// Lyrics in LRC syntax: the ID tags, then the comments, then the lines.
pub open spec fn lyrics_text(l: LyricsView) -> Seq<char> {
    with_block(with_block(id_tags_text(l), comments_text(l.comments)), lines_text(l.lines))
}

/// Appends the ID tag `[key:value]`, preceded by a newline when `newline` holds.
fn push_id_tag(out: &mut String, key: &str, value: &str, newline: bool)
    ensures
        final(out)@ == old(out)@ + id_tag_text(key@, value@, newline),
{
    if newline {
        push_char(out, '\n');
    }
    push_char(out, '[');
    out.append(key);
    push_char(out, ':');
    out.append(value);
    push_char(out, ']');
    assert(final(out)@ =~= old(out)@ + id_tag_text(key@, value@, newline));
}

/// Appends the ID tag for `value` if there is one, on a new line unless `out` is empty.
fn push_optional_tag(out: &mut String, key: &str, value: &Option<String>)
    ensures
        final(out)@ == with_tag(old(out)@, key@, text_opt(*value)),
{
    match value {
        Some(v) => {
            let newline = out.as_str().unicode_len() > 0;
            push_id_tag(out, key, v.as_str(), newline);
        },
        None => {},
    }
}

/// Texts joined with a newline between each two.
fn join_lines(parts: &Vec<String>) -> (s: String)
    ensures
        s@ == joined_lines(texts(parts@)),
{
    let ghost t = texts(parts@);
    let n = parts.len();
    let mut s = String::new();
    let mut i: usize = 0;
    while i < n
        invariant
            i <= n,
            n == t.len(),
            t == texts(parts@),
            s@ == joined_lines(t.subrange(0, i as int)),
        decreases n - i,
    {
        assert(t[i as int] == parts@[i as int]@);
        if i > 0 {
            push_char(&mut s, '\n');
        }
        s.append(parts[i].as_str());
        proof {
            assert(t.subrange(0, i + 1).drop_last() =~= t.subrange(0, i as int));
            if i == 0 {
                assert(s@ =~= joined_lines(t.subrange(0, 1)));
            } else {
                assert(s@ =~= joined_lines(t.subrange(0, i + 1)));
            }
        }
        i = i + 1;
    }
    assert(t.subrange(0, n as int) =~= t);
    s
}

/// Appends `block` if it is not empty, on a new line unless `out` is empty.
fn push_block(out: &mut String, block: &String)
    ensures
        final(out)@ == with_block(old(out)@, block@),
{
    if block.as_str().unicode_len() > 0 {
        if out.as_str().unicode_len() > 0 {
            push_char(out, '\n');
        }
        out.append(block.as_str());
        assert(final(out)@ =~= with_block(old(out)@, block@));
    }
}

impl SyncedLyrics {
    /// Formats an ID tag, `[key:value]`, preceded by a newline when `newline` holds.
    pub fn serialize_id_tag(key: &str, value: &str, newline: bool) -> (s: String)
        ensures
            s@ == id_tag_text(key@, value@, newline),
    {
        let mut s = String::new();
        push_id_tag(&mut s, key, value, newline);
        assert(s@ =~= id_tag_text(key@, value@, newline));
        s
    }

    /// Formats a duration as whole minutes and seconds, `m:s`.
    pub fn format_duration_mm_ss(dur: Duration) -> (s: String)
        ensures
            s@ == minutes_seconds_text(dur@),
    {
        let secs = dur.as_secs();
        let mins = secs / 60;
        let secs = secs - mins * 60;
        let mut s = String::new();
        push_decimal(&mut s, mins as u128);
        push_char(&mut s, ':');
        push_decimal(&mut s, secs as u128);
        assert(s@ =~= minutes_seconds_text(dur@));
        s
    }

    /// Serialize the struct to LRC format: the ID tags, then the comments, then the
    /// lines.
    ///
    /// **NOTE**: This method may not always produce the same output as the input parsed to create
    /// the data structure. For instance, where ID tags and comments stood in the parsed text is
    /// not kept, and the offset tag is omitted as it is applied by the parser.
    #[verifier::spinoff_prover]
    #[verifier::rlimit(40)]
    pub fn serialize(self) -> (s: String)
        ensures
            s@ == lyrics_text(self@),
            lyrics_ok(self@) ==> scan_items(s@) == Ok::<Seq<ItemView>, (int, ErrorKind)>(
                serialized_items(self@),
            ),
    {
        proof {
            if lyrics_ok(self@) {
                serialized_lyrics_scan_back(self@);
            }
        }
        let mut result = String::new();
        push_optional_tag(&mut result, "ti", &self.title);
        push_optional_tag(&mut result, "ar", &self.artist);
        push_optional_tag(&mut result, "al", &self.album);
        push_optional_tag(&mut result, "au", &self.author);
        push_optional_tag(&mut result, "lr", &self.lyricist);
        let length = match self.length {
            Some(l) => Some(Self::format_duration_mm_ss(l)),
            None => None,
        };
        push_optional_tag(&mut result, "length", &length);
        push_optional_tag(&mut result, "by", &self.file_author);
        match &self.tool {
            Some(tool) => {
                let newline = result.as_str().unicode_len() > 0;
                push_id_tag(&mut result, "tool", tool.name.as_str(), newline);
                match &tool.version {
                    Some(v) => push_id_tag(&mut result, "ve", v.as_str(), true),
                    None => {},
                }
            },
            None => {},
        }
        assert(result@ == id_tags_text(self@));
        let mut comments: Vec<String> = Vec::new();
        let mut i: usize = 0;
        while i < self.comments.len()
            invariant
                i <= self.comments@.len(),
                texts(comments@) == self@.comments.subrange(0, i as int).map_values(
                    |x: Seq<char>| id_tag_text("#"@, x, false),
                ),
            decreases self.comments@.len() - i,
        {
            let c = Self::serialize_id_tag("#", self.comments[i].as_str(), false);
            let ghost before = comments@;
            comments.push(c);
            proof {
                assert(texts(before.push(c)) =~= texts(before).push(c@));
                assert(texts(comments@) =~= self@.comments.subrange(0, i + 1).map_values(
                    |x: Seq<char>| id_tag_text("#"@, x, false),
                ));
            }
            i = i + 1;
        }
        assert(self@.comments.subrange(0, self@.comments.len() as int) =~= self@.comments);
        let comments = join_lines(&comments);
        let mut lines: Vec<String> = Vec::new();
        let mut i: usize = 0;
        while i < self.lines.len()
            invariant
                i <= self.lines@.len(),
                texts(lines@) == self@.lines.subrange(0, i as int).map_values(
                    |x: LineView| line_text(x),
                ),
            decreases self.lines@.len() - i,
        {
            let t = self.lines[i].text();
            assert(self@.lines[i as int] == self.lines@[i as int]@);
            let ghost before = lines@;
            lines.push(t);
            proof {
                assert(texts(before.push(t)) =~= texts(before).push(t@));
                assert(texts(lines@) =~= self@.lines.subrange(0, i + 1).map_values(
                    |x: LineView| line_text(x),
                ));
            }
            i = i + 1;
        }
        assert(self@.lines.subrange(0, self@.lines.len() as int) =~= self@.lines);
        let lines = join_lines(&lines);
        push_block(&mut result, &comments);
        push_block(&mut result, &lines);
        result
    }
}

} // verus!
