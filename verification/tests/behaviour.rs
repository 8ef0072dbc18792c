use lrc_rs::tags::duration_offset;
use lrc_rs::{
    Duration, Error, ErrorKind, LRCTool, LineTag, LrcScan, LyricsAccess, RawTimestamp,
    SegmentTag, SyncedLyrics,
};

fn dur(d: std::time::Duration) -> Duration {
    Duration::new(d.as_secs(), d.subsec_nanos())
}

fn secs_f32(x: f32) -> Duration {
    dur(std::time::Duration::from_secs_f32(x))
}

fn measure(t: &RawTimestamp) -> Duration {
    let (_, seconds) =
        nom::number::complete::float::<&str, nom::error::Error<&str>>(t.seconds.as_str())
            .unwrap();
    secs_f32(seconds + (t.minutes * 60) as f32)
}

fn parse_lyrics(text: &str) -> Result<SyncedLyrics, Error> {
    let scan = LrcScan::scan(text)?;
    let stamps: Vec<Duration> = scan.raw_timestamps().iter().map(measure).collect();
    SyncedLyrics::from_scan(scan, &stamps)
}

fn segment(secs: u64, content: &str) -> SegmentTag {
    SegmentTag {
        timestamp: Duration::from_secs(secs),
        content: content.to_string(),
    }
}

fn line(secs: u64, segments: Vec<SegmentTag>) -> LineTag {
    LineTag {
        timestamp: Duration::from_secs(secs),
        segments,
    }
}

#[test]
fn readme_unsynced_lyrics() {
    let lyrics = SyncedLyrics {
        title: Some("Example content".to_string()),
        lines: vec![
            LineTag {
                timestamp: secs_f32(2.3),
                segments: vec![SegmentTag {
                    timestamp: secs_f32(2.3),
                    content: "Some example lyrics".to_string(),
                }],
            },
            LineTag {
                timestamp: secs_f32(7.1),
                segments: vec![
                    SegmentTag {
                        timestamp: secs_f32(7.1),
                        content: "La la ".to_string(),
                    },
                    SegmentTag {
                        timestamp: secs_f32(8.4),
                        content: "la la la".to_string(),
                    },
                ],
            },
        ],
        ..Default::default()
    };
    assert_eq!(lyrics.to_unsynced(), "Some example lyrics\nLa la la la la");
}

#[test]
fn readme_create_synced_lyrics() {
    let mut lyrics = SyncedLyrics::default();
    lyrics.title(Some("My awesome song".to_string()));
    lyrics.file_author(Some("me!!".to_string()));
    lyrics
        .line(LineTag::new(secs_f32(5.3), "La la la".to_string()))
        .unwrap();
    assert_eq!(
        lyrics.line(LineTag::default()),
        Err(Error::InvalidTimestampOrder {
            index: 0,
            message: format!(
                "Expected a timestamp later than {:?}",
                std::time::Duration::from_secs_f32(5.3)
            )
        })
    );
    assert_eq!(
        lyrics.clone().serialize(),
        "[ti:My awesome song]\n[by:me!!]\n[00:05.30] La la la"
    );
}

#[test]
fn readme_parse() {
    let data = "[ti:Example content]
[00:02.30] Some example lyrics
[00:07.10] <00:07.70> La <00:08.20> la <00:09.10> la <00:10.00> la <00:10.90> la
[00:11.80] Hello";
    let lyrics = parse_lyrics(data).unwrap();
    assert_eq!(lyrics.title, Some("Example content".to_string()));
    assert_eq!(lyrics.lines.len(), 3);
    assert_eq!(lyrics.lines[1].segments.len(), 5);
    assert!(lyrics.is_enhanced_lrc());
    assert!(lyrics.check_timestamp_order().is_ok());
}

#[test]
fn parse_unknown_id_tag() {
    assert_eq!(
        parse_lyrics("[fun:I am an invalid ID tag]"),
        Err(Error::UnknownKey {
            key: "fun".to_string()
        })
    );
}

#[test]
fn parse_wrong_timestamp_order() {
    assert_eq!(
        parse_lyrics("[00:02.10] First line\n[00:01.90] My timestamp is wrong!"),
        Err(Error::InvalidTimestampOrder {
            index: 1,
            message: format!(
                "Expected a timestamp later than {:?}",
                std::time::Duration::from_secs_f32(2.1)
            )
        })
    );
}

#[test]
fn parse_offset_overflow() {
    assert_eq!(
        parse_lyrics("[offset:-5000]\n[00:01.00] a"),
        Err(Error::TimestampOffsetOverflow)
    );
    let lyrics = parse_lyrics("[offset:-500]\n[00:01.00] a").unwrap();
    assert_eq!(lyrics.lines[0].timestamp, Duration::from_millis(500));
    assert_eq!(lyrics.lines[0].segments[0].timestamp, Duration::from_millis(500));
}

#[test]
fn parse_bad_tag_values() {
    assert_eq!(
        parse_lyrics("[length:4x:17]"),
        Err(Error::Nom {
            input: "x:17".to_string(),
            error: ErrorKind::Char
        })
    );
    assert_eq!(
        parse_lyrics("[length:4:17 ]"),
        Err(Error::Nom {
            input: " ".to_string(),
            error: ErrorKind::Eof
        })
    );
    assert_eq!(
        parse_lyrics("[offset:100]"),
        Err(Error::Nom {
            input: "100".to_string(),
            error: ErrorKind::Char
        })
    );
    assert_eq!(
        parse_lyrics("[offset:+99999999999]"),
        Err(Error::Nom {
            input: "+99999999999".to_string(),
            error: ErrorKind::Char
        })
    );
    assert_eq!(
        parse_lyrics("[00:1e] a"),
        Err(Error::Nom {
            input: "1e] a".to_string(),
            error: ErrorKind::Float
        })
    );
}

#[test]
fn parse_tool_and_length() {
    let lyrics = parse_lyrics("[ve:2]\n[re:player]\n[length:3:05]").unwrap();
    assert_eq!(
        lyrics.tool,
        Some(LRCTool {
            name: "player".to_string(),
            version: Some("2".to_string())
        })
    );
    assert_eq!(lyrics.length, Some(Duration::from_secs(185)));
    assert!(lyrics.lines.is_empty());

    let lyrics = parse_lyrics("[ve:2]").unwrap();
    assert_eq!(lyrics.tool, None);
}

#[test]
fn parsed_lines_start_after_the_line_before_ends() {
    assert_eq!(
        parse_lyrics("[00:02.00] <00:03.00> a\n[00:02.50] <00:04.00> b"),
        Err(Error::InvalidTimestampOrder {
            index: 1,
            message: format!(
                "Expected a timestamp later than {:?}",
                std::time::Duration::from_secs(3)
            )
        })
    );
    let lyrics = parse_lyrics("[00:02.00] <00:03.00> a\n[00:03.50] <00:04.00> b").unwrap();
    assert!(lyrics.check_timestamp_order().is_ok());
}

#[test]
fn error_messages() {
    assert_eq!(
        Error::TimestampOffsetOverflow.to_message(),
        "An overflow occurred while offsetting a timestamp"
    );
    assert_eq!(
        Error::UnknownKey {
            key: "fun".to_string()
        }
        .to_message(),
        "Unknown ID tag key: \"fun\""
    );
    assert_eq!(
        Error::InvalidTimestampOrder {
            index: 12,
            message: "m".to_string()
        }
        .to_message(),
        "Invalid tag timestamp at index 12: m"
    );
    assert_eq!(
        Error::Nom {
            input: "x".to_string(),
            error: ErrorKind::MapRes
        }
        .to_message(),
        "Couldn't parse the lyrics at `x`: MapRes`"
    );
    assert_eq!(ErrorKind::Float.name(), "Float");
}

#[test]
fn order_checks_accept_exactly_ordered_lines() {
    assert!(line(3, vec![segment(3, ""), segment(4, "")])
        .check_timestamp_order()
        .is_ok());
    assert_eq!(
        line(3, vec![segment(2, "")]).check_timestamp_order(),
        Err(Error::InvalidTimestampOrder {
            index: 0,
            message: format!(
                "Expected a timestamp later than or equal to {:?}",
                std::time::Duration::from_secs(3)
            )
        })
    );
    assert_eq!(
        line(3, vec![segment(3, ""), segment(5, ""), segment(4, "")]).check_timestamp_order(),
        Err(Error::InvalidTimestampOrder {
            index: 2,
            message: format!(
                "Expected a timestamp later than {:?}",
                std::time::Duration::from_secs(5)
            )
        })
    );
    let lyrics = SyncedLyrics::new(vec![
        line(1, vec![segment(1, ""), segment(2, "")]),
        line(3, vec![]),
    ]);
    assert!(lyrics.check_timestamp_order().is_ok());
    let lyrics = SyncedLyrics::new(vec![
        line(1, vec![segment(1, ""), segment(2, "")]),
        line(4, vec![segment(3, "")]),
    ]);
    assert_eq!(
        lyrics.check_timestamp_order(),
        Err(Error::InvalidTimestampOrder {
            index: 1,
            message: format!(
                "Invalid tag timestamp at index 0: Expected a timestamp later than or equal to {:?}",
                std::time::Duration::from_secs(4)
            )
        })
    );
}

#[test]
fn adding_tags_keeps_order() {
    let mut l = LineTag::new(Duration::from_secs(1), "a".to_string());
    l.segment(segment(2, "b")).unwrap();
    l.segments(&[segment(3, "c"), segment(4, "d")]).unwrap();
    assert!(l.check_timestamp_order().is_ok());
    assert_eq!(l.clone().to_unsynced(), "abcd");

    let mut lyrics = SyncedLyrics::default();
    lyrics.line(l).unwrap();
    lyrics.line(LineTag::new(Duration::from_secs(5), "e".to_string())).unwrap();
    lyrics.lines(&[line(6, vec![]), line(7, vec![segment(8, "f")])]).unwrap();
    assert!(lyrics.check_timestamp_order().is_ok());
    assert_eq!(lyrics.to_unsynced(), "abcd\ne\n\nf");
}

#[test]
fn adding_several_segments_to_an_empty_line_checks_each_against_the_one_before() {
    let mut l = line(0, vec![]);
    assert_eq!(
        l.segments(&[segment(5, ""), segment(3, "")]),
        Err(Error::InvalidTimestampOrder {
            index: 1,
            message: format!(
                "Expected a timestamp later than {:?}",
                std::time::Duration::from_secs(5)
            )
        })
    );
    assert_eq!(l, line(0, vec![]));
    assert!(l.segments(&[segment(3, ""), segment(5, "")]).is_ok());
    assert!(l.check_timestamp_order().is_ok());
}

#[test]
fn adding_several_lines_checks_each_against_the_end_of_the_one_before() {
    let mut lyrics = SyncedLyrics::default();
    assert_eq!(
        lyrics.lines(&[
            line(1, vec![]),
            line(2, vec![segment(2, ""), segment(9, "")]),
            line(3, vec![]),
        ]),
        Err(Error::InvalidTimestampOrder {
            index: 2,
            message: format!(
                "Expected a timestamp later than {:?}",
                std::time::Duration::from_secs(9)
            )
        })
    );
    assert_eq!(lyrics, SyncedLyrics::default());
    assert!(lyrics
        .lines(&[
            line(1, vec![]),
            line(2, vec![segment(2, ""), segment(9, "")]),
            line(10, vec![]),
        ])
        .is_ok());
    assert!(lyrics.check_timestamp_order().is_ok());
}

#[test]
fn offset_moves_every_timestamp() {
    let mut l = line(1, vec![segment(1, "a"), segment(2, "b")]);
    assert_eq!(l.offset(250), Ok(()));
    assert_eq!(
        l,
        LineTag {
            timestamp: Duration::from_millis(1250),
            segments: vec![
                SegmentTag {
                    timestamp: Duration::from_millis(1250),
                    content: "a".to_string()
                },
                SegmentTag {
                    timestamp: Duration::from_millis(2250),
                    content: "b".to_string()
                },
            ]
        }
    );
    assert!(l.check_timestamp_order().is_ok());
    let before = l.clone();
    assert_eq!(l.offset(-1500), Err(Error::TimestampOffsetOverflow));
    assert_eq!(l, before);
}

#[test]
fn duration_offset_bounds() {
    assert_eq!(
        duration_offset(Duration::from_secs(1), -1000),
        Ok(Duration::default())
    );
    assert_eq!(
        duration_offset(Duration::from_secs(1), -1001),
        Err(Error::TimestampOffsetOverflow)
    );
    assert_eq!(
        duration_offset(Duration::new(u64::MAX, 999_000_000), 1),
        Err(Error::TimestampOffsetOverflow)
    );
    assert_eq!(
        duration_offset(Duration::default(), i64::MAX),
        Ok(Duration::from_millis(i64::MAX as u64))
    );
    assert_eq!(
        duration_offset(Duration::from_millis(i64::MAX as u64 + 1), i64::MIN),
        Ok(Duration::default())
    );
}

#[test]
fn active_tags_are_the_ones_playing() {
    let l = line(1, vec![segment(2, ""), segment(4, ""), segment(6, "")]);
    let at = |s: u64| l.active_tag(Duration::from_secs(s));
    assert_eq!(at(0), None);
    assert_eq!(at(1), None);
    assert_eq!(at(2), Some(0));
    assert_eq!(at(5), Some(1));
    assert_eq!(at(6), Some(2));
    assert_eq!(line(1, vec![]).active_tag(Duration::from_secs(9)), None);

    let lyrics = SyncedLyrics::new(vec![line(1, vec![]), line(5, vec![]), line(9, vec![])]);
    assert_eq!(lyrics.active_tag(Duration::from_secs(0)), None);
    assert_eq!(lyrics.active_tag(Duration::from_secs(4)), Some(0));
    assert_eq!(lyrics.active_tag(Duration::from_secs(5)), Some(1));
    assert_eq!(lyrics.active_tag(Duration::from_secs(10)), Some(2));
    assert_eq!(SyncedLyrics::default().active_tag(Duration::from_secs(1)), None);
}

#[test]
fn segment_is_active() {
    let s = segment(2, "");
    assert!(!s.is_active(Duration::from_secs(1)));
    assert!(s.is_active(Duration::from_secs(2)));
    assert!(s.is_active(Duration::from_secs(3)));
}

#[test]
fn setters() {
    let mut s = SegmentTag::default();
    s.timestamp(Duration::from_secs(2)).content("x".to_string());
    assert_eq!(s, segment(2, "x"));

    let mut l = LineTag::default();
    l.timestamp(Duration::from_secs(4));
    assert_eq!(l, line(4, vec![]));

    let mut tool = LRCTool::default();
    tool.name("editor".to_string()).version(Some("1".to_string()));
    assert_eq!(
        tool,
        LRCTool {
            name: "editor".to_string(),
            version: Some("1".to_string())
        }
    );

    let mut lyrics = SyncedLyrics::default();
    lyrics
        .title(Some("t".to_string()))
        .artist(Some("ar".to_string()))
        .album(Some("al".to_string()))
        .author(Some("au".to_string()))
        .lyricist(Some("ly".to_string()))
        .length(Some(Duration::from_secs(61)))
        .file_author(Some("by".to_string()))
        .tool(Some(tool.clone()))
        .comment("one".to_string())
        .comments(&["two".to_string(), "three".to_string()]);
    assert_eq!(
        lyrics,
        SyncedLyrics {
            title: Some("t".to_string()),
            artist: Some("ar".to_string()),
            album: Some("al".to_string()),
            author: Some("au".to_string()),
            lyricist: Some("ly".to_string()),
            length: Some(Duration::from_secs(61)),
            file_author: Some("by".to_string()),
            tool: Some(tool),
            comments: vec!["one".to_string(), "two".to_string(), "three".to_string()],
            lines: Vec::new(),
        }
    );
    assert_eq!(
        lyrics.serialize(),
        "[ti:t]\n[ar:ar]\n[al:al]\n[au:au]\n[lr:ly]\n[length:1:1]\n[by:by]\n[tool:editor]\n[ve:1]\n[#:one]\n[#:two]\n[#:three]"
    );
}

#[test]
fn serialize_parts() {
    assert_eq!(SyncedLyrics::serialize_id_tag("ti", "x", false), "[ti:x]");
    assert_eq!(SyncedLyrics::serialize_id_tag("ti", "x", true), "\n[ti:x]");
    assert_eq!(SyncedLyrics::default().serialize(), "");
    let mut lyrics = SyncedLyrics::new(vec![line(1, vec![]), line(2, vec![segment(2, "b")])]);
    assert_eq!(lyrics.clone().serialize(), "[00:01.00]\n[00:02.00] b");
    lyrics.comment("c".to_string());
    assert_eq!(lyrics.clone().serialize(), "[#:c]\n[00:01.00]\n[00:02.00] b");
    assert!(!lyrics.is_enhanced_lrc());
    assert!(SyncedLyrics::new(vec![line(1, vec![segment(2, "")])]).is_enhanced_lrc());
    assert_eq!(
        lrc_rs::format::duration_to_standard_timestamp(Duration::from_millis(61_995)),
        "[01:01.10]"
    );
    assert_eq!(
        lrc_rs::format::duration_to_a2_timestamp(Duration::from_millis(45)),
        "<00:00.50>"
    );
    assert_eq!(
        lrc_rs::duration_to_timestamp(Duration::from_secs(6000)),
        "100:00.00"
    );
}

#[test]
fn durations() {
    let d = Duration::new(3, 1_500_000_000);
    assert_eq!(d.as_secs(), 4);
    assert_eq!(d.subsec_nanos(), 500_000_000);
    assert_eq!(d.subsec_millis(), 500);
    assert_eq!(d.as_nanos(), 4_500_000_000);
    assert_eq!(d.checked_sub(Duration::from_secs(5)), None);
    assert_eq!(
        d.checked_add(Duration::from_nanos(1)),
        Some(Duration::new(4, 500_000_001))
    );
    assert_eq!(
        Duration::new(u64::MAX, 999_999_999).checked_add(Duration::from_nanos(1)),
        None
    );
    assert_eq!(Duration::zero(), Duration::default());
}

#[test]
fn order_messages() {
    assert_eq!(
        lrc_rs::error::later_than_shown("2.1s"),
        "Expected a timestamp later than 2.1s"
    );
    assert_eq!(
        lrc_rs::error::later_or_equal_shown("100ms"),
        "Expected a timestamp later than or equal to 100ms"
    );
    assert_eq!(
        lrc_rs::error::later_than_message(Duration::from_millis(100)),
        "Expected a timestamp later than 100ms"
    );
    assert_eq!(
        lrc_rs::error::later_or_equal_message(secs_f32(2.1)),
        format!(
            "Expected a timestamp later than or equal to {:?}",
            std::time::Duration::from_secs_f32(2.1)
        )
    );
}

#[test]
fn a_bare_timestamp_first_reads_as_an_id_tag() {
    assert_eq!(
        parse_lyrics("[00:01.00]\n[00:02.00] a"),
        Err(Error::UnknownKey {
            key: "00".to_string()
        })
    );
    let lyrics = parse_lyrics("[00:00.50] a\n[00:01.00]\n[00:02.00] b").unwrap();
    assert_eq!(lyrics.lines.len(), 3);
    assert!(lyrics.lines[1].segments.is_empty());
}

#[test]
fn a_line_with_one_empty_segment_is_written_with_its_a2_timestamp() {
    let l = LineTag::new(Duration::from_secs(1), String::new());
    assert_eq!(l.serialize(), "[00:01.00] <00:01.00> ");
}

#[test]
fn serialize_parse_round_trip() {
    for input in [
        "[00:01.00] <00:01.00>",
        "[00:00.50] a\n[00:01.00]",
        "[ti:x]\n[#:c]\n[00:01.00] a\n[00:02.00]\n[00:03.00] <00:03.50> b <00:04.00>",
        "[offset:-100]\n[length:3:05]\n[00:01.00] <00:01.20> a",
    ] {
        let parsed = parse_lyrics(input).unwrap();
        let once = parsed.clone().serialize();
        let twice = parse_lyrics(&once).unwrap().serialize();
        assert_eq!(once, twice);
    }
}

#[test]
fn serialized_lyrics_scan_back() {
    let lyrics = parse_lyrics("[ti:x]\n[#:c]\n[00:01.00] a\n[00:02.00]").unwrap();
    let text = lyrics.serialize();
    assert_eq!(text, "[ti:x]\n[#:c]\n[00:01.00] a\n[00:02.00]");
    let items = lrc_rs::scanner::scan_lines(&text).unwrap();
    assert_eq!(items.len(), 4);
}
