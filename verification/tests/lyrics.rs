use lrc_rs::{
    Duration, Error, LRCTool, LineTag, LrcScan, LyricsAccess, RawTimestamp, SegmentTag,
    SyncedLyrics,
};

const EXAMPLE: &str = "[ti:example]
[ar:tpaau]
[al:lrc_rs]
[au:aaa]
[lr:help]
[length:420:17]
[by:Helix]
[offset:+100]
[tool:me]
[re:me1]
[ve:1.0.0]
[#:Hello, this is a comment]
[00:12.10] Hello, this is an example line that will appear at 12.1s
[0:16.7] You can also trim them numbers and it still works
[00:22.00] <00:22.50> Line segments <00:23.90> can also have <00:25.10> timestamps :)
[00:28.80]
";

const EXAMPLE_WITHOUT_SYNC: &str = "Hello, this is an example line that will appear at 12.1s
You can also trim them numbers and it still works
Line segments can also have timestamps :)
";

const EXAMPLE_EXPECTED_SERIALIZED: &str = "[ti:example]
[ar:tpaau]
[al:lrc_rs]
[au:aaa]
[lr:help]
[length:420:17]
[by:Helix]
[tool:me]
[ve:1.0.0]
[#:Hello, this is a comment]
[00:12.10] Hello, this is an example line that will appear at 12.1s
[00:22.00] <00:22.50> Line segments <00:23.90> can also have <00:25.10> timestamps :)
[00:28.80]
";

fn dur(d: std::time::Duration) -> Duration {
    Duration::new(d.as_secs(), d.subsec_nanos())
}

fn secs_f32(x: f32) -> Duration {
    dur(std::time::Duration::from_secs_f32(x))
}

fn secs_f64(x: f64) -> Duration {
    dur(std::time::Duration::from_secs_f64(x))
}

fn plus_millis(d: Duration, millis: u64) -> Duration {
    d.checked_add(Duration::from_millis(millis)).unwrap()
}

fn measure(t: &RawTimestamp) -> Duration {
    let (_, seconds) =
        nom::number::complete::float::<&str, nom::error::Error<&str>>(t.seconds.as_str())
            .unwrap();
    secs_f32(seconds + (t.minutes * 60) as f32)
}

fn parse_lyrics(text: &str) -> Result<SyncedLyrics, Error> {
    let scan = LrcScan::scan(text)?;
    let stamps: Vec<Duration> = scan.raw_timestamps().iter().map(measure).collect();
    SyncedLyrics::from_scan(scan, &stamps)
}

fn later_than(d: std::time::Duration) -> String {
    format!("Expected a timestamp later than {:?}", d)
}

fn later_or_equal(d: std::time::Duration) -> String {
    format!("Expected a timestamp later than or equal to {:?}", d)
}

fn segment(timestamp: Duration, content: &str) -> SegmentTag {
    SegmentTag {
        timestamp,
        content: content.to_string(),
    }
}

fn parsed_example() -> SyncedLyrics {
    SyncedLyrics {
        title: Some("example".to_string()),
        artist: Some("tpaau".to_string()),
        album: Some("lrc_rs".to_string()),
        author: Some("aaa".to_string()),
        lyricist: Some("help".to_string()),
        length: Some(secs_f32(25217.0)),
        file_author: Some("Helix".to_string()),
        tool: Some(LRCTool {
            name: "me1".to_string(),
            version: Some("1.0.0".to_string()),
        }),
        comments: vec!["Hello, this is a comment".to_string()],
        lines: vec![
            LineTag {
                timestamp: plus_millis(secs_f32(12.1), 100),
                segments: vec![segment(
                    plus_millis(secs_f32(12.1), 100),
                    "Hello, this is an example line that will appear at 12.1s",
                )],
            },
            LineTag {
                timestamp: plus_millis(secs_f32(16.7), 100),
                segments: vec![segment(
                    plus_millis(secs_f32(16.7), 100),
                    "You can also trim them numbers and it still works",
                )],
            },
            LineTag {
                timestamp: plus_millis(secs_f32(22.0), 100),
                segments: vec![
                    segment(plus_millis(secs_f32(22.5), 100), "Line segments "),
                    segment(plus_millis(secs_f32(23.9), 100), "can also have "),
                    segment(plus_millis(secs_f32(25.1), 100), "timestamps :)"),
                ],
            },
            LineTag {
                timestamp: plus_millis(secs_f32(28.8), 100),
                segments: Vec::new(),
            },
        ],
    }
}

fn expected_serialized() -> SyncedLyrics {
    SyncedLyrics {
        title: Some("example".to_string()),
        artist: Some("tpaau".to_string()),
        album: Some("lrc_rs".to_string()),
        author: Some("aaa".to_string()),
        lyricist: Some("help".to_string()),
        length: Some(secs_f32(25217.0)),
        file_author: Some("Helix".to_string()),
        tool: Some(LRCTool {
            name: "me".to_string(),
            version: Some("1.0.0".to_string()),
        }),
        comments: vec!["Hello, this is a comment".to_string()],
        lines: vec![
            LineTag {
                timestamp: secs_f32(12.1),
                segments: vec![segment(
                    secs_f32(12.1),
                    "Hello, this is an example line that will appear at 12.1s",
                )],
            },
            LineTag {
                timestamp: secs_f32(22.0),
                segments: vec![
                    segment(secs_f32(22.5), "Line segments "),
                    segment(secs_f32(23.9), "can also have "),
                    segment(secs_f32(25.1), "timestamps :)"),
                ],
            },
            LineTag {
                timestamp: secs_f32(28.8),
                segments: Vec::new(),
            },
        ],
    }
}

#[test]
fn tests_parse() {
    assert_eq!(parse_lyrics(EXAMPLE), Ok(parsed_example()));
}

#[test]
fn to_unsynced() {
    assert_eq!(
        parsed_example().to_unsynced().to_string(),
        EXAMPLE_WITHOUT_SYNC.to_string()
    );
}

#[test]
fn normalize_fraction() {
    assert_eq!(lrc_rs::normalize_fraction(120), 12);
    assert_eq!(lrc_rs::normalize_fraction(1), 10);
    assert_eq!(lrc_rs::normalize_fraction(149), 15);
    assert_eq!(lrc_rs::normalize_fraction(319), 32);
    assert_eq!(lrc_rs::normalize_fraction(10), 10);
    assert_eq!(lrc_rs::normalize_fraction(31), 31);
    assert_eq!(lrc_rs::normalize_fraction(1234), 12);
    assert_eq!(lrc_rs::normalize_fraction(0), 0);
}

#[test]
fn duration_to_timestamp() {
    assert_eq!(
        lrc_rs::duration_to_timestamp(secs_f64(75.01)),
        "01:15.10".to_string()
    );
    assert_eq!(lrc_rs::duration_to_timestamp(secs_f64(7220.319)), "120:20.32");
}

#[test]
fn serialize_segment_tag() {
    let tag = SegmentTag {
        timestamp: secs_f32(67.69),
        content: "Six Seven".to_string(),
    };
    assert_eq!(tag.clone().serialize(false), "Six Seven".to_string());
    assert_eq!(tag.serialize(true), "<01:07.69> Six Seven".to_string());
}

#[test]
fn serialize_line_tag() {
    assert_eq!(
        LineTag {
            timestamp: secs_f32(420.1337),
            segments: Vec::new()
        }
        .serialize(),
        "[07:00.13]".to_string()
    );
    assert_eq!(
        LineTag {
            timestamp: secs_f32(420.1337),
            segments: vec![SegmentTag {
                timestamp: secs_f32(420.1337),
                content: "Standard line!".to_string()
            }]
        }
        .serialize(),
        "[07:00.13] Standard line!".to_string()
    );
    assert_eq!(
        LineTag {
            timestamp: secs_f32(420.1337),
            segments: vec![SegmentTag {
                timestamp: secs_f32(1984.2137),
                content: "Hello World!".to_string()
            }]
        }
        .serialize(),
        "[07:00.13] <33:04.21> Hello World!".to_string()
    );
    assert_eq!(
        LineTag {
            timestamp: secs_f32(420.1337),
            segments: vec![
                SegmentTag {
                    timestamp: secs_f32(1984.2137),
                    content: "Hello ".to_string()
                },
                SegmentTag {
                    timestamp: secs_f32(2137.1337),
                    content: "World!".to_string()
                }
            ]
        }
        .serialize(),
        "[07:00.13] <33:04.21> Hello <35:37.13> World!".to_string()
    );
}

#[test]
fn format_duration_mm_ss() {
    assert_eq!(
        SyncedLyrics::format_duration_mm_ss(Duration::from_secs(128)),
        "2:8".to_string()
    );
}

#[test]
fn serialize() {
    assert_eq!(
        expected_serialized().serialize() + "\n",
        EXAMPLE_EXPECTED_SERIALIZED
    );

    let parsed = parse_lyrics(EXAMPLE).unwrap();
    let parsed_twice = parse_lyrics(&parsed.clone().serialize()).unwrap().serialize();
    assert_eq!(parsed.serialize(), parsed_twice);
}

#[test]
fn line_tag_check_timestamp_order() {
    assert!(LineTag::default().check_timestamp_order().is_ok());
    assert!(LineTag {
        timestamp: Duration::from_secs(3),
        segments: vec![segment(Duration::from_secs(3), "")]
    }
    .check_timestamp_order()
    .is_ok());
    assert!(LineTag {
        timestamp: Duration::from_secs(3),
        segments: vec![segment(Duration::from_secs(4), "")]
    }
    .check_timestamp_order()
    .is_ok());
    assert!(LineTag {
        timestamp: Duration::from_secs(3),
        segments: vec![
            segment(Duration::from_secs(3), ""),
            segment(Duration::from_secs(5), "")
        ]
    }
    .check_timestamp_order()
    .is_ok());
    assert_eq!(
        LineTag {
            timestamp: Duration::from_secs(3),
            segments: vec![
                segment(Duration::from_secs(4), ""),
                segment(Duration::from_secs(4), "")
            ]
        }
        .check_timestamp_order(),
        Err(Error::InvalidTimestampOrder {
            index: 1,
            message: later_than(std::time::Duration::from_secs(4))
        })
    );
}

#[test]
fn synced_lyrics_check_timestamp_order() {
    assert!(SyncedLyrics::default().check_timestamp_order().is_ok());
    assert!(SyncedLyrics::new(vec![LineTag::default()])
        .check_timestamp_order()
        .is_ok());
    assert!(SyncedLyrics::new(vec![
        LineTag {
            timestamp: Duration::from_secs(5),
            segments: Vec::new()
        },
        LineTag {
            timestamp: Duration::from_secs(6),
            segments: Vec::new()
        }
    ])
    .check_timestamp_order()
    .is_ok());
    assert!(SyncedLyrics::new(vec![
        LineTag {
            timestamp: Duration::from_secs(5),
            segments: vec![
                segment(Duration::from_secs(6), ""),
                segment(Duration::from_secs(7), "")
            ]
        },
        LineTag {
            timestamp: Duration::from_secs(8),
            segments: vec![
                segment(Duration::from_secs(8), ""),
                segment(Duration::from_secs(9), "")
            ]
        },
        LineTag {
            timestamp: Duration::from_secs(10),
            segments: Vec::new()
        }
    ])
    .check_timestamp_order()
    .is_ok());
    assert_eq!(
        SyncedLyrics::new(vec![
            LineTag {
                timestamp: Duration::from_secs(5),
                segments: vec![segment(Duration::from_secs(6), "")]
            },
            LineTag {
                timestamp: Duration::from_secs(6),
                segments: Vec::new()
            }
        ])
        .check_timestamp_order(),
        Err(Error::InvalidTimestampOrder {
            index: 1,
            message: later_than(std::time::Duration::from_secs(6))
        })
    );
}

#[test]
fn parse_invalid_timestamp_order_fail() {
    assert!(parse_lyrics("[00:02.10] a\n[00:02.20] b").is_ok());
    assert_eq!(
        parse_lyrics("[00:02.00] a\n[00:02.00] a"),
        Err(Error::InvalidTimestampOrder {
            index: 1,
            message: later_than(std::time::Duration::from_secs(2))
        })
    );
    assert_eq!(
        parse_lyrics("[00:02.00] a\n[00:01.00] b"),
        Err(Error::InvalidTimestampOrder {
            index: 1,
            message: later_than(std::time::Duration::from_secs(2))
        })
    );
    assert_eq!(
        parse_lyrics("[00:02.00] <00:02.30> a <00:02.20> b \n[00:02.90] c"),
        Err(Error::InvalidTimestampOrder {
            index: 0,
            message: format!(
                "Invalid tag timestamp at index 1: Expected a timestamp later than {:?}",
                std::time::Duration::from_secs_f32(2.3)
            )
        })
    );
}

#[test]
fn line_tag_add_segment() {
    let mut line = LineTag::default();
    line.timestamp(secs_f32(0.5));
    let seg = segment(Duration::from_secs(1), "");
    assert!(line.segment(seg.clone()).is_ok());
    assert_eq!(
        line,
        LineTag {
            timestamp: secs_f32(0.5),
            segments: vec![seg]
        }
    );

    let mut line = LineTag::default();
    line.timestamp(Duration::from_secs(1));
    let seg = segment(Duration::from_secs(1), "");
    assert!(line.segment(seg.clone()).is_ok(),);
    assert_eq!(
        line,
        LineTag {
            timestamp: Duration::from_secs(1),
            segments: vec![seg]
        }
    );

    let mut line = LineTag::default();
    line.timestamp(Duration::from_secs(1));
    let seg = segment(secs_f32(0.5), "");
    assert_eq!(
        line.segment(seg),
        Err(Error::InvalidTimestampOrder {
            index: 0,
            message: later_or_equal(std::time::Duration::from_secs(1))
        })
    );
    assert_eq!(
        line,
        LineTag {
            timestamp: Duration::from_secs(1),
            segments: Vec::new()
        }
    );
}

#[test]
fn line_tag_add_segments() {
    let mut line = LineTag::default();
    let segments = &[SegmentTag::default()];
    assert!(line.segments(segments).is_ok());
    assert_eq!(
        line,
        LineTag {
            timestamp: Duration::default(),
            segments: vec![SegmentTag::default()]
        }
    );

    let mut line = LineTag::default();
    let segments = &[segment(Duration::from_secs(1), "")];
    assert!(line.segments(segments).is_ok());
    assert_eq!(
        line,
        LineTag {
            timestamp: Duration::default(),
            segments: vec![segment(Duration::from_secs(1), "")]
        }
    );

    let mut line = LineTag::default();
    line.timestamp(Duration::from_secs(1));
    let segments = &[SegmentTag::default()];
    assert_eq!(
        line.segments(segments),
        Err(Error::InvalidTimestampOrder {
            index: 0,
            message: later_or_equal(std::time::Duration::from_secs(1))
        })
    );
    assert_eq!(
        line,
        LineTag {
            timestamp: Duration::from_secs(1),
            segments: Vec::new()
        }
    );

    let mut line = LineTag::default();
    let segments = &[SegmentTag::default(), segment(Duration::from_secs(1), "")];
    assert!(line.segments(segments).is_ok());
    assert_eq!(
        line,
        LineTag {
            timestamp: Duration::default(),
            segments: segments.to_vec(),
        }
    );

    let mut line = LineTag::default();
    let segments = &[
        segment(Duration::from_secs(1), ""),
        segment(Duration::from_secs(2), ""),
    ];
    assert!(line.segments(segments).is_ok());
    assert_eq!(
        line,
        LineTag {
            timestamp: Duration::default(),
            segments: segments.to_vec(),
        }
    );

    let mut line = LineTag::default();
    line.timestamp(Duration::from_secs(1));
    assert_eq!(
        line.segments(&[SegmentTag::default(), segment(Duration::from_secs(1), "")]),
        Err(Error::InvalidTimestampOrder {
            index: 0,
            message: later_or_equal(std::time::Duration::from_secs(1))
        })
    );

    let mut line = LineTag::default();
    line.timestamp(Duration::from_secs(1));
    assert_eq!(
        line.segments(&[segment(Duration::from_secs(1), ""), SegmentTag::default()]),
        Err(Error::InvalidTimestampOrder {
            index: 1,
            message: later_than(std::time::Duration::from_secs(1))
        })
    );

    let mut line = LineTag::default();
    line.timestamp(Duration::from_secs(1));
    assert_eq!(
        line.segments(&[
            segment(Duration::from_secs(1), ""),
            segment(Duration::from_secs(1), ""),
        ]),
        Err(Error::InvalidTimestampOrder {
            index: 1,
            message: later_than(std::time::Duration::from_secs(1))
        })
    );
}

#[test]
fn synced_lyrics_add_line() {
    let mut lyrics = SyncedLyrics::default();
    let mut line = LineTag::default();
    line.segments(&[SegmentTag::default(), segment(Duration::from_secs(1), "")])
        .unwrap();

    let expected = SyncedLyrics {
        lines: vec![line.clone()],
        ..Default::default()
    };

    lyrics.line(line.clone()).unwrap();
    assert_eq!(lyrics, expected);

    let line1 = LineTag {
        timestamp: Duration::from_secs(2),
        segments: vec![
            segment(Duration::from_secs(2), ""),
            segment(Duration::from_secs(2), ""),
        ],
    };
    assert_eq!(
        lyrics.line(line1),
        Err(Error::InvalidTimestampOrder {
            index: 0,
            message: format!(
                "Invalid tag timestamp at index 1: Expected a timestamp later than {:?}",
                std::time::Duration::from_secs(2)
            )
        })
    );
    assert_eq!(lyrics, expected);

    assert_eq!(
        lyrics.line(LineTag::default()),
        Err(Error::InvalidTimestampOrder {
            index: 0,
            message: later_than(std::time::Duration::from_secs(1))
        })
    );
    assert_eq!(lyrics, expected);
}

#[test]
fn synced_lyrics_add_lines() {
    let mut lyrics = SyncedLyrics::default();
    let lines = &[LineTag {
        timestamp: Duration::default(),
        segments: vec![SegmentTag::default()],
    }];
    lyrics.lines(lines).unwrap();
    assert_eq!(
        lyrics,
        SyncedLyrics {
            lines: lines.to_vec(),
            ..Default::default()
        }
    );
    let expected = lyrics.clone();

    assert_eq!(
        lyrics.lines(&[LineTag {
            timestamp: Duration::default(),
            segments: Vec::new(),
        }]),
        Err(Error::InvalidTimestampOrder {
            index: 0,
            message: later_than(std::time::Duration::default())
        })
    );
    assert_eq!(lyrics, expected);

    assert_eq!(
        lyrics.lines(&[LineTag {
            timestamp: Duration::from_secs(1),
            segments: vec![SegmentTag::default()]
        }]),
        Err(Error::InvalidTimestampOrder {
            index: 0,
            message: format!(
                "Invalid tag timestamp at index 0: Expected a timestamp later than or equal to {:?}",
                std::time::Duration::from_secs(1)
            )
        })
    );
    assert_eq!(lyrics, expected);

    assert_eq!(
        lyrics.lines(&[LineTag {
            timestamp: Duration::from_secs(1),
            segments: vec![
                segment(Duration::from_secs(1), ""),
                segment(Duration::from_secs(1), "")
            ]
        }]),
        Err(Error::InvalidTimestampOrder {
            index: 0,
            message: format!(
                "Invalid tag timestamp at index 1: Expected a timestamp later than {:?}",
                std::time::Duration::from_secs(1)
            )
        })
    );
    assert_eq!(lyrics, expected);

    assert_eq!(
        lyrics.lines(&[
            LineTag {
                timestamp: Duration::from_secs(1),
                segments: vec![segment(Duration::from_secs(1), "")]
            },
            LineTag {
                timestamp: Duration::from_secs(1),
                segments: Vec::new()
            }
        ]),
        Err(Error::InvalidTimestampOrder {
            index: 1,
            message: later_than(std::time::Duration::from_secs(1))
        })
    );
}

#[test]
fn line_tag_lyrics_at() {
    let line = LineTag {
        timestamp: Duration::from_secs(1),
        segments: vec![
            segment(Duration::from_secs(2), ""),
            segment(Duration::from_secs(3), ""),
        ],
    };
    assert_eq!(line.active_tag(Duration::default()), None);
    assert_eq!(line.active_tag(Duration::from_secs(1)), None);
    assert_eq!(line.active_tag(secs_f32(1.5)), None);
    assert_eq!(line.active_tag(Duration::from_secs(2)), Some(0));
    assert_eq!(line.active_tag(secs_f32(2.5)), Some(0));
    assert_eq!(line.active_tag(Duration::from_secs(3)), Some(1));
    assert_eq!(line.active_tag(Duration::from_secs(u64::MAX)), Some(1));

    let line = LineTag {
        timestamp: Duration::from_secs(1),
        segments: vec![segment(Duration::from_secs(1), "")],
    };
    assert_eq!(line.active_tag(Duration::default()), None);
    assert_eq!(line.active_tag(Duration::from_secs(1)), Some(0));
}

#[test]
fn synced_lyrics_lyrics_at() {
    let lyrics = SyncedLyrics::new(vec![
        LineTag::new(Duration::from_secs(1), String::new()),
        LineTag::new(Duration::from_secs(3), String::new()),
        LineTag::new(Duration::from_secs(7), String::new()),
    ]);
    assert_eq!(lyrics.active_tag(Duration::default()), None);
    assert_eq!(lyrics.active_tag(secs_f32(0.5)), None);
    assert_eq!(lyrics.active_tag(Duration::from_secs(1)), Some(0));
    assert_eq!(lyrics.active_tag(Duration::from_secs(2)), Some(0));
    assert_eq!(lyrics.active_tag(Duration::from_secs(3)), Some(1));
    assert_eq!(lyrics.active_tag(Duration::from_secs(6)), Some(1));
    assert_eq!(lyrics.active_tag(Duration::from_secs(7)), Some(2));
    assert_eq!(lyrics.active_tag(Duration::from_secs(u64::MAX)), Some(2));

    let lyrics = SyncedLyrics::new(vec![
        LineTag::new(secs_f32(1.2), String::new()),
        LineTag {
            timestamp: Duration::from_secs(2),
            segments: Vec::new(),
        },
        LineTag::new(secs_f32(4.1), String::new()),
    ]);

    assert_eq!(lyrics.active_tag(Duration::from_secs(3)), Some(1));
}
