use lrc_rs::scanner::{
    chars_of, parse_a2_tag, parse_a2_tags, parse_comment, parse_delimited_timestamp,
    parse_id_tag, parse_line_with_a2, parse_newline_or_end, parse_standard_line,
    parse_timestamp, parse_unsigned_int, scan_lines, skip_until_a2,
};
use lrc_rs::{
    Duration, Error, ErrorKind, LineTag, RawLine, RawTimestamp, ScannedLine, SegmentTag, Step,
};

const EXAMPLE: &str = "[ti:example]
[ar:tpaau]
[al:lrc_rs]
[au:aaa]
[lr:help]
[length:420:17]
[by:Helix]
[offset:+100]
[tool:me]
[re:me1]
[ve:1.0.0]
[#:Hello, this is a comment]
[00:12.10] Hello, this is an example line that will appear at 12.1s
[0:16.7] You can also trim them numbers and it still works
[00:22.00] <00:22.50> Line segments <00:23.90> can also have <00:25.10> timestamps :)
[00:28.80]
";

const EXAMPLE_WITH_WHITESPACE: &str = "[ti: example]  \r
[ar:   tpaau]

[al:lrc_rs]\t
[au: aaa]
[lr:help]


[length: 420:17]
[by:Helix]   
[offset: +100]
[tool:  me]
[re:me1]
[ve: 1.0.0]

[#:   Hello, this is a comment]   

[00:12.10]    Hello, this is an example line that will appear at 12.1s

[0:16.7]\tYou can also trim them numbers and it still works
[00:22.00]   <00:22.50>   Line segments <00:23.90> can also have <00:25.10> timestamps :)
[00:28.80]   


";

const WRONG_ID_TAGS_POSITIONING: &str = "[ti:example]
[00:01.00] First line
[00:02.00] Second line
[ar:I shouldn't be here]
";

fn dur(d: std::time::Duration) -> Duration {
    Duration::new(d.as_secs(), d.subsec_nanos())
}

fn secs_f32(x: f32) -> Duration {
    dur(std::time::Duration::from_secs_f32(x))
}

fn measure(t: &RawTimestamp) -> Duration {
    let (_, seconds) =
        nom::number::complete::float::<&str, nom::error::Error<&str>>(t.seconds.as_str())
            .unwrap();
    secs_f32(seconds + (t.minutes * 60) as f32)
}

fn measure_line(l: &RawLine) -> LineTag {
    LineTag {
        timestamp: measure(&l.timestamp),
        segments: l
            .segments
            .iter()
            .map(|s| SegmentTag {
                timestamp: measure(&s.timestamp),
                content: s.content.clone(),
            })
            .collect(),
    }
}

fn segment(timestamp: Duration, content: &str) -> SegmentTag {
    SegmentTag {
        timestamp,
        content: content.to_string(),
    }
}

/// Runs a step at the start of `text`: the rest of the text and the value, or the
/// rest of the text from the error and its kind.
fn run<T, F>(text: &str, f: F) -> Result<(String, T), (String, ErrorKind)>
where
    F: Fn(&Vec<char>, usize) -> Step<usize, T>,
{
    let s = chars_of(text);
    match f(&s, 0) {
        Step::Done(p, v) => Ok((s[p..].iter().collect(), v)),
        Step::Error(p, k) => Err((s[p..].iter().collect(), k)),
        Step::Failure(p, k) => panic!("unexpected failure at {p}: {k:?}"),
    }
}

fn rest<T>(r: Result<(String, T), (String, ErrorKind)>) -> Result<(String, ()), (String, ErrorKind)> {
    r.map(|(s, _)| (s, ()))
}

fn scan_timestamp(text: &str) -> Result<(String, Duration), (String, ErrorKind)> {
    run(text, parse_timestamp).map(|(s, t)| (s, measure(&t)))
}

fn scan_standard_timestamp(text: &str) -> Result<(String, Duration), (String, ErrorKind)> {
    run(text, |s, i| parse_delimited_timestamp(s, i, '[', ']')).map(|(s, t)| (s, measure(&t)))
}

fn scan_a2_timestamp(text: &str) -> Result<(String, Duration), (String, ErrorKind)> {
    run(text, |s, i| parse_delimited_timestamp(s, i, '<', '>')).map(|(s, t)| (s, measure(&t)))
}

fn scan_a2_tag(text: &str) -> Result<(String, SegmentTag), (String, ErrorKind)> {
    run(text, parse_a2_tag).map(|(s, t)| {
        (
            s,
            SegmentTag {
                timestamp: measure(&t.timestamp),
                content: t.content,
            },
        )
    })
}

fn timed_line<F>(text: &str, f: F) -> Result<(String, LineTag), (String, ErrorKind)>
where
    F: Fn(&Vec<char>, usize) -> Step<usize, RawLine>,
{
    run(text, f).map(|(s, l)| (s, measure_line(&l)))
}

#[derive(Debug, PartialEq)]
enum Item {
    Id(String, String),
    Comment(String),
    Tag(LineTag),
}

fn items(text: &str) -> Result<Vec<Item>, Error> {
    scan_lines(text).map(|v| {
        v.iter()
            .map(|l| match l {
                ScannedLine::Id { key, value } => Item::Id(key.clone(), value.clone()),
                ScannedLine::Comment(c) => Item::Comment(c.clone()),
                ScannedLine::Timed(l) => Item::Tag(measure_line(l)),
            })
            .collect()
    })
}

fn id(key: &str, value: &str) -> Item {
    Item::Id(key.to_string(), value.to_string())
}

#[test]
fn newline_or_end() {
    assert_eq!(rest(run("\n", parse_newline_or_end)), Ok(("".to_string(), ())));
    assert_eq!(rest(run("", parse_newline_or_end)), Ok(("".to_string(), ())));
    assert_eq!(
        rest(run("\naaaa\n", parse_newline_or_end)),
        Ok(("aaaa\n".to_string(), ()))
    );
    assert_eq!(
        rest(run("aa", parse_newline_or_end)),
        Err(("aa".to_string(), ErrorKind::Eof))
    );
    assert_eq!(
        rest(run("aa\n", parse_newline_or_end)),
        Err(("aa\n".to_string(), ErrorKind::Eof))
    );
}

#[test]
fn till_a2_tag_or_end() {
    let till = |text: &str| {
        let s = chars_of(text);
        let j = skip_until_a2(&s, 0);
        (s[j..].iter().collect::<String>(), s[..j].iter().collect::<String>())
    };
    assert_eq!(
        till("aaaaaaaaaa <"),
        ("<".to_string(), "aaaaaaaaaa ".to_string())
    );
    assert_eq!(till("hello"), ("".to_string(), "hello".to_string()));
    assert_eq!(till(""), ("".to_string(), "".to_string()));
}

#[test]
fn timestamp() {
    assert_eq!(scan_timestamp("11:53.20"), Ok(("".to_string(), secs_f32(713.2))));
    assert_eq!(scan_timestamp("00:00.00"), Ok(("".to_string(), Duration::default())));
    assert_eq!(scan_timestamp("01:21"), Ok(("".to_string(), Duration::from_secs(81))));
    assert_eq!(scan_timestamp(""), Err(("".to_string(), ErrorKind::Digit)));
    assert_eq!(
        scan_timestamp("01::21.5"),
        Err((":21.5".to_string(), ErrorKind::Float))
    );
    assert_eq!(
        scan_timestamp("01.15:28.23"),
        Err((".15:28.23".to_string(), ErrorKind::Char))
    );
}

#[test]
fn unsigned_int() {
    assert_eq!(run("420", parse_unsigned_int), Ok(("".to_string(), 420)));
    assert_eq!(run("69.0", parse_unsigned_int), Ok((".0".to_string(), 69)));
    assert_eq!(
        run("-67", parse_unsigned_int),
        Err(("-67".to_string(), ErrorKind::Digit))
    );
    assert_eq!(
        run("4294967296", parse_unsigned_int),
        Err(("4294967296".to_string(), ErrorKind::MapRes))
    );
}

#[test]
fn offset() {
    let offset = |text: &str| lrc_rs::assemble::read_offset(&text.to_string());
    assert_eq!(offset("+1337"), Ok(1337));
    assert_eq!(offset("-1984"), Ok(-1984));
    assert_eq!(
        offset("+2137.1"),
        Err(Error::Nom {
            input: ".1".to_string(),
            error: ErrorKind::Eof
        })
    );
    assert_eq!(
        offset("+69a"),
        Err(Error::Nom {
            input: "a".to_string(),
            error: ErrorKind::Eof
        })
    );
}

#[test]
fn standard_timestamp() {
    assert_eq!(
        scan_standard_timestamp("[11:53.20]"),
        Ok(("".to_string(), secs_f32(713.2)))
    );
    assert_eq!(
        scan_standard_timestamp("11:01.00]"),
        Err(("11:01.00]".to_string(), ErrorKind::Char))
    );
    assert_eq!(
        scan_standard_timestamp("[11:01.00"),
        Err(("".to_string(), ErrorKind::Char))
    );
}

#[test]
fn a2_timestamp() {
    assert_eq!(
        scan_a2_timestamp("<11:53.20>"),
        Ok(("".to_string(), secs_f32(713.2)))
    );
    assert_eq!(
        scan_a2_timestamp("11:01.00>"),
        Err(("11:01.00>".to_string(), ErrorKind::Char))
    );
    assert_eq!(
        scan_a2_timestamp("<11:01.00"),
        Err(("".to_string(), ErrorKind::Char))
    );
}

#[test]
fn a2_tag() {
    assert_eq!(
        scan_a2_tag("<69:00.42> a"),
        Ok(("".to_string(), segment(secs_f32(4140.42), "a")))
    );
    let many = run("<00:00.00> Hello <00:01.00> World!", parse_a2_tags).map(|(s, v)| {
        (
            s,
            v.iter()
                .map(|t| segment(measure(&t.timestamp), &t.content))
                .collect::<Vec<_>>(),
        )
    });
    assert_eq!(
        many,
        Ok((
            "".to_string(),
            vec![
                segment(Duration::default(), "Hello "),
                segment(secs_f32(1.0), "World!")
            ]
        ))
    );
    assert_eq!(
        scan_a2_tag("<00:00.00> Hello <00:01.00> World!"),
        Ok((
            "<00:01.00> World!".to_string(),
            segment(Duration::default(), "Hello ")
        ))
    );
    assert_eq!(
        scan_a2_tag("<00:12.00 Hello!"),
        Err((" Hello!".to_string(), ErrorKind::Char))
    );
    assert_eq!(
        scan_a2_tag("00:12.00> Hello!"),
        Err(("00:12.00> Hello!".to_string(), ErrorKind::Char))
    );
    assert_eq!(
        scan_a2_tag("<00:12.00> Hello!\n"),
        Ok(("\n".to_string(), segment(secs_f32(12.0), "Hello!")))
    );
}

#[test]
fn comment() {
    let ok = |r: &str, c: &str| Ok((r.to_string(), c.to_string()));
    assert_eq!(
        run("[#: I am a comment]", parse_comment),
        ok("", "I am a comment")
    );
    assert_eq!(
        run("[#: Hello, this is a comment]", parse_comment),
        ok("", "Hello, this is a comment")
    );
    assert_eq!(
        run("[#: Hello, this is a comment]\n", parse_comment),
        ok("", "Hello, this is a comment")
    );
    assert_eq!(
        run("[#: Hello, this is a comment]\na", parse_comment),
        ok("a", "Hello, this is a comment")
    );
    assert_eq!(
        run("[#: Hello, this is a comment] \na", parse_comment),
        ok("a", "Hello, this is a comment")
    );
    assert_eq!(
        run("[#: I am a comment]  ", parse_comment),
        ok("", "I am a comment")
    );
    assert_eq!(
        run("[a: I am a comment]", parse_comment),
        Err(("a: I am a comment]".to_string(), ErrorKind::Tag))
    );
    assert_eq!(
        run("[# I am]", parse_comment),
        Err(("# I am]".to_string(), ErrorKind::Tag))
    );
    assert_eq!(
        run("#: therefore I think]", parse_comment),
        Err(("#: therefore I think]".to_string(), ErrorKind::Char))
    );
    assert_eq!(
        run("[#: So yeah", parse_comment),
        Err(("".to_string(), ErrorKind::Char))
    );
}

#[test]
fn id_tag() {
    let ok = |r: &str| {
        Ok((
            r.to_string(),
            ("by".to_string(), "Some program".to_string()),
        ))
    };
    assert_eq!(run("[by: Some program]", parse_id_tag), ok(""));
    assert_eq!(run("[by: Some program]\n", parse_id_tag), ok(""));
    assert_eq!(run("[by: Some program]  ", parse_id_tag), ok(""));
    assert_eq!(run("[by: Some program]  \n", parse_id_tag), ok(""));
    assert_eq!(
        run("[by: Some program]a", parse_id_tag),
        Err(("a".to_string(), ErrorKind::Eof))
    );
    assert_eq!(
        run("by: Hello World!]", parse_id_tag),
        Err(("by: Hello World!]".to_string(), ErrorKind::Char))
    );
    assert_eq!(
        run("[by: Hello World!", parse_id_tag),
        Err(("".to_string(), ErrorKind::Char))
    );
}

#[test]
fn line_with_a2() {
    let expected = Ok((
        "".to_string(),
        LineTag {
            timestamp: secs_f32(1.1),
            segments: vec![
                segment(secs_f32(1.1), "Hello "),
                segment(secs_f32(2.0), "World!"),
            ],
        },
    ));
    assert_eq!(
        timed_line("[00:01.10]<00:01.10> Hello <00:02.00> World!", parse_line_with_a2),
        expected
    );
    assert_eq!(
        timed_line("[00:01.10] <00:01.10> Hello <00:02.00> World!", parse_line_with_a2),
        expected
    );
    assert_eq!(
        timed_line("[00:01.10] <00:01.10> Hello <00:02.00> World!\n", parse_line_with_a2),
        expected
    );
    assert_eq!(
        timed_line(
            "[00:22.00] <00:22.50> Line segments <00:23.90> can also have <00:25.10> timestamps :)",
            parse_line_with_a2
        ),
        Ok((
            "".to_string(),
            LineTag {
                timestamp: secs_f32(22.0),
                segments: vec![
                    segment(secs_f32(22.5), "Line segments "),
                    segment(secs_f32(23.9), "can also have "),
                    segment(secs_f32(25.1), "timestamps :)"),
                ],
            }
        ))
    );
}

#[test]
fn standard_line() {
    let expected = Ok((
        "".to_string(),
        LineTag {
            timestamp: secs_f32(12.3),
            segments: vec![segment(
                secs_f32(12.3),
                "Hello, I am a standard LRC file with no A2 tags!",
            )],
        },
    ));
    assert_eq!(
        timed_line(
            "[00:12.30]Hello, I am a standard LRC file with no A2 tags!",
            parse_standard_line
        ),
        expected
    );
    assert_eq!(
        timed_line(
            "[00:12.30] Hello, I am a standard LRC file with no A2 tags!",
            parse_standard_line
        ),
        expected
    );
    assert_eq!(
        timed_line(
            "[00:12.30]   Hello, I am a standard LRC file with no A2 tags!\n\n\n",
            parse_standard_line
        ),
        expected
    );
    assert_eq!(
        timed_line("[0:15.9]", parse_standard_line),
        Ok((
            "".to_string(),
            LineTag {
                timestamp: secs_f32(15.9),
                segments: vec![segment(secs_f32(15.9), "")]
            }
        ))
    );
}

#[test]
fn parse() {
    let expected = Ok(vec![
        id("ti", "example"),
        id("ar", "tpaau"),
        id("al", "lrc_rs"),
        id("au", "aaa"),
        id("lr", "help"),
        id("length", "420:17"),
        id("by", "Helix"),
        id("offset", "+100"),
        id("tool", "me"),
        id("re", "me1"),
        id("ve", "1.0.0"),
        Item::Comment("Hello, this is a comment".to_string()),
        Item::Tag(LineTag {
            timestamp: secs_f32(12.1),
            segments: vec![segment(
                secs_f32(12.1),
                "Hello, this is an example line that will appear at 12.1s",
            )],
        }),
        Item::Tag(LineTag {
            timestamp: secs_f32(16.7),
            segments: vec![segment(
                secs_f32(16.7),
                "You can also trim them numbers and it still works",
            )],
        }),
        Item::Tag(LineTag {
            timestamp: secs_f32(22.0),
            segments: vec![
                segment(secs_f32(22.5), "Line segments "),
                segment(secs_f32(23.9), "can also have "),
                segment(secs_f32(25.1), "timestamps :)"),
            ],
        }),
        Item::Tag(LineTag {
            timestamp: secs_f32(28.8),
            segments: Vec::new(),
        }),
    ]);
    assert_eq!(items(EXAMPLE), expected);
    assert_eq!(items(EXAMPLE_WITH_WHITESPACE), expected);
}

#[test]
fn id_tags_after_timed_tags_fail() {
    assert_eq!(
        items(WRONG_ID_TAGS_POSITIONING),
        Err(Error::Nom {
            input: "[ar:I shouldn't be here]\n".to_string(),
            error: ErrorKind::Eof
        })
    );
}
