use lrc_rs::{Duration, Error, ErrorKind, LrcScan, LyricsAccess, RawTimestamp, SyncedLyrics};

const EXAMPLE: &str = "[ti:example]
[ar:tpaau]
[al:lrc_rs]
[au:aaa]
[lr:help]
[length:420:17]
[by:Helix]
[offset:+100]
[tool:me]
[re:me1]
[ve:1.0.0]
[#:Hello, this is a comment]
[00:12.10] Hello, this is an example line that will appear at 12.1s
[0:16.7] You can also trim them numbers and it still works
[00:22.00] <00:22.50> Line segments <00:23.90> can also have <00:25.10> timestamps :)
[00:28.80]
";

const EXAMPLE_WITH_WHITESPACE: &str = "[ti: example]  \r
[ar:   tpaau]

[al:lrc_rs]\t
[au: aaa]
[lr:help]


[length: 420:17]
[by:Helix]   
[offset: +100]
[tool:  me]
[re:me1]
[ve: 1.0.0]

[#:   Hello, this is a comment]   

[00:12.10]    Hello, this is an example line that will appear at 12.1s

[0:16.7]\tYou can also trim them numbers and it still works
[00:22.00]   <00:22.50>   Line segments <00:23.90> can also have <00:25.10> timestamps :)
[00:28.80]   


";

fn measure(t: &RawTimestamp) -> Duration {
    let (_, seconds) =
        nom::number::complete::float::<&str, nom::error::Error<&str>>(t.seconds.as_str())
            .unwrap();
    let d = std::time::Duration::from_secs_f32(seconds + (t.minutes * 60) as f32);
    Duration::new(d.as_secs(), d.subsec_nanos())
}

fn parse_lyrics(text: &str) -> Result<SyncedLyrics, Error> {
    let scan = LrcScan::scan(text)?;
    let stamps: Vec<Duration> = scan.raw_timestamps().iter().map(measure).collect();
    SyncedLyrics::from_scan(scan, &stamps)
}

#[test]
fn strip_tags() {
    let data = EXAMPLE;
    let parsed = parse_lyrics(data).unwrap();
    assert_eq!(lrc_rs::strip_tags(data), Ok(parsed.to_unsynced()));

    let data = EXAMPLE_WITH_WHITESPACE;
    let parsed = parse_lyrics(data).unwrap();
    assert_eq!(lrc_rs::strip_tags(data), Ok(parsed.to_unsynced()));
}

#[test]
fn strip_tags_of_valid_lyrics_is_their_unsynced_text() {
    let data = "[00:05.20]Hello\n\
[00:11.70]World\n\
[00:17.10]La <00:17.80>la <00:18.50> la";
    let parsed = parse_lyrics(data).unwrap();
    assert_eq!(parsed.to_unsynced(), lrc_rs::strip_tags(data).unwrap());
}

#[test]
fn strip_tags_of_misordered_lyrics() {
    let data = "[00:03.10]Line 1\n\
[00:02.50]Line 2\n\
[00:05.80]Line 3";
    assert_eq!(
        parse_lyrics(data),
        Err(Error::InvalidTimestampOrder {
            index: 1,
            message: format!(
                "Expected a timestamp later than {:?}",
                std::time::Duration::from_secs_f32(3.10)
            ),
        })
    );
    let expected = String::from("Line 1\nLine 2\nLine 3");
    assert_eq!(lrc_rs::strip_tags(data), Ok(expected));
}

#[test]
fn strip_tags_keeps_unknown_id_tags_out() {
    let data = "[xx:unknown]\n[#:a comment]\n[00:01.00] <00:01.50> a <00:02.00> b\n[00:03.00]";
    assert_eq!(
        parse_lyrics(data),
        Err(Error::UnknownKey {
            key: "xx".to_string()
        })
    );
    assert_eq!(lrc_rs::strip_tags(data), Ok("a b\n".to_string()));
}

#[test]
fn strip_tags_fails_on_syntax_errors() {
    assert_eq!(
        lrc_rs::strip_tags("[00:01.00] a\n[ar:late]"),
        Err(Error::Nom {
            input: "[ar:late]".to_string(),
            error: ErrorKind::Eof
        })
    );
    assert_eq!(lrc_rs::strip_tags(""), Ok(String::new()));
}
