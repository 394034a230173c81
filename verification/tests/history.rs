use virtualdj_library::history::{
    entry_of, field, names_log, newest_log, parse_history, whole_number, HistoryEntry, LogFile,
};

fn cs(text: &str) -> Vec<char> {
    text.chars().collect()
}

fn log(path: &str, modified: i128) -> LogFile {
    LogFile { path: path.to_string(), modified }
}

const MARKER: &str = "#EXTVDJ:<time>21:04</time><lastplaytime>1546718695</lastplaytime>\
<artist>Daft Punk</artist><title>Around the World</title>";

#[test]
fn valid_pair_yields_the_embedded_fields() {
    let content = format!("#EXTM3U\n{}\nC:\\Music\\around.mp3\n", MARKER);
    assert_eq!(
        parse_history(&content),
        Some(HistoryEntry {
            artist: "Daft Punk".to_string(),
            title: "Around the World".to_string(),
            file_path: "C:\\Music\\around.mp3".to_string(),
            timestamp: 1546718695,
        })
    );
}

#[test]
fn only_the_trailing_pair_is_read() {
    let content = format!(
        "#EXTVDJ:<artist>Old</artist><title>Song</title>\n/music/old.mp3\n{}\n/music/new.mp3",
        MARKER
    );
    let entry = parse_history(&content).unwrap();
    assert_eq!(entry.artist, "Daft Punk");
    assert_eq!(entry.file_path, "/music/new.mp3");
}

#[test]
fn fewer_than_two_lines_yield_no_entry() {
    assert_eq!(parse_history(""), None);
    assert_eq!(parse_history("\n"), None);
    assert_eq!(parse_history(MARKER), None);
    assert_eq!(parse_history(&format!("{}\n", MARKER)), None);
    assert_eq!(parse_history("/music/a.mp3"), None);
}

#[test]
fn marker_line_without_the_prefix_yields_no_entry() {
    assert_eq!(parse_history("<artist>A</artist><title>B</title>\n/music/a.mp3\n"), None);
    assert_eq!(parse_history("#EXTINF:<artist>A</artist>\n/music/a.mp3\n"), None);
    assert_eq!(parse_history(" #EXTVDJ:<artist>A</artist>\n/music/a.mp3\n"), None);
    assert_eq!(parse_history("#extvdj:<artist>A</artist>\n/music/a.mp3\n"), None);
    assert_eq!(parse_history("/music/a.mp3\n/music/b.mp3\n"), None);
}

#[test]
fn pair_in_the_wrong_order_yields_no_entry() {
    let content = format!("/music/a.mp3\n{}\n", MARKER);
    assert_eq!(parse_history(&content), None);
}

#[test]
fn missing_fields_take_their_defaults() {
    assert_eq!(
        parse_history("#EXTVDJ:\n/music/a.mp3"),
        Some(HistoryEntry {
            artist: "Unknown".to_string(),
            title: "Unknown".to_string(),
            file_path: "/music/a.mp3".to_string(),
            timestamp: 0,
        })
    );
    let entry = parse_history("#EXTVDJ:<title>T</title>\n/music/a.mp3").unwrap();
    assert_eq!(entry.artist, "Unknown");
    assert_eq!(entry.title, "T");
    assert_eq!(entry.timestamp, 0);
}

#[test]
fn field_without_its_closing_tag_is_missing() {
    let entry = parse_history("#EXTVDJ:<artist>A<title>T</title>\n/p").unwrap();
    assert_eq!(entry.artist, "Unknown");
    assert_eq!(entry.title, "T");
    let entry = parse_history("#EXTVDJ:</artist>A<artist>\n/p").unwrap();
    assert_eq!(entry.artist, "Unknown");
}

#[test]
fn timestamp_that_is_no_number_is_zero() {
    let entry = parse_history("#EXTVDJ:<lastplaytime>soon</lastplaytime>\n/p").unwrap();
    assert_eq!(entry.timestamp, 0);
    let entry = parse_history("#EXTVDJ:<lastplaytime></lastplaytime>\n/p").unwrap();
    assert_eq!(entry.timestamp, 0);
    let entry = parse_history("#EXTVDJ:<lastplaytime>-5</lastplaytime>\n/p").unwrap();
    assert_eq!(entry.timestamp, 0);
    let entry = parse_history("#EXTVDJ:<lastplaytime>12.5</lastplaytime>\n/p").unwrap();
    assert_eq!(entry.timestamp, 0);
    let entry =
        parse_history("#EXTVDJ:<lastplaytime>18446744073709551616</lastplaytime>\n/p").unwrap();
    assert_eq!(entry.timestamp, 0);
    let entry =
        parse_history("#EXTVDJ:<lastplaytime>18446744073709551615</lastplaytime>\n/p").unwrap();
    assert_eq!(entry.timestamp, u64::MAX);
}

#[test]
fn carriage_returns_before_line_feeds_are_dropped() {
    let content = format!("#EXTM3U\r\n{}\r\nC:\\Music\\a.mp3\r\n", MARKER);
    let entry = parse_history(&content).unwrap();
    assert_eq!(entry.file_path, "C:\\Music\\a.mp3");
    assert_eq!(entry.title, "Around the World");
}

#[test]
fn empty_last_line_is_the_path() {
    // Two line feeds at the end: the last line is empty, and the line before
    // it is the path line, which is no marker line.
    let content = format!("{}\n/music/a.mp3\n\n", MARKER);
    assert_eq!(parse_history(&content), None);
    let content = format!("{}\n\n", MARKER);
    let entry = parse_history(&content).unwrap();
    assert_eq!(entry.file_path, "");
}

#[test]
fn field_reads_between_the_first_tags() {
    let line = cs("#EXTVDJ:<artist>A</artist><artist>B</artist>");
    assert_eq!(field(&line, "artist"), Some(cs("A")));
    assert_eq!(field(&line, "title"), None);
    assert_eq!(field(&cs("<artist></artist>"), "artist"), Some(cs("")));
    assert_eq!(field(&cs("<a><b>x</b></a>"), "a"), Some(cs("<b>x</b>")));
    assert_eq!(field(&cs("</a><a>x</a>"), "a"), Some(cs("x")));
    assert_eq!(field(&cs("<a>x"), "a"), None);
    assert_eq!(field(&cs(""), "a"), None);
}

#[test]
fn whole_number_reads_digits_only() {
    assert_eq!(whole_number(&cs("0")), Some(0));
    assert_eq!(whole_number(&cs("007")), Some(7));
    assert_eq!(whole_number(&cs("+42")), Some(42));
    assert_eq!(whole_number(&cs("")), None);
    assert_eq!(whole_number(&cs("+")), None);
    assert_eq!(whole_number(&cs("4 2")), None);
    assert_eq!(whole_number(&cs("42 ")), None);
    assert_eq!(whole_number(&cs("-1")), None);
    assert_eq!(whole_number(&cs("++1")), None);
}

#[test]
fn entry_of_wants_the_marker() {
    assert!(entry_of(&cs("#EXTVDJ:"), &cs("/p")).is_some());
    assert!(entry_of(&cs("#EXTVDJ"), &cs("/p")).is_none());
    assert!(entry_of(&cs(""), &cs("/p")).is_none());
}

#[test]
fn names_log_wants_the_extension_behind_a_name() {
    assert!(names_log("2024-01-05.m3u"));
    assert!(names_log("/home/dj/VirtualDJ/History/2024-01-05.m3u"));
    assert!(names_log("C:\\VirtualDJ\\History\\a.m3u"));
    assert!(!names_log(".m3u"));
    assert!(!names_log("/home/dj/History/.m3u"));
    assert!(!names_log("C:\\History\\.m3u"));
    assert!(!names_log("2024-01-05.M3U"));
    assert!(!names_log("2024-01-05.m3u8"));
    assert!(!names_log("2024-01-05.txt"));
    assert!(!names_log("m3u"));
    assert!(!names_log(""));
}

#[test]
fn newest_log_is_the_one_modified_last() {
    let files = vec![
        log("2024-01-01.m3u", 100),
        log("2024-01-03.m3u", 300),
        log("2024-01-02.m3u", 200),
    ];
    assert_eq!(newest_log(&files), Some(1));
}

#[test]
fn newest_log_skips_other_files() {
    let files = vec![
        log("notes.txt", 900),
        log("2024-01-01.m3u", 100),
        log("cover.jpg", 800),
        log(".m3u", 950),
    ];
    assert_eq!(newest_log(&files), Some(1));
}

#[test]
fn newest_log_of_no_logs_is_none() {
    assert_eq!(newest_log(&vec![]), None);
    assert_eq!(newest_log(&vec![log("notes.txt", 1), log("a.m3u8", 2)]), None);
}

#[test]
fn newest_log_with_a_tie_is_one_of_the_newest() {
    let files = vec![log("a.m3u", 5), log("b.m3u", 7), log("c.m3u", 7), log("d.m3u", -1)];
    let picked = newest_log(&files).unwrap();
    assert_eq!(files[picked].modified, 7);
}
