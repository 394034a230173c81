use virtualdj_library::decimal::{reads_infinity, Decimal, Shift};
use virtualdj_library::duration::{end_marker_name, find_end_marker, read_seconds, resolve_duration};
use virtualdj_library::song::{VirtualDJInfos, VirtualDJPoi, VirtualDJSong};

fn poi(name: Option<&str>, pos: Option<&str>) -> VirtualDJPoi {
    VirtualDJPoi {
        name: name.map(|s| s.to_string()),
        pos: pos.map(|s| s.to_string()),
        poi_type: None,
    }
}

fn song_with(length: Option<&str>, pois: Vec<VirtualDJPoi>) -> VirtualDJSong {
    VirtualDJSong {
        file_path: "/music/a.mp3".to_string(),
        file_size: None,
        tags: None,
        scan: None,
        infos: length.map(|l| VirtualDJInfos {
            song_length: Some(l.to_string()),
            first_seen: None,
            play_count: None,
        }),
        pois,
    }
}

#[test]
fn song_length_alone_is_the_duration() {
    assert_eq!(resolve_duration(&song_with(Some("215.2"), vec![])), Some(215));
    assert_eq!(resolve_duration(&song_with(Some("215.6"), vec![])), Some(216));
    assert_eq!(resolve_duration(&song_with(Some("300"), vec![])), Some(300));
}

#[test]
fn song_length_wins_over_markers() {
    let song = song_with(
        Some("180.0"),
        vec![poi(Some("End"), Some("200.0")), poi(Some("Cue 1"), Some("250.0"))],
    );
    assert_eq!(resolve_duration(&song), Some(180));
}

#[test]
fn end_marker_is_used_when_song_length_is_not_positive() {
    let pois = vec![
        poi(Some("Cue 1"), Some("12.5")),
        poi(Some("End"), Some("201.4")),
        poi(Some("Cue 2"), Some("250.0")),
    ];
    assert_eq!(resolve_duration(&song_with(Some("0"), pois.clone())), Some(201));
    assert_eq!(resolve_duration(&song_with(Some("0.0"), pois.clone())), Some(201));
    assert_eq!(resolve_duration(&song_with(Some("-3.5"), pois.clone())), Some(201));
    assert_eq!(resolve_duration(&song_with(Some("n/a"), pois.clone())), Some(201));
    assert_eq!(resolve_duration(&song_with(None, pois)), Some(201));
}

#[test]
fn last_marker_is_used_when_there_is_no_end_marker() {
    let pois = vec![
        poi(Some("Cue 1"), Some("12.5")),
        poi(None, Some("99.0")),
        poi(Some("Cue 2"), Some("187.5")),
    ];
    assert_eq!(resolve_duration(&song_with(None, pois.clone())), Some(188));
    assert_eq!(resolve_duration(&song_with(Some("0"), pois)), Some(188));
}

#[test]
fn last_marker_is_used_when_the_end_marker_has_no_usable_position() {
    let pois = vec![poi(Some("End"), Some("0")), poi(Some("Cue"), Some("42.4"))];
    assert_eq!(resolve_duration(&song_with(None, pois)), Some(42));
    let pois = vec![poi(Some("End"), None), poi(Some("Cue"), Some("42.4"))];
    assert_eq!(resolve_duration(&song_with(None, pois)), Some(42));
}

#[test]
fn first_end_marker_counts() {
    let pois = vec![
        poi(Some("End"), Some("100")),
        poi(Some("End"), Some("200")),
        poi(Some("Cue"), Some("300")),
    ];
    assert_eq!(resolve_duration(&song_with(None, pois)), Some(100));
}

#[test]
fn end_marker_name_is_matched_letter_for_letter() {
    let pois = vec![poi(Some("end"), Some("100")), poi(Some("Cue"), Some("300"))];
    assert_eq!(resolve_duration(&song_with(None, pois)), Some(300));
    assert_eq!(end_marker_name(), "End");
}

#[test]
fn nothing_usable_gives_no_duration() {
    assert_eq!(resolve_duration(&song_with(None, vec![])), None);
    assert_eq!(resolve_duration(&song_with(Some("0"), vec![])), None);
    assert_eq!(resolve_duration(&song_with(Some(""), vec![poi(None, None)])), None);
    assert_eq!(resolve_duration(&song_with(Some("-1"), vec![poi(Some("End"), Some("0.0"))])), None);
}

#[test]
fn a_tenth_of_a_second_or_less_is_no_duration() {
    assert_eq!(resolve_duration(&song_with(Some("0.1"), vec![])), None);
    assert_eq!(resolve_duration(&song_with(Some("0.10000"), vec![])), None);
    assert_eq!(resolve_duration(&song_with(Some("0.05"), vec![])), None);
    assert_eq!(resolve_duration(&song_with(Some("0.0999999999999999999999999"), vec![])), None);
}

#[test]
fn just_over_a_tenth_of_a_second_is_a_duration() {
    assert_eq!(resolve_duration(&song_with(Some("0.11"), vec![])), Some(0));
    assert_eq!(resolve_duration(&song_with(Some("0.1000000000000000000000001"), vec![])), Some(0));
    assert_eq!(resolve_duration(&song_with(Some("0.6"), vec![])), Some(1));
}

#[test]
fn a_usable_but_tiny_song_length_ends_the_search() {
    // The stated length is greater than zero, so the markers are not asked,
    // and it is too short to count as a duration.
    let pois = vec![poi(Some("End"), Some("200"))];
    assert_eq!(resolve_duration(&song_with(Some("0.05"), pois)), None);
}

#[test]
fn halves_of_a_second_round_to_the_even_second() {
    assert_eq!(resolve_duration(&song_with(Some("214.5"), vec![])), Some(214));
    assert_eq!(resolve_duration(&song_with(Some("215.5"), vec![])), Some(216));
    assert_eq!(resolve_duration(&song_with(Some("0.5"), vec![])), Some(0));
    assert_eq!(resolve_duration(&song_with(Some("1.5"), vec![])), Some(2));
    assert_eq!(resolve_duration(&song_with(Some("214.500001"), vec![])), Some(215));
    assert_eq!(resolve_duration(&song_with(Some("215.499999"), vec![])), Some(215));
    assert_eq!(resolve_duration(&song_with(Some("999.5"), vec![])), Some(1000));
}

#[test]
fn a_duration_beyond_a_machine_word_is_the_largest_word() {
    assert_eq!(
        resolve_duration(&song_with(Some("18446744073709551615"), vec![])),
        Some(u64::MAX)
    );
    assert_eq!(
        resolve_duration(&song_with(Some("18446744073709551614.4"), vec![])),
        Some(u64::MAX - 1)
    );
    assert_eq!(
        resolve_duration(&song_with(Some("99999999999999999999999999"), vec![])),
        Some(u64::MAX)
    );
}

#[test]
fn find_end_marker_gives_the_first_place() {
    let pois = vec![poi(None, Some("1")), poi(Some("End"), Some("2")), poi(Some("End"), Some("3"))];
    assert_eq!(find_end_marker(&pois), Some(1));
    assert_eq!(find_end_marker(&vec![poi(Some("Start"), Some("1"))]), None);
    assert_eq!(find_end_marker(&vec![]), None);
}

#[test]
fn read_seconds_keeps_only_positive_numerals() {
    assert!(read_seconds(&Some("12.5".to_string())).is_some());
    assert!(read_seconds(&Some("0".to_string())).is_none());
    assert!(read_seconds(&Some("-12.5".to_string())).is_none());
    assert!(read_seconds(&Some("twelve".to_string())).is_none());
    assert!(read_seconds(&None).is_none());
}

#[test]
fn decimal_parse_and_questions() {
    let d = Decimal::parse("12.50").unwrap();
    assert!(d.is_positive());
    assert!(d.exceeds_tenth());
    assert_eq!(d.nearest_whole(), 12);
    assert!(matches!(d.shift(), Shift::Down(2)));
    assert_eq!(d.digits(), &vec![1u8, 2, 5, 0]);
    let d = Decimal::parse("-7.5").unwrap();
    assert!(!d.is_positive());
    assert!(!d.exceeds_tenth());
    assert_eq!(d.nearest_whole(), 8);
    let d = Decimal::parse("+.25").unwrap();
    assert!(d.is_positive());
    assert!(d.exceeds_tenth());
    assert_eq!(d.nearest_whole(), 0);
    assert!(matches!(d.shift(), Shift::Down(2)));
    let d = Decimal::parse("3.").unwrap();
    assert!(matches!(d.shift(), Shift::Down(0)));
    assert_eq!(d.nearest_whole(), 3);
    assert!(Decimal::parse("").is_none());
    assert!(Decimal::parse(".").is_none());
    assert!(Decimal::parse("+.").is_none());
    assert!(Decimal::parse("1.2.3").is_none());
    assert!(Decimal::parse("1,2").is_none());
    assert!(Decimal::parse("12a").is_none());
    assert!(Decimal::parse("٣").is_none());
    assert!(Decimal::parse("inf").is_none());
}

#[test]
fn shift_follows_the_exponent() {
    assert!(matches!(Decimal::parse("1.25e1").unwrap().shift(), Shift::Down(1)));
    assert!(matches!(Decimal::parse("1.25e2").unwrap().shift(), Shift::Down(0)));
    assert!(matches!(Decimal::parse("1.25e3").unwrap().shift(), Shift::Up(1)));
    assert!(matches!(Decimal::parse("1.25E-3").unwrap().shift(), Shift::Down(5)));
    assert!(matches!(Decimal::parse("7e40").unwrap().shift(), Shift::Up(40)));
    assert!(matches!(
        Decimal::parse("7e340282366920938463463374607431768211455").unwrap().shift(),
        Shift::Up(u128::MAX)
    ));
    assert!(matches!(
        Decimal::parse("7e340282366920938463463374607431768211456").unwrap().shift(),
        Shift::FarUp
    ));
    assert!(matches!(
        Decimal::parse("7e-340282366920938463463374607431768211455").unwrap().shift(),
        Shift::Down(u128::MAX)
    ));
    assert!(matches!(
        Decimal::parse("7.0e-340282366920938463463374607431768211455").unwrap().shift(),
        Shift::FarDown
    ));
    assert!(matches!(
        Decimal::parse("7e-340282366920938463463374607431768211456").unwrap().shift(),
        Shift::FarDown
    ));
}

#[test]
fn questions_of_numerals_with_exponents() {
    let d = Decimal::parse("1e-1").unwrap();
    assert!(d.is_positive());
    assert!(!d.exceeds_tenth());
    assert_eq!(d.nearest_whole(), 0);
    let d = Decimal::parse("1.0001e-1").unwrap();
    assert!(d.exceeds_tenth());
    let d = Decimal::parse("2.5e0").unwrap();
    assert_eq!(d.nearest_whole(), 2);
    let d = Decimal::parse("25e-1").unwrap();
    assert_eq!(d.nearest_whole(), 2);
    let d = Decimal::parse("0.35e1").unwrap();
    assert_eq!(d.nearest_whole(), 4);
    let d = Decimal::parse("1e19").unwrap();
    assert_eq!(d.nearest_whole(), 10_000_000_000_000_000_000);
    let d = Decimal::parse("2e19").unwrap();
    assert_eq!(d.nearest_whole(), u64::MAX);
    let d = Decimal::parse("1e20").unwrap();
    assert_eq!(d.nearest_whole(), u64::MAX);
    assert!(d.exceeds_tenth());
    let d = Decimal::parse("0e20").unwrap();
    assert_eq!(d.nearest_whole(), 0);
    assert!(!d.exceeds_tenth());
    let d = Decimal::parse("1e99999999999999999999999999999999999999999999").unwrap();
    assert_eq!(d.nearest_whole(), u64::MAX);
    assert!(d.exceeds_tenth());
    let d = Decimal::parse("9e-99999999999999999999999999999999999999999999").unwrap();
    assert_eq!(d.nearest_whole(), 0);
    assert!(d.is_positive());
    assert!(!d.exceeds_tenth());
    let d = Decimal::parse("123456e-7").unwrap();
    assert_eq!(d.nearest_whole(), 0);
    assert!(!d.exceeds_tenth());
    let d = Decimal::parse("123456e-6").unwrap();
    assert!(d.exceeds_tenth());
}

#[test]
fn reads_infinity_knows_both_words_and_the_sign() {
    assert_eq!(reads_infinity("inf"), Some(false));
    assert_eq!(reads_infinity("+Infinity"), Some(false));
    assert_eq!(reads_infinity("-INF"), Some(true));
    assert_eq!(reads_infinity("-infinity"), Some(true));
    assert_eq!(reads_infinity("infinite"), None);
    assert_eq!(reads_infinity(""), None);
    assert_eq!(reads_infinity("+"), None);
    assert_eq!(reads_infinity("nan"), None);
    assert_eq!(reads_infinity("1e5"), None);
}

#[test]
fn song_length_with_an_exponent() {
    assert_eq!(resolve_duration(&song_with(Some("2.152e2"), vec![])), Some(215));
    assert_eq!(resolve_duration(&song_with(Some("21560E-2"), vec![])), Some(216));
    assert_eq!(resolve_duration(&song_with(Some("1e30"), vec![])), Some(u64::MAX));
    // Greater than zero, so the markers are not asked; too short to count.
    let pois = vec![poi(Some("End"), Some("200"))];
    assert_eq!(resolve_duration(&song_with(Some("1e-3"), pois)), None);
    let pois = vec![poi(Some("End"), Some("2e2"))];
    assert_eq!(resolve_duration(&song_with(Some("0e3"), pois)), Some(200));
}

#[test]
fn infinite_song_length_is_not_usable() {
    let pois = vec![poi(Some("End"), Some("200"))];
    assert_eq!(resolve_duration(&song_with(Some("inf"), pois.clone())), Some(200));
    assert_eq!(resolve_duration(&song_with(Some("Infinity"), pois)), Some(200));
    assert_eq!(resolve_duration(&song_with(Some("inf"), vec![])), None);
    assert_eq!(resolve_duration(&song_with(None, vec![poi(None, Some("inf"))])), None);
}
