use fd_core::meta::{AfBox, FileKind, FileMeta, Timestamp};

#[test]
fn timestamp_parse() {
    let t = Timestamp::from_exif("2025:05:03 15:12:50", Some("07")).unwrap();
    assert_eq!(t.unix_centis, 1746285170_07);
    let t2 = Timestamp::from_exif("2025:05:03 15:12:50", None).unwrap();
    assert_eq!(t2.unix_centis, 1746285170_00);
    // single-digit subsec means tenths
    let t3 = Timestamp::from_exif("2025:05:03 15:12:50", Some("5")).unwrap();
    assert_eq!(t3.unix_centis, 1746285170_50);
    assert!(Timestamp::from_exif("garbage", None).is_none());
}

#[test]
fn file_number_from_name() {
    let m = FileMeta::new("/x/4P4A9770.CR3".to_string(), 1, FileKind::Cr3);
    assert_eq!(m.file_number, Some(9770));
    let m = FileMeta::new("/x/_P4A0001.CR3".to_string(), 1, FileKind::Cr3);
    assert_eq!(m.file_number, Some(1));
    let m = FileMeta::new("/x/nonum.CR3".to_string(), 1, FileKind::Cr3);
    assert_eq!(m.file_number, None);
}

#[test]
fn timestamps_count_days_as_the_calendar_does() {
    let at = |s: &str| Timestamp::from_exif(s, None).unwrap().unix_centis / 100;
    assert_eq!(at("1970:01:01 00:00:00"), 0);
    assert_eq!(at("2000:02:29 00:00:00"), 951782400);
    assert_eq!(at("2000:03:01 00:00:00") - at("2000:02:28 00:00:00"), 2 * 86400);
    assert_eq!(at("1900:03:01 00:00:00") - at("1900:02:28 00:00:00"), 86400);
    assert_eq!(at("2025:01:01 00:00:00") - at("2024:12:31 23:59:59"), 1);
}

#[test]
fn only_the_first_two_subsecond_digits_count() {
    let t = Timestamp::from_exif("1970:01:01 00:00:00", Some("0799")).unwrap();
    assert_eq!(t.unix_centis, 7);
    let t = Timestamp::from_exif("1970:01:01 00:00:00", Some("x")).unwrap();
    assert_eq!(t.unix_centis, 0);
}

#[test]
fn eye_frames_are_small() {
    let mut m = FileMeta::new("/x/a.CR3".to_string(), 1, FileKind::Cr3);
    assert!(m.af_box_eye().is_none());
    let eye = AfBox { x: 1969, y: 349, w: 199, h: 199, af_w: 8192, af_h: 5464, mode: 22 };
    m.af_box = Some(eye);
    assert_eq!(m.af_box_eye(), Some(eye));
    m.af_box = Some(AfBox { w: 960, h: 2134, ..eye });
    assert!(m.af_box_eye().is_none());
}

#[test]
fn display_dims_swap_for_the_quarter_turns() {
    let mut m = FileMeta::new("/x/a.CR3".to_string(), 1, FileKind::Cr3);
    m.width = 30;
    m.height = 20;
    for o in 0..=9u16 {
        m.orientation = o;
        let want = if (5..=8).contains(&o) { (20, 30) } else { (30, 20) };
        assert_eq!(m.display_dims(), want, "orientation {o}");
    }
}

#[test]
fn later_capture_times_have_larger_numbers() {
    let times = [
        ("1999:12:31 23:59:59", Some("99")),
        ("2000:01:01 00:00:00", None),
        ("2000:01:01 00:00:00", Some("1")),
        ("2000:01:01 00:00:00", Some("11")),
        ("2000:02:28 23:00:00", Some("5")),
        ("2000:02:29 00:00:01", Some("000")),
        ("2000:03:01 00:00:00", Some("0")),
        ("2001:01:01 00:59:00", Some("0")),
        ("2001:01:01 01:00:00", None),
    ];
    let at = |t: &(&str, Option<&str>)| Timestamp::from_exif(t.0, t.1).unwrap().unix_centis;
    for w in times.windows(2) {
        assert!(at(&w[0]) < at(&w[1]), "{w:?}");
    }
}

#[test]
fn the_next_day_is_a_day_later() {
    let at = |s: &str| Timestamp::from_exif(s, Some("25")).unwrap().unix_centis;
    for (a, b) in [
        ("2024:02:28 10:20:30", "2024:02:29 10:20:30"),
        ("2023:02:28 10:20:30", "2023:03:01 10:20:30"),
        ("2024:04:30 10:20:30", "2024:05:01 10:20:30"),
        ("2024:12:31 10:20:30", "2025:01:01 10:20:30"),
    ] {
        assert_eq!(at(b) - at(a), 8_640_000);
    }
}

#[test]
fn file_numbers_do_not_depend_on_the_separator() {
    let of = |p: &str| FileMeta::new(p.to_string(), 1, FileKind::Cr3).file_number;
    assert_eq!(of("C:\\cards\\IMG_0042.CR3"), Some(42));
    assert_eq!(of("C:17.CR3"), Some(17));
}
