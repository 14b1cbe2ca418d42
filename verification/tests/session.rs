use fd_core::action::Action;
use fd_core::cull::Cull;
use fd_core::formats::Source;
use fd_core::marks::{Flag, ImgState};
use fd_core::meta::{FileKind, FileMeta, Timestamp};
use fd_core::session::{flag_name, flag_named, is_zero, rel_keys, rel_path, SessionFile, SessionImage};
use fd_core::single::Real32;

fn num(v: f32) -> Real32 {
    Real32 { bits: v.to_bits() }
}

fn meta(name: &str, kind: FileKind, centis: i64) -> FileMeta {
    let mut m = FileMeta::new(format!("/cards/{name}"), 1, kind);
    m.ts = Some(Timestamp { unix_centis: centis });
    m
}

fn fresh() -> Cull {
    let mut c = Cull::new(Source::Embedded, num(0.05), true, false);
    c.scanned(vec![
        meta("a.JPG", FileKind::Jpeg, 0),
        meta("b.CR3", FileKind::Cr3, 10),
        meta("b.JPG", FileKind::Jpeg, 10),
        meta("sub/c.JPG", FileKind::Jpeg, 900),
    ]);
    c
}

fn names(c: &Cull) -> Vec<String> {
    rel_keys(&c.metas, "/cards")
}

fn listed(f: &SessionFile) -> Vec<(String, String, u8)> {
    f.images.iter().map(|(n, i)| (n.clone(), i.flag.clone(), i.rating)).collect()
}

fn file(images: &[(&str, &str, u8)], pins: &[(&str, f32, f32)]) -> SessionFile {
    SessionFile {
        version: 1,
        images: images
            .iter()
            .map(|&(n, f, r)| (n.to_string(), SessionImage { flag: f.to_string(), rating: r }))
            .collect(),
        pins: pins.iter().map(|&(n, x, y)| (n.to_string(), (num(x), num(y)))).collect(),
    }
}

/// What is taken up from a record is written again.
#[test]
fn session_file_round_trips() {
    let mut c = Cull::new(Source::Embedded, num(0.05), true, false);
    c.scanned(vec![meta("a.JPG", FileKind::Jpeg, 0), meta("b.JPG", FileKind::Jpeg, 10)]);
    let f = file(&[("a.JPG", "pick", 4), ("b.JPG", "reject", 0)], &[("a.JPG", 0.61, 0.34)]);
    let keys = names(&c);
    c.load_session(&keys, &f);
    c.perform(Action::OpenBurst, 1);
    let again = c.save_session(&keys);
    assert_eq!(again.version, 1);
    assert_eq!(listed(&again), listed(&f));
    assert_eq!(again.pins, f.pins);
}

#[test]
fn reopening_resumes_the_session() {
    let mut c = fresh();
    c.perform(Action::OpenBurst, 1);
    c.perform(Action::Rate(2), 1);
    c.perform(Action::Pick, 1);
    c.perform(Action::Reject, 1);
    c.start_track(0, 1, num(0.25), num(0.75));
    assert!(c.look.dirty);
    let keys = names(&c);
    let f = c.save_session(&keys);
    assert!(!c.look.dirty);
    assert_eq!(
        listed(&f),
        vec![
            ("a.JPG".to_string(), "pick".to_string(), 2),
            ("b.CR3".to_string(), "reject".to_string(), 0),
        ]
    );
    assert_eq!(f.pins, vec![("b.CR3".to_string(), (num(0.25), num(0.75)))]);

    let mut d = fresh();
    d.load_session(&keys, &f);
    for i in 0..4 {
        assert_eq!(d.img_state(i), c.img_state(i));
    }
    assert!(!d.look.dirty);
    assert_eq!(d.pending_pins.get(&1), Some(&(num(0.25), num(0.75))));
    // the pin comes back when the burst is opened
    d.perform(Action::OpenBurst, 1);
    assert!(d.tracks.is_pinned(0, 1));
    assert!(d.pending_pins.is_empty());
}

#[test]
fn unknown_names_and_empty_entries_are_passed_over() {
    let mut c = fresh();
    let keys = names(&c);
    c.load_session(
        &keys,
        &file(
            &[("zzz.JPG", "pick", 1), ("a.JPG", "", 0), ("b.JPG", "pick", 1), ("sub/c.JPG", "what", 3)],
            &[("zzz.JPG", 0.1, 0.1)],
        ),
    );
    // b.JPG belongs to the picture of b.CR3, which is the one that is named
    assert_eq!(c.img_state(0), ImgState::default());
    assert_eq!(c.img_state(2), ImgState::default());
    assert_eq!(c.img_state(3), ImgState { flag: Flag::Unrated, rating: 3 });
    assert!(c.pending_pins.is_empty());
}

#[test]
fn the_older_record_is_taken_up() {
    let mut c = fresh();
    c.migrate_session(
        "/cards/a.JPG\tP\t4\r\nbroken line\n/cards/b.CR3\tX\t0\textra\n/cards/sub/c.JPG\t-\tfive\n/nowhere.JPG\tP\t1",
    );
    assert_eq!(c.img_state(0), ImgState { flag: Flag::Picked, rating: 4 });
    assert_eq!(c.img_state(1), ImgState { flag: Flag::Rejected, rating: 0 });
    assert_eq!(c.img_state(3), ImgState::default());
    assert!(c.look.dirty);
    let mut d = fresh();
    d.migrate_session("nothing here\n");
    assert!(!d.look.dirty && d.marks.is_empty());
}

#[test]
fn names_are_relative_to_the_folder() {
    assert_eq!(rel_path("/cards/100EOS/a.JPG", "/cards"), "100EOS/a.JPG");
    assert_eq!(rel_path("/cards/a.JPG", "/elsewhere"), "/cards/a.JPG");
    assert_eq!(names(&fresh()), vec!["a.JPG", "b.CR3", "b.JPG", "sub/c.JPG"]);
}

#[test]
fn flags_are_written_and_read() {
    for f in [Flag::Picked, Flag::Rejected, Flag::Unrated] {
        assert_eq!(flag_named(flag_name(f)), f);
    }
    assert_eq!(flag_name(Flag::Picked), "pick");
    assert_eq!(flag_named("Pick"), Flag::Unrated);
    assert!(is_zero(&0) && !is_zero(&1));
}

#[test]
fn pins_are_kept_without_opening_their_burst() {
    let mut c = fresh();
    let f = file(&[], &[("b.CR3", 0.61, 0.34), ("sub/c.JPG", 0.1, 0.2)]);
    let keys = names(&c);
    c.load_session(&keys, &f);
    assert_eq!(c.save_session(&keys).pins, f.pins);
    // nor are those of the other bursts lost when one is opened
    c.perform(Action::OpenBurst, 1);
    let mut again = c.save_session(&keys).pins;
    again.sort_by(|a, b| a.0.partial_cmp(&b.0).unwrap());
    assert_eq!(again, f.pins);
}

#[test]
fn folders_may_end_in_a_slash() {
    assert_eq!(rel_path("/cards/100EOS/a.JPG", "/cards/"), "100EOS/a.JPG");
    assert_eq!(rel_path("/a.JPG", "/"), "a.JPG");
    assert_eq!(rel_path("/cardsdump/a.JPG", "/cards"), "/cardsdump/a.JPG");
    assert_eq!(rel_path("cards/a.JPG", "/cards"), "cards/a.JPG");
}

#[test]
fn names_do_not_depend_on_colons_in_the_folder() {
    assert_eq!(rel_path("/media/disk:1/100EOS/a.JPG", "/media/disk:1"), "100EOS/a.JPG");
    assert_eq!(rel_path("C:/cards/a.JPG", "C:/cards/"), "a.JPG");
    assert_eq!(rel_path("D:\\x\\a.JPG", "C:\\x"), "D:\\x\\a.JPG");
    // whether a backslash separates is the platform's
    let r = rel_path("C:\\cards\\a.JPG", "C:\\cards");
    assert!(r == "a.JPG" || r == "C:\\cards\\a.JPG");
}

#[test]
fn files_have_different_names_in_the_record() {
    let metas: Vec<FileMeta> = ["/cards/a.JPG", "/cards/x/a.JPG", "/other/a.JPG", "/cardsx/a.JPG"]
        .iter()
        .map(|p| FileMeta::new(p.to_string(), 1, FileKind::Jpeg))
        .collect();
    let mut names = rel_keys(&metas, "/cards");
    assert_eq!(names, vec!["a.JPG", "x/a.JPG", "/other/a.JPG", "/cardsx/a.JPG"]);
    names.sort();
    names.dedup();
    assert_eq!(names.len(), 4);
}
