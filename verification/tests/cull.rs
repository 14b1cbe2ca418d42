use fd_core::action::{Action, SortMode};
use fd_core::burst::LogicalImage;
use fd_core::cull::{rank_by_score, Confirm, Cull, Effect, Screen};
use fd_core::formats::Source;
use fd_core::marks::{Flag, ImgState};
use fd_core::meta::{AfBox, FileKind, FileMeta, Timestamp};
use fd_core::pipeline::{EyeMark, RoiKind, TrackRequest};
use fd_core::roi::{Eye, Point};
use fd_core::single::Real32;

fn num(v: f32) -> Real32 {
    Real32 { bits: v.to_bits() }
}

fn meta(name: &str, centis: i64) -> FileMeta {
    let mut m = FileMeta::new(format!("/cards/{name}"), 1, FileKind::Jpeg);
    m.ts = Some(Timestamp { unix_centis: centis });
    m
}

fn empty() -> Cull {
    Cull::new(Source::Embedded, num(96.0 / 1620.0), true, false)
}

/// Bursts of 3, 1 and 2 frames: ids 0-2, 3, 4-5.
fn session() -> Cull {
    let mut c = empty();
    c.scanned(vec![
        meta("1.JPG", 0),
        meta("2.JPG", 10),
        meta("3.JPG", 20),
        meta("4.JPG", 1000),
        meta("5.JPG", 2000),
        meta("6.JPG", 2010),
    ]);
    c
}

fn act(c: &mut Cull, a: Action) -> Effect {
    c.perform(a, 2)
}

fn flags(c: &Cull) -> Vec<Flag> {
    (0..c.metas.len()).map(|i| c.img_state(i).flag).collect()
}

fn track_of(e: Effect) -> TrackRequest {
    match e {
        Effect::Track(t) => t,
        _ => panic!("no track was asked for"),
    }
}

fn eye_box() -> AfBox {
    AfBox { x: 0, y: 0, w: 100, h: 100, af_w: 8192, af_h: 5464, mode: 22 }
}

fn eye(acuity: f32) -> Eye {
    let mark = EyeMark { r_frac: num(0.01), width_px: num(4.0), anisotropy: num(1.0) };
    Eye { kind: RoiKind::EyeTracked, mark, acuity: num(acuity) }
}

#[test]
fn a_scan_makes_bursts() {
    let c = session();
    let sizes: Vec<usize> = c.bursts.iter().map(|b| b.images.len()).collect();
    assert_eq!(sizes, vec![3, 1, 2]);
    assert_eq!(c.ids(2), vec![4, 5]);
    assert_eq!(c.frames_to_score(), vec![0, 1, 2, 3, 4, 5]);
    assert_eq!(c.images[0], LogicalImage { raw: None, jpeg: Some(0) });
}

#[test]
fn picks_advance_and_clearing_does_not() {
    let mut c = session();
    act(&mut c, Action::OpenBurst);
    assert_eq!(c.current_id(), Some(0));
    act(&mut c, Action::Pick);
    assert_eq!(c.look.screen, Screen::Burst { b: 0, frame: 1 });
    act(&mut c, Action::Reject);
    act(&mut c, Action::Pick);
    // the last frame stays
    assert_eq!(c.look.screen, Screen::Burst { b: 0, frame: 2 });
    assert!(c.burst_culled(0));
    act(&mut c, Action::ClearFlag);
    assert_eq!(c.look.screen, Screen::Burst { b: 0, frame: 2 });
    assert_eq!(flags(&c)[..3], [Flag::Picked, Flag::Rejected, Flag::Unrated]);
    assert!(c.look.dirty);
}

#[test]
fn undo_reverses_every_kind_of_change() {
    let mut c = session();
    act(&mut c, Action::OpenBurst);
    act(&mut c, Action::Rate(4));
    act(&mut c, Action::Pick);
    let before = flags(&c);
    act(&mut c, Action::AcceptTop);
    assert_ne!(flags(&c), before);
    act(&mut c, Action::Undo);
    assert_eq!(flags(&c), before);
    assert_eq!(c.img_state(0), ImgState { flag: Flag::Picked, rating: 4 });
    act(&mut c, Action::Undo);
    act(&mut c, Action::Undo);
    assert!(c.marks.is_empty());
    assert!(!c.enabled(Action::Undo));
    act(&mut c, Action::Undo);
    assert!(c.marks.is_empty());
}

#[test]
fn ratings_stop_at_both_ends() {
    let mut c = session();
    act(&mut c, Action::OpenBurst);
    for _ in 0..9 {
        act(&mut c, Action::RateUp);
    }
    assert_eq!(c.img_state(0).rating, 5);
    for _ in 0..9 {
        act(&mut c, Action::RateDown);
    }
    assert_eq!(c.img_state(0).rating, 0);
    act(&mut c, Action::Rate(200));
    act(&mut c, Action::RateUp);
    assert_eq!(c.img_state(0).rating, 5);
}

#[test]
fn accepting_takes_the_sharpest_two() {
    let mut c = session();
    for (i, s) in [(0, 3.0), (1, 9.0), (2, 5.0), (4, 1.0), (5, 2.0)] {
        c.on_score(i, num(s));
    }
    assert_eq!(c.order(0), vec![1, 2, 0]);
    act(&mut c, Action::OpenBurst);
    let e = act(&mut c, Action::AcceptTop);
    assert!(matches!(e, Effect::Nothing));
    assert_eq!(flags(&c)[..3], [Flag::Rejected, Flag::Picked, Flag::Picked]);
    // the next unculled burst is open
    assert_eq!(c.look.screen, Screen::Burst { b: 1, frame: 0 });
    assert!(c.burst_culled(0));
    // whatever the display order
    act(&mut c, Action::SetSort(SortMode::Time));
    assert_eq!(c.order(2), vec![0, 1]);
    c.accept_burst(2);
    assert_eq!(flags(&c)[4..], [Flag::Picked, Flag::Picked]);
    // or any other number of them
    c.accept_best(2, 1);
    assert_eq!(flags(&c)[4..], [Flag::Rejected, Flag::Picked]);
    c.accept_best(2, 0);
    assert_eq!(flags(&c)[4..], [Flag::Rejected, Flag::Rejected]);
    c.accept_best(2, 9);
    assert_eq!(flags(&c)[4..], [Flag::Picked, Flag::Picked]);
}

#[test]
fn the_next_unculled_burst_wraps_around() {
    let mut c = session();
    assert_eq!(c.next_unculled(0), Some(1));
    assert_eq!(c.next_unculled(2), Some(0));
    c.reject_all(1);
    assert_eq!(c.next_unculled(0), Some(2));
    c.reject_all(2);
    assert_eq!(c.next_unculled(0), Some(0));
    c.reject_all(0);
    assert_eq!(c.next_unculled(0), None);
    assert_eq!(empty().next_unculled(0), None);
}

#[test]
fn rejecting_all_asks_first() {
    let mut c = session();
    act(&mut c, Action::OpenBurst);
    act(&mut c, Action::RejectAll);
    assert_eq!(c.look.confirm, Some(Confirm::RejectAll { b: 0 }));
    assert!(!c.look.takes_keys());
    c.answer(false);
    assert!(c.look.confirm.is_none() && c.marks.is_empty());
    act(&mut c, Action::RejectAll);
    c.answer(true);
    assert_eq!(flags(&c)[..3], [Flag::Rejected; 3]);
    assert!(c.look.takes_keys());
}

#[test]
fn navigation_stays_on_the_sheet() {
    let mut c = session();
    act(&mut c, Action::NavLeft);
    assert_eq!(c.look.cursor, 0);
    act(&mut c, Action::NavDown);
    assert_eq!(c.look.cursor, 2);
    act(&mut c, Action::NavDown);
    assert_eq!(c.look.cursor, 2);
    act(&mut c, Action::NavUp);
    assert_eq!(c.look.cursor, 0);
    act(&mut c, Action::NavRight);
    act(&mut c, Action::OpenBurst);
    assert_eq!(c.look.screen, Screen::Burst { b: 1, frame: 0 });
    act(&mut c, Action::NavDown);
    assert_eq!(c.look.screen, Screen::Burst { b: 2, frame: 0 });
    act(&mut c, Action::NavRight);
    act(&mut c, Action::NavRight);
    assert_eq!(c.look.screen, Screen::Burst { b: 2, frame: 1 });
    act(&mut c, Action::NavLeft);
    act(&mut c, Action::NavLeft);
    assert_eq!(c.look.screen, Screen::Burst { b: 2, frame: 0 });
    act(&mut c, Action::BackToOverview);
    assert_eq!((c.look.screen, c.look.cursor), (Screen::Overview, 2));
    let mut none = empty();
    act(&mut none, Action::NavDown);
    act(&mut none, Action::OpenBurst);
    assert_eq!((none.look.screen, none.look.cursor), (Screen::Overview, 0));
}

#[test]
fn zoom_and_inspect_replace_each_other() {
    let mut c = session();
    act(&mut c, Action::OpenBurst);
    act(&mut c, Action::ToggleZoom);
    assert_eq!(c.look.zoom, Some(num(1.0)));
    act(&mut c, Action::ToggleInspect);
    assert!(c.look.inspect && c.look.zoom.is_none() && c.look.magnified());
    act(&mut c, Action::ToggleZoom);
    assert!(!c.look.inspect && c.look.zoom.is_some());
    // the zoom level carries over to the next burst
    act(&mut c, Action::NavDown);
    assert!(c.look.zoom.is_some());
    act(&mut c, Action::BackToOverview);
    assert!(c.look.zoom.is_none() && !c.look.magnified());
}

#[test]
fn effects_leave_the_rest_to_the_caller() {
    let mut c = session();
    assert!(matches!(act(&mut c, Action::OpenFolder), Effect::PickFolder));
    assert!(matches!(act(&mut c, Action::OpenRecipe), Effect::PickRecipe));
    assert!(matches!(act(&mut c, Action::SaveSession), Effect::Save));
    assert!(matches!(act(&mut c, Action::Quit), Effect::Quit));
    assert!(matches!(act(&mut c, Action::ToggleBrighten), Effect::Redecode));
    assert!(!c.look.brighten);
    assert!(matches!(act(&mut c, Action::TogglePeaking), Effect::Redecode));
    assert!(matches!(act(&mut c, Action::SetSource(Source::Embedded)), Effect::Nothing));
    assert!(matches!(act(&mut c, Action::SetSource(Source::Full)), Effect::Reopen));
    assert_eq!(c.look.source, Source::Full);
    for want in [SortMode::Coverage, SortMode::Time, SortMode::Sharpness] {
        act(&mut c, Action::ToggleSort);
        assert_eq!(c.look.sort, want);
    }
    act(&mut c, Action::Harvest);
    act(&mut c, Action::ToggleHelp);
    act(&mut c, Action::ShowAbout);
    assert!(c.look.harvest_open && c.look.show_help && c.look.show_about);
}

#[test]
fn actions_are_greyed_where_they_do_not_apply() {
    let mut c = session();
    assert!(c.enabled(Action::OpenBurst) && !c.enabled(Action::Pick));
    assert!(!c.enabled(Action::SaveSession) && c.enabled(Action::Harvest));
    assert!(!empty().enabled(Action::NavLeft));
    act(&mut c, Action::OpenBurst);
    assert!(!c.enabled(Action::OpenBurst) && c.enabled(Action::Pick));
    assert!(!c.enabled(Action::ClearTrack) && !c.enabled(Action::Unpin));
    c.start_track(0, 0, num(0.5), num(0.5));
    assert!(c.enabled(Action::ClearTrack) && c.enabled(Action::Unpin));
    act(&mut c, Action::Pick);
    assert!(c.enabled(Action::SaveSession) && c.enabled(Action::Undo));
    assert!(!c.enabled(Action::Unpin), "the pin is on the frame before");
}

#[test]
fn pins_start_tracks() {
    let mut c = session();
    act(&mut c, Action::OpenBurst);
    let t = track_of(c.start_track(0, 1, num(0.25), num(0.5)));
    assert_eq!((t.req_id, t.frames), (1, vec![0, 1, 2]));
    assert_eq!(t.seeds.len(), 1);
    // another pin on the same frame takes its place
    let t = track_of(c.start_track(0, 1, num(0.75), num(0.5)));
    assert_eq!((t.req_id, t.seeds.len(), t.seeds[0].x), (2, 1, num(0.75)));
    let t = track_of(c.start_track(0, 2, num(0.1), num(0.2)));
    assert_eq!(t.seeds.iter().map(|s| s.frame).collect::<Vec<usize>>(), vec![1, 2]);
    assert!(c.tracks.is_pinned(0, 1));
    let t = track_of(c.unpin(0, 1));
    assert_eq!(t.seeds.iter().map(|s| s.frame).collect::<Vec<usize>>(), vec![2]);
    assert!(matches!(c.unpin(0, 2), Effect::Nothing));
    assert!(!c.tracks.has(0));
    // the measuring area
    assert!(matches!(c.set_roi_frac(0, num(0.2)), Effect::Nothing));
    c.start_track(0, 0, num(0.1), num(0.2));
    assert_eq!(track_of(c.set_roi_frac(0, num(0.3))).roi_frac, num(0.3));
}

#[test]
fn the_cameras_eye_points_start_tracks_on_their_own() {
    let mut c = empty();
    let mut metas = vec![meta("1.JPG", 0), meta("2.JPG", 10)];
    metas[1].af_box = Some(eye_box());
    c.scanned(metas);
    let t = track_of(act(&mut c, Action::OpenBurst));
    assert!(t.seeds.is_empty() && t.use_af);
    assert!(c.tracks.has(0));
    // off: the track goes; on again: it comes back
    assert!(matches!(act(&mut c, Action::ToggleAfPins), Effect::Nothing));
    assert!(!c.tracks.has(0));
    assert!(track_of(act(&mut c, Action::ToggleAfPins)).use_af);
    // clearing the pins brings the camera's points back
    c.start_track(0, 0, num(0.1), num(0.2));
    assert!(track_of(act(&mut c, Action::ClearTrack)).seeds.is_empty());
}

#[test]
fn tracked_frames_outrank_lost_ones() {
    let mut c = session();
    act(&mut c, Action::OpenBurst);
    for (i, s) in [(0, 30.0), (1, 20.0), (2, 10.0)] {
        c.on_score(i, num(s));
    }
    c.start_track(0, 1, num(0.5), num(0.5));
    let p = |conf: f32| Point { x: num(0.5), y: num(0.5), conf: num(conf) };
    c.on_point(1, 1, p(1.0), num(2.0), num(0.4));
    c.on_point(1, 2, p(0.9), num(4.0), num(0.1));
    c.on_point(1, 0, p(0.3), num(99.0), num(0.9));
    assert_eq!(c.order(0), vec![2, 1, 0]);
    act(&mut c, Action::SetSort(SortMode::Coverage));
    assert_eq!(c.order(0), vec![1, 2, 0]);
    act(&mut c, Action::SetSort(SortMode::Sharpness));
    // once all is measured, pupils count; frames without one keep their score
    c.on_eye(1, 0, num(0.4), num(0.4), eye(25.0));
    assert_eq!(c.order(0), vec![2, 1, 0]);
    c.on_done(1);
    assert_eq!(c.order(0), vec![0, 1, 2]);
    let t = c.tracks.get(0).expect("a track");
    assert_eq!(t.points.get(&0).map(|p| p.conf), Some(num(0.3)));
    assert_eq!(t.points.get(&0).map(|p| p.x), Some(num(0.4)));
}

#[test]
fn news_of_an_older_track_are_ignored() {
    let mut c = session();
    c.start_track(0, 0, num(0.5), num(0.5));
    c.start_track(0, 1, num(0.5), num(0.5));
    let p = Point { x: num(0.5), y: num(0.5), conf: num(1.0) };
    c.on_point(1, 0, p, num(1.0), num(1.0));
    c.on_eye(1, 0, num(0.1), num(0.1), eye(1.0));
    c.on_done(1);
    c.on_point(7, 0, p, num(1.0), num(1.0));
    let t = c.tracks.get(0).expect("a track");
    assert!(t.points.is_empty() && t.eyes.is_empty() && !t.done);
    // without a point the pupil's own confidence is full
    c.on_eye(2, 0, num(0.1), num(0.1), eye(1.0));
    assert_eq!(c.tracks.get(0).and_then(|t| t.points.get(&0)).map(|p| p.conf), Some(num(1.0)));
}

#[test]
fn equal_scores_keep_their_order() {
    let k = |t: bool, s: f32| (t, num(s));
    assert_eq!(rank_by_score(&vec![k(true, 1.0), k(true, 1.0), k(false, 9.0), k(true, 2.0)]), vec![3, 0, 1, 2]);
    assert_eq!(rank_by_score(&vec![k(true, 0.0), k(true, -0.0)]), vec![0, 1]);
    assert_eq!(rank_by_score(&vec![]), Vec::<usize>::new());
}

#[test]
fn another_folder_starts_afresh() {
    let mut c = session();
    act(&mut c, Action::OpenBurst);
    act(&mut c, Action::Pick);
    c.start_track(0, 0, num(0.5), num(0.5));
    act(&mut c, Action::SetSort(SortMode::Time));
    c.open_dir();
    assert!(c.metas.is_empty() && c.bursts.is_empty() && c.marks.is_empty());
    assert!(!c.enabled(Action::Undo) && !c.look.dirty);
    assert_eq!((c.look.screen, c.look.sort), (Screen::Overview, SortMode::Time));
    // requests are numbered on, so that old news cannot be taken for new
    c.scanned(vec![meta("1.JPG", 0)]);
    assert_eq!(track_of(c.start_track(0, 0, num(0.5), num(0.5))).req_id, 2);
}

#[test]
fn a_new_session_is_empty() {
    let c = Cull::new(Source::Full, num(0.25), true, false);
    assert_eq!((c.look.brighten, c.look.peaking, c.look.dirty), (true, false, false));
    assert!(c.metas.is_empty() && c.bursts.is_empty() && c.images.is_empty());
    assert!(c.marks.is_empty() && c.pending_pins.is_empty());
    assert_eq!(c.look.sort, SortMode::Sharpness);
    let c = Cull::new(Source::Embedded, num(0.25), false, true);
    assert_eq!((c.look.brighten, c.look.peaking), (false, true));
}

#[test]
fn accepting_goes_by_sharpness_under_every_sort() {
    let mut c = session();
    act(&mut c, Action::OpenBurst);
    c.start_track(0, 1, num(0.5), num(0.5));
    let p = |conf: f32| Point { x: num(0.5), y: num(0.5), conf: num(conf) };
    c.on_point(1, 0, p(0.9), num(1.0), num(0.9));
    c.on_point(1, 1, p(1.0), num(5.0), num(0.5));
    c.on_point(1, 2, p(0.9), num(9.0), num(0.1));
    act(&mut c, Action::SetSort(SortMode::Coverage));
    assert_eq!(c.order(0), vec![0, 1, 2]);
    c.accept_burst(0);
    assert_eq!(flags(&c)[..3], [Flag::Rejected, Flag::Picked, Flag::Picked]);
}

#[test]
fn exactly_as_many_are_picked_as_asked_for() {
    let mut c = session();
    for (i, s) in [(0, 3.0), (1, 3.0), (2, 3.0)] {
        c.on_score(i, num(s));
    }
    for (top, want) in [(0, 0), (1, 1), (2, 2), (3, 3), (7, 3)] {
        c.accept_best(0, top);
        assert_eq!(flags(&c)[..3].iter().filter(|f| **f == Flag::Picked).count(), want);
        assert_eq!(flags(&c)[..3].iter().filter(|f| **f == Flag::Rejected).count(), 3 - want);
    }
}
