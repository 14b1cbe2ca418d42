use std::collections::HashMap;

use fd_core::action::Action;
use fd_core::cull::Cull;
use fd_core::display::{
    badge, budget, chip, evict, grade, grid_rows, prefetch, star_click, Badge, Chip, Grade, Held,
};
use fd_core::formats::Source;
use fd_core::meta::{ByteRange, FileKind, FileMeta, PreviewInfo, Timestamp};
use fd_core::pipeline::{EyeMark, JobKind, RoiKind};
use fd_core::report::{limited, shown_files, shutter_column, size_column, time_column};
use fd_core::roi::{Eye, Point, RoiTrack};
use fd_core::single::Real32;

fn num(v: f32) -> Real32 {
    Real32 { bits: v.to_bits() }
}

#[test]
fn the_longest_unseen_go_first() {
    let held: Vec<Held> = [(10, 5), (11, 2), (12, 9), (13, 2)]
        .iter()
        .map(|&(idx, last_used)| Held { idx, last_used })
        .collect();
    assert_eq!(evict(&held, 4), Vec::<usize>::new());
    assert_eq!(evict(&held, 3), vec![11]);
    assert_eq!(evict(&held, 1), vec![11, 13, 10]);
    assert_eq!(evict(&held, 0), vec![11, 13, 10, 12]);
    assert_eq!(budget(JobKind::Full), Some(3));
    assert_eq!(budget(JobKind::Preview), Some(8));
    assert_eq!(budget(JobKind::Thumb), Some(1500));
    assert_eq!(budget(JobKind::Score), None);
}

#[test]
fn neighbours_are_decoded_ahead() {
    let list = |n: usize, frame: usize, inspect: bool| -> Vec<(JobKind, usize, i32)> {
        prefetch(n, frame, inspect).into_iter().map(|a| (a.kind, a.pos, a.priority)).collect()
    };
    assert_eq!(
        list(6, 2, false),
        vec![
            (JobKind::Preview, 3, 79),
            (JobKind::Preview, 1, 79),
            (JobKind::Preview, 4, 78),
            (JobKind::Preview, 0, 78),
        ]
    );
    assert_eq!(list(1, 0, true), vec![]);
    assert_eq!(
        list(2, 1, true),
        vec![(JobKind::Preview, 0, 79), (JobKind::Full, 0, 94)]
    );
    assert_eq!(list(2, 0, true)[1], (JobKind::Full, 1, 95));
}

#[test]
fn confidence_is_graded() {
    assert_eq!(grade(num(0.75)), Grade::Good);
    assert_eq!(grade(num(0.74)), Grade::Fair);
    assert_eq!(grade(num(0.55)), Grade::Fair);
    assert_eq!(grade(num(0.54)), Grade::Lost);
    assert_eq!(grade(num(f32::NAN)), Grade::Lost);
}

#[test]
fn badges_show_the_best_measurement() {
    let mut scores: HashMap<usize, Real32> = HashMap::new();
    assert_eq!(badge(&scores, None, false, 4), Badge::Pending);
    scores.insert(4, num(7.0));
    assert_eq!(badge(&scores, None, true, 4), Badge::Overall(num(7.0)));
    let mut t = RoiTrack::fresh(1, vec![]);
    assert_eq!(badge(&scores, Some(&t), false, 4), Badge::Overall(num(7.0)));
    assert_eq!(chip(Some(&t), 4, true), Chip::Running);
    assert_eq!(chip(Some(&t), 4, false), Chip::Lost);
    assert_eq!(chip(None, 4, true), Chip::Off);
    t.roi_scores.insert(4, num(3.0));
    t.coverage.insert(4, num(0.5));
    let mark = EyeMark { r_frac: num(0.01), width_px: num(4.0), anisotropy: num(1.0) };
    let eye = Eye { kind: RoiKind::EyeCamera, mark, acuity: num(25.0) };
    t.eyes.insert(4, eye);
    assert_eq!(badge(&scores, Some(&t), false, 4), Badge::Roi(num(3.0)));
    assert_eq!(badge(&scores, Some(&t), true, 4), Badge::Coverage(num(0.5)));
    t.done = true;
    assert_eq!(badge(&scores, Some(&t), false, 4), Badge::Eye(eye));
    let p = Point { x: num(0.1), y: num(0.2), conf: num(0.9) };
    t.points.insert(4, p);
    assert_eq!(chip(Some(&t), 4, false), Chip::Point { p, eye: Some(eye), done: true });
}

#[test]
fn clicking_the_lit_star_clears_it() {
    assert_eq!(star_click(Some(3), 3), 0);
    assert_eq!(star_click(Some(2), 3), 3);
    assert_eq!(star_click(None, 1), 1);
}

#[test]
fn grids_hold_every_burst() {
    assert_eq!(grid_rows(0, 4), 0);
    assert_eq!(grid_rows(1, 4), 1);
    assert_eq!(grid_rows(4, 4), 1);
    assert_eq!(grid_rows(5, 4), 2);
}

#[test]
fn the_status_bar_counts() {
    let mut c = Cull::new(Source::Embedded, num(0.05), true, false);
    let metas: Vec<FileMeta> = (0..4)
        .map(|i| {
            let mut m = FileMeta::new(format!("/cards/{i}.JPG"), 1, FileKind::Jpeg);
            m.ts = Some(Timestamp { unix_centis: if i < 3 { i * 10 } else { 5000 } });
            m
        })
        .collect();
    c.scanned(metas);
    c.perform(Action::OpenBurst, 1);
    c.perform(Action::AcceptTop, 1);
    assert_eq!(
        c.status_line("100EOS"),
        "100EOS · 4 images · 2 bursts · 1/2 culled · 2 picks · 1 rejects"
    );
}

#[test]
fn scan_tables_are_shortened() {
    assert_eq!(shown_files(12, false).len(), 12);
    assert_eq!(shown_files(13, true).len(), 13);
    assert_eq!(shown_files(20, false), vec![0, 1, 2, 3, 4, 5, 14, 15, 16, 17, 18, 19]);
    assert_eq!((limited(9, 0), limited(9, 4), limited(9, 20)), (9, 4, 9));
}

#[test]
fn scan_columns() {
    let at = |c: i64| time_column(Some(Timestamp { unix_centis: c }));
    for c in [0i64, 7, 1746285170_07, 99, 100, -150, -5, -100] {
        assert_eq!(at(c), format!("{}.{:02}", c / 100, c % 100), "{c}");
    }
    assert_eq!(time_column(None), "-");
    assert_eq!(shutter_column(Some((1, 2000))), "1/2000");
    assert_eq!(shutter_column(None), "-");
    let p = PreviewInfo {
        range: ByteRange { offset: 1, len: 5000 },
        width: 0,
        height: 0,
        is_bare_jpeg: true,
    };
    assert_eq!(size_column(Some(p)), "4K");
    assert_eq!(size_column(None), "-");
}
