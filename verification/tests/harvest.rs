use fd_core::action::Action;
use fd_core::cull::Cull;
use fd_core::formats::Source;
use fd_core::harvest::{basis, issue_of, shown_rows, HarvestOptions, RowFilter};
use fd_core::meta::{FileKind, FileMeta, Timestamp};
use fd_core::pipeline::{EyeMark, RoiKind};
use fd_core::recipe::{Issue, Op, Recipe, Severity};
use fd_core::roi::{Eye, Point};
use fd_core::session::rel_keys;
use fd_core::single::Real32;

fn num(v: f32) -> Real32 {
    Real32 { bits: v.to_bits() }
}

fn meta(name: &str, kind: FileKind, centis: i64) -> FileMeta {
    let mut m = FileMeta::new(format!("/cards/{name}"), 1, kind);
    m.ts = Some(Timestamp { unix_centis: centis });
    m
}

/// A burst of a RAW+JPEG pair and two RAWs (ids 0, 2, 3); the first is
/// picked, the second rejected.
fn session() -> Cull {
    let mut c = Cull::new(Source::Embedded, num(0.05), true, false);
    c.scanned(vec![
        meta("a.CR3", FileKind::Cr3, 0),
        meta("a.JPG", FileKind::Jpeg, 0),
        meta("b.CR3", FileKind::Cr3, 10),
        meta("c.CR3", FileKind::Cr3, 20),
    ]);
    c.on_score(0, num(9.0));
    c.on_score(2, num(5.0));
    c.perform(Action::OpenBurst, 1);
    c.perform(Action::Rate(1), 1);
    c.perform(Action::Pick, 1);
    c.perform(Action::Reject, 1);
    c
}

fn options(in_place: bool, copy: bool) -> HarvestOptions {
    HarvestOptions {
        xmp_with_copies: true,
        xmp_in_place: in_place,
        do_copy: copy,
        dest: " /keep ".to_string(),
    }
}

fn build(c: &Cull, o: &HarvestOptions) -> Recipe {
    c.build_recipe(o, "/cards", &rel_keys(&c.metas, "/cards"), 1_700_000_000)
}

fn rows(r: &Recipe) -> Vec<(String, String, String)> {
    r.actions.iter().map(|a| (a.file.clone(), a.op_label(), a.reason.clone())).collect()
}

fn row(f: &str, op: &str, why: &str) -> (String, String, String) {
    (f.to_string(), op.to_string(), why.to_string())
}

#[test]
fn recipes_record_every_frame() {
    let c = session();
    let r = build(&c, &options(true, true));
    assert_eq!(
        rows(&r),
        vec![
            row("a.CR3", "rate 3★", "picked: rank 1/3 in burst 1 by overall sharpness"),
            row("a.CR3", "copy to /keep + rate 3★", "picked: rank 1/3 in burst 1 by overall sharpness"),
            row("a.JPG", "copy to /keep", "JPEG paired with a.CR3"),
            row("b.CR3", "skip", "rejected: rank 2/3 in burst 1 by overall sharpness"),
            row("c.CR3", "skip", "not picked: rank 3/3 in burst 1 by overall sharpness"),
        ]
    );
    assert_eq!((r.version, r.folder.as_str(), r.created_unix), (1, "/cards", 1_700_000_000));
    assert_eq!((r.settings.top_n, r.settings.gap_secs, r.settings.write_xmp), (2, 1, true));
    assert_eq!(r.settings.copy_to.as_deref(), Some("/keep"));
    let a = &r.actions[0];
    assert_eq!((a.burst, a.burst_size, a.rank, a.enabled), (1, 3, 1, true));
    assert_eq!((a.sharpness, a.roi_sharpness, a.track_confidence), (num(9.0), None, None));
    assert_eq!(r.actions[4].sharpness, num(0.0));
}

#[test]
fn originals_are_left_alone_by_default() {
    let c = session();
    let r = build(&c, &options(false, true));
    assert!(r.actions.iter().all(|a| !matches!(a.op, Op::WriteXmp { .. })));
    let mut o = options(false, true);
    o.xmp_with_copies = false;
    let r = build(&c, &o);
    assert_eq!(rows(&r)[0].1, "copy to /keep");
    let r = build(&c, &options(false, false));
    assert!(r.actions.iter().all(|a| matches!(a.op, Op::Skip)));
    assert!(r.settings.copy_to.is_none());
}

#[test]
fn the_evidence_names_what_ranked_a_frame() {
    let mut c = session();
    c.start_track(0, 0, num(0.5), num(0.5));
    let p = |conf: f32| Point { x: num(0.5), y: num(0.5), conf: num(conf) };
    c.on_point(1, 0, p(1.0), num(3.0), num(0.5));
    c.on_point(1, 2, p(0.2), num(8.0), num(0.5));
    let r = build(&c, &options(true, false));
    let why: Vec<String> = rows(&r).into_iter().map(|x| x.2).collect();
    assert_eq!(
        why,
        vec![
            "picked: rank 1/3 in burst 1 by sharpness at the tracked point",
            "rejected: rank 2/3 in burst 1 by overall sharpness (track lost here)",
            "not picked: rank 3/3 in burst 1 by overall sharpness",
        ]
    );
    assert_eq!(r.actions[1].track_confidence, Some(num(0.2)));
    assert_eq!(r.actions[1].roi_sharpness, Some(num(8.0)));
    let mark = EyeMark { r_frac: num(0.01), width_px: num(4.0), anisotropy: num(1.0) };
    c.on_eye(1, 2, num(0.5), num(0.5), Eye { kind: RoiKind::EyeCamera, mark, acuity: num(25.0) });
    c.on_done(1);
    let r = build(&c, &options(true, false));
    assert_eq!(rows(&r)[0].2, "rejected: rank 1/3 in burst 1 by eye edge acuity (camera eye point)");
    assert_eq!(basis(Some(RoiKind::EyeTracked), None, None), "eye edge acuity (tracked eye)");
    assert_eq!(basis(None, None, Some(num(0.9))), "overall sharpness (track lost here)");
}

#[test]
fn keepers_go_next_to_the_folder() {
    let o = HarvestOptions::for_dir("/media/cards/100EOSR5");
    assert_eq!(o.dest, "/media/cards/100EOSR5_keepers");
    assert!(o.xmp_with_copies && !o.xmp_in_place && o.do_copy);
    assert_eq!(HarvestOptions::for_dir("/photos").dest, "/photos_keepers");
}

#[test]
fn a_recipe_needs_picks_and_something_to_do() {
    assert!(!options(true, true).can_build(0));
    assert!(options(true, false).can_build(1));
    assert!(options(false, true).can_build(1));
    let mut o = options(false, true);
    o.dest = "  ".to_string();
    assert!(!o.can_build(1) && o.copy_dest().is_none());
    assert_eq!(options(false, true).copy_dest().as_deref(), Some("/keep"));
    assert_eq!(session().picked_count(), 1);
}

#[test]
fn filters_pick_rows() {
    let c = session();
    let r = build(&c, &options(true, true));
    let issue = |action: usize, m: &str| Issue { action, severity: Severity::Warning, message: m.to_string() };
    let issues = vec![issue(1, "first"), issue(4, "x"), issue(1, "last")];
    assert_eq!(shown_rows(&r, &issues, RowFilter::All), vec![0, 1, 2, 3, 4]);
    assert_eq!(shown_rows(&r, &issues, RowFilter::Actions), vec![0, 1, 2]);
    assert_eq!(shown_rows(&r, &issues, RowFilter::Skips), vec![3, 4]);
    assert_eq!(shown_rows(&r, &issues, RowFilter::Problems), vec![1, 4]);
    assert_eq!(issue_of(&issues, 1), Some(2));
    assert_eq!(issue_of(&issues, 0), None);
    assert_eq!(RowFilter::Problems.label(), "problems only");
    assert_eq!(RowFilter::All.label(), "all rows");
}

#[test]
fn a_jpeg_without_a_raw_is_copied_once() {
    let mut c = Cull::new(Source::Embedded, num(0.05), true, false);
    c.scanned(vec![meta("a.JPG", FileKind::Jpeg, 0)]);
    c.perform(Action::OpenBurst, 1);
    c.perform(Action::Pick, 1);
    let r = build(&c, &options(false, true));
    assert_eq!(r.actions.len(), 1);
    assert_eq!((r.actions[0].file.as_str(), matches!(r.actions[0].op, Op::Copy { .. })), ("a.JPG", true));
}

#[test]
fn keepers_lie_next_to_the_folder_wherever_it_is() {
    assert_eq!(HarvestOptions::for_dir("/media/disk:1/100EOSR5").dest, "/media/disk:1/100EOSR5_keepers");
    assert!(HarvestOptions::for_dir("C:\\cards").dest.ends_with("cards_keepers"));
}
