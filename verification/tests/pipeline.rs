use fd_core::formats::Source;
use fd_core::meta::{AfBox, FileKind, FileMeta};
use fd_core::pipeline::{
    classify_entry, contains, find_camera_pins, focus_rect, frames_after, frames_before, has_pin, is_measurable,
    median_radius, nearest, patch_rect, place_pins, plan_decode, points_per_thread, Entry, JobKind, JobQueue, Pin,
    QueueState, TrackRequest, Work, NO_SCALING,
};
use fd_core::score::Rect;
use fd_core::single::Real32;

fn num(v: f32) -> Real32 {
    Real32 { bits: v.to_bits() }
}

fn request(req_id: u64, frames: Vec<usize>, seeds: Vec<Pin>, use_af: bool) -> TrackRequest {
    TrackRequest { req_id, frames, seeds, roi_frac: num(0.05), use_af }
}

#[test]
fn urgent_jobs_run_first_and_newer_ones_before_older() {
    let mut q = JobQueue::new();
    assert!(q.push(JobKind::Thumb, 1, 50));
    assert!(q.push(JobKind::Preview, 1, 90));
    assert!(q.push(JobKind::Thumb, 2, 50));
    assert!(!q.push(JobKind::Thumb, 1, 99), "already queued");
    assert_eq!(q.len(), 3);
    let order: Vec<(JobKind, usize)> =
        (0..3).map(|_| q.pop().map(|j| (j.kind, j.idx)).unwrap()).collect();
    assert_eq!(order, vec![(JobKind::Preview, 1), (JobKind::Thumb, 2), (JobKind::Thumb, 1)]);
    assert!(q.pop().is_none());
    assert!(q.push(JobKind::Thumb, 1, 1), "may be asked for again");
}

#[test]
fn tracks_come_before_jobs() {
    let mut q = QueueState::new();
    assert!(!q.request(JobKind::Thumb, 0, 5), "nothing is scanned yet");
    assert!(!q.request_track(request(1, vec![], vec![], true)));
    q.ready = true;
    assert!(q.request(JobKind::Thumb, 0, 5));
    assert!(q.request_track(request(1, vec![], vec![], true)));
    assert!(q.request_track(request(2, vec![], vec![], true)));
    assert_eq!(q.busy(4), 7);
    assert!(matches!(q.next_work(), Work::Track(t) if t.req_id == 2));
    assert!(matches!(q.next_work(), Work::Track(t) if t.req_id == 1));
    assert!(matches!(q.next_work(), Work::Job(j) if j.idx == 0));
    assert!(matches!(q.next_work(), Work::Wait));
    q.shutdown = true;
    q.request(JobKind::Thumb, 0, 5);
    assert!(matches!(q.next_work(), Work::Stop));
}

#[test]
fn what_is_decoded_for_a_job() {
    let p = plan_decode(JobKind::Thumb, Source::Full, true, true).unwrap();
    assert_eq!((p.min_long_edge, p.source, p.brighten, p.peaking), (200, Source::Embedded, true, false));
    let p = plan_decode(JobKind::Preview, Source::Full, false, true).unwrap();
    assert_eq!((p.min_long_edge, p.source, p.brighten, p.peaking), (1600, Source::Full, false, true));
    let p = plan_decode(JobKind::Full, Source::Embedded, true, true).unwrap();
    assert_eq!((p.min_long_edge, p.source), (NO_SCALING, Source::Full));
    assert!(plan_decode(JobKind::Score, Source::Full, true, true).is_none());
}

#[test]
fn scans_pass_over_hidden_entries() {
    assert!(matches!(classify_entry(".fd-cache", true, None), Entry::Ignore));
    assert!(matches!(classify_entry("100EOS", true, None), Entry::Descend));
    assert!(matches!(classify_entry("a.CR3", false, Some(FileKind::Cr3)), Entry::Take));
    assert!(matches!(classify_entry(".a.CR3", false, Some(FileKind::Cr3)), Entry::Ignore));
    assert!(matches!(classify_entry("a.txt", false, None), Entry::Ignore));
}

#[test]
fn the_cameras_points_fill_in_where_the_user_has_none() {
    let eye = AfBox { x: 0, y: 0, w: 100, h: 100, af_w: 8192, af_h: 5464, mode: 22 };
    let metas: Vec<FileMeta> = (0..4)
        .map(|i| {
            let mut m = FileMeta::new(format!("/x/{i}.JPG"), 1, FileKind::Jpeg);
            m.af_box = if i != 2 { Some(eye) } else { None };
            m
        })
        .collect();
    let pin = Pin { frame: 1, x: num(0.5), y: num(0.5) };
    let req = request(1, vec![0, 1, 2, 3], vec![pin], true);
    assert_eq!(find_camera_pins(&metas, &req), vec![0, 3]);
    assert_eq!(find_camera_pins(&metas, &request(1, vec![0, 1], vec![pin], false)), Vec::<usize>::new());
    assert!(has_pin(&vec![pin], 1) && !has_pin(&vec![pin], 0));
    assert!(contains(&vec![3, 4], 4) && !contains(&vec![3, 4], 5));
}

#[test]
fn every_frame_follows_its_nearest_pin() {
    // pins on frames 10 and 13 of a burst 10..=15, and one elsewhere
    let frames: Vec<usize> = (10..16).collect();
    let places = place_pins(&frames, &vec![10, 99, 13]);
    assert_eq!(places, vec![(0, 0), (3, 2)]);
    let pins: Vec<usize> = places.iter().map(|p| p.0).collect();
    let owners: Vec<usize> = (0..6).map(|p| nearest(&pins, p)).collect();
    assert_eq!(owners, vec![0, 0, 1, 1, 1, 1]);
    assert_eq!(frames_after(&pins, 0, 6), vec![1]);
    assert_eq!(frames_before(&pins, 0), Vec::<usize>::new());
    assert_eq!(frames_after(&pins, 1, 6), vec![4, 5]);
    assert_eq!(frames_before(&pins, 1), vec![2]);
    // a tie goes to the later pin
    assert_eq!(nearest(&vec![0, 4], 2), 1);
    assert_eq!(nearest(&vec![4, 0], 2), 1);
}

#[test]
fn medians_are_the_upper_ones() {
    let r = |v: &[f32]| -> Option<f32> {
        median_radius(&v.iter().map(|&x| num(x)).collect()).map(|m| f32::from_bits(m.bits))
    };
    assert_eq!(r(&[]), None);
    assert_eq!(r(&[3.0]), Some(3.0));
    assert_eq!(r(&[5.0, 1.0]), Some(5.0));
    assert_eq!(r(&[5.0, 1.0, 2.0]), Some(2.0));
    assert!(is_measurable(num(0.55)) && !is_measurable(num(0.5)));
    assert_eq!((points_per_thread(0), points_per_thread(1), points_per_thread(7)), (1, 1, 3));
}

#[test]
fn patches_are_moved_inside_the_image() {
    let at = |r: Rect| (r.x, r.y, r.w, r.h);
    assert_eq!(at(patch_rect(1620, 1080, 800, 500, 96)), (704, 404, 192, 192));
    assert_eq!(at(patch_rect(1620, 1080, 3, 1079, 96)), (0, 888, 192, 192));
    assert_eq!(at(patch_rect(100, 60, 50, 30, 4)), (42, 22, 16, 16));
    assert_eq!(at(patch_rect(100, 60, 50, 30, 500)), (20, 0, 60, 60));
    assert_eq!(at(focus_rect(5, 50, 10)), (0, 40, 20, 20));
}
