use fd_core::burst::{group, pair, Burst, LogicalImage};
use fd_core::meta::{FileKind, FileMeta, Timestamp};

fn meta(name: &str, kind: FileKind, centis: Option<i64>) -> FileMeta {
    let mut m = FileMeta::new(name.to_string(), 1, kind);
    m.ts = centis.map(|c| Timestamp { unix_centis: c });
    m.serial = Some("S1".to_string());
    m
}

#[test]
fn pairs_raw_and_jpeg() {
    let metas = vec![
        meta("/a/IMG_1.CR3", FileKind::Cr3, Some(100)),
        meta("/a/IMG_1.JPG", FileKind::Jpeg, Some(100)),
        meta("/a/IMG_2.CR3", FileKind::Cr3, Some(105)),
    ];
    let imgs = pair(&metas);
    assert_eq!(imgs.len(), 2);
    assert_eq!(imgs[0].raw, Some(0));
    assert_eq!(imgs[0].jpeg, Some(1));
    assert_eq!(imgs[1].jpeg, None);
}

#[test]
fn splits_on_gap() {
    let metas = vec![
        meta("/a/1.CR3", FileKind::Cr3, Some(0)),
        meta("/a/2.CR3", FileKind::Cr3, Some(4)),
        meta("/a/3.CR3", FileKind::Cr3, Some(8)),
        meta("/a/4.CR3", FileKind::Cr3, Some(500)), // 4.9 s later
        meta("/a/5.CR3", FileKind::Cr3, None),      // undated
    ];
    let bursts = group(&metas, pair(&metas), 60);
    assert_eq!(bursts.len(), 3);
    assert_eq!(bursts[0].images.len(), 3);
    assert_eq!(bursts[1].images.len(), 1);
    assert_eq!(bursts[2].images.len(), 1);
}

#[test]
fn unsorted_input_sorts_by_time() {
    let metas = vec![
        meta("/a/3.CR3", FileKind::Cr3, Some(8)),
        meta("/a/1.CR3", FileKind::Cr3, Some(0)),
        meta("/a/2.CR3", FileKind::Cr3, Some(4)),
    ];
    let bursts = group(&metas, pair(&metas), 60);
    assert_eq!(bursts.len(), 1);
    let names: Vec<&str> =
        bursts[0].images.iter().map(|li| metas[li.primary()].path.as_str()).collect();
    assert_eq!(names, ["/a/1.CR3", "/a/2.CR3", "/a/3.CR3"]);
}

#[test]
fn stems_pair_whatever_their_case_and_order() {
    let metas = vec![
        meta("/a/img_1.jpg", FileKind::Jpeg, Some(100)),
        meta("/a/IMG_2.CR3", FileKind::Cr3, Some(105)),
        meta("/a/IMG_1.CR3", FileKind::Cr3, Some(100)),
    ];
    let imgs = pair(&metas);
    assert_eq!(imgs.len(), 2);
    assert_eq!(imgs[0], LogicalImage { raw: Some(2), jpeg: Some(0) });
    assert_eq!(imgs[0].primary(), 2);
    assert_eq!(imgs[0].indices(), vec![2, 0]);
    assert_eq!(imgs[1], LogicalImage { raw: Some(1), jpeg: None });
    assert_eq!(LogicalImage { raw: None, jpeg: Some(7) }.primary(), 7);
}

#[test]
fn a_gap_of_exactly_the_limit_does_not_split() {
    let metas = vec![
        meta("/a/1.CR3", FileKind::Cr3, Some(0)),
        meta("/a/2.CR3", FileKind::Cr3, Some(60)),
        meta("/a/3.CR3", FileKind::Cr3, Some(121)),
    ];
    let bursts = group(&metas, pair(&metas), 60);
    let sizes: Vec<usize> = bursts.iter().map(|b| b.images.len()).collect();
    assert_eq!(sizes, vec![2, 1]);
}

#[test]
fn cameras_are_kept_apart() {
    let mut metas = vec![
        meta("/a/1.CR3", FileKind::Cr3, Some(0)),
        meta("/a/2.CR3", FileKind::Cr3, Some(1)),
        meta("/a/3.CR3", FileKind::Cr3, Some(2)),
    ];
    metas[1].serial = Some("S2".to_string());
    let bursts = group(&metas, pair(&metas), 60);
    let ids: Vec<Vec<usize>> =
        bursts.iter().map(|b| b.images.iter().map(|i| i.primary()).collect()).collect();
    assert_eq!(ids, vec![vec![0, 2], vec![1]]);
}

#[test]
fn frames_of_one_instant_follow_their_file_numbers() {
    let metas = vec![
        meta("/a/4P4A0002.CR3", FileKind::Cr3, Some(5)),
        meta("/a/4P4A0001.CR3", FileKind::Cr3, Some(5)),
    ];
    let bursts = group(&metas, pair(&metas), 60);
    let ids: Vec<usize> = bursts[0].images.iter().map(|i| i.primary()).collect();
    assert_eq!(ids, vec![1, 0]);
}

#[test]
fn no_picture_is_lost_or_repeated() {
    let metas: Vec<FileMeta> = (0..40)
        .map(|i| {
            let t = if i % 7 == 3 { None } else { Some((i * 37 % 29) * 30) };
            meta(&format!("/a/{i}.CR3"), FileKind::Cr3, t)
        })
        .collect();
    let bursts = group(&metas, pair(&metas), 60);
    let mut ids: Vec<usize> = bursts
        .iter()
        .flat_map(|b| b.images.iter().map(|i| i.primary()).collect::<Vec<usize>>())
        .collect();
    assert!(bursts.iter().all(|b| !b.images.is_empty()));
    ids.sort();
    assert_eq!(ids, (0..40).collect::<Vec<usize>>());
}

#[test]
fn span_is_from_first_to_last() {
    let metas = vec![
        meta("/a/1.CR3", FileKind::Cr3, Some(30)),
        meta("/a/2.CR3", FileKind::Cr3, None),
        meta("/a/3.CR3", FileKind::Cr3, Some(5)),
    ];
    let b = Burst { images: pair(&metas) };
    assert_eq!(b.span_centis(&metas), 25);
    let undated = Burst { images: vec![LogicalImage { raw: Some(1), jpeg: None }] };
    assert_eq!(undated.span_centis(&metas), 0);
}

#[test]
fn files_of_one_stem_pair_only_within_a_second() {
    // the counter came round to the same name in another folder
    let metas = vec![
        meta("/a/100/IMG_1.CR3", FileKind::Cr3, Some(100)),
        meta("/a/101/IMG_1.JPG", FileKind::Jpeg, Some(90_000)),
    ];
    let imgs = pair(&metas);
    assert_eq!(imgs.len(), 2);
    assert_eq!(imgs[0], LogicalImage { raw: Some(0), jpeg: None });
    assert_eq!(imgs[1], LogicalImage { raw: None, jpeg: Some(1) });
    // hundredths do not matter
    let metas = vec![
        meta("/a/IMG_1.CR3", FileKind::Cr3, Some(100)),
        meta("/b/IMG_1.JPG", FileKind::Jpeg, Some(199)),
        meta("/c/IMG_1.JPG", FileKind::Jpeg, Some(200)),
    ];
    let imgs = pair(&metas);
    assert_eq!(imgs[0], LogicalImage { raw: Some(0), jpeg: Some(1) });
    assert_eq!(imgs[1], LogicalImage { raw: None, jpeg: Some(2) });
}

#[test]
fn colons_and_backslashes_do_not_keep_files_apart() {
    for folder in ["/media/disk:1/", "C:\\cards\\100EOS\\", "C:/cards/", "C:"] {
        let metas = vec![
            meta(&format!("{folder}IMG_1.CR3"), FileKind::Cr3, Some(100)),
            meta(&format!("{folder}img_1.JPG"), FileKind::Jpeg, Some(120)),
            meta(&format!("{folder}IMG_2.JPG"), FileKind::Jpeg, Some(130)),
        ];
        let imgs = pair(&metas);
        assert_eq!(imgs.len(), 2, "{folder}");
        assert_eq!(imgs[0], LogicalImage { raw: Some(0), jpeg: Some(1) });
        assert_eq!(imgs[1], LogicalImage { raw: None, jpeg: Some(2) });
    }
}

#[test]
fn no_two_pictures_are_led_by_one_file() {
    let metas = vec![
        meta("/a/1.JPG", FileKind::Jpeg, Some(0)),
        meta("/b/1.JPG", FileKind::Jpeg, Some(0)),
        meta("/a/1.CR3", FileKind::Cr3, Some(0)),
        meta("/a/2.CR3", FileKind::Cr3, None),
        meta("/a/2.JPG", FileKind::Jpeg, None),
    ];
    let leads: Vec<usize> = pair(&metas).iter().map(|i| i.primary()).collect();
    assert_eq!(leads, vec![2, 3]);
}
