use fd_core::cache::file_key;
use fd_core::formats::Source;
use fd_core::meta::{FileKind, FileMeta};
use fd_core::output::{copy_name, numbered_name, sidecar_path, xmp_sidecar_content};

#[test]
fn sidecar_is_valid_xmp() {
    let s = xmp_sidecar_content(5, Some("Red"));
    assert!(s.contains("xmp:Rating=\"5\""));
    assert!(s.contains("xmp:Label=\"Red\""));
    assert!(s.starts_with("<x:xmpmeta"));
}

#[test]
fn sidecar_without_a_label() {
    assert_eq!(
        xmp_sidecar_content(3, None),
        "<x:xmpmeta xmlns:x=\"adobe:ns:meta/\">\n <rdf:RDF xmlns:rdf=\"http://www.w3.org/1999/02/22-rdf-syntax-ns#\">\n  <rdf:Description rdf:about=\"\"\n   xmlns:xmp=\"http://ns.adobe.com/xap/1.0/\"\n   xmp:Rating=\"3\"/>\n </rdf:RDF>\n</x:xmpmeta>\n"
    );
}

#[test]
fn sidecars_sit_next_to_the_image() {
    assert_eq!(sidecar_path("/cards/a.b/IMG_1.CR3"), "/cards/a.b/IMG_1.xmp");
    assert_eq!(sidecar_path("IMG_1"), "IMG_1.xmp");
    assert_eq!(sidecar_path("/x/.hidden"), "/x/.hidden.xmp");
}

#[test]
fn copies_are_numbered_apart() {
    assert_eq!(copy_name("/cards/IMG_1.CR3", 0), "IMG_1.CR3");
    assert_eq!(copy_name("/cards/IMG_1.CR3", 1), "IMG_1_1.CR3");
    assert_eq!(copy_name("/cards/IMG_1.CR3", 12), "IMG_1_12.CR3");
    assert_eq!(copy_name("/cards/noext", 2), "noext_2");
    assert_eq!(numbered_name("a.b.c", "a.b", Some("c"), 3), "a.b_3.c");
}

#[test]
fn full_source_gets_its_own_key() {
    let mut m = FileMeta::new("x.jpg".to_string(), 0x1234, FileKind::Jpeg);
    m.content_key = 0xabc;
    assert_eq!(file_key(&m, Source::Embedded), "0000000000000abc-1234-s2");
    assert_eq!(file_key(&m, Source::Full), "0000000000000abc-1234-full-s2");
}

#[test]
fn different_contents_have_different_keys() {
    let mut a = FileMeta::new("x.jpg".to_string(), 0x1234, FileKind::Jpeg);
    a.content_key = u64::MAX;
    let mut b = FileMeta::new("y.jpg".to_string(), 0x1234, FileKind::Jpeg);
    b.content_key = u64::MAX - 1;
    assert_ne!(file_key(&a, Source::Full), file_key(&b, Source::Full));
    assert_eq!(file_key(&a, Source::Embedded), "ffffffffffffffff-1234-s2");
    b.content_key = u64::MAX;
    b.size = 0x1235;
    assert_ne!(file_key(&a, Source::Full), file_key(&b, Source::Full));
}

#[test]
fn sidecars_never_take_the_place_of_the_image() {
    assert_eq!(sidecar_path("C:\\cards\\IMG_1.CR3"), "C:\\cards\\IMG_1.xmp");
    assert_eq!(sidecar_path("C:IMG_1.CR3"), "C:IMG_1.xmp");
    assert_eq!(sidecar_path("/media/disk:1/a.b/IMG_1.JPG"), "/media/disk:1/a.b/IMG_1.xmp");
    assert_eq!(sidecar_path("/media/disk:1/IMG_1"), "/media/disk:1/IMG_1.xmp");
    assert_eq!(sidecar_path("C:\\cards\\IMG_1"), "C:\\cards\\IMG_1.xmp");
    for p in ["C:\\a.JPG", "a:b", "/x:y/z", "..a.b", "x\\y.c:d"] {
        assert_ne!(sidecar_path(p), p);
    }
}

#[test]
fn copies_keep_the_name_behind_a_colon_in_a_folder() {
    assert_eq!(copy_name("/media/disk:1/IMG_1.CR3", 0), "IMG_1.CR3");
    assert_eq!(copy_name("C:/cards/IMG_1.CR3", 2), "IMG_1_2.CR3");
    assert!(copy_name("C:\\cards\\IMG_1.CR3", 3).ends_with("IMG_1_3.CR3"));
}
