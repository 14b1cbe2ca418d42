//! EXIF tag extraction over the TIFF walker. Fills FileMeta fields from an
//! IFD0-rooted structure (CR2, JPEG APP1, CR3 CMT1) or a bare Exif IFD
//! (CR3 CMT2, whose first IFD *is* the Exif IFD).

use vstd::prelude::*;
use vstd::utf8::*;
use super::canon;
use super::tiff;
use super::tiff::Tiff;
use crate::meta;
use crate::meta::{AfBox, Exposure, FileMeta, Timestamp};
use crate::path;
use crate::text;

verus! {

pub const TAG_MAKE: u16 = 0x010F;
pub const TAG_MODEL: u16 = 0x0110;
pub const TAG_ORIENTATION: u16 = 0x0112;
pub const TAG_EXIF_IFD: u16 = 0x8769;
pub const TAG_DATETIME_ORIGINAL: u16 = 0x9003;
pub const TAG_SUBSEC_ORIGINAL: u16 = 0x9291;
pub const TAG_EXPOSURE_TIME: u16 = 0x829A;
pub const TAG_F_NUMBER: u16 = 0x829D;
pub const TAG_ISO: u16 = 0x8827;
pub const TAG_FOCAL_LENGTH: u16 = 0x920A;
pub const TAG_PIXEL_X: u16 = 0xA002;
pub const TAG_PIXEL_Y: u16 = 0xA003;
pub const TAG_BODY_SERIAL: u16 = 0xA431;
pub const TAG_LENS_MODEL: u16 = 0xA434;
pub const TAG_MAKER_NOTE: u16 = 0x927C;

/// The last entry of `es` with the given tag.
pub open spec fn last_tag(es: Seq<tiff::EntryView>, tag: u16) -> Option<tiff::EntryView>
    decreases es.len(),
{
    if es.len() == 0 {
        None
    } else if es.last().tag == tag {
        Some(es.last())
    } else {
        last_tag(es.drop_last(), tag)
    }
}

/// Text of the last entry with the given tag; `other` where there is none.
pub open spec fn tag_text(
    t: tiff::TiffView,
    es: Seq<tiff::EntryView>,
    tag: u16,
    other: Option<Seq<char>>,
) -> Option<Seq<char>> {
    match last_tag(es, tag) {
        Some(e) => t.text(e),
        None => other,
    }
}

/// Number in the last entry with the given tag; `other` where there is none.
pub open spec fn tag_number(
    t: tiff::TiffView,
    es: Seq<tiff::EntryView>,
    tag: u16,
    other: Option<u32>,
) -> Option<u32> {
    match last_tag(es, tag) {
        Some(e) => t.unsigned(e),
        None => other,
    }
}

/// Fraction in the last entry with the given tag; `other` where there is
/// none.
pub open spec fn tag_fraction(
    t: tiff::TiffView,
    es: Seq<tiff::EntryView>,
    tag: u16,
    other: Option<(u32, u32)>,
) -> Option<(u32, u32)> {
    match last_tag(es, tag) {
        Some(e) => t.fraction(e),
        None => other,
    }
}

/// A fraction that is a number.
pub open spec fn proper(f: Option<(u32, u32)>) -> Option<(u32, u32)> {
    match f {
        Some((n, d)) if d != 0 => Some((n, d)),
        _ => None,
    }
}

/// `tag_fraction` without fractions over 0.
pub open spec fn tag_proper(
    t: tiff::TiffView,
    es: Seq<tiff::EntryView>,
    tag: u16,
    other: Option<(u32, u32)>,
) -> Option<(u32, u32)> {
    match last_tag(es, tag) {
        Some(e) => proper(t.fraction(e)),
        None => other,
    }
}

/// A dimension that is already known stays; else the first entry with the
/// tag that gives one other than 0 counts.
pub open spec fn first_dimension(
    t: tiff::TiffView,
    es: Seq<tiff::EntryView>,
    tag: u16,
    known: u32,
) -> u32
    decreases es.len(),
{
    if es.len() == 0 {
        known
    } else {
        let d = first_dimension(t, es.drop_last(), tag, known);
        if d == 0 && es.last().tag == tag {
            match t.unsigned(es.last()) {
                Some(v) => v,
                None => 0,
            }
        } else {
            d
        }
    }
}

/// Whether a file was made by a Canon camera.
pub open spec fn by_canon(make: Option<Seq<char>>) -> bool {
    make is Some && text::has_prefix(make->0, "Canon"@)
}

/// The AF area after the Canon MakerNotes among `es`.
pub open spec fn noted_af(
    t: tiff::TiffView,
    es: Seq<tiff::EntryView>,
    make: Option<Seq<char>>,
    known: Option<AfBox>,
) -> Option<AfBox>
    decreases es.len(),
{
    if es.len() == 0 {
        known
    } else {
        let b = noted_af(t, es.drop_last(), make, known);
        match t.offset_of(es.last()) {
            Some(off) if es.last().tag == TAG_MAKER_NOTE && by_canon(make) => canon::af_of_entries(
                t,
                t.entries(off as int),
                b,
            ),
            _ => b,
        }
    }
}

/// What the entries of an Exif directory say of the file, its time aside.
pub open spec fn exif_fields(
    t: tiff::TiffView,
    es: Seq<tiff::EntryView>,
    m: meta::MetaView,
) -> meta::MetaView {
    meta::MetaView {
        exposure: Exposure {
            time: tag_fraction(t, es, TAG_EXPOSURE_TIME, m.exposure.time),
            f_number: tag_proper(t, es, TAG_F_NUMBER, m.exposure.f_number),
            iso: tag_number(t, es, TAG_ISO, m.exposure.iso),
            focal_mm: tag_proper(t, es, TAG_FOCAL_LENGTH, m.exposure.focal_mm),
        },
        width: first_dimension(t, es, TAG_PIXEL_X, m.width),
        height: first_dimension(t, es, TAG_PIXEL_Y, m.height),
        serial: tag_text(t, es, TAG_BODY_SERIAL, m.serial),
        lens: tag_text(t, es, TAG_LENS_MODEL, m.lens),
        af_box: noted_af(t, es, m.make, m.af_box),
        ..m
    }
}

/// The capture time that an Exif directory gives, where it has a date.
pub open spec fn exif_time(
    t: tiff::TiffView,
    es: Seq<tiff::EntryView>,
    known: Option<Timestamp>,
) -> Option<Timestamp> {
    match tag_text(t, es, TAG_DATETIME_ORIGINAL, None) {
        Some(dt) => match meta::exif_centis(
            encode_utf8(dt),
            tag_text(t, es, TAG_SUBSEC_ORIGINAL, None),
        ) {
            Some(c) => Some(Timestamp { unix_centis: c as i64 }),
            None => None,
        },
        None => known,
    }
}

/// `m` with what the Exif directory at `off` says.
pub open spec fn with_exif(t: tiff::TiffView, off: int, m: meta::MetaView) -> meta::MetaView {
    meta::MetaView {
        ts: exif_time(t, t.entries(off), m.ts),
        ..exif_fields(t, t.entries(off), m)
    }
}

/// What the entries of IFD0 say of the file.
pub open spec fn ifd0_fields(
    t: tiff::TiffView,
    es: Seq<tiff::EntryView>,
    m: meta::MetaView,
) -> meta::MetaView {
    meta::MetaView {
        make: tag_text(t, es, TAG_MAKE, m.make),
        model: tag_text(t, es, TAG_MODEL, m.model),
        orientation: match last_tag(es, TAG_ORIENTATION) {
            Some(e) => match t.unsigned(e) {
                Some(v) => v as u16,
                None => 1,
            },
            None => m.orientation,
        },
        ..m
    }
}

/// `m` with what IFD0 and the Exif directory it points to say.
pub open spec fn with_ifd0(t: tiff::TiffView, m: meta::MetaView) -> meta::MetaView {
    let es = t.entries(t.first_ifd as int);
    let m1 = ifd0_fields(t, es, m);
    match tag_number(t, es, TAG_EXIF_IFD, None) {
        Some(off) => with_exif(t, off as int, m1),
        None => m1,
    }
}

/// Read IFD0 tags (make/model/orientation) and, if present, descend into the
/// Exif IFD. Returns the Exif IFD offset if the caller wants more.
pub fn apply_ifd0(t: &Tiff, meta: &mut FileMeta) -> (r: Option<u32>)
    ensures
        final(meta)@ == with_ifd0(t@, old(meta)@),
        r == tag_number(t@, t@.entries(t.first_ifd as int), TAG_EXIF_IFD, None),
{
    let (entries, _) = t.ifd(t.first_ifd);
    let ghost es = t@.entries(t.first_ifd as int);
    let ghost m0 = meta@;
    let mut exif_ifd: Option<u32> = None;
    let mut i: usize = 0;
    assert(es.take(0) =~= Seq::<tiff::EntryView>::empty());
    while i < entries.len()
        invariant
            i <= entries.len(),
            tiff::entry_views(entries@) == es,
            meta@ == ifd0_fields(t@, es.take(i as int), m0),
            exif_ifd == tag_number(t@, es.take(i as int), TAG_EXIF_IFD, None),
        decreases entries.len() - i,
    {
        let e = &entries[i];
        assert(e@ == es[i as int]);
        assert(es.take(i + 1).drop_last() =~= es.take(i as int));
        assert(es.take(i + 1).last() == e@);
        match e.tag {
            TAG_MAKE => {
                meta.make = t.ascii(e);
            },
            TAG_MODEL => {
                meta.model = t.ascii(e);
            },
            TAG_ORIENTATION => {
                let v: u32 = match t.uint(e) {
                    Some(v) => v,
                    None => 1,
                };
                meta.orientation = v as u16;
            },
            TAG_EXIF_IFD => {
                exif_ifd = t.uint(e);
            },
            _ => {},
        }
        i += 1;
    }
    assert(es.take(es.len() as int) =~= es);
    if let Some(off) = exif_ifd {
        apply_exif_ifd_at(t, off, meta);
    }
    exif_ifd
}

/// Apply Exif-IFD tags when the TIFF's first IFD is itself the Exif IFD
/// (CR3 CMT2).
pub fn apply_exif_ifd(t: &Tiff, meta: &mut FileMeta)
    ensures
        final(meta)@ == with_exif(t@, t.first_ifd as int, old(meta)@),
{
    apply_exif_ifd_at(t, t.first_ifd, meta);
}

/// The fraction of an entry, if it is a number.
fn proper_rational(t: &Tiff, e: &tiff::IfdEntry) -> (r: Option<(u32, u32)>)
    ensures
        r == proper(t@.fraction(e@)),
{
    match t.rational(e) {
        Some((n, d)) => {
            if d != 0 {
                Some((n, d))
            } else {
                None
            }
        },
        None => None,
    }
}

/// Whether the file was made by a Canon camera.
fn made_by_canon(meta: &FileMeta) -> (r: bool)
    ensures
        r == by_canon(meta@.make),
{
    match &meta.make {
        Some(m) => text::starts_with(m.as_str(), "Canon"),
        None => false,
    }
}

#[verifier::rlimit(40)]
fn apply_exif_ifd_at(t: &Tiff, offset: u32, meta: &mut FileMeta)
    ensures
        final(meta)@ == with_exif(t@, offset as int, old(meta)@),
{
    let (entries, _) = t.ifd(offset);
    let ghost es = t@.entries(offset as int);
    let ghost m0 = meta@;
    let mut dt: Option<String> = None;
    let mut subsec: Option<String> = None;
    let mut i: usize = 0;
    assert(es.take(0) =~= Seq::<tiff::EntryView>::empty());
    while i < entries.len()
        invariant
            i <= entries.len(),
            tiff::entry_views(entries@) == es,
            meta@ == exif_fields(t@, es.take(i as int), m0),
            path::opt_view(dt) == tag_text(t@, es.take(i as int), TAG_DATETIME_ORIGINAL, None),
            path::opt_view(subsec) == tag_text(t@, es.take(i as int), TAG_SUBSEC_ORIGINAL, None),
        decreases entries.len() - i,
    {
        let e = &entries[i];
        assert(e@ == es[i as int]);
        assert(es.take(i + 1).drop_last() =~= es.take(i as int));
        assert(es.take(i + 1).last() == e@);
        match e.tag {
            TAG_DATETIME_ORIGINAL => {
                dt = t.ascii(e);
            },
            TAG_SUBSEC_ORIGINAL => {
                subsec = t.ascii(e);
            },
            TAG_EXPOSURE_TIME => {
                meta.exposure.time = t.rational(e);
            },
            TAG_F_NUMBER => {
                meta.exposure.f_number = proper_rational(t, e);
            },
            TAG_ISO => {
                meta.exposure.iso = t.uint(e);
            },
            TAG_FOCAL_LENGTH => {
                meta.exposure.focal_mm = proper_rational(t, e);
            },
            TAG_PIXEL_X => {
                if meta.width == 0 {
                    meta.width = match t.uint(e) {
                        Some(v) => v,
                        None => 0,
                    };
                }
            },
            TAG_PIXEL_Y => {
                if meta.height == 0 {
                    meta.height = match t.uint(e) {
                        Some(v) => v,
                        None => 0,
                    };
                }
            },
            TAG_BODY_SERIAL => {
                meta.serial = t.ascii(e);
            },
            TAG_LENS_MODEL => {
                meta.lens = t.ascii(e);
            },
            // Canon's MakerNote is a bare IFD whose offsets share this TIFF.
            TAG_MAKER_NOTE => {
                if made_by_canon(meta) {
                    if let Some(off) = t.value_offset(e) {
                        canon::apply_makernote(t, off, meta);
                    }
                }
            },
            _ => {},
        }
        i += 1;
    }
    assert(es.take(es.len() as int) =~= es);
    if let Some(d) = &dt {
        let ss: Option<&str> = match &subsec {
            Some(s) => Some(s.as_str()),
            None => None,
        };
        meta.ts = Timestamp::from_exif(d.as_str(), ss);
    }
}

/// Of several entries with a tag the last one counts.
pub proof fn the_last_entry_of_a_tag_counts(es: Seq<tiff::EntryView>, tag: u16, i: int)
    requires
        0 <= i < es.len(),
        es[i].tag == tag,
        forall|j: int| i < j < es.len() ==> (#[trigger] es[j]).tag != tag,
    ensures
        last_tag(es, tag) == Some(es[i]),
    decreases es.len(),
{
    if i < es.len() - 1 {
        assert(es[es.len() - 1].tag != tag);
        let rest = es.drop_last();
        assert forall|j: int| i < j < rest.len() implies (#[trigger] rest[j]).tag != tag by {
            assert(rest[j] == es[j]);
        }
        the_last_entry_of_a_tag_counts(rest, tag, i);
    }
}

proof fn lemma_no_tag(es: Seq<tiff::EntryView>, tag: u16)
    requires
        forall|j: int| 0 <= j < es.len() ==> (#[trigger] es[j]).tag != tag,
    ensures
        last_tag(es, tag) is None,
    decreases es.len(),
{
    if es.len() > 0 {
        assert(es[es.len() - 1].tag != tag);
        let rest = es.drop_last();
        assert forall|j: int| 0 <= j < rest.len() implies (#[trigger] rest[j]).tag != tag by {
            assert(rest[j] == es[j]);
        }
        lemma_no_tag(rest, tag);
    }
}

/// An entry of an Exif directory, the last with its tag, fills the field that
/// the EXIF standard gives the tag to.
pub proof fn exif_tags_fill_their_fields(
    t: tiff::TiffView,
    es: Seq<tiff::EntryView>,
    m: meta::MetaView,
    i: int,
)
    requires
        0 <= i < es.len(),
        forall|j: int| i < j < es.len() ==> (#[trigger] es[j]).tag != es[i].tag,
    ensures
        ({
            let f = exif_fields(t, es, m);
            let e = es[i];
            &&& e.tag == 0x829A ==> f.exposure.time == t.fraction(e)
            &&& e.tag == 0x829D ==> match t.fraction(e) {
                Some((n, d)) => f.exposure.f_number == if d != 0 {
                    Some((n, d))
                } else {
                    None
                },
                None => f.exposure.f_number is None,
            }
            &&& e.tag == 0x8827 ==> f.exposure.iso == t.unsigned(e)
            &&& e.tag == 0x920A ==> match t.fraction(e) {
                Some((n, d)) => f.exposure.focal_mm == if d != 0 {
                    Some((n, d))
                } else {
                    None
                },
                None => f.exposure.focal_mm is None,
            }
            &&& e.tag == 0xA431 ==> f.serial == t.text(e)
            &&& e.tag == 0xA434 ==> f.lens == t.text(e)
        }),
{
    the_last_entry_of_a_tag_counts(es, es[i].tag, i);
}

/// What an Exif directory does not speak of stays as it was.
pub proof fn absent_tags_change_nothing(
    t: tiff::TiffView,
    es: Seq<tiff::EntryView>,
    m: meta::MetaView,
    tag: u16,
)
    requires
        forall|j: int| 0 <= j < es.len() ==> (#[trigger] es[j]).tag != tag,
    ensures
        ({
            let f = exif_fields(t, es, m);
            &&& tag == 0x829A ==> f.exposure.time == m.exposure.time
            &&& tag == 0x829D ==> f.exposure.f_number == m.exposure.f_number
            &&& tag == 0x8827 ==> f.exposure.iso == m.exposure.iso
            &&& tag == 0x920A ==> f.exposure.focal_mm == m.exposure.focal_mm
            &&& tag == 0xA431 ==> f.serial == m.serial
            &&& tag == 0xA434 ==> f.lens == m.lens
            &&& tag == 0x9003 ==> exif_time(t, es, m.ts) == m.ts
            &&& f.make == m.make && f.model == m.model && f.orientation == m.orientation
            &&& f.path == m.path && f.size == m.size && f.kind == m.kind
            &&& f.thumb == m.thumb && f.preview == m.preview && f.fullsize == m.fullsize
            &&& f.content_key == m.content_key && f.file_number == m.file_number
        }),
{
    lemma_no_tag(es, tag);
}

/// The capture time is that of the last original date (tag 0x9003), with the
/// fraction of the last original sub-second (0x9291) where there is one.
pub proof fn capture_time_is_the_original_date(
    t: tiff::TiffView,
    es: Seq<tiff::EntryView>,
    known: Option<Timestamp>,
    i: int,
    j: int,
)
    requires
        0 <= i < es.len(),
        es[i].tag == 0x9003,
        forall|k: int| i < k < es.len() ==> (#[trigger] es[k]).tag != 0x9003,
        t.text(es[i]) is Some,
        j == -1 || (0 <= j < es.len() && es[j].tag == 0x9291),
        forall|k: int| j < k < es.len() ==> (#[trigger] es[k]).tag != 0x9291,
    ensures
        ({
            let part = if j == -1 {
                None
            } else {
                t.text(es[j])
            };
            match meta::exif_centis(encode_utf8(t.text(es[i])->0), part) {
                Some(c) => exif_time(t, es, known) == Some(Timestamp { unix_centis: c as i64 }),
                None => exif_time(t, es, known) is None,
            }
        }),
{
    the_last_entry_of_a_tag_counts(es, 0x9003, i);
    if j == -1 {
        lemma_no_tag(es, 0x9291);
    } else {
        the_last_entry_of_a_tag_counts(es, 0x9291, j);
    }
}

/// An entry of the first directory, the last with its tag, gives the maker,
/// the model or the orientation.
pub proof fn first_directory_names_the_camera(
    t: tiff::TiffView,
    es: Seq<tiff::EntryView>,
    m: meta::MetaView,
    i: int,
)
    requires
        0 <= i < es.len(),
        forall|j: int| i < j < es.len() ==> (#[trigger] es[j]).tag != es[i].tag,
    ensures
        ({
            let f = ifd0_fields(t, es, m);
            let e = es[i];
            &&& e.tag == 0x010F ==> f.make == t.text(e)
            &&& e.tag == 0x0110 ==> f.model == t.text(e)
            &&& e.tag == 0x0112 && t.unsigned(e) is Some && t.unsigned(e)->0 <= 0xffff
                ==> f.orientation == t.unsigned(e)->0
            &&& e.tag == 0x0112 && t.unsigned(e) is None ==> f.orientation == 1
            &&& f.serial == m.serial && f.lens == m.lens && f.ts == m.ts
            &&& f.exposure == m.exposure && f.width == m.width && f.height == m.height
        }),
{
    the_last_entry_of_a_tag_counts(es, es[i].tag, i);
}

/// Pixel dimensions come from the first entries (0xA002 and 0xA003) that give
/// one, where none is known yet.
pub proof fn known_dimensions_stay(
    t: tiff::TiffView,
    es: Seq<tiff::EntryView>,
    m: meta::MetaView,
)
    ensures
        m.width != 0 ==> exif_fields(t, es, m).width == m.width,
        m.height != 0 ==> exif_fields(t, es, m).height == m.height,
        es.len() == 1 && es[0].tag == 0xA002 && m.width == 0 && t.unsigned(es[0]) is Some
            ==> exif_fields(t, es, m).width == t.unsigned(es[0])->0 && exif_fields(t, es, m).height
            == m.height,
        es.len() == 1 && es[0].tag == 0xA003 && m.height == 0 && t.unsigned(es[0]) is Some
            ==> exif_fields(t, es, m).height == t.unsigned(es[0])->0 && exif_fields(t, es, m).width
            == m.width,
{
    lemma_known_dimension(t, es, TAG_PIXEL_X, m.width);
    lemma_known_dimension(t, es, TAG_PIXEL_Y, m.height);
    if es.len() == 1 {
        reveal_with_fuel(first_dimension, 2);
    }
}

proof fn lemma_known_dimension(
    t: tiff::TiffView,
    es: Seq<tiff::EntryView>,
    tag: u16,
    known: u32,
)
    ensures
        known != 0 ==> first_dimension(t, es, tag, known) == known,
    decreases es.len(),
{
    if es.len() > 0 {
        lemma_known_dimension(t, es.drop_last(), tag, known);
    }
}

/// The Exif directory is the one that entry 0x8769 of the first directory
/// points to; where there is none, only the first one is read.
pub proof fn the_exif_directory_is_followed(t: tiff::TiffView, m: meta::MetaView, i: int)
    requires
        0 <= i < t.entries(t.first_ifd as int).len(),
        t.entries(t.first_ifd as int)[i].tag == 0x8769,
        forall|j: int|
            i < j < t.entries(t.first_ifd as int).len() ==> (#[trigger] t.entries(
                t.first_ifd as int,
            )[j]).tag != 0x8769,
    ensures
        ({
            let es = t.entries(t.first_ifd as int);
            let first = ifd0_fields(t, es, m);
            match t.unsigned(es[i]) {
                Some(off) => {
                    &&& with_ifd0(t, m).ts == exif_time(t, t.entries(off as int), m.ts)
                    &&& with_ifd0(t, m).exposure == exif_fields(
                        t,
                        t.entries(off as int),
                        first,
                    ).exposure
                    &&& with_ifd0(t, m).make == first.make
                    &&& with_ifd0(t, m).orientation == first.orientation
                },
                None => with_ifd0(t, m) == first,
            }
        }),
{
    the_last_entry_of_a_tag_counts(t.entries(t.first_ifd as int), 0x8769, i);
}

/// The maker's notes of a camera that is not Canon's say nothing.
pub proof fn only_canon_notes_are_read(
    t: tiff::TiffView,
    es: Seq<tiff::EntryView>,
    m: meta::MetaView,
)
    requires
        m.make is None || m.make->0.len() < 5 || m.make->0.take(5) != seq!['C', 'a', 'n', 'o', 'n'],
    ensures
        exif_fields(t, es, m).af_box == m.af_box,
{
    reveal_strlit("Canon");
    assert("Canon"@ =~= seq!['C', 'a', 'n', 'o', 'n']);
    lemma_no_notes(t, es, m.make, m.af_box);
}

proof fn lemma_no_notes(
    t: tiff::TiffView,
    es: Seq<tiff::EntryView>,
    make: Option<Seq<char>>,
    known: Option<AfBox>,
)
    requires
        !by_canon(make),
    ensures
        noted_af(t, es, make, known) == known,
    decreases es.len(),
{
    if es.len() > 0 {
        lemma_no_notes(t, es.drop_last(), make, known);
    }
}

} // verus!
