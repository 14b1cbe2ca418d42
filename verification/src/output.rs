//! What is written for a picked image: XMP sidecars and the names of copies.
//! Originals are never modified; sidecars sit next to the image file.

use vstd::prelude::*;
use crate::path;
use crate::text;

verus! {

/// Text of a sidecar before the rating.
pub open spec fn xmp_head() -> Seq<char> {
    "<x:xmpmeta xmlns:x=\"adobe:ns:meta/\">\n <rdf:RDF xmlns:rdf=\"http://www.w3.org/1999/02/22-rdf-syntax-ns#\">\n  <rdf:Description rdf:about=\"\"\n   xmlns:xmp=\"http://ns.adobe.com/xap/1.0/\"\n   xmp:Rating=\""@
}

/// Text of a sidecar after the rating and label.
pub open spec fn xmp_foot() -> Seq<char> {
    "/>\n </rdf:RDF>\n</x:xmpmeta>\n"@
}

/// The label attribute of a sidecar, where there is a label.
pub open spec fn xmp_label(label: Option<Seq<char>>) -> Seq<char> {
    match label {
        Some(l) => "\n   xmp:Label=\""@ + l + "\""@,
        None => Seq::empty(),
    }
}

/// Text of a sidecar.
pub open spec fn xmp_text(rating: u8, label: Option<Seq<char>>) -> Seq<char> {
    xmp_head() + text::decimal(rating as int) + "\""@ + xmp_label(label) + xmp_foot()
}

/// Lightroom/Bridge-compatible minimal sidecar.
pub fn xmp_sidecar_content(rating: u8, label: Option<&str>) -> (r: String)
    ensures
        r@ == xmp_text(
            rating,
            match label {
                Some(l) => Some(l@),
                None => None,
            },
        ),
{
    let mut s = text::copy_of(
        "<x:xmpmeta xmlns:x=\"adobe:ns:meta/\">\n <rdf:RDF xmlns:rdf=\"http://www.w3.org/1999/02/22-rdf-syntax-ns#\">\n  <rdf:Description rdf:about=\"\"\n   xmlns:xmp=\"http://ns.adobe.com/xap/1.0/\"\n   xmp:Rating=\"",
    );
    text::push_decimal(&mut s, rating as u64);
    s.append("\"");
    let ghost before = s@;
    match label {
        Some(l) => {
            s.append("\n   xmp:Label=\"");
            s.append(l);
            s.append("\"");
            assert(s@ =~= before + xmp_label(Some(l@)));
        },
        None => {
            assert(s@ =~= before + xmp_label(None));
        },
    }
    s.append("/>\n </rdf:RDF>\n</x:xmpmeta>\n");
    s
}

/// Whether `sidecar` is the path of the sidecar of an image: its extension
/// replaced by `xmp`, as the platform finds it, or as all of them do.
pub open spec fn is_sidecar(image: Seq<char>, sidecar: Seq<char>) -> bool {
    &&& path::renamable(image) ==> path::is_renamed(image, "xmp"@, sidecar)
    &&& path::readable(image) && path::shared_stem(image) != seq!['.'] ==> sidecar
        == path::replaced_extension(image, "xmp"@)
}

/// Path of the sidecar of an image: its extension replaced by `xmp`.
pub fn sidecar_path(image: &str) -> (r: String)
    ensures
        is_sidecar(image@, r@),
{
    proof {
        reveal_strlit("xmp");
        if path::readable(image@) && path::shared_stem(image@) != seq!['.'] {
            path::lemma_readable(image@);
            path::lemma_renamable(image@);
        }
    }
    path::with_extension(image, "xmp")
}

/// An original is never written over: no sidecar has the path of its image,
/// unless that is a sidecar itself.
pub proof fn sidecars_spare_the_image(image: Seq<char>, sidecar: Seq<char>)
    requires
        path::renamable(image),
        is_sidecar(image, sidecar),
        !".xmp"@.is_suffix_of(image),
    ensures
        sidecar != image,
{
    reveal_strlit("xmp");
    reveal_strlit(".xmp");
    assert(seq!['.'] + "xmp"@ =~= ".xmp"@);
    path::replacing_moves_away(image, "xmp"@, sidecar);
}

/// Name of the copy of a file: its own on the first try, then with a number
/// behind the stem.
pub open spec fn copy_text(
    name: Seq<char>,
    stem: Seq<char>,
    ext: Option<Seq<char>>,
    n: int,
) -> Seq<char> {
    if n == 0 {
        name
    } else {
        stem + "_"@ + text::decimal(n) + dotted(ext)
    }
}

/// An extension with its dot.
pub open spec fn dotted(ext: Option<Seq<char>>) -> Seq<char> {
    match ext {
        Some(e) => "."@ + e,
        None => Seq::empty(),
    }
}

/// The `n`th name to try for a copy of a file of the given name, stem and
/// extension: collisions get a numeric suffix.
pub fn numbered_name(name: &str, stem: &str, ext: Option<&str>, n: u64) -> (r: String)
    ensures
        r@ == copy_text(
            name@,
            stem@,
            match ext {
                Some(e) => Some(e@),
                None => None,
            },
            n as int,
        ),
{
    if n == 0 {
        return text::copy_of(name);
    }
    let mut s = text::copy_of(stem);
    s.append("_");
    text::push_decimal(&mut s, n);
    let ghost before = s@;
    match ext {
        Some(e) => {
            s.append(".");
            s.append(e);
            assert(s@ =~= before + ("."@ + e@));
        },
        None => {
            assert(s@ =~= before + Seq::<char>::empty());
        },
    }
    s
}

/// Whether `name` is the `n`th name to try for a copy of the file at `image`,
/// whose own name starts where some platform finds it.
pub open spec fn is_copy_name(image: Seq<char>, n: int, name: Seq<char>) -> bool {
    exists|k: int| #[trigger]
        path::may_start(image, k) && name == copy_text(
            image.skip(k),
            path::name_stem(image.skip(k)),
            path::shared_extension(image),
            n,
        )
}

/// The `n`th name to try for a copy of the file at `image`.
pub fn copy_name(image: &str, n: u64) -> (r: String)
    ensures
        path::plain_path(image@) ==> r@ == copy_text(
            path::base_name(image@),
            path::stem_of(image@),
            path::extension_of(image@),
            n as int,
        ),
        path::readable(image@) ==> is_copy_name(image@, n as int, r@),
{
    let ghost p = image@;
    proof {
        if path::readable(p) {
            path::lemma_readable(p);
        }
        if path::plain_path(p) {
            path::lemma_plain(p);
        }
    }
    let name = match path::file_name(image) {
        Some(s) => s,
        None => String::new(),
    };
    let stem = match path::file_stem(image) {
        Some(s) => s,
        None => String::new(),
    };
    let ext = path::extension(image);
    let r = match &ext {
        Some(e) => numbered_name(name.as_str(), stem.as_str(), Some(e.as_str()), n),
        None => numbered_name(name.as_str(), stem.as_str(), None, n),
    };
    proof {
        if path::readable(p) {
            if n == 0 {
                let k = choose|k: int| #[trigger] path::may_start(p, k) && name@ == p.skip(k);
                assert(path::may_start(p, k) && r@ == p.skip(k));
            } else {
                let k = choose|k: int| #[trigger]
                    path::may_start(p, k) && stem@ == path::name_stem(p.skip(k));
                assert(path::may_start(p, k) && path::opt_view(ext) == path::shared_extension(p));
            }
        }
    }
    r
}

/// No numbered name is tried twice, so that a free one is found after as many
/// tries as there are files.
pub proof fn numbered_names_differ(
    name: Seq<char>,
    stem: Seq<char>,
    ext: Option<Seq<char>>,
    m: int,
    n: int,
)
    requires
        1 <= m,
        1 <= n,
        copy_text(name, stem, ext, m) == copy_text(name, stem, ext, n),
    ensures
        m == n,
{
    let (a, b) = (copy_text(name, stem, ext, m), copy_text(name, stem, ext, n));
    let (d, e) = (text::decimal(m), text::decimal(n));
    reveal_strlit("_");
    assert(a.len() == stem.len() + 1 + d.len() + dotted(ext).len());
    assert(b.len() == stem.len() + 1 + e.len() + dotted(ext).len());
    let lo = stem.len() as int + 1;
    assert(a.subrange(lo, lo + d.len() as int) =~= d);
    assert(b.subrange(lo, lo + e.len() as int) =~= e);
    text::digits_read_back(m, 10);
    text::digits_read_back(n, 10);
}

/// The rating of a sidecar can be read off it: the digits between the end of
/// its head and the next quote.
pub proof fn ratings_can_be_read_off(r: u8, label: Option<Seq<char>>)
    ensures
        ({
            let s = xmp_text(r, label);
            let (a, n) = (xmp_head().len() as int, text::decimal(r as int).len() as int);
            &&& s.subrange(0, a) == xmp_head()
            &&& a + n < s.len() && s[a + n] == '"'
            &&& text::all_digits(s.subrange(a, a + n))
            &&& text::digits_value(s.subrange(a, a + n)) == r
            &&& forall|i: int| a <= i < a + n ==> #[trigger] s[i] != '"'
        }),
{
    let s = xmp_text(r, label);
    let d = text::decimal(r as int);
    let (a, n) = (xmp_head().len() as int, d.len() as int);
    reveal_strlit("\"");
    text::numbers_read_as_written(r as int);
    assert(s.subrange(0, a) =~= xmp_head());
    assert(s.subrange(a, a + n) =~= d);
    assert(s[a + n] == "\""@[0]);
    assert forall|i: int| a <= i < a + n implies #[trigger] s[i] != '"' by {
        assert(s[i] == d[i - a]);
        assert(text::is_digit(d[i - a]));
    }
}

/// The first name to try for a copy is the file's own; the others start with
/// its stem and an underscore, and keep its extension.
pub proof fn copies_keep_their_names(
    name: Seq<char>,
    stem: Seq<char>,
    ext: Option<Seq<char>>,
    n: int,
)
    requires
        n > 0,
    ensures
        copy_text(name, stem, ext, 0) == name,
        ({
            let c = copy_text(name, stem, ext, n);
            let d = text::decimal(n);
            let (a, b) = (stem.len() as int, stem.len() + 1 + d.len() as int);
            &&& c.take(a) == stem
            &&& c[a] == '_'
            &&& c.subrange(a + 1, b) == d
            &&& ext is None ==> c.len() == b
            &&& ext matches Some(e) ==> c.len() == b + 1 + e.len() && c[b] == '.' && c.skip(b + 1)
                == e
        }),
{
    reveal_strlit("_");
    reveal_strlit(".");
    let c = copy_text(name, stem, ext, n);
    let d = text::decimal(n);
    let (a, b) = (stem.len() as int, stem.len() + 1 + d.len() as int);
    assert(c.take(a) =~= stem);
    assert(c.subrange(a + 1, b) =~= d);
    if let Some(e) = ext {
        assert(c.skip(b + 1) =~= e);
    }
}

} // verus!
