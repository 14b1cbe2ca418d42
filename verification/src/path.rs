//! File paths, held as strings.
//!
//! What a path's parts are depends on the platform: a backslash separates
//! components on one system and is an ordinary character on another, and a
//! colon may end a drive. A path has a few readings at most, and the contracts
//! here say what holds under each of them; where all readings agree, as for
//! plain paths, they fix the outcome.

use vstd::prelude::*;

verus! {

/// Index of the last `c` in `s`, or -1.
pub open spec fn last_index(s: Seq<char>, c: char) -> int
    decreases s.len(),
{
    if s.len() == 0 {
        -1
    } else if s.last() == c {
        s.len() - 1
    } else {
        last_index(s.drop_last(), c)
    }
}

/// The last `c` is one, and none follows it.
pub proof fn lemma_last_index(s: Seq<char>, c: char)
    ensures
        -1 <= last_index(s, c) < s.len(),
        last_index(s, c) >= 0 ==> s[last_index(s, c)] == c,
        forall|i: int| last_index(s, c) < i < s.len() ==> #[trigger] s[i] != c,
    decreases s.len(),
{
    if s.len() > 0 && s.last() != c {
        lemma_last_index(s.drop_last(), c);
        assert forall|i: int| last_index(s, c) < i < s.len() implies #[trigger] s[i] != c by {
            if i < s.len() - 1 {
                assert(s.drop_last()[i] == s[i]);
            }
        }
    }
}

/// The last `c` of what follows the first `k` characters.
proof fn lemma_last_skip(s: Seq<char>, k: int, c: char)
    requires
        0 <= k <= s.len(),
    ensures
        last_index(s.skip(k), c) == (if last_index(s, c) >= k {
            last_index(s, c) - k
        } else {
            -1
        }),
{
    lemma_last_index(s, c);
    lemma_last_index(s.skip(k), c);
    let (a, b) = (last_index(s, c), last_index(s.skip(k), c));
    if b >= 0 {
        assert(s.skip(k)[b] == s[k + b]);
    }
    if a >= k {
        assert(s.skip(k)[a - k] == s[a]);
    }
}

/// What follows the last slash of `p`.
pub open spec fn base_name(p: Seq<char>) -> Seq<char> {
    p.skip(last_index(p, '/') + 1)
}

/// Whether `c` separates components on some platform.
pub open spec fn is_separator(c: char) -> bool {
    c == '/' || c == '\\'
}

/// Whether two separators stand at the start, which on some platform open a
/// network name.
pub open spec fn double_start(p: Seq<char>) -> bool {
    p.len() >= 2 && is_separator(p[0]) && is_separator(p[1])
}

/// Whether `s` has neither backslash nor colon.
pub open spec fn plain_chars(s: Seq<char>) -> bool {
    forall|i: int| 0 <= i < s.len() ==> #[trigger] s[i] != '\\' && s[i] != ':'
}

/// A path whose last component every platform finds in the same way: it
/// follows the last slash, has no backslash or colon, and names a file.
pub open spec fn plain_path(p: Seq<char>) -> bool {
    &&& !double_start(p)
    &&& plain_chars(base_name(p))
    &&& base_name(p).len() > 0
    &&& base_name(p) != seq!['.']
    &&& base_name(p) != seq!['.', '.']
}

/// Index of the dot that separates a file name's stem from its extension, or
/// the name's length where it has no extension.
pub open spec fn stem_len(name: Seq<char>) -> int {
    if last_index(name, '.') <= 0 {
        name.len() as int
    } else {
        last_index(name, '.')
    }
}

/// A file name without its extension.
pub open spec fn name_stem(name: Seq<char>) -> Seq<char> {
    name.take(stem_len(name))
}

/// The extension of a file name, if it has one.
pub open spec fn name_extension(name: Seq<char>) -> Option<Seq<char>> {
    if stem_len(name) == name.len() {
        None
    } else {
        Some(name.skip(stem_len(name) + 1))
    }
}

/// The file name of a plain path without its extension.
pub open spec fn stem_of(p: Seq<char>) -> Seq<char> {
    name_stem(base_name(p))
}

/// The extension of the file name of a plain path, if it has one.
pub open spec fn extension_of(p: Seq<char>) -> Option<Seq<char>> {
    name_extension(base_name(p))
}

/// Index of the last slash or backslash, or -1.
pub open spec fn last_separator(p: Seq<char>) -> int {
    let (a, b) = (last_index(p, '/'), last_index(p, '\\'));
    if a >= b {
        a
    } else {
        b
    }
}

/// Index of the last slash, backslash or colon, or -1.
pub open spec fn last_break(p: Seq<char>) -> int {
    let (a, b) = (last_separator(p), last_index(p, ':'));
    if a >= b {
        a
    } else {
        b
    }
}

/// What follows the last slash, backslash or colon of `p`.
pub open spec fn tail(p: Seq<char>) -> Seq<char> {
    p.skip(last_break(p) + 1)
}

/// Whether a platform may find the file name of `p` to start at `k`: after the
/// last slash, after the last separator, or after a drive.
pub open spec fn may_start(p: Seq<char>, k: int) -> bool {
    ||| k == last_index(p, '/') + 1
    ||| k == last_separator(p) + 1
    ||| k == 2 && p.len() >= 2 && p[1] == ':' && last_separator(p) < 0
}

/// A path in which every platform finds a file name.
pub open spec fn named(p: Seq<char>) -> bool {
    &&& !double_start(p)
    &&& tail(p).len() > 0
    &&& tail(p) != seq!['.']
    &&& tail(p) != seq!['.', '.']
}

/// Whether some platform finds the file name `name` in `p`.
pub open spec fn is_name(p: Seq<char>, name: Seq<char>) -> bool {
    exists|k: int| #[trigger] may_start(p, k) && name == p.skip(k)
}

/// Whether some platform finds the stem `stem` in `p`.
pub open spec fn is_stem(p: Seq<char>, stem: Seq<char>) -> bool {
    exists|k: int| #[trigger] may_start(p, k) && stem == name_stem(p.skip(k))
}

/// Whether some platform finds the extension `ext` in `p`.
pub open spec fn is_extension(p: Seq<char>, ext: Option<Seq<char>>) -> bool {
    exists|k: int| #[trigger] may_start(p, k) && ext == name_extension(p.skip(k))
}

/// Whether `r` is `p` with the extension that some platform finds replaced by
/// `ext`, or with `ext` added where it finds none.
pub open spec fn is_renamed(p: Seq<char>, ext: Seq<char>, r: Seq<char>) -> bool {
    exists|k: int| #[trigger]
        may_start(p, k) && r == p.take(k + stem_len(p.skip(k))) + seq!['.'] + ext
}

/// A path whose extension can be replaced: its stem is more than a dot.
pub open spec fn renamable(p: Seq<char>) -> bool {
    named(p) && forall|k: int| #[trigger] may_start(p, k) ==> name_stem(p.skip(k)) != seq!['.']
}

/// Whether `p` has no dot.
pub open spec fn undotted(p: Seq<char>) -> bool {
    forall|i: int| 0 <= i < p.len() ==> #[trigger] p[i] != '.'
}

/// A path whose tail has a dot that is not its first character. Every platform
/// finds its extension after the last dot, whatever it takes the file name to
/// start with.
pub open spec fn dotted(p: Seq<char>) -> bool {
    !double_start(p) && last_index(tail(p), '.') > 0 && tail(p) != seq!['.', '.']
}

/// A path with a file name and no dot after the last slash.
pub open spec fn bare(p: Seq<char>) -> bool {
    named(p) && undotted(base_name(p))
}

/// Whether every platform finds the same extension in `p`, and stems with the
/// same end.
pub open spec fn readable(p: Seq<char>) -> bool {
    plain_path(p) || dotted(p) || bare(p)
}

/// Whether every platform finds the same extension in `p`, or none.
pub open spec fn typed(p: Seq<char>) -> bool {
    readable(p) || undotted(p)
}

/// Where the stem of a readable path ends.
pub open spec fn stem_end(p: Seq<char>) -> int {
    if dotted(p) {
        last_index(p, '.')
    } else {
        p.len() as int
    }
}

/// What the stem of a readable path ends in on every platform.
pub open spec fn shared_stem(p: Seq<char>) -> Seq<char> {
    p.subrange(last_break(p) + 1, stem_end(p))
}

/// The extension that every platform finds in a typed path.
pub open spec fn shared_extension(p: Seq<char>) -> Option<Seq<char>> {
    if dotted(p) {
        Some(p.skip(last_index(p, '.') + 1))
    } else {
        None
    }
}

/// The readable path `p` with its extension replaced by `ext`, or with `ext`
/// added where it has none.
pub open spec fn replaced_extension(p: Seq<char>, ext: Seq<char>) -> Seq<char> {
    p.take(stem_end(p)) + seq!['.'] + ext
}

/// No file name starts after the last break, and none before the last slash.
pub proof fn lemma_start(p: Seq<char>, k: int)
    requires
        may_start(p, k),
    ensures
        0 <= last_index(p, '/') + 1 <= k <= last_break(p) + 1 <= p.len(),
        last_break(p) >= 0 ==> is_separator(p[last_break(p)]) || p[last_break(p)] == ':',
{
    lemma_last_index(p, '/');
    lemma_last_index(p, '\\');
    lemma_last_index(p, ':');
}

/// A plain path has a file name, which starts after the last slash.
pub proof fn lemma_plain(p: Seq<char>)
    requires
        plain_path(p),
    ensures
        named(p),
        tail(p) == base_name(p),
        forall|k: int| #[trigger] may_start(p, k) ==> k == last_index(p, '/') + 1,
{
    lemma_last_index(p, '/');
    lemma_last_index(p, '\\');
    lemma_last_index(p, ':');
    let a = last_index(p, '/') + 1;
    let b = base_name(p);
    if last_index(p, '\\') >= a {
        assert(b[last_index(p, '\\') - a] == '\\');
    }
    if last_index(p, ':') >= a {
        assert(b[last_index(p, ':') - a] == ':');
    }
    assert(last_break(p) == a - 1);
    if last_separator(p) < 0 && p.len() >= 2 {
        assert(b[1] == p[1]);
    }
}

/// What every platform finds in a readable path: a name, the same extension,
/// and a stem that ends in the same place.
pub proof fn lemma_readable(p: Seq<char>)
    requires
        readable(p),
    ensures
        named(p),
        plain_path(p) ==> stem_of(p) == shared_stem(p) && extension_of(p) == shared_extension(p),
        forall|k: int| #[trigger]
            may_start(p, k) ==> {
                &&& 0 <= k <= last_break(p) + 1 <= stem_end(p) <= p.len()
                &&& k + stem_len(p.skip(k)) == stem_end(p)
                &&& name_stem(p.skip(k)) == p.subrange(k, stem_end(p))
                &&& name_extension(p.skip(k)) == shared_extension(p)
            },
{
    let t = last_break(p) + 1;
    if plain_path(p) {
        lemma_plain(p);
    }
    assert(may_start(p, last_index(p, '/') + 1));
    lemma_start(p, last_index(p, '/') + 1);
    lemma_last_skip(p, t, '.');
    lemma_last_index(p, '.');
    assert forall|k: int| #[trigger] may_start(p, k) implies {
        &&& 0 <= k <= t <= stem_end(p) <= p.len()
        &&& k + stem_len(p.skip(k)) == stem_end(p)
        &&& name_stem(p.skip(k)) == p.subrange(k, stem_end(p))
        &&& name_extension(p.skip(k)) == shared_extension(p)
    } by {
        lemma_start(p, k);
        lemma_last_skip(p, k, '.');
        if !dotted(p) {
            if plain_path(p) {
                assert(p.skip(k) =~= tail(p));
            } else {
                let a = last_index(p, '/') + 1;
                if last_index(p, '.') >= k {
                    assert(base_name(p)[last_index(p, '.') - a] == '.');
                }
            }
        }
        assert(p.skip(k).take(stem_len(p.skip(k))) =~= p.subrange(k, stem_end(p)));
        if dotted(p) {
            assert(p.skip(k).skip(last_index(p, '.') - k + 1) =~= p.skip(last_index(p, '.') + 1));
        }
    }
    if plain_path(p) {
        assert(may_start(p, t));
        assert(base_name(p) == p.skip(t));
    }
}

/// The extension of a readable path can be replaced, unless its stem is a dot.
pub proof fn lemma_renamable(p: Seq<char>)
    requires
        readable(p),
        shared_stem(p) != seq!['.'],
    ensures
        renamable(p),
{
    lemma_readable(p);
    assert forall|k: int| #[trigger] may_start(p, k) implies name_stem(p.skip(k)) != seq!['.'] by {
        lemma_start(p, k);
        let stem = p.subrange(k, stem_end(p));
        assert(name_stem(p.skip(k)) == stem);
        if stem == seq!['.'] {
            assert(stem.len() == 1);
            let t = last_break(p) + 1;
            if k == t {
                assert(stem =~= shared_stem(p));
            } else {
                assert(k == t - 1);
                assert(stem[0] == p[t - 1]);
                assert(stem[0] == '.');
            }
        }
    }
}

/// A sidecar is not written over the image, whatever the platform: replacing
/// the extension gives another path, unless it was there already.
pub proof fn replacing_moves_away(p: Seq<char>, ext: Seq<char>, r: Seq<char>)
    requires
        is_renamed(p, ext, r),
        !(seq!['.'] + ext).is_suffix_of(p),
    ensures
        r != p,
{
    if r == p {
        let k = choose|k: int| #[trigger]
            may_start(p, k) && r == p.take(k + stem_len(p.skip(k))) + seq!['.'] + ext;
        let front = p.take(k + stem_len(p.skip(k)));
        assert(r =~= front + (seq!['.'] + ext));
        assert((seq!['.'] + ext).is_suffix_of(p));
    }
}

/// The view of an optional string.
pub open spec fn opt_view(s: Option<String>) -> Option<Seq<char>> {
    match s {
        Some(t) => Some(t@),
        None => None,
    }
}

/// `std::path::Path::extension`: the part of the file name after its last
/// dot; nothing where the name has no dot but a leading one. The file name is
/// one that some platform finds; a path without a dot has no extension.
#[verifier::external_body]
pub(crate) fn extension(path: &str) -> (r: Option<String>)
    ensures
        named(path@) ==> is_extension(path@, opt_view(r)),
        undotted(path@) ==> r is None,
{
    std::path::Path::new(path).extension()?.to_str().map(String::from)
}

/// `std::path::Path::file_stem`: the file name up to its last dot; the whole
/// name where it has no dot but a leading one. The file name is one that some
/// platform finds; where it finds none the outcome is left unsaid.
#[verifier::external_body]
pub(crate) fn file_stem(path: &str) -> (r: Option<String>)
    ensures
        named(path@) ==> r is Some && is_stem(path@, r->0@),
{
    std::path::Path::new(path).file_stem()?.to_str().map(String::from)
}

/// `std::path::Path::file_name`: the last component, as some platform finds
/// it; where it finds none the outcome is left unsaid.
#[verifier::external_body]
pub(crate) fn file_name(path: &str) -> (r: Option<String>)
    ensures
        named(path@) ==> r is Some && is_name(path@, r->0@),
{
    std::path::Path::new(path).file_name()?.to_str().map(String::from)
}

/// `std::path::Path::with_extension`: replaces what follows the last dot of
/// the file name, or adds an extension where there is none. The file name is
/// one that some platform finds; a stem that is a single dot is left out.
#[verifier::external_body]
pub(crate) fn with_extension(path: &str, ext: &str) -> (r: String)
    requires
        ext@.len() > 0,
        forall|i: int| 0 <= i < ext@.len() ==> #[trigger] ext@[i] != '/' && ext@[i] != '\\',
    ensures
        renamable(path@) ==> is_renamed(path@, ext@, r@),
{
    std::path::Path::new(path).with_extension(ext).to_string_lossy().into_owned()
}

/// Whether a path is of the kind that some platform takes as it is written:
/// two separators and a question mark.
pub open spec fn verbatim(p: Seq<char>) -> bool {
    double_start(p) && p.len() >= 3 && p[2] == '?'
}

/// Whether a file's path in a folder is the folder's path and the file's on
/// every platform: the file starts neither at the root nor on a drive, or the
/// folder is empty.
pub open spec fn joinable(folder: Seq<char>, file: Seq<char>) -> bool {
    ||| folder.len() == 0
    ||| {
        &&& !verbatim(folder)
        &&& file.len() > 0 && !is_separator(file[0])
        &&& !(file.len() >= 2 && file[1] == ':')
    }
}

/// Whether `r` is `folder` and `file` with a separator between them. A slash
/// that `folder` ends in is one; a backslash or a drive may do without. An
/// empty folder adds nothing.
pub open spec fn is_joined(folder: Seq<char>, file: Seq<char>, r: Seq<char>) -> bool {
    if folder.len() == 0 {
        r == file
    } else if folder.last() == '/' {
        r == folder + file
    } else {
        ||| r == folder + seq!['/'] + file
        ||| r == folder + seq!['\\'] + file
        ||| (folder.last() == '\\' || (folder.len() == 2 && folder[1] == ':')) && r == folder + file
    }
}

/// `std::path::Path::join`: the path of `file` in `folder`, with the
/// platform's separator between them unless `folder` ends in one or is a
/// drive; `file` itself where `folder` is empty. Stated of other folders where
/// `file` starts neither with a separator nor with a drive, and `folder` is not
/// taken as it is written; else the outcome is left unsaid.
#[verifier::external_body]
pub(crate) fn join(folder: &str, file: &str) -> (r: String)
    ensures
        joinable(folder@, file@) ==> is_joined(folder@, file@, r@),
{
    std::path::Path::new(folder).join(file).to_string_lossy().into_owned()
}

/// `base`, with a slash at its end.
pub open spec fn as_folder(base: Seq<char>) -> Seq<char> {
    if base.last() == '/' {
        base
    } else {
        base + seq!['/']
    }
}

/// `base`, with a backslash at its end.
pub open spec fn as_backslashed(base: Seq<char>) -> Seq<char> {
    if base.last() == '\\' {
        base
    } else {
        base + seq!['\\']
    }
}

/// Whether the last component of a path is more than a dot.
pub open spec fn ends_well(p: Seq<char>) -> bool {
    &&& p.len() > 0 && !is_separator(p.last())
    &&& p.last() == '.' ==> p.len() > 1 && !is_separator(p[p.len() - 2])
}

/// Whether `rest` may be what is left of `path` after a folder.
pub open spec fn may_be_left(path: Seq<char>, rest: Seq<char>) -> bool {
    &&& !double_start(path)
    &&& ends_well(path)
    &&& rest.len() > 0 && !is_separator(rest[0]) && rest[0] != '.'
}

/// Whether `path` is the folder `base`, a slash, and `rest`.
pub open spec fn is_rest(path: Seq<char>, base: Seq<char>, rest: Seq<char>) -> bool {
    &&& may_be_left(path, rest)
    &&& base.len() > 0 && base.last() != ':'
    &&& path == as_folder(base) + rest
}

/// Whether `path` is the folder `base`, a backslash, and `rest`.
pub open spec fn is_backslash_rest(path: Seq<char>, base: Seq<char>, rest: Seq<char>) -> bool {
    &&& may_be_left(path, rest)
    &&& base.len() > 0 && base.last() != ':' && base.last() != '.' && base.last() != '/'
    &&& path == as_backslashed(base) + rest
}

/// The letter of a drive as every platform compares it.
pub open spec fn drive_letter(c: char) -> char {
    if 'a' <= c <= 'z' {
        (c as int - 32) as char
    } else {
        c
    }
}

/// A path with every backslash taken as a slash and the case of a drive left
/// out of account.
pub open spec fn flat(p: Seq<char>) -> Seq<char> {
    Seq::new(
        p.len(),
        |i: int|
            if p[i] == '\\' {
                '/'
            } else if i == 0 && p.len() > 1 && p[1] == ':' {
                drive_letter(p[0])
            } else {
                p[i]
            },
    )
}

/// A path written without detours: no two slashes in a row, and no component
/// that is a single dot.
pub open spec fn tidy(p: Seq<char>) -> bool {
    &&& p.len() > 0
    &&& forall|i: int| 0 < i < p.len() ==> !(#[trigger] p[i] == '/' && p[i - 1] == '/')
    &&& forall|i: int|
        0 <= i < p.len() && #[trigger] p[i] == '.' && (i == 0 || p[i - 1] == '/') ==> i + 1
            < p.len() && p[i + 1] != '/'
}

/// Whether the tidy path `path` is the folder `base` or something in it.
pub open spec fn lies_in(path: Seq<char>, base: Seq<char>) -> bool {
    as_folder(path) == as_folder(base) || as_folder(base).is_prefix_of(path)
}

/// Whether no platform finds `path` in the folder `base`.
pub open spec fn outside(path: Seq<char>, base: Seq<char>) -> bool {
    &&& tidy(flat(path))
    &&& tidy(flat(base))
    &&& base.last() != ':'
    &&& !lies_in(flat(path), flat(base))
}

/// `std::path::Path::strip_prefix`: the path that, joined onto `base`, yields
/// `path`; nothing where `base` is no prefix of it. Stated where `path` is
/// `base`, a slash and a rest that starts with neither a separator nor a dot;
/// where a backslash stands there instead, which need not separate; and where
/// no platform finds `path` in `base`. Of others the outcome is left unsaid.
#[verifier::external_body]
pub(crate) fn strip_prefix(path: &str, base: &str) -> (r: Option<String>)
    ensures
        forall|rest: Seq<char>| #[trigger] is_rest(path@, base@, rest) ==> opt_view(r) == Some(rest),
        forall|rest: Seq<char>| #[trigger]
            is_backslash_rest(path@, base@, rest) ==> r is None || opt_view(r) == Some(rest),
        outside(path@, base@) ==> r is None,
{
    std::path::Path::new(path).strip_prefix(base).ok()?.to_str().map(String::from)
}

/// The components of a path with slashes only: neither empty nor a dot.
pub open spec fn parts(p: Seq<char>) -> Seq<Seq<char>>
    decreases p.len(),
    via parts_get_shorter
{
    let name = base_name(p);
    let rest = if last_index(p, '/') < 0 {
        Seq::empty()
    } else {
        parts(p.take(last_index(p, '/')))
    };
    if name.len() == 0 || name == seq!['.'] {
        rest
    } else {
        rest.push(name)
    }
}

#[via_fn]
proof fn parts_get_shorter(p: Seq<char>) {
    lemma_last_index(p, '/');
}

/// Whether a path with slashes only starts at the root, and whether it starts
/// with a dot.
pub open spec fn opening(p: Seq<char>) -> (bool, bool) {
    (p.len() > 0 && p[0] == '/', p.len() > 0 && p[0] == '.' && (p.len() == 1 || p[1] == '/'))
}

/// Whether `same` can be what a platform says of two paths being the same.
pub open spec fn may_be_same(a: Seq<char>, b: Seq<char>, same: bool) -> bool {
    &&& a == b ==> same
    &&& plain_chars(a) && plain_chars(b) && !double_start(a) && !double_start(b) ==> same == (parts(
        a,
    ) == parts(b) && opening(a) == opening(b))
    &&& tidy(flat(a)) && tidy(flat(b)) && as_folder(flat(a)) != as_folder(flat(b)) ==> !same
}

/// `std::path::Path` and `==`: whether two paths have the same components.
/// Stated of equal strings, of paths with slashes only, and of those that
/// differ whatever the platform; of others the outcome is the platform's.
#[verifier::external_body]
pub(crate) fn same_path(a: &str, b: &str) -> (r: bool)
    ensures
        may_be_same(a@, b@, r),
{
    std::path::Path::new(a) == std::path::Path::new(b)
}

/// The folder of a plain path: what stands before its last slash.
pub open spec fn folder_of(p: Seq<char>) -> Seq<char> {
    p.take(last_index(p, '/'))
}

/// A path with a folder that can be told from its text alone: it does not end
/// in a separator, a dot or a drive.
pub open spec fn has_plain_folder(p: Seq<char>) -> bool {
    &&& plain_path(p)
    &&& last_index(p, '/') > 0
    &&& !is_separator(folder_of(p).last())
    &&& folder_of(p).last() != '.' && folder_of(p).last() != ':'
}

/// A path with a file name and no folder whose name ends in a dot.
pub open spec fn has_folder(p: Seq<char>) -> bool {
    named(p) && forall|i: int| 0 < i < p.len() && #[trigger] is_separator(p[i]) ==> p[i - 1] != '.'
}

/// Whether the folder of a file name that starts at `k` may end at `j`: only
/// separators stand between them, and no slash at its end but that of a root.
pub open spec fn may_end(p: Seq<char>, k: int, j: int) -> bool {
    &&& 0 <= j <= k
    &&& j == 0 <==> k == 0
    &&& forall|i: int| j <= i < k ==> is_separator(#[trigger] p[i])
    &&& j > 0 && p[j - 1] == '/' ==> j == 1 || (j == 3 && p[1] == ':')
}

/// Whether some platform finds the folder `f` in `p`: what stands before the
/// file name.
pub open spec fn is_folder(p: Seq<char>, f: Seq<char>) -> bool {
    exists|k: int, j: int| #[trigger] may_start(p, k) && #[trigger] may_end(p, k, j) && f == p.take(j)
}

/// `std::path::Path::parent`: the path without its final component. Stated
/// exactly of plain paths whose folder ends in neither a separator, a dot nor
/// a colon; of other paths with a file name, unless a folder's name ends in a
/// dot, as what stands before a name that some platform finds.
#[verifier::external_body]
pub(crate) fn parent(path: &str) -> (r: Option<String>)
    ensures
        has_plain_folder(path@) ==> opt_view(r) == Some(folder_of(path@)),
        has_folder(path@) ==> r is Some && is_folder(path@, r->0@),
{
    std::path::Path::new(path).parent()?.to_str().map(String::from)
}

/// A path comes apart into a folder, a stem and an extension: the file name
/// has no slash, the extension no dot, and put together they are the path.
pub proof fn paths_come_apart(p: Seq<char>)
    ensures
        ({
            let name = base_name(p);
            let front = p.take(p.len() - name.len());
            &&& front + name == p
            &&& front.len() == 0 || front.last() == '/'
            &&& forall|i: int| 0 <= i < name.len() ==> #[trigger] name[i] != '/'
            &&& match extension_of(p) {
                Some(ext) => {
                    &&& front + stem_of(p) + seq!['.'] + ext == p
                    &&& stem_of(p).len() > 0
                    &&& forall|i: int| 0 <= i < ext.len() ==> #[trigger] ext[i] != '.'
                },
                None => {
                    &&& stem_of(p) == name
                    &&& forall|i: int| 0 < i < name.len() ==> #[trigger] name[i] != '.'
                },
            }
        }),
{
    lemma_last_index(p, '/');
    let a = last_index(p, '/') + 1;
    let name = base_name(p);
    let front = p.take(a);
    assert(front + name =~= p);
    assert forall|i: int| 0 <= i < name.len() implies #[trigger] name[i] != '/' by {
        assert(name[i] == p[a + i]);
    }
    lemma_last_index(name, '.');
    let d = last_index(name, '.');
    if d > 0 {
        let ext = name.skip(d + 1);
        assert forall|i: int| 0 <= i < ext.len() implies #[trigger] ext[i] != '.' by {
            assert(ext[i] == name[d + 1 + i]);
        }
        assert(front + stem_of(p) + seq!['.'] + ext =~= p);
    } else {
        assert(stem_of(p) =~= name);
    }
}

} // verus!
