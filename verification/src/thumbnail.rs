//! Picking a representative image for a folder, and deriving the cache path
//! under which a video's generated still frame is stored.
//!
//! A folder's thumbnail is the first file whose stem is a canonical
//! first-image token and whose name ends in an accepted image suffix; when no
//! such file exists, the lexicographically smallest image-named file is used
//! instead.

use vstd::prelude::*;
use vstd::string::*;
use crate::strutil::{
    basename_of, basename_spec, ends_with, join_path, lex_le, name_views, path_join, stem_of,
    stem_spec, str_ends_with, str_eq, str_le,
};

verus! {

/// Whether a file name ends in one of the image suffixes the folder-thumbnail
/// search accepts.
pub open spec fn is_thumb_image_name(n: Seq<char>) -> bool {
    ||| ends_with(n, ".jpg"@)
    ||| ends_with(n, ".png"@)
    ||| ends_with(n, ".jpeg"@)
    ||| ends_with(n, ".webp"@)
    ||| ends_with(n, ".gif"@)
}

/// The canonical first-image tokens: a stem of all zeros ending in one, or
/// such a stem with a `_1` suffix.
pub open spec fn is_canonical_stem(s: Seq<char>) -> bool {
    ||| s == "1"@
    ||| s == "01"@
    ||| s == "001"@
    ||| s == "0001"@
    ||| s == "1_1"@
    ||| s == "01_1"@
    ||| s == "001_1"@
    ||| s == "0001_1"@
}

/// An image file marked as the folder's intended first image.
pub open spec fn is_canonical_name(n: Seq<char>) -> bool {
    is_thumb_image_name(n) && is_canonical_stem(stem_spec(n))
}

fn is_thumb_image_exec(n: &str) -> (r: bool)
    ensures
        r == is_thumb_image_name(n@),
{
    str_ends_with(n, ".jpg") || str_ends_with(n, ".png") || str_ends_with(n, ".jpeg")
        || str_ends_with(n, ".webp") || str_ends_with(n, ".gif")
}

fn is_canonical_exec(n: &str) -> (r: bool)
    ensures
        r == is_canonical_name(n@),
{
    if !is_thumb_image_exec(n) {
        return false;
    }
    let s = stem_of(n);
    let st = s.as_str();
    str_eq(st, "1") || str_eq(st, "01") || str_eq(st, "001") || str_eq(st, "0001") || str_eq(
        st,
        "1_1",
    ) || str_eq(st, "01_1") || str_eq(st, "001_1") || str_eq(st, "0001_1")
}

/// The first canonical-named image in `names`, scanning left to right.
pub open spec fn first_canonical(names: Seq<Seq<char>>) -> Option<Seq<char>>
    decreases names.len(),
{
    if names.len() == 0 {
        None
    } else {
        match first_canonical(names.drop_last()) {
            Some(c) => Some(c),
            None => if is_canonical_name(names.last()) {
                Some(names.last())
            } else {
                None
            },
        }
    }
}

/// The lexicographically smallest image-named entry of `names`; ties keep the
/// earliest.
pub open spec fn min_image(names: Seq<Seq<char>>) -> Option<Seq<char>>
    decreases names.len(),
{
    if names.len() == 0 {
        None
    } else {
        let rest = min_image(names.drop_last());
        if !is_thumb_image_name(names.last()) {
            rest
        } else {
            match rest {
                None => Some(names.last()),
                Some(m) => if lex_le(m, names.last()) {
                    Some(m)
                } else {
                    Some(names.last())
                },
            }
        }
    }
}

/// The folder-thumbnail choice: a canonical image when one exists, otherwise
/// the smallest image name, otherwise nothing.
pub open spec fn select_thumbnail_spec(names: Seq<Seq<char>>) -> Option<Seq<char>> {
    match first_canonical(names) {
        Some(c) => Some(c),
        None => min_image(names),
    }
}

/// Once a prefix holds a canonical image, extending the list cannot change
/// which one is found first.
proof fn lemma_first_canonical_extend(v: Seq<Seq<char>>, j: int)
    requires
        0 <= j <= v.len(),
        first_canonical(v.take(j)) is Some,
    ensures
        first_canonical(v) == first_canonical(v.take(j)),
    decreases v.len() - j,
{
    if j == v.len() {
        assert(v.take(j) =~= v);
    } else {
        assert(v.take(j + 1).drop_last() =~= v.take(j));
        assert(v.take(j + 1).last() == v[j]);
        lemma_first_canonical_extend(v, j + 1);
    }
}

/// Picks the representative image of a folder from the names of the files it
/// holds, if any name qualifies.
pub fn select_thumbnail(names: &Vec<String>) -> (r: Option<String>)
    ensures
        match r {
            Some(t) => select_thumbnail_spec(name_views(names@)) == Some(t@),
            None => select_thumbnail_spec(name_views(names@)) is None,
        },
{
    let ghost sv = name_views(names@);
    let mut best: Option<String> = None;
    let mut i: usize = 0;
    while i < names.len()
        invariant
            0 <= i <= names.len(),
            sv == name_views(names@),
            sv.len() == names@.len(),
            first_canonical(sv.take(i as int)) is None,
            match best {
                Some(b) => min_image(sv.take(i as int)) == Some(b@),
                None => min_image(sv.take(i as int)) is None,
            },
        decreases names.len() - i,
    {
        proof {
            assert(sv.take(i + 1).drop_last() =~= sv.take(i as int));
            assert(sv.take(i + 1).last() == sv[i as int]);
            assert(sv[i as int] == names@[i as int]@);
        }
        let name = &names[i];
        if is_canonical_exec(name.as_str()) {
            proof {
                lemma_first_canonical_extend(sv, i + 1);
                assert(sv.take(sv.len() as int) =~= sv);
            }
            return Some(name.clone());
        }
        if is_thumb_image_exec(name.as_str()) {
            best = match best {
                None => Some(name.clone()),
                Some(b) => {
                    if str_le(b.as_str(), name.as_str()) {
                        Some(b)
                    } else {
                        Some(name.clone())
                    }
                },
            };
        }
        i = i + 1;
    }
    proof {
        assert(sv.take(names@.len() as int) =~= sv);
    }
    best
}

/// The file name of a video's cached still frame: the video's base name up
/// to its first dot, marked with a fixed suffix.
pub open spec fn video_thumb_name_spec(filepath: Seq<char>) -> Seq<char> {
    stem_spec(basename_spec(filepath)) + "_thumb.jpg"@
}

/// Derives the cache file name for a video's thumbnail; the same source path
/// always yields the same name.
pub fn video_thumb_filename(filepath: &str) -> (r: String)
    ensures
        r@ == video_thumb_name_spec(filepath@),
{
    let base = basename_of(filepath);
    let mut stem = stem_of(base.as_str());
    stem.append("_thumb.jpg");
    stem
}

/// The full cache path of a video's thumbnail under a given cache directory.
pub fn video_thumb_path(cache_dir: &str, filepath: &str) -> (r: String)
    ensures
        r@ == path_join(cache_dir@, video_thumb_name_spec(filepath@)),
{
    let name = video_thumb_filename(filepath);
    join_path(cache_dir, name.as_str())
}

/// Relies on dirs::cache_dir: the per-user cache directory, when the platform
/// defines one and its path is valid UTF-8.
#[verifier::external_body]
fn user_cache_dir() -> (r: Option<String>) {
    dirs::cache_dir().and_then(|p| p.to_str().map(|s| s.to_string()))
}

/// The manager's own thumbnail cache directory under the user's cache
/// directory, when the platform defines one.
pub fn thumb_cache_dir() -> (r: Option<String>)
    ensures
        match r {
            Some(d) => exists|base: Seq<char>| d@ == #[trigger] path_join(base, "wfns_manager"@),
            None => true,
        },
{
    match user_cache_dir() {
        Some(base) => {
            let d = join_path(base.as_str(), "wfns_manager");
            proof {
                assert(d@ == path_join(base@, "wfns_manager"@));
            }
            Some(d)
        },
        None => None,
    }
}

} // verus!
