//! Classification of one directory child by name and kind: a directory is a
//! subfolder; a file is an image or a video when its extension stands on the
//! fixed, case-sensitive allow-lists; everything else is ignored.

use vstd::prelude::*;
use crate::strutil::{last_index_of, lemma_last_index_of_bounds, lemma_last_index_of_is, str_eq};
use vstd::string::*;

verus! {

/// The two kinds of media file the manager shows.
#[derive(Debug, Hash, PartialEq, Eq, Clone, Copy, Structural)]
pub enum MediaType {
    Image,
    Video,
}

/// What one directory child is to the manager.
#[derive(Debug, Hash, PartialEq, Eq, Clone, Copy, Structural)]
pub enum EntryKind {
    Subfolder,
    Image,
    Video,
    Ignored,
}

/// The extension of a file name: the characters after the last dot, or
/// nothing when the name has no dot past its first character.
pub open spec fn extension_spec(name: Seq<char>) -> Option<Seq<char>> {
    if last_index_of(name, '.') >= 1 {
        Some(name.subrange(last_index_of(name, '.') + 1, name.len() as int))
    } else {
        None
    }
}

/// Extracts the extension of a file name, if it has one.
pub fn extension_of(name: &str) -> (r: Option<String>)
    ensures
        match r {
            Some(e) => extension_spec(name@) == Some(e@),
            None => extension_spec(name@) is None,
        },
{
    let len = name.unicode_len();
    let mut i: usize = len;
    loop
        invariant
            0 <= i <= len,
            len == name@.len(),
            forall|k: int| i <= k < len ==> name@[k] != '.',
        decreases i,
    {
        if i <= 1 {
            proof {
                lemma_last_index_of_bounds(name@, '.');
            }
            return None;
        }
        if name.get_char(i - 1) == '.' {
            proof {
                lemma_last_index_of_is(name@, '.', i as int - 1);
            }
            let e = name.substring_char(i, len);
            return Some(e.to_owned());
        }
        i = i - 1;
    }
}

/// The image extensions the scanner accepts, matched case-sensitively.
pub open spec fn is_image_ext(e: Seq<char>) -> bool {
    ||| e == "jpg"@
    ||| e == "jpeg"@
    ||| e == "png"@
    ||| e == "gif"@
    ||| e == "jpe"@
    ||| e == "webp"@
    ||| e == "tiff"@
    ||| e == "ico"@
    ||| e == "heif"@
    ||| e == "heic"@
    ||| e == "tif"@
    ||| e == "jif"@
    ||| e == "jfif"@
    ||| e == "svg"@
}

/// The video extensions the scanner accepts, matched case-sensitively.
pub open spec fn is_video_ext(e: Seq<char>) -> bool {
    ||| e == "mp4"@
    ||| e == "webm"@
    ||| e == "avi"@
    ||| e == "mov"@
    ||| e == "mkv"@
    ||| e == "mpeg"@
    ||| e == "m4v"@
    ||| e == "wmv"@
    ||| e == "flv"@
}

fn is_image_ext_exec(e: &str) -> (r: bool)
    ensures
        r == is_image_ext(e@),
{
    str_eq(e, "jpg") || str_eq(e, "jpeg") || str_eq(e, "png") || str_eq(e, "gif") || str_eq(
        e,
        "jpe",
    ) || str_eq(e, "webp") || str_eq(e, "tiff") || str_eq(e, "ico") || str_eq(e, "heif") || str_eq(
        e,
        "heic",
    ) || str_eq(e, "tif") || str_eq(e, "jif") || str_eq(e, "jfif") || str_eq(e, "svg")
}

fn is_video_ext_exec(e: &str) -> (r: bool)
    ensures
        r == is_video_ext(e@),
{
    str_eq(e, "mp4") || str_eq(e, "webm") || str_eq(e, "avi") || str_eq(e, "mov") || str_eq(
        e,
        "mkv",
    ) || str_eq(e, "mpeg") || str_eq(e, "m4v") || str_eq(e, "wmv") || str_eq(e, "flv")
}

/// How one directory child is classified: directories are subfolders, files
/// go by their extension, and a file whose extension is unknown or missing is
/// ignored rather than failed.
pub open spec fn classify_spec(name: Seq<char>, is_dir: bool) -> EntryKind {
    if is_dir {
        EntryKind::Subfolder
    } else {
        match extension_spec(name) {
            Some(e) => if is_image_ext(e) {
                EntryKind::Image
            } else if is_video_ext(e) {
                EntryKind::Video
            } else {
                EntryKind::Ignored
            },
            None => EntryKind::Ignored,
        }
    }
}

/// Classifies one directory child from its name and whether it is a directory.
pub fn classify(name: &str, is_dir: bool) -> (k: EntryKind)
    ensures
        k == classify_spec(name@, is_dir),
{
    if is_dir {
        return EntryKind::Subfolder;
    }
    match extension_of(name) {
        Some(e) => {
            if is_image_ext_exec(e.as_str()) {
                EntryKind::Image
            } else if is_video_ext_exec(e.as_str()) {
                EntryKind::Video
            } else {
                EntryKind::Ignored
            }
        },
        None => EntryKind::Ignored,
    }
}

} // verus!
