//! Handing entries to the operating system: revealing a folder or file in
//! the default file browser, or opening its image in the default viewer.
//! The paths handed over are computed and verified here; the hand-off itself
//! is fire-and-forget and reports only a boolean.

use vstd::prelude::*;
use crate::catalog::{Media, SubFolder};
use crate::strutil::{join_path, path_join};

verus! {

/// An entry the user can reveal in the file browser or open as an image.
pub trait Openable {
    /// Reveals the entry in the default file browser; reports whether the
    /// hand-off to the system succeeded.
    fn open_dir(&self) -> bool;

    /// Opens the entry's image in the default viewer; reports whether the
    /// hand-off to the system succeeded.
    fn open_image(&self) -> bool;
}

/// Relies on opener::reveal: shows the path in the default file manager.
/// Whether that succeeds depends on the system, so nothing more is stated.
#[verifier::external_body]
fn reveal_path(p: &str) -> bool {
    opener::reveal(p).is_ok()
}

/// Relies on opener::open: opens the path with its default program.
/// Whether that succeeds depends on the system, so nothing more is stated.
#[verifier::external_body]
fn open_path(p: &str) -> bool {
    opener::open(p).is_ok()
}

impl SubFolder {
    /// The path handed over when revealing this subfolder: its thumbnail
    /// image when it has one, else the subfolder itself.
    pub fn reveal_target(&self) -> (p: String)
        ensures
            p@ == match self@.thumbnail {
                Some(t) => path_join(path_join(self@.root_path, self@.name), t),
                None => path_join(self@.root_path, self@.name),
            },
    {
        let base = self.get_path();
        match &self.thumbnail {
            Some(t) => join_path(base.as_str(), t.as_str()),
            None => base,
        }
    }

    /// The path of the image opened for this subfolder: its thumbnail, when
    /// it has one.
    pub fn image_target(&self) -> (p: Option<String>)
        ensures
            match p {
                Some(q) => self@.thumbnail is Some && q@ == path_join(
                    path_join(self@.root_path, self@.name),
                    self@.thumbnail.unwrap(),
                ),
                None => self@.thumbnail is None,
            },
    {
        let base = self.get_path();
        match &self.thumbnail {
            Some(t) => Some(join_path(base.as_str(), t.as_str())),
            None => None,
        }
    }
}

impl Openable for SubFolder {
    fn open_dir(&self) -> bool {
        let target = self.reveal_target();
        reveal_path(target.as_str())
    }

    fn open_image(&self) -> bool {
        match self.image_target() {
            Some(t) => open_path(t.as_str()),
            None => false,
        }
    }
}

impl Openable for Media {
    fn open_dir(&self) -> bool {
        reveal_path(self.filepath.as_str())
    }

    fn open_image(&self) -> bool {
        open_path(self.filepath.as_str())
    }
}

} // verus!
