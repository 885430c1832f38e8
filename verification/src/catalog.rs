//! The folder catalog and its random walker: one scan turns a directory's
//! children into three shuffled pools (subfolders, images, videos) with a
//! recommended display mode, and the walker then draws unseen entries at
//! random, stepping backward through its history without ever holding one
//! entry in two places.

use vstd::prelude::*;
use vstd::string::*;
use vstd::multiset::Multiset;
use crate::classify::{classify, classify_spec, EntryKind, MediaType};
use crate::prefs::AppMode;
use crate::rng::{rand_below, shuffle_vec};
use crate::strutil::{join_path, name_views, path_join, stem_of, stem_spec};
use crate::thumbnail::{select_thumbnail, select_thumbnail_spec};

verus! {

/// One directory child as the scanner reads it: its name, whether it is a
/// directory, and, for a directory, the names of the files inside it (used
/// for thumbnail selection; empty when the directory cannot be read).
pub struct RawChild {
    pub name: String,
    pub is_dir: bool,
    pub files: Vec<String>,
}

/// The mathematical value of one scanned child.
pub ghost struct RawChildV {
    pub name: Seq<char>,
    pub is_dir: bool,
    pub files: Seq<Seq<char>>,
}

impl View for RawChild {
    type V = RawChildV;

    open spec fn view(&self) -> RawChildV {
        RawChildV { name: self.name@, is_dir: self.is_dir, files: name_views(self.files@) }
    }
}

/// The views of a list of scanned children.
pub open spec fn child_views(v: Seq<RawChild>) -> Seq<RawChildV> {
    v.map_values(|c: RawChild| c@)
}

/// A subfolder of the chosen root, with its representative image when one
/// was found.
#[derive(Debug, Hash, PartialEq, Eq, Clone)]
pub struct SubFolder {
    pub name: String,
    pub root_path: String,
    pub thumbnail: Option<String>,
}

/// The mathematical value of a subfolder entry.
pub ghost struct SubFolderV {
    pub name: Seq<char>,
    pub root_path: Seq<char>,
    pub thumbnail: Option<Seq<char>>,
}

impl View for SubFolder {
    type V = SubFolderV;

    open spec fn view(&self) -> SubFolderV {
        SubFolderV {
            name: self.name@,
            root_path: self.root_path@,
            thumbnail: match self.thumbnail {
                Some(ref t) => Some(t@),
                None => None,
            },
        }
    }
}

/// The subfolder entry built for the child `name` of `root` whose files are
/// `files`.
pub open spec fn sub_entry(root: Seq<char>, name: Seq<char>, files: Seq<Seq<char>>) -> SubFolderV {
    SubFolderV { name, root_path: root, thumbnail: select_thumbnail_spec(files) }
}

impl SubFolder {
    /// Builds the entry for the subfolder `name` under `root_path`, choosing
    /// its thumbnail from the names of the files it holds.
    pub fn new(name: &str, root_path: &str, files: &Vec<String>) -> (s: SubFolder)
        ensures
            s@ == sub_entry(root_path@, name@, name_views(files@)),
    {
        SubFolder {
            name: name.to_owned(),
            root_path: root_path.to_owned(),
            thumbnail: select_thumbnail(files),
        }
    }

    /// The subfolder's full path under its root.
    pub fn get_path(&self) -> (p: String)
        ensures
            p@ == path_join(self@.root_path, self@.name),
    {
        join_path(self.root_path.as_str(), self.name.as_str())
    }
}

/// One media file of the chosen root: its display name (the file name up to
/// its first dot), its full path, and whether it is an image or a video.
#[derive(Debug, Hash, PartialEq, Eq, Clone)]
pub struct Media {
    pub root_path: String,
    pub name: String,
    pub filepath: String,
    pub media_type: MediaType,
}

/// The mathematical value of a media entry.
pub ghost struct MediaV {
    pub root_path: Seq<char>,
    pub name: Seq<char>,
    pub filepath: Seq<char>,
    pub media_type: MediaType,
}

impl View for Media {
    type V = MediaV;

    open spec fn view(&self) -> MediaV {
        MediaV {
            root_path: self.root_path@,
            name: self.name@,
            filepath: self.filepath@,
            media_type: self.media_type,
        }
    }
}

/// The media entry built for the child `file_name` of `root`.
pub open spec fn media_entry(root: Seq<char>, file_name: Seq<char>, t: MediaType) -> MediaV {
    MediaV {
        root_path: root,
        name: stem_spec(file_name),
        filepath: path_join(root, file_name),
        media_type: t,
    }
}

impl Media {
    /// Builds the entry for the media file `name` under `root_path`.
    pub fn new(name: &str, root_path: &str, media_type: MediaType) -> (m: Media)
        ensures
            m@ == media_entry(root_path@, name@, media_type),
    {
        Media {
            root_path: root_path.to_owned(),
            name: stem_of(name),
            filepath: join_path(root_path, name),
            media_type,
        }
    }
}

/// The views of a subfolder pool.
pub open spec fn sub_views(v: Seq<SubFolder>) -> Seq<SubFolderV> {
    v.map_values(|s: SubFolder| s@)
}

/// The views of a media pool.
pub open spec fn media_views(v: Seq<Media>) -> Seq<MediaV> {
    v.map_values(|m: Media| m@)
}

/// The subfolder entries of the children classified as subfolders, in scan
/// order.
pub open spec fn subs_of(root: Seq<char>, cs: Seq<RawChildV>) -> Seq<SubFolderV>
    decreases cs.len(),
{
    if cs.len() == 0 {
        Seq::empty()
    } else {
        subs_of(root, cs.drop_last()) + (if classify_spec(cs.last().name, cs.last().is_dir)
            is Subfolder {
            seq![sub_entry(root, cs.last().name, cs.last().files)]
        } else {
            Seq::empty()
        })
    }
}

/// The image entries of the children classified as images, in scan order.
pub open spec fn imgs_of(root: Seq<char>, cs: Seq<RawChildV>) -> Seq<MediaV>
    decreases cs.len(),
{
    if cs.len() == 0 {
        Seq::empty()
    } else {
        imgs_of(root, cs.drop_last()) + (if classify_spec(cs.last().name, cs.last().is_dir)
            is Image {
            seq![media_entry(root, cs.last().name, MediaType::Image)]
        } else {
            Seq::empty()
        })
    }
}

/// The video entries of the children classified as videos, in scan order.
pub open spec fn vids_of(root: Seq<char>, cs: Seq<RawChildV>) -> Seq<MediaV>
    decreases cs.len(),
{
    if cs.len() == 0 {
        Seq::empty()
    } else {
        vids_of(root, cs.drop_last()) + (if classify_spec(cs.last().name, cs.last().is_dir)
            is Video {
            seq![media_entry(root, cs.last().name, MediaType::Video)]
        } else {
            Seq::empty()
        })
    }
}

/// The names of the children no pool takes.
pub open spec fn ignored_of(cs: Seq<RawChildV>) -> Seq<Seq<char>>
    decreases cs.len(),
{
    if cs.len() == 0 {
        Seq::empty()
    } else {
        ignored_of(cs.drop_last()) + (if classify_spec(cs.last().name, cs.last().is_dir)
            is Ignored {
            seq![cs.last().name]
        } else {
            Seq::empty()
        })
    }
}

/// The display mode a catalog with the given pool sizes recommends: images
/// only when there are no subfolders, videos only when there is nothing
/// else, and subfolder browsing otherwise.
pub open spec fn recommended_mode(subs: nat, imgs: nat, vids: nat) -> AppMode {
    if subs == 0 && imgs > 0 {
        AppMode::Images
    } else if subs == 0 && imgs == 0 && vids > 0 {
        AppMode::Videos
    } else {
        AppMode::SubFolders
    }
}

/// The index sequence `0, 1, .., n-1`.
pub open spec fn ids(n: nat) -> Seq<usize> {
    Seq::new(n, |k: int| k as usize)
}

/// Each index below `n` occurs exactly once in `ids(n)`.
proof fn lemma_ids_multiset(n: nat)
    requires
        n <= usize::MAX,
    ensures
        forall|j: usize|
            #[trigger] ids(n).to_multiset().count(j) == if (j as nat) < n {
                1nat
            } else {
                0nat
            },
    decreases n,
{
    broadcast use vstd::seq_lib::group_to_multiset_ensures;
    broadcast use vstd::multiset::group_multiset_axioms;

    if n == 0 {
        assert(ids(0) =~= Seq::<usize>::empty());
        assert forall|j: usize| #[trigger] ids(0nat).to_multiset().count(j) == 0nat by {
            assert(!ids(0nat).contains(j));
        }
    } else {
        lemma_ids_multiset((n - 1) as nat);
        assert(ids(n) =~= ids((n - 1) as nat).push((n - 1) as usize));
    }
}

/// The catalog of one root folder, with the walker over the pool of the
/// active display mode.  `remaining` holds the indices not yet shown,
/// `history` the indices already shown in order, and `curr` the index now on
/// display; every pool index sits in exactly one of the three.
#[derive(Debug)]
pub struct AppFolderManager {
    pub root_path: String,
    pub subfolders: Vec<SubFolder>,
    pub images: Vec<Media>,
    pub videos: Vec<Media>,
    pub mode: AppMode,
    pub remaining: Vec<usize>,
    pub history: Vec<usize>,
    pub curr: Option<usize>,
}

impl AppFolderManager {
    /// The size of the pool a mode selects.
    pub open spec fn pool_len_for(self, m: AppMode) -> nat {
        match m {
            AppMode::SubFolders => self.subfolders@.len(),
            AppMode::Images => self.images@.len(),
            AppMode::Videos => self.videos@.len(),
        }
    }

    /// The size of the active pool.
    pub open spec fn pool_len(self) -> nat {
        self.pool_len_for(self.mode)
    }

    /// The current index as a sequence of zero or one elements.
    pub open spec fn curr_seq(self) -> Seq<usize> {
        match self.curr {
            Some(i) => seq![i],
            None => Seq::empty(),
        }
    }

    /// All walker positions together, with multiplicity.
    pub open spec fn nav_ms(self) -> Multiset<usize> {
        self.remaining@.to_multiset().add(self.history@.to_multiset()).add(
            self.curr_seq().to_multiset(),
        )
    }

    /// The walker's invariant: every index of the active pool is accounted
    /// for exactly once across remaining, history and the current entry.
    pub open spec fn wf(self) -> bool {
        forall|j: usize|
            #[trigger] self.nav_ms().count(j) == if (j as nat) < self.pool_len() {
                1nat
            } else {
                0nat
            }
    }

    /// The same pools under the same root.
    pub open spec fn same_pools(self, other: AppFolderManager) -> bool {
        &&& self.root_path == other.root_path
        &&& self.subfolders == other.subfolders
        &&& self.images == other.images
        &&& self.videos == other.videos
    }

    /// The same walker state: the same indices remaining, shown and on
    /// display.
    pub open spec fn walker_eq(self, other: AppFolderManager) -> bool {
        &&& self.remaining@ == other.remaining@
        &&& self.history@ == other.history@
        &&& self.curr == other.curr
    }
}

/// Builds the vector `0, 1, .., n-1`.
fn identity_indices(n: usize) -> (v: Vec<usize>)
    ensures
        v@ == ids(n as nat),
{
    let mut v: Vec<usize> = Vec::new();
    let mut i: usize = 0;
    while i < n
        invariant
            0 <= i <= n,
            v@ == ids(i as nat),
        decreases n - i,
    {
        v.push(i);
        proof {
            assert(v@ =~= ids((i + 1) as nat));
        }
        i = i + 1;
    }
    v
}

impl AppFolderManager {
    /// A fresh walker over the active pool: nothing shown, nothing on
    /// display, everything remaining.
    fn fresh_walker(&mut self)
        ensures
            final(self).same_pools(*old(self)),
            final(self).mode == old(self).mode,
            final(self).curr is None,
            final(self).history@.len() == 0,
            final(self).remaining@ == ids(final(self).pool_len()),
            final(self).wf(),
    {
        let n = match self.mode {
            AppMode::SubFolders => self.subfolders.len(),
            AppMode::Images => self.images.len(),
            AppMode::Videos => self.videos.len(),
        };
        self.remaining = identity_indices(n);
        self.history = Vec::new();
        self.curr = None;
        proof {
            broadcast use vstd::seq_lib::group_to_multiset_ensures;
            broadcast use vstd::multiset::group_multiset_axioms;

            lemma_ids_multiset(n as nat);
            assert forall|j: usize| #[trigger] self.nav_ms().count(j) == if (j as nat)
                < self.pool_len() {
                1nat
            } else {
                0nat
            } by {
                assert(!self.history@.contains(j));
                assert(!self.curr_seq().contains(j));
                assert(self.history@.to_multiset().count(j) == 0);
                assert(self.curr_seq().to_multiset().count(j) == 0);
            }
        }
    }

    /// Forgets the walk so far and starts the active pool afresh; the pools
    /// themselves are untouched.
    pub fn reset_curr_index(&mut self)
        ensures
            final(self).same_pools(*old(self)),
            final(self).mode == old(self).mode,
            final(self).curr is None,
            final(self).history@.len() == 0,
            final(self).remaining@ == ids(final(self).pool_len()),
            final(self).wf(),
    {
        self.fresh_walker();
    }

    /// Scans classified children into the three pools, in scan order.
    fn scan_folder(root_path: &str, children: &Vec<RawChild>) -> (r: (
        Vec<SubFolder>,
        Vec<Media>,
        Vec<Media>,
    ))
        ensures
            sub_views(r.0@) == subs_of(root_path@, child_views(children@)),
            media_views(r.1@) == imgs_of(root_path@, child_views(children@)),
            media_views(r.2@) == vids_of(root_path@, child_views(children@)),
    {
        let ghost cv = child_views(children@);
        let mut sf: Vec<SubFolder> = Vec::new();
        let mut img: Vec<Media> = Vec::new();
        let mut vid: Vec<Media> = Vec::new();
        proof {
            assert(sub_views(sf@) =~= subs_of(root_path@, cv.take(0)));
            assert(media_views(img@) =~= imgs_of(root_path@, cv.take(0)));
            assert(media_views(vid@) =~= vids_of(root_path@, cv.take(0)));
        }
        let mut i: usize = 0;
        while i < children.len()
            invariant
                0 <= i <= children.len(),
                cv == child_views(children@),
                cv.len() == children@.len(),
                sub_views(sf@) == subs_of(root_path@, cv.take(i as int)),
                media_views(img@) == imgs_of(root_path@, cv.take(i as int)),
                media_views(vid@) == vids_of(root_path@, cv.take(i as int)),
            decreases children.len() - i,
        {
            proof {
                assert(cv.take(i + 1).drop_last() =~= cv.take(i as int));
                assert(cv.take(i + 1).last() == cv[i as int]);
                assert(cv[i as int] == children@[i as int]@);
            }
            let child = &children[i];
            match classify(child.name.as_str(), child.is_dir) {
                EntryKind::Subfolder => {
                    let s = SubFolder::new(child.name.as_str(), root_path, &child.files);
                    sf.push(s);
                },
                EntryKind::Image => {
                    let m = Media::new(child.name.as_str(), root_path, MediaType::Image);
                    img.push(m);
                },
                EntryKind::Video => {
                    let m = Media::new(child.name.as_str(), root_path, MediaType::Video);
                    vid.push(m);
                },
                EntryKind::Ignored => {},
            }
            proof {
                assert(sub_views(sf@) =~= subs_of(root_path@, cv.take(i + 1)));
                assert(media_views(img@) =~= imgs_of(root_path@, cv.take(i + 1)));
                assert(media_views(vid@) =~= vids_of(root_path@, cv.take(i + 1)));
            }
            i = i + 1;
        }
        proof {
            assert(cv.take(cv.len() as int) =~= cv);
        }
        (sf, img, vid)
    }

    /// Scans a root's children into three shuffled pools, recommends a
    /// display mode from what the pools hold, and stands ready to walk the
    /// recommended pool.
    pub fn set_folder(root_path: String, children: Vec<RawChild>, rng: &mut nanorand::WyRand) -> (r:
        (AppFolderManager, AppMode))
        ensures
            r.0.root_path@ == root_path@,
            sub_views(r.0.subfolders@).to_multiset() == subs_of(
                root_path@,
                child_views(children@),
            ).to_multiset(),
            media_views(r.0.images@).to_multiset() == imgs_of(
                root_path@,
                child_views(children@),
            ).to_multiset(),
            media_views(r.0.videos@).to_multiset() == vids_of(
                root_path@,
                child_views(children@),
            ).to_multiset(),
            r.0.subfolders@.len() == subs_of(root_path@, child_views(children@)).len(),
            r.0.images@.len() == imgs_of(root_path@, child_views(children@)).len(),
            r.0.videos@.len() == vids_of(root_path@, child_views(children@)).len(),
            r.1 == recommended_mode(
                subs_of(root_path@, child_views(children@)).len(),
                imgs_of(root_path@, child_views(children@)).len(),
                vids_of(root_path@, child_views(children@)).len(),
            ),
            r.0.mode == r.1,
            r.0.curr is None,
            r.0.history@.len() == 0,
            r.0.remaining@.len() == r.0.pool_len(),
            r.0.wf(),
    {
        let (mut sf, mut img, mut vid) = Self::scan_folder(root_path.as_str(), &children);
        proof {
            broadcast use vstd::seq_lib::group_to_multiset_ensures;

            assert(sub_views(sf@) =~= sf@.map_values(|x: SubFolder| x@));
            assert(media_views(img@) =~= img@.map_values(|x: Media| x@));
            assert(media_views(vid@) =~= vid@.map_values(|x: Media| x@));
        }
        shuffle_vec(rng, &mut sf);
        shuffle_vec(rng, &mut img);
        shuffle_vec(rng, &mut vid);
        proof {
            assert(sub_views(sf@) =~= sf@.map_values(|x: SubFolder| x@));
            assert(media_views(img@) =~= img@.map_values(|x: Media| x@));
            assert(media_views(vid@) =~= vid@.map_values(|x: Media| x@));
        }
        let rec: AppMode = if sf.is_empty() && !img.is_empty() {
            AppMode::Images
        } else if sf.is_empty() && img.is_empty() && !vid.is_empty() {
            AppMode::Videos
        } else {
            AppMode::SubFolders
        };
        proof {
            broadcast use vstd::seq_lib::group_to_multiset_ensures;
        }
        let mut m = AppFolderManager {
            root_path,
            subfolders: sf,
            images: img,
            videos: vid,
            mode: rec,
            remaining: Vec::new(),
            history: Vec::new(),
            curr: None,
        };
        m.fresh_walker();
        (m, rec)
    }
}

/// What one successful draw does: some remaining index moves to the current
/// slot, the entry shown before (if any) joins the history, and nothing else
/// moves.
pub open spec fn drew_step(
    pre_remaining: Seq<usize>,
    pre_history: Seq<usize>,
    pre_curr: Seq<usize>,
    post: AppFolderManager,
) -> bool {
    &&& post.curr is Some
    &&& pre_remaining.contains(post.curr.unwrap())
    &&& post.remaining@.to_multiset() == pre_remaining.to_multiset().remove(post.curr.unwrap())
    &&& post.remaining@.len() == pre_remaining.len() - 1
    &&& post.history@ == pre_history + pre_curr
}

/// What one successful step back does: the most recent history entry becomes
/// current, and the entry shown before returns to the remaining pool.
pub open spec fn stepped_back(
    pre_remaining: Seq<usize>,
    pre_history: Seq<usize>,
    pre_curr: Seq<usize>,
    post: AppFolderManager,
) -> bool {
    &&& pre_history.len() > 0
    &&& post.curr == Some(pre_history.last())
    &&& post.history@ == pre_history.drop_last()
    &&& post.remaining@.to_multiset() == pre_remaining.to_multiset().add(pre_curr.to_multiset())
}

impl AppFolderManager {
    /// Draws one not-yet-shown entry of the active pool at random; fails
    /// exactly when everything has been shown.
    fn draw(&mut self, rng: &mut nanorand::WyRand) -> (r: Result<(), ()>)
        requires
            old(self).wf(),
        ensures
            final(self).wf(),
            final(self).same_pools(*old(self)),
            final(self).mode == old(self).mode,
            match r {
                Ok(()) => drew_step(
                    old(self).remaining@,
                    old(self).history@,
                    old(self).curr_seq(),
                    *final(self),
                ),
                Err(()) => old(self).remaining@.len() == 0 && final(self).walker_eq(*old(self)),
            },
    {
        broadcast use vstd::seq_lib::group_to_multiset_ensures;
        broadcast use vstd::multiset::group_multiset_axioms;

        let n = self.remaining.len();
        if n == 0 {
            return Err(());
        }
        let k = rand_below(rng, n);
        let j = self.remaining.remove(k);
        proof {
            assert(old(self).remaining@.contains(j));
            assert(old(self).remaining@.to_multiset().count(j) > 0);
            assert(self.remaining@ == old(self).remaining@.remove(k as int));
            assert(self.remaining@.to_multiset() == old(self).remaining@.to_multiset().remove(j));
        }
        let prev_curr = self.curr;
        match prev_curr {
            Some(c) => self.history.push(c),
            None => {},
        }
        self.curr = Some(j);
        proof {
            assert(self.history@ == old(self).history@ + old(self).curr_seq()) by {
                match old(self).curr {
                    Some(c) => {
                        assert(self.history@ =~= old(self).history@ + seq![c]);
                    },
                    None => {
                        assert(self.history@ =~= old(self).history@ + Seq::<usize>::empty());
                    },
                }
            }
            assert(self.curr_seq() =~= Seq::<usize>::empty().push(j));
            assert forall|x: usize| #[trigger] self.nav_ms().count(x) == if (x as nat)
                < self.pool_len() {
                1nat
            } else {
                0nat
            } by {
                assert(old(self).nav_ms().count(x) == if (x as nat) < old(self).pool_len() {
                    1nat
                } else {
                    0nat
                });
                match old(self).curr {
                    Some(c) => {
                        assert(self.history@.to_multiset() == old(
                            self,
                        ).history@.to_multiset().insert(c));
                    },
                    None => {},
                }
                assert(self.curr_seq().to_multiset() == Seq::<usize>::empty().to_multiset().insert(
                    j,
                ));
                assert(!Seq::<usize>::empty().contains(x));
                assert(Seq::<usize>::empty().to_multiset().count(x) == 0);
            }
        }
        Ok(())
    }

    /// Shows the next entry: switching modes restarts the walk on the new
    /// pool, then a random unseen entry of the active pool is drawn.  Fails
    /// exactly when the active pool holds nothing unseen; the caller is then
    /// expected to rescan the root or fall back to choosing a folder.
    pub fn next(&mut self, app_mode: AppMode, rng: &mut nanorand::WyRand) -> (r: Result<(), ()>)
        requires
            old(self).wf(),
        ensures
            final(self).wf(),
            final(self).same_pools(*old(self)),
            final(self).mode == app_mode,
            app_mode == old(self).mode ==> match r {
                Ok(()) => drew_step(
                    old(self).remaining@,
                    old(self).history@,
                    old(self).curr_seq(),
                    *final(self),
                ),
                Err(()) => old(self).remaining@.len() == 0 && final(self).walker_eq(*old(self)),
            },
            app_mode != old(self).mode ==> match r {
                Ok(()) => drew_step(
                    ids(old(self).pool_len_for(app_mode)),
                    Seq::empty(),
                    Seq::empty(),
                    *final(self),
                ),
                Err(()) => old(self).pool_len_for(app_mode) == 0 && final(self).remaining@.len()
                    == 0 && final(self).history@.len() == 0 && final(self).curr is None,
            },
    {
        if self.mode != app_mode {
            self.mode = app_mode;
            self.fresh_walker();
        }
        self.draw(rng)
    }

    /// Shows the previous entry again: the most recent history entry, with
    /// the entry on display returned to the pool.  With no history to rewind
    /// to it draws a fresh entry instead, so stepping back fails only when
    /// the whole pool is exhausted; with history present it always succeeds.
    pub fn prev(&mut self, app_mode: AppMode, rng: &mut nanorand::WyRand) -> (r: Result<(), ()>)
        requires
            old(self).wf(),
        ensures
            final(self).wf(),
            final(self).same_pools(*old(self)),
            final(self).mode == app_mode,
            app_mode == old(self).mode && old(self).history@.len() > 0 ==> r is Ok
                && final(self).curr is Some,
            app_mode == old(self).mode ==> match r {
                Ok(()) => stepped_back(
                    old(self).remaining@,
                    old(self).history@,
                    old(self).curr_seq(),
                    *final(self),
                ) || (old(self).history@.len() == 0 && drew_step(
                    old(self).remaining@,
                    old(self).history@,
                    old(self).curr_seq(),
                    *final(self),
                )),
                Err(()) => old(self).history@.len() == 0 && old(self).remaining@.len() == 0
                    && final(self).walker_eq(*old(self)),
            },
            app_mode != old(self).mode ==> match r {
                Ok(()) => drew_step(
                    ids(old(self).pool_len_for(app_mode)),
                    Seq::empty(),
                    Seq::empty(),
                    *final(self),
                ),
                Err(()) => old(self).pool_len_for(app_mode) == 0 && final(self).remaining@.len()
                    == 0 && final(self).history@.len() == 0 && final(self).curr is None,
            },
    {
        broadcast use vstd::seq_lib::group_to_multiset_ensures;
        broadcast use vstd::multiset::group_multiset_axioms;

        if self.mode != app_mode {
            self.mode = app_mode;
            self.fresh_walker();
            return self.draw(rng);
        }
        match self.history.pop() {
            Some(h) => {
                proof {
                    assert(old(self).history@.contains(h));
                    assert(old(self).history@.to_multiset().count(h) > 0);
                    assert(old(self).history@ =~= old(self).history@.drop_last().push(h));
                    assert(old(self).history@.to_multiset() == old(
                        self,
                    ).history@.drop_last().to_multiset().insert(h));
                }
                let prev_curr = self.curr;
                match prev_curr {
                    Some(c) => self.remaining.push(c),
                    None => {},
                }
                self.curr = Some(h);
                proof {
                    assert(self.remaining@.to_multiset() == old(
                        self,
                    ).remaining@.to_multiset().add(old(self).curr_seq().to_multiset())) by {
                        match old(self).curr {
                            Some(c) => {
                                assert(old(self).curr_seq() =~= Seq::<usize>::empty().push(c));
                                assert(old(self).curr_seq().to_multiset() == Seq::<
                                    usize,
                                >::empty().to_multiset().insert(c));
                                assert(!Seq::<usize>::empty().contains(c));
                                assert(Multiset::<usize>::empty().insert(c)
                                    =~= Multiset::singleton(c));
                            },
                            None => {
                                assert(old(self).curr_seq().to_multiset().len() == 0);
                                assert(old(self).curr_seq().to_multiset()
                                    =~= Multiset::<usize>::empty());
                                assert(self.remaining@.to_multiset() =~= old(
                                    self,
                                ).remaining@.to_multiset().add(Multiset::<usize>::empty()));
                            },
                        }
                    }
                    assert(self.curr_seq() =~= Seq::<usize>::empty().push(h));
                    assert forall|x: usize| #[trigger] self.nav_ms().count(x) == if (x as nat)
                        < self.pool_len() {
                        1nat
                    } else {
                        0nat
                    } by {
                        assert(old(self).nav_ms().count(x) == if (x as nat) < old(
                            self,
                        ).pool_len() {
                            1nat
                        } else {
                            0nat
                        });
                        assert(self.curr_seq().to_multiset() == Seq::<
                            usize,
                        >::empty().to_multiset().insert(h));
                        assert(!Seq::<usize>::empty().contains(x));
                        assert(Seq::<usize>::empty().to_multiset().count(x) == 0);
                    }
                }
                Ok(())
            },
            None => {
                proof {
                    assert(old(self).history@.len() == 0);
                    assert(self.walker_eq(*old(self)));
                    assert(self.curr_seq() == old(self).curr_seq());
                    assert(self.nav_ms() == old(self).nav_ms());
                    assert(self.wf());
                }
                self.draw(rng)
            },
        }
    }
}

/// A sequence that holds an element still holds it after more is appended.
proof fn lemma_concat_contains<A>(a: Seq<A>, b: Seq<A>, x: A)
    requires
        a.contains(x),
    ensures
        (a + b).contains(x),
{
    let k = choose|k: int| 0 <= k < a.len() && a[k] == x;
    assert((a + b)[k] == x);
}

/// One scan partitions the children: the pool sizes add up to the number of
/// children, each child lands in the pool its classification names, and
/// every pool entry comes from some child so classified.
pub proof fn lemma_scan_partition(root: Seq<char>, cs: Seq<RawChildV>)
    ensures
        subs_of(root, cs).len() + imgs_of(root, cs).len() + vids_of(root, cs).len() + ignored_of(
            cs,
        ).len() == cs.len(),
        forall|i: int|
            0 <= i < cs.len() && (#[trigger] classify_spec(cs[i].name, cs[i].is_dir)) is Subfolder
                ==> subs_of(root, cs).contains(sub_entry(root, cs[i].name, cs[i].files)),
        forall|i: int|
            0 <= i < cs.len() && (#[trigger] classify_spec(cs[i].name, cs[i].is_dir)) is Image
                ==> imgs_of(root, cs).contains(media_entry(root, cs[i].name, MediaType::Image)),
        forall|i: int|
            0 <= i < cs.len() && (#[trigger] classify_spec(cs[i].name, cs[i].is_dir)) is Video
                ==> vids_of(root, cs).contains(media_entry(root, cs[i].name, MediaType::Video)),
        forall|i: int|
            0 <= i < cs.len() && (#[trigger] classify_spec(cs[i].name, cs[i].is_dir)) is Ignored
                ==> ignored_of(cs).contains(cs[i].name),
        forall|k: int|
            #![trigger subs_of(root, cs)[k]]
            0 <= k < subs_of(root, cs).len() ==> exists|i: int|
                #![auto]
                0 <= i < cs.len() && classify_spec(cs[i].name, cs[i].is_dir) is Subfolder
                    && subs_of(root, cs)[k] == sub_entry(root, cs[i].name, cs[i].files),
        forall|k: int|
            #![trigger imgs_of(root, cs)[k]]
            0 <= k < imgs_of(root, cs).len() ==> exists|i: int|
                #![auto]
                0 <= i < cs.len() && classify_spec(cs[i].name, cs[i].is_dir) is Image
                    && imgs_of(root, cs)[k] == media_entry(root, cs[i].name, MediaType::Image),
        forall|k: int|
            #![trigger vids_of(root, cs)[k]]
            0 <= k < vids_of(root, cs).len() ==> exists|i: int|
                #![auto]
                0 <= i < cs.len() && classify_spec(cs[i].name, cs[i].is_dir) is Video
                    && vids_of(root, cs)[k] == media_entry(root, cs[i].name, MediaType::Video),
    decreases cs.len(),
{
    if cs.len() == 0 {
        return ;
    }
    let dl = cs.drop_last();
    let last = cs.last();
    lemma_scan_partition(root, dl);
    assert(forall|i: int| 0 <= i < dl.len() ==> cs[i] == dl[i]);
    let ksub = subs_of(root, cs);
    let kimg = imgs_of(root, cs);
    let kvid = vids_of(root, cs);
    let kign = ignored_of(cs);
    assert forall|i: int|
        0 <= i < cs.len() && (#[trigger] classify_spec(cs[i].name, cs[i].is_dir))
            is Subfolder implies ksub.contains(sub_entry(root, cs[i].name, cs[i].files)) by {
        if i < dl.len() {
            lemma_concat_contains(
                subs_of(root, dl),
                ksub.skip(subs_of(root, dl).len() as int),
                sub_entry(root, cs[i].name, cs[i].files),
            );
            assert(ksub =~= subs_of(root, dl) + ksub.skip(subs_of(root, dl).len() as int));
        } else {
            assert(ksub[subs_of(root, dl).len() as int] == sub_entry(root, last.name, last.files));
        }
    }
    assert forall|i: int|
        0 <= i < cs.len() && (#[trigger] classify_spec(cs[i].name, cs[i].is_dir))
            is Image implies kimg.contains(media_entry(root, cs[i].name, MediaType::Image)) by {
        if i < dl.len() {
            lemma_concat_contains(
                imgs_of(root, dl),
                kimg.skip(imgs_of(root, dl).len() as int),
                media_entry(root, cs[i].name, MediaType::Image),
            );
            assert(kimg =~= imgs_of(root, dl) + kimg.skip(imgs_of(root, dl).len() as int));
        } else {
            assert(kimg[imgs_of(root, dl).len() as int] == media_entry(
                root,
                last.name,
                MediaType::Image,
            ));
        }
    }
    assert forall|i: int|
        0 <= i < cs.len() && (#[trigger] classify_spec(cs[i].name, cs[i].is_dir))
            is Video implies kvid.contains(media_entry(root, cs[i].name, MediaType::Video)) by {
        if i < dl.len() {
            lemma_concat_contains(
                vids_of(root, dl),
                kvid.skip(vids_of(root, dl).len() as int),
                media_entry(root, cs[i].name, MediaType::Video),
            );
            assert(kvid =~= vids_of(root, dl) + kvid.skip(vids_of(root, dl).len() as int));
        } else {
            assert(kvid[vids_of(root, dl).len() as int] == media_entry(
                root,
                last.name,
                MediaType::Video,
            ));
        }
    }
    assert forall|i: int|
        0 <= i < cs.len() && (#[trigger] classify_spec(cs[i].name, cs[i].is_dir))
            is Ignored implies kign.contains(cs[i].name) by {
        if i < dl.len() {
            lemma_concat_contains(
                ignored_of(dl),
                kign.skip(ignored_of(dl).len() as int),
                cs[i].name,
            );
            assert(kign =~= ignored_of(dl) + kign.skip(ignored_of(dl).len() as int));
        } else {
            assert(kign[ignored_of(dl).len() as int] == last.name);
        }
    }
    assert forall|k: int| #![trigger ksub[k]] 0 <= k < ksub.len() implies exists|i: int|
        #![auto]
        0 <= i < cs.len() && classify_spec(cs[i].name, cs[i].is_dir) is Subfolder && ksub[k]
            == sub_entry(root, cs[i].name, cs[i].files) by {
        if k < subs_of(root, dl).len() {
            assert(ksub[k] == subs_of(root, dl)[k]);
        } else {
            assert(ksub[k] == sub_entry(root, cs[cs.len() - 1].name, cs[cs.len() - 1].files));
        }
    }
    assert forall|k: int| #![trigger kimg[k]] 0 <= k < kimg.len() implies exists|i: int|
        #![auto]
        0 <= i < cs.len() && classify_spec(cs[i].name, cs[i].is_dir) is Image && kimg[k]
            == media_entry(root, cs[i].name, MediaType::Image) by {
        if k < imgs_of(root, dl).len() {
            assert(kimg[k] == imgs_of(root, dl)[k]);
        } else {
            assert(kimg[k] == media_entry(root, cs[cs.len() - 1].name, MediaType::Image));
        }
    }
    assert forall|k: int| #![trigger kvid[k]] 0 <= k < kvid.len() implies exists|i: int|
        #![auto]
        0 <= i < cs.len() && classify_spec(cs[i].name, cs[i].is_dir) is Video && kvid[k]
            == media_entry(root, cs[i].name, MediaType::Video) by {
        if k < vids_of(root, dl).len() {
            assert(kvid[k] == vids_of(root, dl)[k]);
        } else {
            assert(kvid[k] == media_entry(root, cs[cs.len() - 1].name, MediaType::Video));
        }
    }
}

/// In every well-formed walker state, no index waits in the remaining pool
/// while also standing in the history or on display: the three places are
/// disjoint.
pub proof fn lemma_remaining_history_disjoint(m: AppFolderManager)
    requires
        m.wf(),
    ensures
        forall|x: usize| !(m.remaining@.contains(x) && m.history@.contains(x)),
        m.curr is Some ==> !m.remaining@.contains(m.curr.unwrap()) && !m.history@.contains(
            m.curr.unwrap(),
        ),
{
    broadcast use vstd::seq_lib::group_to_multiset_ensures;
    broadcast use vstd::multiset::group_multiset_axioms;

    assert forall|x: usize| !(m.remaining@.contains(x) && m.history@.contains(x)) by {
        if m.remaining@.contains(x) && m.history@.contains(x) {
            assert(m.remaining@.to_multiset().count(x) >= 1);
            assert(m.history@.to_multiset().count(x) >= 1);
            assert(m.nav_ms().count(x) >= 2);
        }
    }
    if m.curr is Some {
        let c = m.curr.unwrap();
        assert(m.curr_seq() =~= Seq::<usize>::empty().push(c));
        assert(m.curr_seq().to_multiset() == Seq::<usize>::empty().to_multiset().insert(c));
        assert(!Seq::<usize>::empty().contains(c));
        assert(m.curr_seq().to_multiset().count(c) == 1);
        if m.remaining@.contains(c) {
            assert(m.remaining@.to_multiset().count(c) >= 1);
            assert(m.nav_ms().count(c) >= 2);
        }
        if m.history@.contains(c) {
            assert(m.history@.to_multiset().count(c) >= 1);
            assert(m.nav_ms().count(c) >= 2);
        }
    }
}

/// When the remaining pool has drained, the history and the entry on display
/// together hold every index of the active pool exactly once: the pool was
/// shown in full, with no repeats, after exactly as many draws as it has
/// entries.
pub proof fn lemma_drained_covers_pool(m: AppFolderManager)
    requires
        m.wf(),
        m.remaining@.len() == 0,
        m.pool_len() <= usize::MAX,
    ensures
        (m.history@ + m.curr_seq()).len() == m.pool_len(),
        (m.history@ + m.curr_seq()).no_duplicates(),
        forall|j: usize| (j as nat) < m.pool_len() ==> (m.history@ + m.curr_seq()).contains(j),
{
    broadcast use vstd::seq_lib::group_to_multiset_ensures;
    broadcast use vstd::multiset::group_multiset_axioms;

    let hc = m.history@ + m.curr_seq();
    vstd::seq_lib::lemma_multiset_commutative(m.history@, m.curr_seq());
    assert forall|j: usize| #[trigger] hc.to_multiset().count(j) == if (j as nat) < m.pool_len() {
        1nat
    } else {
        0nat
    } by {
        assert(!m.remaining@.contains(j));
        assert(m.remaining@.to_multiset().count(j) == 0);
        assert(m.nav_ms().count(j) == if (j as nat) < m.pool_len() {
            1nat
        } else {
            0nat
        });
    }
    lemma_ids_multiset(m.pool_len());
    assert(hc.to_multiset() =~= ids(m.pool_len()).to_multiset());
    assert(ids(m.pool_len()).to_multiset().len() == ids(m.pool_len()).len());
    assert(hc.to_multiset().len() == hc.len());
    hc.lemma_multiset_has_no_duplicates_conv();
    assert forall|j: usize| (j as nat) < m.pool_len() implies hc.contains(j) by {
        assert(hc.to_multiset().count(j) == 1);
    }
}

} // verus!
