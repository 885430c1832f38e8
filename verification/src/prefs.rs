//! The durable preferences: the set of favorite root folders and the display
//! mode, serialized as newline-delimited paths in a fixed per-user file.

use vstd::prelude::*;
use vstd::string::*;
use crate::strutil::{
    first_index_of, join_path, lemma_first_index_of_is, name_views, path_join, str_eq,
};

verus! {

/// The display modes the application can run in.
#[derive(Debug, Hash, PartialEq, Eq, Clone, Copy, Structural)]
pub enum AppMode {
    SubFolders,
    Images,
    Videos,
}

impl core::default::Default for AppMode {
    /// Subfolder browsing is the mode assumed when nothing better is known.
    fn default() -> (m: AppMode)
        ensures
            m == AppMode::SubFolders,
    {
        AppMode::SubFolders
    }
}

/// Extending a list of names by one keeps the old names and adds the new one.
proof fn lemma_push_contains(v: Seq<Seq<char>>, x: Seq<char>, y: Seq<char>)
    ensures
        v.push(x).contains(y) <==> (v.contains(y) || y == x),
{
    if v.push(x).contains(y) {
        let k = choose|k: int| 0 <= k < v.push(x).len() && v.push(x)[k] == y;
        if k < v.len() {
            assert(v[k] == y);
        }
    }
    if v.contains(y) {
        let k = choose|k: int| 0 <= k < v.len() && v[k] == y;
        assert(v.push(x)[k] == y);
    }
    if y == x {
        assert(v.push(x)[v.len() as int] == y);
    }
}

/// The user's preferences: favorite root folders, each kept once, and the
/// last display mode.
#[derive(Debug)]
pub struct AppPreferences {
    pub favs_folders: Vec<String>,
    pub app_mode: AppMode,
}

impl AppPreferences {
    /// The favorites as a set of paths.
    pub open spec fn favs(self) -> Set<Seq<char>> {
        Set::new(|x: Seq<char>| name_views(self.favs_folders@).contains(x))
    }

    /// Each favorite is kept at most once.
    pub open spec fn wf(self) -> bool {
        name_views(self.favs_folders@).no_duplicates()
    }

    /// Whether `path` is a favorite.
    pub fn contains_path(&self, path: &str) -> (r: bool)
        ensures
            r == self.favs().contains(path@),
    {
        let ghost sv = name_views(self.favs_folders@);
        let mut i: usize = 0;
        while i < self.favs_folders.len()
            invariant
                0 <= i <= self.favs_folders.len(),
                sv == name_views(self.favs_folders@),
                sv.len() == self.favs_folders@.len(),
                forall|k: int| 0 <= k < i ==> sv[k] != path@,
            decreases self.favs_folders.len() - i,
        {
            if str_eq(self.favs_folders[i].as_str(), path) {
                assert(sv[i as int] == path@);
                assert(sv.contains(path@));
                return true;
            }
            i = i + 1;
        }
        proof {
            assert(!sv.contains(path@));
        }
        false
    }

    /// Adds a favorite; reports whether the set actually changed.
    pub fn insert(&mut self, path: String) -> (r: bool)
        requires
            old(self).wf(),
        ensures
            final(self).wf(),
            r == !old(self).favs().contains(path@),
            final(self).favs() == old(self).favs().insert(path@),
            final(self).app_mode == old(self).app_mode,
            r ==> final(self).favs_folders@ == old(self).favs_folders@.push(path),
            !r ==> final(self).favs_folders@ == old(self).favs_folders@,
    {
        let ghost pv = path@;
        if self.contains_path(path.as_str()) {
            proof {
                assert(self.favs() =~= old(self).favs().insert(pv));
            }
            return false;
        }
        let ghost oldv = name_views(self.favs_folders@);
        self.favs_folders.push(path);
        proof {
            let nv = name_views(self.favs_folders@);
            assert(nv =~= oldv.push(pv));
            assert forall|a: int, b: int| 0 <= a < b < nv.len() implies nv[a] != nv[b] by {
                if b == oldv.len() {
                    assert(nv[a] == oldv[a]);
                    assert(oldv.contains(oldv[a]));
                    assert(oldv[a] != pv);
                }
            }
            assert forall|x: Seq<char>| self.favs().contains(x) == old(self).favs().insert(
                pv,
            ).contains(x) by {
                lemma_push_contains(oldv, pv, x);
            }
            assert(self.favs() =~= old(self).favs().insert(pv));
        }
        true
    }

    /// Drops a favorite; reports whether the set actually changed.
    pub fn remove(&mut self, path: &str) -> (r: bool)
        requires
            old(self).wf(),
        ensures
            final(self).wf(),
            r == old(self).favs().contains(path@),
            final(self).favs() == old(self).favs().remove(path@),
            final(self).app_mode == old(self).app_mode,
    {
        let ghost oldv = name_views(old(self).favs_folders@);
        let mut i: usize = 0;
        while i < self.favs_folders.len()
            invariant
                0 <= i <= self.favs_folders.len(),
                *self == *old(self),
                oldv == name_views(self.favs_folders@),
                oldv.len() == self.favs_folders@.len(),
                oldv.no_duplicates(),
                forall|k: int| 0 <= k < i ==> oldv[k] != path@,
            decreases self.favs_folders.len() - i,
        {
            if str_eq(self.favs_folders[i].as_str(), path) {
                assert(oldv[i as int] == path@);
                assert(oldv.contains(path@));
                self.favs_folders.remove(i);
                proof {
                    let nv = name_views(self.favs_folders@);
                    assert(self.favs_folders@ == old(self).favs_folders@.remove(i as int));
                    assert(self.favs_folders@.len() == oldv.len() - 1);
                    assert forall|k: int| 0 <= k < nv.len() implies nv[k] == oldv[if k < i {
                        k
                    } else {
                        k + 1
                    }] by {
                        let k0: int = if k < i { k } else { k + 1 };
                        assert(self.favs_folders@[k] == old(self).favs_folders@[k0]);
                        assert(nv[k] == self.favs_folders@[k]@);
                        assert(oldv[k0] == old(self).favs_folders@[k0]@);
                    }
                    assert(oldv.no_duplicates());
                    assert forall|a: int, b: int| 0 <= a < b < nv.len() implies nv[a] != nv[b] by {
                        let a0: int = if a < i { a } else { a + 1 };
                        let b0: int = if b < i { b } else { b + 1 };
                        assert(0 <= a0 < oldv.len());
                        assert(0 <= b0 < oldv.len());
                        assert(a0 != b0);
                        assert(nv[a] == oldv[a0]);
                        assert(nv[b] == oldv[b0]);
                        assert(oldv[a0] != oldv[b0]);
                    }
                    assert forall|x: Seq<char>| self.favs().contains(x) == old(self).favs().remove(
                        path@,
                    ).contains(x) by {
                        if x == path@ {
                            if nv.contains(x) {
                                let k = choose|k: int| 0 <= k < nv.len() && nv[k] == x;
                                let k0 = if k < i { k } else { k + 1 };
                                assert(nv[k] == oldv[k0]);
                                assert(oldv[k0] == x && oldv[i as int] == x && k0 != i);
                            }
                        } else {
                            if oldv.contains(x) {
                                let k = choose|k: int| 0 <= k < oldv.len() && oldv[k] == x;
                                assert(k != i);
                                let k1 = if k < i { k } else { k - 1 };
                                assert(nv[k1] == oldv[k]);
                                assert(nv.contains(x));
                            }
                            if nv.contains(x) {
                                let k = choose|k: int| 0 <= k < nv.len() && nv[k] == x;
                                let k0 = if k < i { k } else { k + 1 };
                                assert(nv[k] == oldv[k0]);
                                assert(oldv.contains(x));
                            }
                        }
                    }
                    assert(self.favs() =~= old(self).favs().remove(path@));
                }
                return true;
            }
            i = i + 1;
        }
        proof {
            assert(!oldv.contains(path@));
            assert(self.favs() =~= old(self).favs().remove(path@));
        }
        false
    }

    /// The favorites joined by newlines, one path per line, no trailing
    /// newline.
    pub open spec fn lines_join(v: Seq<Seq<char>>) -> Seq<char>
        decreases v.len(),
    {
        if v.len() == 0 {
            Seq::empty()
        } else if v.len() == 1 {
            v[0]
        } else {
            Self::lines_join(v.drop_last()) + seq!['\n'] + v.last()
        }
    }

    /// Serializes the favorites for the preferences file.
    pub fn to_text(&self) -> (r: String)
        ensures
            r@ == Self::lines_join(name_views(self.favs_folders@)),
    {
        let ghost sv = name_views(self.favs_folders@);
        let mut s = String::new();
        let mut i: usize = 0;
        while i < self.favs_folders.len()
            invariant
                0 <= i <= self.favs_folders.len(),
                sv == name_views(self.favs_folders@),
                sv.len() == self.favs_folders@.len(),
                s@ == Self::lines_join(sv.take(i as int)),
            decreases self.favs_folders.len() - i,
        {
            proof {
                assert(sv.take(i + 1).drop_last() =~= sv.take(i as int));
                assert(sv.take(i + 1).last() == sv[i as int]);
            }
            if i > 0 {
                s.append("\n");
                proof {
                    reveal_strlit("\n");
                    assert("\n"@ =~= seq!['\n']);
                }
            }
            s.append(self.favs_folders[i].as_str());
            proof {
                if i == 0 {
                    assert(sv.take(1int)[0] == sv[0]);
                    assert(s@ =~= Self::lines_join(sv.take(1int)));
                } else {
                    assert(s@ =~= Self::lines_join(sv.take(i + 1)));
                }
            }
            i = i + 1;
        }
        proof {
            assert(sv.take(sv.len() as int) =~= sv);
        }
        s
    }

    /// The lines of a text: pieces split at each newline, the final piece
    /// dropped when the text ends with a newline.
    pub open spec fn split_lines(t: Seq<char>) -> Seq<Seq<char>>
        decreases t.len(),
    {
        if t.len() == 0 {
            Seq::empty()
        } else {
            let i = first_index_of(t, '\n');
            if !(0 <= i < t.len()) {
                seq![t]
            } else {
                seq![t.subrange(0, i)] + Self::split_lines(t.subrange(i + 1, t.len() as int))
            }
        }
    }

    /// Reads favorites back from the preferences file's text, keeping each
    /// line once; the display mode starts at its default.
    pub fn from_text(text: &str) -> (p: AppPreferences)
        ensures
            p.wf(),
            p.app_mode == AppMode::SubFolders,
            forall|x: Seq<char>| p.favs().contains(x) == Self::split_lines(text@).contains(x),
    {
        let mut p = AppPreferences { favs_folders: Vec::new(), app_mode: AppMode::SubFolders };
        proof {
            assert(name_views(p.favs_folders@) =~= Seq::<Seq<char>>::empty());
        }
        let len = text.unicode_len();
        let mut start: usize = 0;
        let ghost mut processed: Seq<Seq<char>> = Seq::empty();
        proof {
            assert(text@.skip(0) =~= text@);
        }
        loop
            invariant_except_break
                Self::split_lines(text@) == processed + Self::split_lines(
                    text@.skip(start as int),
                ),
            invariant
                0 <= start <= len,
                len == text@.len(),
                p.wf(),
                p.app_mode == AppMode::SubFolders,
                forall|x: Seq<char>| p.favs().contains(x) == processed.contains(x),
            ensures
                p.wf(),
                p.app_mode == AppMode::SubFolders,
                Self::split_lines(text@) == processed,
                forall|x: Seq<char>| p.favs().contains(x) == processed.contains(x),
            decreases len - start,
        {
            if start == len {
                proof {
                    assert(text@.skip(start as int).len() == 0);
                    assert(processed + Self::split_lines(text@.skip(start as int)) =~= processed);
                }
                break;
            }
            let ghost t2 = text@.skip(start as int);
            let mut j: usize = start;
            while j < len && text.get_char(j) != '\n'
                invariant
                    start <= j <= len,
                    len == text@.len(),
                    forall|k: int| start <= k < j ==> text@[k] != '\n',
                decreases len - j,
            {
                j = j + 1;
            }
            proof {
                assert(forall|k: int| 0 <= k < j - start ==> t2[k] == text@[k + start] && t2[k]
                    != '\n');
                if j < len {
                    assert(t2[j - start] == text@[j as int]);
                }
                lemma_first_index_of_is(t2, '\n', j - start);
            }
            let piece = text.substring_char(start, j).to_owned();
            let ghost pv = piece@;
            proof {
                assert(pv =~= t2.subrange(0, j - start));
                if j == len {
                    assert(first_index_of(t2, '\n') == t2.len());
                    assert(Self::split_lines(t2) == seq![t2]);
                    assert(t2 =~= pv);
                    assert(seq![t2] =~= seq![pv]);
                } else {
                    assert(t2.subrange(j - start + 1, t2.len() as int) =~= text@.skip(j + 1));
                    assert(Self::split_lines(t2) == seq![pv] + Self::split_lines(
                        text@.skip(j + 1),
                    ));
                }
            }
            p.insert(piece);
            proof {
                let oldp = processed;
                processed = processed.push(pv);
                assert(oldp + seq![pv] =~= processed);
                assert forall|x: Seq<char>| p.favs().contains(x) == processed.contains(x) by {
                    lemma_push_contains(oldp, pv, x);
                }
                if j == len {
                    assert(Self::split_lines(text@) == processed);
                } else {
                    assert(oldp + (seq![pv] + Self::split_lines(text@.skip(j + 1))) =~= processed
                        + Self::split_lines(text@.skip(j + 1)));
                }
            }
            if j == len {
                break;
            }
            start = j + 1;
        }
        p
    }

    /// Relies on dirs::config_dir: the per-user configuration directory, when
    /// the platform defines one and its path is valid UTF-8.
    #[verifier::external_body]
    fn user_config_dir() -> (r: Option<String>) {
        dirs::config_dir().and_then(|p| p.to_str().map(|s| s.to_string()))
    }

    /// The preferences file's path under the user's configuration directory,
    /// when the platform defines one.
    pub fn config_file_path() -> (r: Option<String>)
        ensures
            match r {
                Some(p) => exists|base: Seq<char>|
                    p@ == #[trigger] path_join(path_join(base, "wfns_manager"@), "favs_folders"@),
                None => true,
            },
    {
        match Self::user_config_dir() {
            Some(base) => {
                let d = join_path(base.as_str(), "wfns_manager");
                let f = join_path(d.as_str(), "favs_folders");
                proof {
                    assert(f@ == path_join(path_join(base@, "wfns_manager"@), "favs_folders"@));
                }
                Some(f)
            },
            None => None,
        }
    }
}

impl core::default::Default for AppPreferences {
    /// An empty favorites set in the default mode.
    fn default() -> (p: AppPreferences)
        ensures
            p.wf(),
            p.favs() == Set::<Seq<char>>::empty(),
            p.app_mode == AppMode::SubFolders,
    {
        let p = AppPreferences { favs_folders: Vec::new(), app_mode: AppMode::SubFolders };
        proof {
            assert(name_views(p.favs_folders@) =~= Seq::<Seq<char>>::empty());
            assert(p.favs() =~= Set::<Seq<char>>::empty());
        }
        p
    }
}

/// A path that is not yet a favorite can be added and taken away again
/// without disturbing the rest of the favorites.
pub proof fn lemma_insert_then_remove(favs: Set<Seq<char>>, path: Seq<char>)
    requires
        !favs.contains(path),
    ensures
        favs.insert(path).remove(path) == favs,
{
    assert(favs.insert(path).remove(path) =~= favs);
}

/// Joining two or more lines is the same as putting the first line before
/// the joined rest.
proof fn lemma_lines_join_front(v: Seq<Seq<char>>)
    requires
        v.len() >= 2,
    ensures
        AppPreferences::lines_join(v) == v[0] + seq!['\n'] + AppPreferences::lines_join(
            v.drop_first(),
        ),
    decreases v.len(),
{
    if v.len() == 2 {
        assert(AppPreferences::lines_join(v.drop_last()) == v[0]);
        assert(v.drop_first().len() == 1);
        assert(AppPreferences::lines_join(v.drop_first()) == v.drop_first()[0]);
        assert(v.drop_first()[0] == v[1]);
        assert(v.last() == v[1]);
    } else {
        lemma_lines_join_front(v.drop_last());
        assert(v.drop_last()[0] == v[0]);
        assert(v.drop_last().drop_first() =~= v.drop_first().drop_last());
        assert(v.drop_first().last() == v.last());
        assert(AppPreferences::lines_join(v.drop_first()) == AppPreferences::lines_join(
            v.drop_first().drop_last(),
        ) + seq!['\n'] + v.last());
        assert((v[0] + seq!['\n'] + AppPreferences::lines_join(v.drop_first().drop_last()))
            + seq!['\n'] + v.last() =~= v[0] + seq!['\n'] + (AppPreferences::lines_join(
            v.drop_first().drop_last(),
        ) + seq!['\n'] + v.last()));
    }
}

/// Saving and loading are consistent: the newline-joined favorites parse
/// back to exactly the lines they were built from, as long as each favorite
/// is a nonempty path without an embedded newline (the format cannot carry
/// those).
pub proof fn lemma_lines_round_trip(v: Seq<Seq<char>>)
    requires
        forall|i: int| 0 <= i < v.len() ==> v[i].len() > 0 && !v[i].contains('\n'),
    ensures
        AppPreferences::split_lines(AppPreferences::lines_join(v)) == v,
    decreases v.len(),
{
    let t = AppPreferences::lines_join(v);
    if v.len() == 0 {
        assert(AppPreferences::split_lines(t) =~= v);
    } else if v.len() == 1 {
        assert(t == v[0]);
        assert forall|k: int| 0 <= k < t.len() implies t[k] != '\n' by {
            if t[k] == '\n' {
                assert(v[0].contains('\n'));
            }
        }
        lemma_first_index_of_is(t, '\n', t.len() as int);
        assert(AppPreferences::split_lines(t) =~= v);
    } else {
        lemma_lines_join_front(v);
        let head = v[0];
        let rest = AppPreferences::lines_join(v.drop_first());
        assert(t == head + seq!['\n'] + rest);
        assert forall|k: int| 0 <= k < head.len() implies t[k] != '\n' by {
            assert(t[k] == head[k]);
            if head[k] == '\n' {
                assert(head.contains('\n'));
            }
        }
        assert(t[head.len() as int] == '\n');
        lemma_first_index_of_is(t, '\n', head.len() as int);
        assert(t.subrange(0, head.len() as int) =~= head);
        assert(t.subrange(head.len() as int + 1, t.len() as int) =~= rest);
        assert(forall|i: int|
            0 <= i < v.drop_first().len() ==> v.drop_first()[i] == v[i + 1]
                && v.drop_first()[i].len() > 0 && !v.drop_first()[i].contains('\n'));
        lemma_lines_round_trip(v.drop_first());
        assert(AppPreferences::split_lines(t) == seq![head] + v.drop_first());
        assert(seq![head] + v.drop_first() =~= v);
    }
}

} // verus!
