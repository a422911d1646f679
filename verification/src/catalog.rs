//! The catalog store: media records keyed by absolute path, mounted
//! roots keyed by path, the taxonomy tables, and the association
//! tables.  All state lives in this one structure; every operation
//! takes it exclusively, so one call is one atomic step against the
//! store.
//!
//! Keyed tables keep the uniqueness their schema declares: record
//! paths and identifiers, root paths and identifiers, tag names,
//! participant names, language codes, and association pairs are never
//! duplicated.

use vstd::prelude::*;
use crate::models::{
    folder_like,
    Language,
    MountedFolder,
    Participant,
    Tag,
    Video,
    video_like,
};
use crate::seqs::{lemma_filter_distinct, lemma_filter_empty, lemma_filter_push};
use crate::text::{str_eq, str_starts_with};
use vstd::string::StrSliceExecFns;

verus! {

/// Keeps the records whose folder path does not start with `prefix` —
/// the predicate of a prefix deletion.
pub open spec fn keep_out_of(prefix: Seq<char>) -> spec_fn(Video) -> bool {
    |v: Video| !prefix.is_prefix_of(v.folder_path@)
}

/// Why a store mutation was refused.
#[derive(PartialEq, Eq, Structural, Clone, Copy, Debug)]
pub enum StoreError {
    /// A generated identifier collided with a stored one.
    DuplicateId,
    /// A unique name is already taken.
    DuplicateName,
    /// A unique language code is already taken.
    DuplicateCode,
    /// A record path is already taken by another record.
    DuplicatePath,
    /// An association pair was given twice.
    DuplicatePair,
    /// No record matches the given key.
    NotFound,
    /// A path could not be split into folder and file name.
    InvalidPath,
    /// A root directory could not be read at all.
    Unreadable,
}

impl StoreError {
    /// A short description of the refusal.
    pub fn describe(&self) -> &'static str {
        match self {
            StoreError::DuplicateId => "identifier already in use",
            StoreError::DuplicateName => "name already in use",
            StoreError::DuplicateCode => "code already in use",
            StoreError::DuplicatePath => "path already in use",
            StoreError::DuplicatePair => "association already present",
            StoreError::NotFound => "no such record",
            StoreError::InvalidPath => "path has no file name",
            StoreError::Unreadable => "root directory could not be read",
        }
    }
}

/// Whether some record bears the given path.
pub open spec fn has_path(vs: Seq<Video>, p: Seq<char>) -> bool {
    exists|i: int| 0 <= i < vs.len() && vs[i].path@ == p
}

/// Whether some record bears the given identifier.
pub open spec fn has_video_id(vs: Seq<Video>, id: Seq<char>) -> bool {
    exists|i: int| 0 <= i < vs.len() && vs[i].id@ == id
}

/// The first index bearing the given path, or `-1`.
pub open spec fn path_index(vs: Seq<Video>, p: Seq<char>) -> int
    decreases vs.len(),
{
    if vs.len() == 0 {
        -1
    } else if vs.first().path@ == p {
        0
    } else {
        let r = path_index(vs.drop_first(), p);
        if r < 0 {
            -1
        } else {
            r + 1
        }
    }
}

/// `path_index` finds the first occurrence, and `-1` exactly when the
/// path is absent.
pub proof fn lemma_path_index(vs: Seq<Video>, p: Seq<char>)
    ensures
        has_path(vs, p) ==> {
            let i = path_index(vs, p);
            0 <= i < vs.len() && vs[i].path@ == p && (forall|k: int|
                0 <= k < i ==> vs[k].path@ != p)
        },
        !has_path(vs, p) ==> path_index(vs, p) == -1,
    decreases vs.len(),
{
    if vs.len() == 0 {
    } else if vs.first().path@ == p {
    } else {
        lemma_path_index(vs.drop_first(), p);
        assert(forall|k: int|
            0 <= k < vs.drop_first().len() ==> #[trigger] vs.drop_first()[k] == vs[k + 1]);
        if has_path(vs, p) {
            let w = choose|w: int| 0 <= w < vs.len() && vs[w].path@ == p;
            assert(w > 0);
            assert(vs.drop_first()[w - 1].path@ == p);
            assert(has_path(vs.drop_first(), p));
        }
        if has_path(vs.drop_first(), p) {
            let w = choose|w: int| 0 <= w < vs.drop_first().len() && vs.drop_first()[w].path@ == p;
            assert(vs[w + 1].path@ == p);
            assert(has_path(vs, p));
        }
        if has_path(vs, p) {
            let i1 = path_index(vs.drop_first(), p);
            assert(vs.drop_first()[i1].path@ == p);
            assert(vs[i1 + 1].path@ == p);
            assert forall|k: int| 0 <= k < i1 + 1 implies vs[k].path@ != p by {
                if k > 0 {
                    assert(vs.drop_first()[k - 1].path@ != p);
                }
            }
        }
    }
}

/// The record table invariant: paths unique, identifiers unique.
pub open spec fn videos_wf(vs: Seq<Video>) -> bool {
    (forall|i: int, j: int| 0 <= i < j < vs.len() ==> vs[i].path@ != vs[j].path@) && (forall|
        i: int,
        j: int,
    | 0 <= i < j < vs.len() ==> vs[i].id@ != vs[j].id@)
}

/// The root table invariant: paths unique, identifiers unique.
pub open spec fn folders_wf(fs: Seq<MountedFolder>) -> bool {
    (forall|i: int, j: int| 0 <= i < j < fs.len() ==> fs[i].path@ != fs[j].path@) && (forall|
        i: int,
        j: int,
    | 0 <= i < j < fs.len() ==> fs[i].id@ != fs[j].id@)
}

/// The tag table invariant: names unique, identifiers unique.
pub open spec fn tags_wf(ts: Seq<Tag>) -> bool {
    (forall|i: int, j: int| 0 <= i < j < ts.len() ==> ts[i].name@ != ts[j].name@) && (forall|
        i: int,
        j: int,
    | 0 <= i < j < ts.len() ==> ts[i].id@ != ts[j].id@)
}

/// The participant table invariant: names unique, identifiers unique.
pub open spec fn participants_wf(ps: Seq<Participant>) -> bool {
    (forall|i: int, j: int| 0 <= i < j < ps.len() ==> ps[i].name@ != ps[j].name@) && (forall|
        i: int,
        j: int,
    | 0 <= i < j < ps.len() ==> ps[i].id@ != ps[j].id@)
}

/// The language table invariant: codes unique, identifiers unique.
pub open spec fn languages_wf(ls: Seq<Language>) -> bool {
    (forall|i: int, j: int| 0 <= i < j < ls.len() ==> ls[i].code@ != ls[j].code@) && (forall|
        i: int,
        j: int,
    | 0 <= i < j < ls.len() ==> ls[i].id@ != ls[j].id@)
}

/// An association table as pairs of character sequences.
pub open spec fn pairs_view(ps: Seq<(String, String)>) -> Seq<(Seq<char>, Seq<char>)> {
    ps.map_values(|p: (String, String)| (p.0@, p.1@))
}

/// The association table invariant: no pair twice.
pub open spec fn pairs_wf(ps: Seq<(Seq<char>, Seq<char>)>) -> bool {
    forall|i: int, j: int| 0 <= i < j < ps.len() ==> ps[i] != ps[j]
}

/// The catalog store.
pub struct Database {
    pub videos: Vec<Video>,
    pub mounted_folders: Vec<MountedFolder>,
    pub tags: Vec<Tag>,
    pub participants: Vec<Participant>,
    pub languages: Vec<Language>,
    pub video_tags: Vec<(String, String)>,
    pub video_participants: Vec<(String, String)>,
    pub video_languages: Vec<(String, String)>,
}

impl Database {
    /// The association tables, viewed as pair sequences.
    pub open spec fn vt(&self) -> Seq<(Seq<char>, Seq<char>)> {
        pairs_view(self.video_tags@)
    }

    /// See `vt`.
    pub open spec fn vp(&self) -> Seq<(Seq<char>, Seq<char>)> {
        pairs_view(self.video_participants@)
    }

    /// See `vt`.
    pub open spec fn vl(&self) -> Seq<(Seq<char>, Seq<char>)> {
        pairs_view(self.video_languages@)
    }

    /// The store invariant: every keyed table keeps its schema's
    /// uniqueness.
    pub open spec fn wf(&self) -> bool {
        &&& videos_wf(self.videos@)
        &&& folders_wf(self.mounted_folders@)
        &&& tags_wf(self.tags@)
        &&& participants_wf(self.participants@)
        &&& languages_wf(self.languages@)
        &&& pairs_wf(self.vt())
        &&& pairs_wf(self.vp())
        &&& pairs_wf(self.vl())
    }

    /// Everything but the record table, unchanged.
    pub open spec fn same_but_videos(&self, other: &Database) -> bool {
        &&& self.mounted_folders@ == other.mounted_folders@
        &&& self.tags@ == other.tags@
        &&& self.participants@ == other.participants@
        &&& self.languages@ == other.languages@
        &&& self.video_tags@ == other.video_tags@
        &&& self.video_participants@ == other.video_participants@
        &&& self.video_languages@ == other.video_languages@
    }

    /// Everything but the root table, unchanged.
    pub open spec fn same_but_folders(&self, other: &Database) -> bool {
        &&& self.videos@ == other.videos@
        &&& self.tags@ == other.tags@
        &&& self.participants@ == other.participants@
        &&& self.languages@ == other.languages@
        &&& self.video_tags@ == other.video_tags@
        &&& self.video_participants@ == other.video_participants@
        &&& self.video_languages@ == other.video_languages@
    }

    /// An empty store.
    pub fn new() -> (r: Database)
        ensures
            r.wf(),
            r.videos@ =~= Seq::<Video>::empty(),
            r.mounted_folders@ =~= Seq::<MountedFolder>::empty(),
            r.tags@ =~= Seq::<Tag>::empty(),
            r.participants@ =~= Seq::<Participant>::empty(),
            r.languages@ =~= Seq::<Language>::empty(),
            r.video_tags@ =~= Seq::<(String, String)>::empty(),
            r.video_participants@ =~= Seq::<(String, String)>::empty(),
            r.video_languages@ =~= Seq::<(String, String)>::empty(),
    {
        Database {
            videos: Vec::new(),
            mounted_folders: Vec::new(),
            tags: Vec::new(),
            participants: Vec::new(),
            languages: Vec::new(),
            video_tags: Vec::new(),
            video_participants: Vec::new(),
            video_languages: Vec::new(),
        }
    }

    /// Finds the index of the record with the given path.
    fn find_path(&self, path: &str) -> (r: Option<usize>)
        ensures
            match r {
                Some(i) => 0 <= i < self.videos@.len() && self.videos@[i as int].path@ == path@
                    && path_index(self.videos@, path@) == i as int,
                None => !has_path(self.videos@, path@),
            },
    {
        let n = self.videos.len();
        let mut i: usize = 0;
        while i < n
            invariant
                n == self.videos@.len(),
                0 <= i <= n,
                forall|k: int| 0 <= k < i ==> self.videos@[k].path@ != path@,
            decreases n - i,
        {
            if str_eq(self.videos[i].path.as_str(), path) {
                proof {
                    lemma_path_index(self.videos@, path@);
                    let pi = path_index(self.videos@, path@);
                    assert(has_path(self.videos@, path@));
                    if pi < i as int {
                        assert(self.videos@[pi].path@ != path@);
                    }
                    if pi > i as int {
                        assert(self.videos@[i as int].path@ != path@);
                    }
                }
                return Some(i);
            }
            i = i + 1;
        }
        None
    }

    /// Whether some record bears the given identifier.
    fn some_video_has_id(&self, id: &str) -> (r: bool)
        ensures
            r == has_video_id(self.videos@, id@),
    {
        let n = self.videos.len();
        let mut i: usize = 0;
        while i < n
            invariant
                n == self.videos@.len(),
                0 <= i <= n,
                forall|k: int| 0 <= k < i ==> self.videos@[k].id@ != id@,
            decreases n - i,
        {
            if str_eq(self.videos[i].id.as_str(), id) {
                return true;
            }
            i = i + 1;
        }
        false
    }

    /// Inserts the record, or updates the record sharing its path in
    /// place: filename, folder, size, duration, thumbnail and update
    /// timestamp are taken from the argument, identifier and creation
    /// timestamp stay.  A fresh path with a colliding identifier is
    /// refused, leaving the store unchanged.
    pub fn upsert_video(&mut self, video: Video) -> (r: Result<(), StoreError>)
        requires
            old(self).wf(),
        ensures
            final(self).wf(),
            final(self).same_but_videos(old(self)),
            match r {
                Ok(()) => {
                    if has_path(old(self).videos@, video.path@) {
                        let i = path_index(old(self).videos@, video.path@);
                        &&& final(self).videos@.len() == old(self).videos@.len()
                        &&& (forall|k: int|
                            0 <= k < old(self).videos@.len() && k != i ==> final(self).videos@[k]
                                == old(self).videos@[k])
                        &&& final(self).videos@[i].id@ == old(self).videos@[i].id@
                        &&& final(self).videos@[i].created_at@ == old(self).videos@[i].created_at@
                        &&& final(self).videos@[i].path@ == video.path@
                        &&& final(self).videos@[i].filename@ == video.filename@
                        &&& final(self).videos@[i].folder_path@ == video.folder_path@
                        &&& final(self).videos@[i].size == video.size
                        &&& final(self).videos@[i].duration == video.duration
                        &&& crate::models::opt_str_like(
                            final(self).videos@[i].thumbnail_path,
                            video.thumbnail_path,
                        )
                        &&& final(self).videos@[i].updated_at@ == video.updated_at@
                    } else {
                        final(self).videos@ == old(self).videos@.push(video)
                    }
                },
                Err(e) => {
                    &&& e == StoreError::DuplicateId
                    &&& !has_path(old(self).videos@, video.path@)
                    &&& has_video_id(old(self).videos@, video.id@)
                    &&& final(self).videos@ == old(self).videos@
                },
            },
            r is Ok ==> has_path(final(self).videos@, video.path@),
            r is Ok ==> crate::query::video_views(final(self).videos@) == upsert_view_step(
                crate::query::video_views(old(self).videos@),
                crate::query::vview(video),
            ),
            r is Err ==> crate::query::video_views(final(self).videos@)
                == crate::query::video_views(old(self).videos@),
    {
        proof {
            lemma_view_path_index(self.videos@, video.path@);
        }
        match self.find_path(video.path.as_str()) {
            Some(i) => {
                let existing = &self.videos[i];
                let updated = Video {
                    id: existing.id.clone(),
                    path: video.path,
                    filename: video.filename,
                    folder_path: video.folder_path,
                    size: video.size,
                    duration: video.duration,
                    thumbnail_path: video.thumbnail_path,
                    created_at: existing.created_at.clone(),
                    updated_at: video.updated_at,
                };
                self.videos.set(i, updated);
                proof {
                    let vs = old(self).videos@;
                    let nv = self.videos@;
                    assert forall|a: int, b: int| 0 <= a < b < nv.len() implies nv[a].path@
                        != nv[b].path@ by {
                        assert(vs[a].path@ != vs[b].path@);
                    }
                    assert forall|a: int, b: int| 0 <= a < b < nv.len() implies nv[a].id@
                        != nv[b].id@ by {
                        assert(vs[a].id@ != vs[b].id@);
                    }
                    assert(has_path(nv, video.path@)) by {
                        assert(nv[i as int].path@ == video.path@);
                    }
                    assert(crate::query::video_views(nv) =~= upsert_view_step(
                        crate::query::video_views(vs),
                        crate::query::vview(video),
                    ));
                }
                Ok(())
            },
            None => {
                if self.some_video_has_id(video.id.as_str()) {
                    return Err(StoreError::DuplicateId);
                }
                let ghost vpath = video.path@;
                let ghost vid = video.id@;
                self.videos.push(video);
                proof {
                    let vs = old(self).videos@;
                    let nv = self.videos@;
                    assert forall|a: int, b: int| 0 <= a < b < nv.len() implies nv[a].path@
                        != nv[b].path@ by {
                        if b < vs.len() {
                            assert(vs[a].path@ != vs[b].path@);
                        } else {
                            assert(nv[b].path@ == vpath);
                            assert(!has_path(vs, vpath));
                            assert(vs[a].path@ != vpath);
                        }
                    }
                    assert forall|a: int, b: int| 0 <= a < b < nv.len() implies nv[a].id@
                        != nv[b].id@ by {
                        if b < vs.len() {
                            assert(vs[a].id@ != vs[b].id@);
                        } else {
                            assert(!has_video_id(vs, vid));
                            assert(vs[a].id@ != vid);
                        }
                    }
                    assert(has_path(nv, vpath)) by {
                        assert(nv[nv.len() - 1].path@ == vpath);
                    }
                    assert(crate::query::video_views(nv) =~= upsert_view_step(
                        crate::query::video_views(vs),
                        crate::query::vview(video),
                    ));
                }
                Ok(())
            },
        }
    }

    /// Deletes every record whose folder path textually starts with
    /// the given prefix — the full-replace step of a re-scan.
    pub fn clear_folder_videos(&mut self, folder_path: &str)
        requires
            old(self).wf(),
        ensures
            final(self).wf(),
            final(self).same_but_videos(old(self)),
            final(self).videos@ == old(self).videos@.filter(keep_out_of(folder_path@)),
    {
        let ghost pred = keep_out_of(folder_path@);
        let ghost orig = self.videos@;
        proof {
            lemma_filter_empty(pred);
            assert(orig.take(0).filter(pred) =~= Seq::<Video>::empty().filter(pred));
            assert(orig.skip(0) =~= orig);
            assert(self.videos@.take(0) =~= Seq::<Video>::empty());
        }
        let mut j: usize = 0;
        let ghost mut seen: int = 0;
        while j < self.videos.len()
            invariant
                old(self).wf(),
                self.same_but_videos(old(self)),
                orig == old(self).videos@,
                pred == keep_out_of(folder_path@),
                0 <= j <= self.videos@.len(),
                0 <= seen <= orig.len(),
                self.videos@.take(j as int) == orig.take(seen).filter(pred),
                self.videos@.skip(j as int) == orig.skip(seen),
            decreases self.videos@.len() - j,
        {
            proof {
                assert(self.videos@.skip(j as int).len() == orig.skip(seen).len());
                assert(seen < orig.len());
                assert(self.videos@[j as int] == self.videos@.skip(j as int)[0]);
                assert(orig.skip(seen)[0] == orig[seen]);
                assert(orig.take(seen + 1) =~= orig.take(seen).push(orig[seen]));
                lemma_filter_push(orig.take(seen), orig[seen], pred);
            }
            if str_starts_with(self.videos[j].folder_path.as_str(), folder_path) {
                let ghost before = self.videos@;
                self.videos.remove(j);
                proof {
                    assert(!pred(orig[seen]));
                    assert(self.videos@.take(j as int) =~= before.take(j as int));
                    assert(self.videos@.skip(j as int) =~= before.skip(j + 1));
                    assert(before.skip(j + 1) =~= orig.skip(seen + 1)) by {
                        assert(before.skip(j as int) == orig.skip(seen));
                        assert forall|k: int|
                            0 <= k < before.len() - j - 1 implies #[trigger] before.skip(j + 1)[k]
                            == orig.skip(seen + 1)[k] by {
                            assert(before.skip(j + 1)[k] == before.skip(j as int)[k + 1]);
                            assert(orig.skip(seen + 1)[k] == orig.skip(seen)[k + 1]);
                        }
                    }
                }
            } else {
                proof {
                    assert(pred(orig[seen]));
                    assert(self.videos@.take(j + 1) =~= self.videos@.take(j as int).push(
                        self.videos@[j as int],
                    ));
                    assert(self.videos@.skip(j + 1) =~= orig.skip(seen + 1)) by {
                        assert forall|k: int| 0 <= k < self.videos@.len() - j - 1
                            implies #[trigger] self.videos@.skip(j + 1)[k] == orig.skip(
                            seen + 1,
                        )[k] by {
                            assert(self.videos@.skip(j + 1)[k] == self.videos@.skip(
                                j as int,
                            )[k + 1]);
                            assert(orig.skip(seen + 1)[k] == orig.skip(seen)[k + 1]);
                        }
                    }
                }
                j = j + 1;
            }
            proof {
                seen = seen + 1;
            }
        }
        proof {
            assert(self.videos@.skip(j as int).len() == 0);
            assert(orig.skip(seen).len() == 0);
            assert(seen == orig.len());
            assert(self.videos@.take(j as int) =~= self.videos@);
            assert(orig.take(seen) =~= orig);
            let nv = self.videos@;
            assert(nv == orig.filter(pred));
            let differs = |a: Video, b: Video| a.path@ != b.path@ && a.id@ != b.id@;
            lemma_filter_distinct(orig, pred, differs);
            assert forall|a: int, b: int| 0 <= a < b < nv.len() implies nv[a].path@ != nv[b].path@
                && nv[a].id@ != nv[b].id@ by {
                assert(differs(nv[a], nv[b]));
            }
        }
    }
}

impl Database {
    /// Looks a record up by its path; a field-for-field copy comes
    /// back.
    pub fn get_video_by_path(&self, path: &str) -> (r: Option<Video>)
        ensures
            match r {
                Some(v) => has_path(self.videos@, path@) && video_like(
                    self.videos@[path_index(self.videos@, path@)],
                    v,
                ),
                None => !has_path(self.videos@, path@),
            },
    {
        match self.find_path(path) {
            Some(i) => Some(self.videos[i].duplicate()),
            None => None,
        }
    }

    /// Deletes the record with the given identifier, if any.
    pub fn delete_video(&mut self, video_id: &str)
        requires
            old(self).wf(),
        ensures
            final(self).wf(),
            final(self).same_but_videos(old(self)),
            final(self).videos@ == old(self).videos@.filter(|v: Video| v.id@ != video_id@),
    {
        let ghost pred = |v: Video| v.id@ != video_id@;
        let ghost orig = self.videos@;
        proof {
            lemma_filter_empty(pred);
            assert(orig.take(0).filter(pred) =~= Seq::<Video>::empty().filter(pred));
            assert(orig.skip(0) =~= orig);
            assert(self.videos@.take(0) =~= Seq::<Video>::empty());
        }
        let mut j: usize = 0;
        let ghost mut seen: int = 0;
        while j < self.videos.len()
            invariant
                old(self).wf(),
                self.same_but_videos(old(self)),
                orig == old(self).videos@,
                pred == (|v: Video| v.id@ != video_id@),
                0 <= j <= self.videos@.len(),
                0 <= seen <= orig.len(),
                self.videos@.take(j as int) == orig.take(seen).filter(pred),
                self.videos@.skip(j as int) == orig.skip(seen),
            decreases self.videos@.len() - j,
        {
            proof {
                assert(self.videos@.skip(j as int).len() == orig.skip(seen).len());
                assert(seen < orig.len());
                assert(self.videos@[j as int] == self.videos@.skip(j as int)[0]);
                assert(orig.skip(seen)[0] == orig[seen]);
                assert(orig.take(seen + 1) =~= orig.take(seen).push(orig[seen]));
                lemma_filter_push(orig.take(seen), orig[seen], pred);
            }
            if str_eq(self.videos[j].id.as_str(), video_id) {
                let ghost before = self.videos@;
                self.videos.remove(j);
                proof {
                    assert(!pred(orig[seen]));
                    assert(self.videos@.take(j as int) =~= before.take(j as int));
                    assert(self.videos@.skip(j as int) =~= before.skip(j + 1));
                    assert(before.skip(j + 1) =~= orig.skip(seen + 1)) by {
                        assert(before.skip(j as int) == orig.skip(seen));
                        assert forall|k: int|
                            0 <= k < before.len() - j - 1 implies #[trigger] before.skip(j + 1)[k]
                            == orig.skip(seen + 1)[k] by {
                            assert(before.skip(j + 1)[k] == before.skip(j as int)[k + 1]);
                            assert(orig.skip(seen + 1)[k] == orig.skip(seen)[k + 1]);
                        }
                    }
                }
            } else {
                proof {
                    assert(pred(orig[seen]));
                    assert(self.videos@.take(j + 1) =~= self.videos@.take(j as int).push(
                        self.videos@[j as int],
                    ));
                    assert(self.videos@.skip(j + 1) =~= orig.skip(seen + 1)) by {
                        assert forall|k: int| 0 <= k < self.videos@.len() - j - 1
                            implies #[trigger] self.videos@.skip(j + 1)[k] == orig.skip(
                            seen + 1,
                        )[k] by {
                            assert(self.videos@.skip(j + 1)[k] == self.videos@.skip(
                                j as int,
                            )[k + 1]);
                            assert(orig.skip(seen + 1)[k] == orig.skip(seen)[k + 1]);
                        }
                    }
                }
                j = j + 1;
            }
            proof {
                seen = seen + 1;
            }
        }
        proof {
            assert(self.videos@.skip(j as int).len() == 0);
            assert(orig.skip(seen).len() == 0);
            assert(seen == orig.len());
            assert(self.videos@.take(j as int) =~= self.videos@);
            assert(orig.take(seen) =~= orig);
            let nv = self.videos@;
            assert(nv == orig.filter(pred));
            let differs = |a: Video, b: Video| a.path@ != b.path@ && a.id@ != b.id@;
            lemma_filter_distinct(orig, pred, differs);
            assert forall|a: int, b: int| 0 <= a < b < nv.len() implies nv[a].path@ != nv[b].path@
                && nv[a].id@ != nv[b].id@ by {
                assert(differs(nv[a], nv[b]));
            }
        }
    }

    /// Rewrites the path, folder and filename of the record stored
    /// under `old_path`, stamping the given update time.  A target
    /// path already held by another record is refused, leaving the
    /// store unchanged; a missing source is a silent no-op, as an
    /// update of nothing.
    pub fn update_video_path(
        &mut self,
        old_path: &str,
        new_path: &str,
        new_folder: &str,
        new_filename: &str,
        updated_at: String,
    ) -> (r: Result<(), StoreError>)
        requires
            old(self).wf(),
        ensures
            final(self).wf(),
            final(self).same_but_videos(old(self)),
            match r {
                Ok(()) => {
                    if has_path(old(self).videos@, old_path@) {
                        let i = path_index(old(self).videos@, old_path@);
                        &&& !(new_path@ != old_path@ && has_path(old(self).videos@, new_path@))
                        &&& final(self).videos@.len() == old(self).videos@.len()
                        &&& (forall|k: int|
                            0 <= k < old(self).videos@.len() && k != i ==> final(self).videos@[k]
                                == old(self).videos@[k])
                        &&& final(self).videos@[i].id@ == old(self).videos@[i].id@
                        &&& final(self).videos@[i].path@ == new_path@
                        &&& final(self).videos@[i].folder_path@ == new_folder@
                        &&& final(self).videos@[i].filename@ == new_filename@
                        &&& final(self).videos@[i].size == old(self).videos@[i].size
                        &&& final(self).videos@[i].duration == old(self).videos@[i].duration
                        &&& crate::models::opt_str_like(
                            final(self).videos@[i].thumbnail_path,
                            old(self).videos@[i].thumbnail_path,
                        )
                        &&& final(self).videos@[i].created_at@ == old(
                            self,
                        ).videos@[i].created_at@
                        &&& final(self).videos@[i].updated_at@ == updated_at@
                    } else {
                        final(self).videos@ == old(self).videos@
                    }
                },
                Err(e) => {
                    &&& e == StoreError::DuplicatePath
                    &&& has_path(old(self).videos@, old_path@)
                    &&& new_path@ != old_path@
                    &&& has_path(old(self).videos@, new_path@)
                    &&& final(self).videos@ == old(self).videos@
                },
            },
    {
        match self.find_path(old_path) {
            Some(i) => {
                if !str_eq(new_path, old_path) && self.find_path(new_path).is_some() {
                    return Err(StoreError::DuplicatePath);
                }
                let existing = &self.videos[i];
                let updated = Video {
                    id: existing.id.clone(),
                    path: new_path.to_owned(),
                    filename: new_filename.to_owned(),
                    folder_path: new_folder.to_owned(),
                    size: existing.size,
                    duration: existing.duration,
                    thumbnail_path: crate::models::clone_opt_string(&existing.thumbnail_path),
                    created_at: existing.created_at.clone(),
                    updated_at,
                };
                self.videos.set(i, updated);
                proof {
                    let vs = old(self).videos@;
                    let nv = self.videos@;
                    assert forall|a: int, b: int| 0 <= a < b < nv.len() implies nv[a].path@
                        != nv[b].path@ by {
                        assert(vs[a].path@ != vs[b].path@);
                        if a == i as int {
                            assert(vs[b].path@ != new_path@);
                        }
                        if b == i as int {
                            assert(vs[a].path@ != new_path@);
                        }
                    }
                    assert forall|a: int, b: int| 0 <= a < b < nv.len() implies nv[a].id@
                        != nv[b].id@ by {
                        assert(vs[a].id@ != vs[b].id@);
                    }
                }
                Ok(())
            },
            None => Ok(()),
        }
    }
}

/// Path uniqueness: a well-formed record table holds at most one
/// record per path, so no upsert ever leaves two records sharing the
/// upserted path — the two indices of any path coincide.
pub proof fn lemma_unique_path(vs: Seq<Video>, i: int, j: int)
    requires
        videos_wf(vs),
        0 <= i < vs.len(),
        0 <= j < vs.len(),
        vs[i].path@ == vs[j].path@,
    ensures
        i == j,
{
}

/// Whether some record view bears the given path.
pub open spec fn view_has_path(vs: Seq<crate::query::VideoView>, p: Seq<char>) -> bool {
    exists|i: int| 0 <= i < vs.len() && vs[i].path == p
}

/// The first view index bearing the given path, or `-1`.
pub open spec fn view_path_index(vs: Seq<crate::query::VideoView>, p: Seq<char>) -> int
    decreases vs.len(),
{
    if vs.len() == 0 {
        -1
    } else if vs.first().path == p {
        0
    } else {
        let r = view_path_index(vs.drop_first(), p);
        if r < 0 {
            -1
        } else {
            r + 1
        }
    }
}

/// What one upsert makes of the record views: an update in place that
/// keeps identifier and creation time, or an appended record.
pub open spec fn upsert_view_step(vs: Seq<crate::query::VideoView>, v: crate::query::VideoView) -> Seq<
    crate::query::VideoView,
> {
    if view_has_path(vs, v.path) {
        let i = view_path_index(vs, v.path);
        vs.update(
            i,
            crate::query::VideoView {
                id: vs[i].id,
                created_at: vs[i].created_at,
                path: v.path,
                filename: v.filename,
                folder_path: v.folder_path,
                size: v.size,
                duration: v.duration,
                thumbnail_path: v.thumbnail_path,
                updated_at: v.updated_at,
            },
        )
    } else {
        vs.push(v)
    }
}

/// What a whole batch of upserts makes of the record views.
pub open spec fn upsert_views(
    vs: Seq<crate::query::VideoView>,
    added: Seq<crate::query::VideoView>,
) -> Seq<crate::query::VideoView>
    decreases added.len(),
{
    if added.len() == 0 {
        vs
    } else {
        upsert_view_step(upsert_views(vs, added.drop_last()), added.last())
    }
}

/// The record and view tables point at the same first occurrence of a
/// path.
pub proof fn lemma_view_path_index(vs: Seq<Video>, p: Seq<char>)
    ensures
        view_has_path(crate::query::video_views(vs), p) == has_path(vs, p),
        view_path_index(crate::query::video_views(vs), p) == path_index(vs, p),
    decreases vs.len(),
{
    let m = crate::query::video_views(vs);
    if vs.len() == 0 {
    } else {
        assert(m.first() == crate::query::vview(vs.first()));
        assert(m.drop_first() =~= crate::query::video_views(vs.drop_first()));
        lemma_view_path_index(vs.drop_first(), p);
        if vs.first().path@ == p {
            assert(view_has_path(m, p)) by {
                assert(m[0].path == p);
            }
            assert(has_path(vs, p)) by {
                assert(vs[0].path@ == p);
            }
        } else {
            assert(forall|k: int|
                0 <= k < vs.drop_first().len() ==> #[trigger] vs.drop_first()[k] == vs[k + 1]);
            assert(forall|k: int|
                0 <= k < m.drop_first().len() ==> #[trigger] m.drop_first()[k] == m[k + 1]);
            if has_path(vs, p) {
                let w = choose|w: int| 0 <= w < vs.len() && vs[w].path@ == p;
                assert(w > 0);
                assert(vs.drop_first()[w - 1].path@ == p);
                assert(has_path(vs.drop_first(), p));
            }
            if has_path(vs.drop_first(), p) {
                let w = choose|w: int|
                    0 <= w < vs.drop_first().len() && vs.drop_first()[w].path@ == p;
                assert(vs[w + 1].path@ == p);
                assert(has_path(vs, p));
            }
            if view_has_path(m, p) {
                let w = choose|w: int| 0 <= w < m.len() && m[w].path == p;
                assert(m[w] == crate::query::vview(vs[w]));
                assert(w > 0);
                assert(m.drop_first()[w - 1].path == p);
                assert(view_has_path(m.drop_first(), p));
            }
            if view_has_path(m.drop_first(), p) {
                let w = choose|w: int|
                    0 <= w < m.drop_first().len() && m.drop_first()[w].path == p;
                assert(m[w + 1].path == p);
                assert(view_has_path(m, p));
            }
        }
    }
}

/// Whether some root bears the given path.
pub open spec fn has_root_path(fs: Seq<MountedFolder>, p: Seq<char>) -> bool {
    exists|i: int| 0 <= i < fs.len() && fs[i].path@ == p
}

impl Database {
    /// Registers a root under the given identifier and timestamp:
    /// any stored root sharing the path or the identifier is replaced.
    pub fn add_mounted_folder_record(
        &mut self,
        id: String,
        path: String,
        name: String,
        scan_depth: usize,
        created_at: String,
    ) -> (r: MountedFolder)
        requires
            old(self).wf(),
        ensures
            final(self).wf(),
            final(self).same_but_folders(old(self)),
            final(self).mounted_folders@ == old(self).mounted_folders@.filter(
                |f: MountedFolder| f.path@ != path@ && f.id@ != id@,
            ).push(MountedFolder { id, path, name, scan_depth, created_at }),
            folder_like(r, MountedFolder { id, path, name, scan_depth, created_at }),
    {
        let ghost pred = |f: MountedFolder| f.path@ != path@ && f.id@ != id@;
        let ghost orig = self.mounted_folders@;
        proof {
            lemma_filter_empty(pred);
            assert(orig.take(0).filter(pred) =~= Seq::<MountedFolder>::empty().filter(pred));
            assert(orig.skip(0) =~= orig);
            assert(self.mounted_folders@.take(0) =~= Seq::<MountedFolder>::empty());
        }
        let mut j: usize = 0;
        let ghost mut seen: int = 0;
        while j < self.mounted_folders.len()
            invariant
                old(self).wf(),
                self.same_but_folders(old(self)),
                orig == old(self).mounted_folders@,
                pred == (|f: MountedFolder| f.path@ != path@ && f.id@ != id@),
                0 <= j <= self.mounted_folders@.len(),
                0 <= seen <= orig.len(),
                self.mounted_folders@.take(j as int) == orig.take(seen).filter(pred),
                self.mounted_folders@.skip(j as int) == orig.skip(seen),
            decreases self.mounted_folders@.len() - j,
        {
            proof {
                assert(self.mounted_folders@.skip(j as int).len() == orig.skip(seen).len());
                assert(seen < orig.len());
                assert(self.mounted_folders@[j as int] == self.mounted_folders@.skip(
                    j as int,
                )[0]);
                assert(orig.skip(seen)[0] == orig[seen]);
                assert(orig.take(seen + 1) =~= orig.take(seen).push(orig[seen]));
                lemma_filter_push(orig.take(seen), orig[seen], pred);
            }
            let matches = str_eq(self.mounted_folders[j].path.as_str(), path.as_str()) || str_eq(
                self.mounted_folders[j].id.as_str(),
                id.as_str(),
            );
            if matches {
                let ghost before = self.mounted_folders@;
                self.mounted_folders.remove(j);
                proof {
                    assert(!pred(orig[seen]));
                    assert(self.mounted_folders@.take(j as int) =~= before.take(j as int));
                    assert(self.mounted_folders@.skip(j as int) =~= before.skip(j + 1));
                    assert(before.skip(j + 1) =~= orig.skip(seen + 1)) by {
                        assert(before.skip(j as int) == orig.skip(seen));
                        assert forall|k: int|
                            0 <= k < before.len() - j - 1 implies #[trigger] before.skip(j + 1)[k]
                            == orig.skip(seen + 1)[k] by {
                            assert(before.skip(j + 1)[k] == before.skip(j as int)[k + 1]);
                            assert(orig.skip(seen + 1)[k] == orig.skip(seen)[k + 1]);
                        }
                    }
                }
            } else {
                proof {
                    assert(pred(orig[seen]));
                    assert(self.mounted_folders@.take(j + 1) =~= self.mounted_folders@.take(
                        j as int,
                    ).push(self.mounted_folders@[j as int]));
                    assert(self.mounted_folders@.skip(j + 1) =~= orig.skip(seen + 1)) by {
                        assert forall|k: int| 0 <= k < self.mounted_folders@.len() - j - 1
                            implies #[trigger] self.mounted_folders@.skip(j + 1)[k] == orig.skip(
                            seen + 1,
                        )[k] by {
                            assert(self.mounted_folders@.skip(j + 1)[k]
                                == self.mounted_folders@.skip(j as int)[k + 1]);
                            assert(orig.skip(seen + 1)[k] == orig.skip(seen)[k + 1]);
                        }
                    }
                }
                j = j + 1;
            }
            proof {
                seen = seen + 1;
            }
        }
        proof {
            assert(self.mounted_folders@.skip(j as int).len() == 0);
            assert(orig.skip(seen).len() == 0);
            assert(seen == orig.len());
            assert(self.mounted_folders@.take(j as int) =~= self.mounted_folders@);
            assert(orig.take(seen) =~= orig);
            assert(self.mounted_folders@ == orig.filter(pred));
        }
        let record = MountedFolder { id, path, name, scan_depth, created_at };
        let copy = record.duplicate();
        let ghost filtered = self.mounted_folders@;
        self.mounted_folders.push(record);
        proof {
            let nf = self.mounted_folders@;
            let differs = |a: MountedFolder, b: MountedFolder| a.path@ != b.path@ && a.id@
                != b.id@;
            lemma_filter_distinct(orig, pred, differs);
            assert forall|a: int, b: int| 0 <= a < b < nf.len() implies nf[a].path@ != nf[b].path@
                && nf[a].id@ != nf[b].id@ by {
                if b < filtered.len() {
                    assert(differs(filtered[a], filtered[b]));
                } else {
                    assert(pred(filtered[a]));
                }
            }
        }
        copy
    }

    /// Registers a root to scan: a fresh identifier and timestamp are
    /// generated, and any root already holding the path is replaced.
    pub fn add_mounted_folder(&mut self, path: &str, name: &str, scan_depth: usize) -> (r:
        MountedFolder)
        requires
            old(self).wf(),
        ensures
            final(self).wf(),
            final(self).same_but_folders(old(self)),
            final(self).mounted_folders@.len() >= 1,
            ({
                let added = final(self).mounted_folders@.last();
                &&& added.path@ == path@
                &&& added.name@ == name@
                &&& added.scan_depth == scan_depth
                &&& folder_like(r, added)
                &&& final(self).mounted_folders@.drop_last() == old(self).mounted_folders@.filter(
                    |f: MountedFolder| f.path@ != path@ && f.id@ != added.id@,
                )
            }),
            has_root_path(final(self).mounted_folders@, path@),
    {
        let id = crate::clock::new_id();
        let created_at = crate::clock::now_rfc3339();
        let r = self.add_mounted_folder_record(
            id,
            path.to_owned(),
            name.to_owned(),
            scan_depth,
            created_at,
        );
        proof {
            assert(self.mounted_folders@.drop_last() =~= old(self).mounted_folders@.filter(
                |f: MountedFolder| f.path@ != path@ && f.id@ != self.mounted_folders@.last().id@,
            ));
            assert(self.mounted_folders@.last().path@ == path@);
        }
        r
    }

    /// Lists the registered roots, each a field-for-field copy.
    pub fn get_mounted_folders(&self) -> (r: Vec<MountedFolder>)
        ensures
            r@.len() == self.mounted_folders@.len(),
            forall|i: int|
                0 <= i < r@.len() ==> folder_like(#[trigger] r@[i], self.mounted_folders@[i]),
    {
        let mut out: Vec<MountedFolder> = Vec::new();
        let n = self.mounted_folders.len();
        let mut i: usize = 0;
        while i < n
            invariant
                n == self.mounted_folders@.len(),
                0 <= i <= n,
                out@.len() == i,
                forall|k: int|
                    0 <= k < i ==> folder_like(#[trigger] out@[k], self.mounted_folders@[k]),
            decreases n - i,
        {
            out.push(self.mounted_folders[i].duplicate());
            i = i + 1;
        }
        out
    }

    /// Looks a root up by its path; a field-for-field copy comes back.
    pub fn get_mounted_folder(&self, path: &str) -> (r: Option<MountedFolder>)
        ensures
            match r {
                Some(f) => has_root_path(self.mounted_folders@, path@) && f.path@ == path@
                    && (exists|i: int|
                    0 <= i < self.mounted_folders@.len() && folder_like(
                        #[trigger] self.mounted_folders@[i],
                        f,
                    )),
                None => !has_root_path(self.mounted_folders@, path@),
            },
    {
        let n = self.mounted_folders.len();
        let mut i: usize = 0;
        while i < n
            invariant
                n == self.mounted_folders@.len(),
                0 <= i <= n,
                forall|k: int| 0 <= k < i ==> self.mounted_folders@[k].path@ != path@,
            decreases n - i,
        {
            if str_eq(self.mounted_folders[i].path.as_str(), path) {
                let f = self.mounted_folders[i].duplicate();
                proof {
                    assert(self.mounted_folders@[i as int].path@ == path@);
                    assert(folder_like(self.mounted_folders@[i as int], f));
                }
                return Some(f);
            }
            i = i + 1;
        }
        None
    }

    /// Sets the scan depth of the root registered under `path`; a
    /// missing root is a silent no-op.
    pub fn update_folder_scan_depth(&mut self, path: &str, scan_depth: usize)
        requires
            old(self).wf(),
        ensures
            final(self).wf(),
            final(self).same_but_folders(old(self)),
            final(self).mounted_folders@.len() == old(self).mounted_folders@.len(),
            forall|k: int| #![trigger final(self).mounted_folders@[k]]
                0 <= k < old(self).mounted_folders@.len() ==> {
                    let before = old(self).mounted_folders@[k];
                    let after = final(self).mounted_folders@[k];
                    if before.path@ == path@ {
                        folder_like(
                            after,
                            MountedFolder {
                                id: before.id,
                                path: before.path,
                                name: before.name,
                                scan_depth,
                                created_at: before.created_at,
                            },
                        )
                    } else {
                        after == before
                    }
                },
    {
        let n = self.mounted_folders.len();
        let mut i: usize = 0;
        while i < n
            invariant
                old(self).wf(),
                self.same_but_folders(old(self)),
                n == self.mounted_folders@.len(),
                self.mounted_folders@.len() == old(self).mounted_folders@.len(),
                0 <= i <= n,
                forall|k: int| #![trigger self.mounted_folders@[k]]
                    0 <= k < n ==> {
                        let before = old(self).mounted_folders@[k];
                        let after = self.mounted_folders@[k];
                        if k < i && before.path@ == path@ {
                            folder_like(
                                after,
                                MountedFolder {
                                    id: before.id,
                                    path: before.path,
                                    name: before.name,
                                    scan_depth,
                                    created_at: before.created_at,
                                },
                            )
                        } else {
                            after == before
                        }
                    },
            decreases n - i,
        {
            if str_eq(self.mounted_folders[i].path.as_str(), path) {
                let f = &self.mounted_folders[i];
                let updated = MountedFolder {
                    id: f.id.clone(),
                    path: f.path.clone(),
                    name: f.name.clone(),
                    scan_depth,
                    created_at: f.created_at.clone(),
                };
                self.mounted_folders.set(i, updated);
            }
            i = i + 1;
        }
        proof {
            let vs = old(self).mounted_folders@;
            let nf = self.mounted_folders@;
            assert forall|a: int, b: int| 0 <= a < b < nf.len() implies nf[a].path@ != nf[b].path@
                && nf[a].id@ != nf[b].id@ by {
                assert(vs[a].path@ != vs[b].path@ && vs[a].id@ != vs[b].id@);
            }
        }
    }

    /// Unregisters the root at `path` and deletes every record whose
    /// folder path has it as a textual prefix.
    pub fn remove_mounted_folder(&mut self, path: &str)
        requires
            old(self).wf(),
        ensures
            final(self).wf(),
            final(self).tags@ == old(self).tags@,
            final(self).participants@ == old(self).participants@,
            final(self).languages@ == old(self).languages@,
            final(self).video_tags@ == old(self).video_tags@,
            final(self).video_participants@ == old(self).video_participants@,
            final(self).video_languages@ == old(self).video_languages@,
            final(self).mounted_folders@ == old(self).mounted_folders@.filter(
                |f: MountedFolder| f.path@ != path@,
            ),
            final(self).videos@ == old(self).videos@.filter(keep_out_of(path@)),
    {
        let ghost pred = |f: MountedFolder| f.path@ != path@;
        let ghost orig = self.mounted_folders@;
        proof {
            lemma_filter_empty(pred);
            assert(orig.take(0).filter(pred) =~= Seq::<MountedFolder>::empty().filter(pred));
            assert(orig.skip(0) =~= orig);
            assert(self.mounted_folders@.take(0) =~= Seq::<MountedFolder>::empty());
        }
        let mut j: usize = 0;
        let ghost mut seen: int = 0;
        while j < self.mounted_folders.len()
            invariant
                old(self).wf(),
                self.same_but_folders(old(self)),
                orig == old(self).mounted_folders@,
                pred == (|f: MountedFolder| f.path@ != path@),
                0 <= j <= self.mounted_folders@.len(),
                0 <= seen <= orig.len(),
                self.mounted_folders@.take(j as int) == orig.take(seen).filter(pred),
                self.mounted_folders@.skip(j as int) == orig.skip(seen),
            decreases self.mounted_folders@.len() - j,
        {
            proof {
                assert(self.mounted_folders@.skip(j as int).len() == orig.skip(seen).len());
                assert(seen < orig.len());
                assert(self.mounted_folders@[j as int] == self.mounted_folders@.skip(
                    j as int,
                )[0]);
                assert(orig.skip(seen)[0] == orig[seen]);
                assert(orig.take(seen + 1) =~= orig.take(seen).push(orig[seen]));
                lemma_filter_push(orig.take(seen), orig[seen], pred);
            }
            if str_eq(self.mounted_folders[j].path.as_str(), path) {
                let ghost before = self.mounted_folders@;
                self.mounted_folders.remove(j);
                proof {
                    assert(!pred(orig[seen]));
                    assert(self.mounted_folders@.take(j as int) =~= before.take(j as int));
                    assert(self.mounted_folders@.skip(j as int) =~= before.skip(j + 1));
                    assert(before.skip(j + 1) =~= orig.skip(seen + 1)) by {
                        assert(before.skip(j as int) == orig.skip(seen));
                        assert forall|k: int|
                            0 <= k < before.len() - j - 1 implies #[trigger] before.skip(j + 1)[k]
                            == orig.skip(seen + 1)[k] by {
                            assert(before.skip(j + 1)[k] == before.skip(j as int)[k + 1]);
                            assert(orig.skip(seen + 1)[k] == orig.skip(seen)[k + 1]);
                        }
                    }
                }
            } else {
                proof {
                    assert(pred(orig[seen]));
                    assert(self.mounted_folders@.take(j + 1) =~= self.mounted_folders@.take(
                        j as int,
                    ).push(self.mounted_folders@[j as int]));
                    assert(self.mounted_folders@.skip(j + 1) =~= orig.skip(seen + 1)) by {
                        assert forall|k: int| 0 <= k < self.mounted_folders@.len() - j - 1
                            implies #[trigger] self.mounted_folders@.skip(j + 1)[k] == orig.skip(
                            seen + 1,
                        )[k] by {
                            assert(self.mounted_folders@.skip(j + 1)[k]
                                == self.mounted_folders@.skip(j as int)[k + 1]);
                            assert(orig.skip(seen + 1)[k] == orig.skip(seen)[k + 1]);
                        }
                    }
                }
                j = j + 1;
            }
            proof {
                seen = seen + 1;
            }
        }
        proof {
            assert(self.mounted_folders@.skip(j as int).len() == 0);
            assert(orig.skip(seen).len() == 0);
            assert(seen == orig.len());
            assert(self.mounted_folders@.take(j as int) =~= self.mounted_folders@);
            assert(orig.take(seen) =~= orig);
            assert(self.mounted_folders@ == orig.filter(pred));
            let differs = |a: MountedFolder, b: MountedFolder| a.path@ != b.path@ && a.id@
                != b.id@;
            lemma_filter_distinct(orig, pred, differs);
            let nf = self.mounted_folders@;
            assert forall|a: int, b: int| 0 <= a < b < nf.len() implies nf[a].path@ != nf[b].path@
                && nf[a].id@ != nf[b].id@ by {
                assert(differs(nf[a], nf[b]));
            }
        }
        self.clear_folder_videos(path);
    }
}

} // verus!
