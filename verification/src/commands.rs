//! The operation surface: scanning a root into the catalog under the
//! full-replace policy, previewing a folder tree, answering paginated
//! queries, looking a record up with its annotations, registering
//! roots, and planning a file move.
//!
//! One call holds the store exclusively for its whole duration, so the
//! clear-then-refill of a scan is atomic to every other caller.

use vstd::prelude::*;
use crate::catalog::{
    Database,
    has_video_id,
    StoreError,
    upsert_views,
    upsert_view_step,
};
use crate::fs::{FsEntry, wf_entries};
use crate::models::{
    FilterOptions,
    FolderNode,
    MountedFolder,
    PaginatedVideos,
    ScanResult,
    Video,
    video_like,
    VideoWithMetadata,
};
use crate::query::{video_views, VideoView, vview};
use crate::scanner::{counts_from, seed_views, SeedView, spec_walk};
use crate::taxonomy::{joined_language_views, joined_participant_views, joined_tag_views};
use crate::text::{file_name_of, join_path, spec_file_name, str_eq};
use crate::tree::{
    count_of,
    node_summary,
    spec_children_sorted,
    spec_root_count,
    spec_root_name,
    sum_children,
};
use vstd::string::StrSliceExecFns;

verus! {

/// The depth a scan of `p` runs at: the registered root's setting, or
/// two for an unregistered folder.
pub open spec fn spec_scan_depth(fs: Seq<MountedFolder>, p: Seq<char>) -> int
    decreases fs.len(),
{
    if fs.len() == 0 {
        2
    } else if fs.first().path@ == p {
        fs.first().scan_depth as int
    } else {
        spec_scan_depth(fs.drop_first(), p)
    }
}

/// Keeps the record views whose folder path does not start with
/// `prefix`.
pub open spec fn view_keep_out_of(prefix: Seq<char>) -> spec_fn(VideoView) -> bool {
    |v: VideoView| !prefix.is_prefix_of(v.folder_path)
}

/// The record views that survive clearing a folder prefix.
pub open spec fn clear_views(vs: Seq<VideoView>, prefix: Seq<char>) -> Seq<VideoView> {
    vs.filter(view_keep_out_of(prefix))
}

/// A store left mid-commit: some prefix of the discovered records made
/// it in over the cleared state before the refusal.
pub open spec fn partial_commit(
    views: Seq<VideoView>,
    cleared: Seq<VideoView>,
    seeds: Seq<SeedView>,
) -> bool {
    exists|ws: Seq<VideoView>|
        view_seeds(ws).is_prefix_of(seeds) && views == #[trigger] upsert_views(cleared, ws)
}

/// The seeds a view sequence carries.
pub open spec fn view_seeds(ws: Seq<VideoView>) -> Seq<SeedView> {
    ws.map_values(|w: VideoView| view_seed(w))
}

/// The seed a record view carries.
pub open spec fn view_seed(v: VideoView) -> SeedView {
    SeedView {
        path: v.path,
        filename: v.filename,
        folder: v.folder_path,
        size: v.size,
        thumbnail: v.thumbnail_path,
    }
}

impl Database {
    /// Resolves the depth a scan of `path` runs at.
    fn resolved_scan_depth(&self, path: &str) -> (r: usize)
        ensures
            r as int == spec_scan_depth(self.mounted_folders@, path@),
    {
        let n = self.mounted_folders.len();
        let mut i: usize = 0;
        proof {
            assert(self.mounted_folders@.skip(0) =~= self.mounted_folders@);
        }
        while i < n
            invariant
                n == self.mounted_folders@.len(),
                0 <= i <= n,
                spec_scan_depth(self.mounted_folders@, path@) == spec_scan_depth(
                    self.mounted_folders@.skip(i as int),
                    path@,
                ),
            decreases n - i,
        {
            proof {
                assert(self.mounted_folders@.skip(i as int).len() == n - i);
                assert(self.mounted_folders@.skip(i as int).first()
                    == self.mounted_folders@[i as int]);
                assert(self.mounted_folders@.skip(i as int).drop_first()
                    =~= self.mounted_folders@.skip(i + 1));
            }
            if str_eq(self.mounted_folders[i].path.as_str(), path) {
                return self.mounted_folders[i].scan_depth;
            }
            i = i + 1;
        }
        proof {
            assert(self.mounted_folders@.skip(n as int).len() == 0);
        }
        2
    }
}

/// Scans a folder's snapshot and commits the result under the
/// full-replace policy: the root's configured depth (two when
/// unregistered) bounds the walk, every prior record under the folder
/// is cleared first, and every discovered record is then stored.
///
/// A root that could not be listed at all arrives as `None`: that is
/// fatal — the error is surfaced and the catalog is left untouched.
/// (Unreadable entries *below* a readable root are absorbed by the
/// walker, as best-effort traversal prescribes.)  A store refusal
/// mid-commit aborts the remaining inserts and is surfaced; the
/// records committed before it stay — and a walk that discovered
/// nothing commits nothing, so it always succeeds.
pub fn scan_folder(db: &mut Database, folder_path: &String, entries: Option<&Vec<FsEntry>>) -> (r:
    Result<ScanResult, StoreError>)
    requires
        old(db).wf(),
        match entries {
            Some(es) => wf_entries(es@) && spec_root_count(
                folder_path@,
                counts_from(
                    spec_walk(
                        folder_path@,
                        es@,
                        0,
                        spec_scan_depth(old(db).mounted_folders@, folder_path@) as nat,
                    ),
                ),
                es@,
            ) <= usize::MAX,
            None => true,
        },
    ensures
        final(db).wf(),
        final(db).same_but_videos(old(db)),
        entries is None ==> (*final(db) == *old(db) && r == Result::<
            ScanResult,
            StoreError,
        >::Err(StoreError::Unreadable)),
        ({
            match entries {
                None => true,
                Some(es) => {
                    let depth = spec_scan_depth(old(db).mounted_folders@, folder_path@) as nat;
                    let seeds = spec_walk(folder_path@, es@, 0, depth);
                    let cleared = clear_views(video_views(old(db).videos@), folder_path@);
                    match r {
                        Ok(res) => {
                            &&& seed_views(res.videos@) == seeds
                            &&& res.total_videos == res.videos@.len()
                            &&& res.new_videos == res.videos@.len()
                            &&& res.folders@.len() == 1
                            &&& ({
                                let cs = counts_from(seeds);
                                let tree = res.folders@[0];
                                &&& tree.path@ == folder_path@
                                &&& tree.name@ == spec_root_name(folder_path@)
                                &&& tree.children@.map_values(|c: FolderNode| node_summary(c))
                                    == spec_children_sorted(folder_path@, cs, es@)
                                &&& tree.video_count as int == spec_root_count(
                                    folder_path@,
                                    cs,
                                    es@,
                                )
                                &&& tree.video_count as int == count_of(cs, folder_path@)
                                    + sum_children(tree.children@)
                            })
                            &&& video_views(final(db).videos@) == upsert_views(
                                cleared,
                                video_views(res.videos@),
                            )
                            &&& (forall|k: int| #![trigger res.videos@[k]]
                                0 <= k < res.videos@.len() ==> (res.videos@[k].duration is None
                                    && res.videos@[k].created_at@
                                    == res.videos@[k].updated_at@))
                        },
                        Err(e) => {
                            &&& e == StoreError::DuplicateId
                            &&& seeds.len() > 0
                            &&& partial_commit(video_views(final(db).videos@), cleared, seeds)
                        },
                    }
                },
            }
        }),
{
    let listing = match entries {
        Some(es) => es,
        None => {
            return Err(StoreError::Unreadable);
        },
    };
    let ghost depth = spec_scan_depth(old(db).mounted_folders@, folder_path@) as nat;
    let ghost seeds = spec_walk(folder_path@, listing@, 0, depth);
    let ghost cleared = clear_views(video_views(old(db).videos@), folder_path@);

    let scan_depth = db.resolved_scan_depth(folder_path.as_str());
    db.clear_folder_videos(folder_path.as_str());
    proof {
        assert forall|v: Video| #[trigger] (crate::catalog::keep_out_of(folder_path@))(v)
            == (view_keep_out_of(folder_path@))(vview(v)) by {}
        crate::seqs::lemma_filter_map_commute(
            old(db).videos@,
            |v: Video| vview(v),
            crate::catalog::keep_out_of(folder_path@),
            view_keep_out_of(folder_path@),
        );
        assert(video_views(db.videos@) == cleared);
    }

    let scan_result = crate::scanner::scan_folder(folder_path, listing, scan_depth);
    let ghost after_clear = db.videos@;

    let total = scan_result.videos.len();
    let mut i: usize = 0;
    while i < total
        invariant
            db.wf(),
            db.same_but_videos(old(db)),
            entries == Some(listing),
            cleared == clear_views(video_views(old(db).videos@), folder_path@),
            depth == spec_scan_depth(old(db).mounted_folders@, folder_path@) as nat,
            seeds == spec_walk(folder_path@, listing@, 0, depth),
            seed_views(scan_result.videos@) == seeds,
            total == scan_result.videos@.len(),
            0 <= i <= total,
            video_views(db.videos@) == upsert_views(
                cleared,
                video_views(scan_result.videos@.take(i as int)),
            ),
            forall|k: int| #![trigger scan_result.videos@[k]]
                0 <= k < scan_result.videos@.len() ==> (scan_result.videos@[k].duration is None
                    && scan_result.videos@[k].created_at@
                    == scan_result.videos@[k].updated_at@),
        decreases total - i,
    {
        let c = scan_result.videos[i].duplicate();
        proof {
            assert(vview(c) =~= vview(scan_result.videos@[i as int]));
            assert(video_views(scan_result.videos@.take(i + 1)) =~= video_views(
                scan_result.videos@.take(i as int),
            ).push(vview(scan_result.videos@[i as int])));
        }
        let ghost before = db.videos@;
        match db.upsert_video(c) {
            Ok(()) => {
                proof {
                    assert(video_views(db.videos@) == upsert_view_step(
                        video_views(before),
                        vview(c),
                    ));
                    assert(upsert_views(
                        cleared,
                        video_views(scan_result.videos@.take(i + 1)),
                    ) == upsert_view_step(
                        upsert_views(cleared, video_views(scan_result.videos@.take(i as int))),
                        vview(scan_result.videos@[i as int]),
                    )) by {
                        assert(video_views(scan_result.videos@.take(i + 1)).drop_last()
                            =~= video_views(scan_result.videos@.take(i as int)));
                        assert(video_views(scan_result.videos@.take(i + 1)).last() == vview(
                            scan_result.videos@[i as int],
                        ));
                    }
                }
            },
            Err(e) => {
                proof {
                    let ws = video_views(scan_result.videos@.take(i as int));
                    assert(view_seeds(ws) =~= seed_views(scan_result.videos@).take(i as int)) by {
                        assert forall|k: int| 0 <= k < i implies #[trigger] view_seeds(ws)[k]
                            == seed_views(scan_result.videos@).take(i as int)[k] by {
                            assert(ws[k] == vview(scan_result.videos@[k]));
                            assert(seed_views(scan_result.videos@)[k]
                                == crate::scanner::seed_view(scan_result.videos@[k]));
                            assert(view_seed(vview(scan_result.videos@[k]))
                                =~= crate::scanner::seed_view(scan_result.videos@[k]));
                        }
                    }
                    assert(seeds.take(i as int).is_prefix_of(seeds)) by {
                        assert(seeds.take(i as int) =~= seeds.take(seeds.take(i as int).len() as int));
                    }
                    assert(view_seeds(ws).is_prefix_of(seeds));
                    assert(video_views(db.videos@) == upsert_views(cleared, ws));
                    assert(partial_commit(video_views(db.videos@), cleared, seeds)) by {
                        assert(view_seeds(ws).is_prefix_of(seeds) && video_views(db.videos@)
                            == upsert_views(cleared, ws));
                    }
                    // A walk that discovered nothing never reaches an
                    // insert, so a refusal implies a nonempty walk.
                    assert(seeds.len() > 0) by {
                        assert(seed_views(scan_result.videos@).len()
                            == scan_result.videos@.len());
                    }
                }
                return Err(e);
            },
        }
        i = i + 1;
    }
    proof {
        assert(scan_result.videos@.take(total as int) =~= scan_result.videos@);
    }
    Ok(scan_result)
}

/// Walks a folder's snapshot at its configured depth and returns the
/// one-level folder summary, committing nothing.  A root that could
/// not be listed at all arrives as `None` and is surfaced as an error.
pub fn get_folder_tree(db: &Database, folder_path: &String, entries: Option<&Vec<FsEntry>>) -> (r:
    Result<FolderNode, StoreError>)
    requires
        match entries {
            Some(es) => wf_entries(es@) && spec_root_count(
                folder_path@,
                counts_from(
                    spec_walk(
                        folder_path@,
                        es@,
                        0,
                        spec_scan_depth(db.mounted_folders@, folder_path@) as nat,
                    ),
                ),
                es@,
            ) <= usize::MAX,
            None => true,
        },
    ensures
        ({
            match (entries, r) {
                (Option::None, Result::Err(e)) => e == StoreError::Unreadable,
                (Option::Some(es), Result::Ok(tree)) => {
                    let depth = spec_scan_depth(db.mounted_folders@, folder_path@) as nat;
                    let cs = counts_from(spec_walk(folder_path@, es@, 0, depth));
                    &&& tree.path@ == folder_path@
                    &&& tree.name@ == spec_root_name(folder_path@)
                    &&& tree.children@.map_values(|c: FolderNode| node_summary(c))
                        == spec_children_sorted(folder_path@, cs, es@)
                    &&& tree.video_count as int == spec_root_count(folder_path@, cs, es@)
                    &&& tree.video_count as int == count_of(cs, folder_path@) + sum_children(
                        tree.children@,
                    )
                },
                _ => false,
            }
        }),
{
    let listing = match entries {
        Some(es) => es,
        None => {
            return Err(StoreError::Unreadable);
        },
    };
    let scan_depth = db.resolved_scan_depth(folder_path.as_str());
    let mut scan_result = crate::scanner::scan_folder(folder_path, listing, scan_depth);
    Ok(scan_result.folders.remove(0))
}

/// Answers a query: one page of matching records, the total matching
/// count, and whether records beyond this page remain.
pub fn get_videos(db: &Database, filter: &FilterOptions) -> (r: PaginatedVideos)
    ensures
        video_views(r.videos@) == db.page_views(*filter),
        r.total as int == db.matching_views(*filter).len(),
        r.has_more == (filter.offset + r.videos@.len() < r.total),
{
    let videos = db.get_videos(filter);
    let total = db.get_video_count(filter);
    proof {
        crate::ordering::lemma_sort_le_multiset(
            crate::query::query_leq(*filter),
            db.matching_views(*filter),
        );
        assert(video_views(videos@).len() == videos@.len());
        assert(videos@.len() + filter.offset <= usize::MAX) by {
            let s = db.sorted_views(*filter);
            assert(db.page_views(*filter).len() <= s.len() - (if filter.offset > s.len() {
                s.len() as int
            } else {
                filter.offset as int
            }));
        }
    }
    let has_more = filter.offset + videos.len() < total;
    PaginatedVideos { videos, total, has_more }
}

/// Looks a record up by identifier and returns it with its taxonomy
/// annotations; a missing identifier is a distinct not-found outcome.
pub fn get_video_with_metadata(db: &Database, video_id: &str) -> (r: Result<
    VideoWithMetadata,
    StoreError,
>)
    ensures
        match r {
            Ok(m) => {
                &&& has_video_id(db.videos@, video_id@)
                &&& m.video.id@ == video_id@
                &&& (exists|i: int|
                    0 <= i < db.videos@.len() && video_like(#[trigger] db.videos@[i], m.video))
                &&& m.tags@.map_values(|t: crate::models::Tag| crate::taxonomy::tag_view(t))
                    == joined_tag_views(db.vt(), db.tags@, video_id@)
                &&& m.participants@.map_values(
                    |p: crate::models::Participant| crate::taxonomy::participant_view(p),
                ) == joined_participant_views(db.vp(), db.participants@, video_id@)
                &&& m.languages@.map_values(
                    |l: crate::models::Language| crate::taxonomy::language_view(l),
                ) == joined_language_views(db.vl(), db.languages@, video_id@)
            },
            Err(e) => e == StoreError::NotFound && !has_video_id(db.videos@, video_id@),
        },
{
    let n = db.videos.len();
    let mut i: usize = 0;
    while i < n
        invariant
            n == db.videos@.len(),
            0 <= i <= n,
            forall|k: int| 0 <= k < i ==> db.videos@[k].id@ != video_id@,
        decreases n - i,
    {
        if str_eq(db.videos[i].id.as_str(), video_id) {
            let video = db.videos[i].duplicate();
            let tags = db.get_video_tags(video_id);
            let participants = db.get_video_participants(video_id);
            let languages = db.get_video_languages(video_id);
            proof {
                assert(video_like(db.videos@[i as int], video));
            }
            return Ok(VideoWithMetadata { video, tags, participants, languages });
        }
        i = i + 1;
    }
    Err(StoreError::NotFound)
}

/// Splits a move request into the target path and file name; a source
/// path without a final segment is refused.  The caller moves the file
/// first and rewrites the record only when that succeeded.
pub fn plan_move(old_path: &str, new_folder: &str) -> (r: Result<(String, String), StoreError>)
    ensures
        match r {
            Ok(p) => {
                &&& spec_file_name(old_path@) == Some(p.1@)
                &&& p.0@ == new_folder@ + seq!['/'] + p.1@
            },
            Err(e) => e == StoreError::InvalidPath && spec_file_name(old_path@) is None,
        },
{
    match file_name_of(old_path) {
        Some(filename) => {
            let new_path = join_path(new_folder, filename.as_str());
            Ok((new_path, filename))
        },
        None => Err(StoreError::InvalidPath),
    }
}

impl Database {
    /// Registers a root to scan, deriving its display name from the
    /// final path segment (the whole path when none can be split off)
    /// and defaulting the depth to two.
    pub fn register_mounted_folder(&mut self, path: &String, scan_depth: Option<usize>) -> (r:
        MountedFolder)
        requires
            old(self).wf(),
        ensures
            final(self).wf(),
            final(self).same_but_folders(old(self)),
            r.path@ == path@,
            r.name@ == spec_root_name(path@),
            r.scan_depth == (match scan_depth {
                Some(d) => d,
                None => 2,
            }),
            crate::catalog::has_root_path(final(self).mounted_folders@, path@),
    {
        let name: String = match file_name_of(path.as_str()) {
            Some(n) => n,
            None => path.clone(),
        };
        let depth: usize = match scan_depth {
            Some(d) => d,
            None => 2,
        };
        self.add_mounted_folder(path.as_str(), name.as_str(), depth)
    }
}

proof fn lemma_view_has_path_concat(
    a: Seq<VideoView>,
    b: Seq<VideoView>,
    p: Seq<char>,
)
    ensures
        crate::catalog::view_has_path(a + b, p) == (crate::catalog::view_has_path(a, p)
            || crate::catalog::view_has_path(b, p)),
{
    let c = a + b;
    if crate::catalog::view_has_path(c, p) {
        let w = choose|w: int| 0 <= w < c.len() && c[w].path == p;
        if w < a.len() {
            assert(a[w].path == p);
        } else {
            assert(b[w - a.len()].path == p);
        }
    }
    if crate::catalog::view_has_path(a, p) {
        let w = choose|w: int| 0 <= w < a.len() && a[w].path == p;
        assert(c[w].path == p);
    }
    if crate::catalog::view_has_path(b, p) {
        let w = choose|w: int| 0 <= w < b.len() && b[w].path == p;
        assert(c[w + a.len()].path == p);
    }
}

/// Upserting records whose paths are fresh and mutually distinct is
/// plain appending: nothing is merged.
pub proof fn lemma_upsert_all_new(base: Seq<VideoView>, ws: Seq<VideoView>)
    requires
        forall|a: int|
            0 <= a < ws.len() ==> !crate::catalog::view_has_path(base, #[trigger] ws[a].path),
        forall|a: int, b: int| 0 <= a < b < ws.len() ==> ws[a].path != ws[b].path,
    ensures
        upsert_views(base, ws) == base + ws,
    decreases ws.len(),
{
    if ws.len() == 0 {
        assert(upsert_views(base, ws) =~= base + ws);
    } else {
        let front = ws.drop_last();
        assert(forall|a: int| 0 <= a < front.len() ==> #[trigger] front[a] == ws[a]);
        lemma_upsert_all_new(base, front);
        let last = ws.last();
        assert(!crate::catalog::view_has_path(base, last.path));
        assert(!crate::catalog::view_has_path(front, last.path)) by {
            if crate::catalog::view_has_path(front, last.path) {
                let w = choose|w: int| 0 <= w < front.len() && front[w].path == last.path;
                assert(ws[w].path == ws[ws.len() - 1].path);
            }
        }
        lemma_view_has_path_concat(base, front, last.path);
        assert(upsert_view_step(base + front, last) == (base + front).push(last));
        assert((base + front).push(last) =~= base + ws);
    }
}

/// Re-scanning is idempotent: with the filesystem unchanged, a second
/// scan of the same folder leaves the catalog with exactly the same
/// records, seed for seed — identifiers and timestamps may be
/// reissued, but path, filename, folder, size and thumbnail are
/// stable.  The hypotheses say what a real scan provides: both walks
/// found the same seeds, the discovered folders lie under the scanned
/// folder, discovered paths are mutually distinct, and no record that
/// survives the clear holds a discovered path.
pub proof fn lemma_rescan_stable(
    s0: Seq<VideoView>,
    folder: Seq<char>,
    ws1: Seq<VideoView>,
    ws2: Seq<VideoView>,
)
    requires
        view_seeds(ws1) == view_seeds(ws2),
        forall|a: int| 0 <= a < ws1.len() ==> folder.is_prefix_of(#[trigger] ws1[a].folder_path),
        forall|a: int, b: int| 0 <= a < b < ws1.len() ==> ws1[a].path != ws1[b].path,
        forall|a: int|
            0 <= a < ws1.len() ==> !crate::catalog::view_has_path(
                clear_views(s0, folder),
                #[trigger] ws1[a].path,
            ),
    ensures
        view_seeds(
            upsert_views(
                clear_views(upsert_views(clear_views(s0, folder), ws1), folder),
                ws2,
            ),
        ) == view_seeds(upsert_views(clear_views(s0, folder), ws1)),
{
    let c0 = clear_views(s0, folder);
    let pred = view_keep_out_of(folder);

    // Seeds determine path and folder, so the second batch mirrors the
    // first in both.
    assert(ws2.len() == ws1.len()) by {
        assert(view_seeds(ws1).len() == ws1.len());
        assert(view_seeds(ws2).len() == ws2.len());
    }
    assert forall|a: int| 0 <= a < ws2.len() implies #[trigger] ws2[a].path == ws1[a].path
        && ws2[a].folder_path == ws1[a].folder_path by {
        assert(view_seeds(ws1)[a] == view_seed(ws1[a]));
        assert(view_seeds(ws2)[a] == view_seed(ws2[a]));
    }

    // The first commit is plain appending.
    lemma_upsert_all_new(c0, ws1);
    let s1 = c0 + ws1;

    // Clearing the folder again removes exactly the first batch.
    assert(s1.filter(pred) == c0.filter(pred) + ws1.filter(pred)) by {
        Seq::<VideoView>::filter_distributes_over_add(c0, ws1, pred);
    }
    assert(c0.filter(pred) == c0) by {
        assert forall|i: int| 0 <= i < c0.len() implies pred(#[trigger] c0[i]) by {
            s0.lemma_filter_pred(pred, i);
        }
        crate::seqs::lemma_filter_all(c0, pred);
    }
    assert(ws1.filter(pred) == Seq::<VideoView>::empty()) by {
        assert(forall|i: int| 0 <= i < ws1.len() ==> !pred(#[trigger] ws1[i]));
        crate::seqs::lemma_filter_none(ws1, pred);
    }

    // The second commit appends as the first did.
    assert forall|a: int|
        0 <= a < ws2.len() implies !crate::catalog::view_has_path(c0, #[trigger] ws2[a].path) by {
        assert(ws2[a].path == ws1[a].path);
    }
    assert forall|a: int, b: int| 0 <= a < b < ws2.len() implies ws2[a].path != ws2[b].path by {
        assert(ws1[a].path != ws1[b].path);
    }
    lemma_upsert_all_new(c0, ws2);

    // Seed for seed, the two states agree.
    assert(view_seeds(c0 + ws2) =~= view_seeds(c0 + ws1)) by {
        assert forall|i: int| 0 <= i < c0.len() + ws2.len() implies #[trigger] view_seeds(
            c0 + ws2,
        )[i] == view_seeds(c0 + ws1)[i] by {
            if i < c0.len() {
                assert((c0 + ws2)[i] == c0[i]);
                assert((c0 + ws1)[i] == c0[i]);
            } else {
                let j = i - c0.len();
                assert(view_seeds(ws1).len() == ws1.len());
                assert(view_seeds(ws2).len() == ws2.len());
                assert(0 <= j < ws1.len());
                assert((c0 + ws2)[i] == ws2[j]);
                assert((c0 + ws1)[i] == ws1[j]);
                assert(view_seeds(ws1)[j] == view_seed(ws1[j]));
                assert(view_seeds(ws2)[j] == view_seed(ws2[j]));
                assert(view_seeds(c0 + ws2)[i] == view_seed((c0 + ws2)[i]));
                assert(view_seeds(c0 + ws1)[i] == view_seed((c0 + ws1)[i]));
            }
        }
    }
    assert(clear_views(s1, folder) == c0);
}

/// Full replacement: after a committed scan, a record under the
/// scanned folder stands in the catalog exactly when the walk
/// discovered it — a file deleted from disk before a re-scan loses its
/// record, though nothing deleted it explicitly.
pub proof fn lemma_full_replace(s0: Seq<VideoView>, folder: Seq<char>, ws: Seq<VideoView>)
    requires
        forall|a: int| 0 <= a < ws.len() ==> folder.is_prefix_of(#[trigger] ws[a].folder_path),
        forall|a: int, b: int| 0 <= a < b < ws.len() ==> ws[a].path != ws[b].path,
        forall|a: int|
            0 <= a < ws.len() ==> !crate::catalog::view_has_path(
                clear_views(s0, folder),
                #[trigger] ws[a].path,
            ),
    ensures
        forall|v: VideoView|
            (#[trigger] upsert_views(clear_views(s0, folder), ws).contains(v)
                && folder.is_prefix_of(v.folder_path)) ==> ws.contains(v),
        forall|a: int|
            0 <= a < ws.len() ==> upsert_views(clear_views(s0, folder), ws).contains(
                #[trigger] ws[a],
            ),
{
    let c0 = clear_views(s0, folder);
    let pred = view_keep_out_of(folder);
    lemma_upsert_all_new(c0, ws);
    let s1 = c0 + ws;
    assert forall|v: VideoView|
        (#[trigger] s1.contains(v) && folder.is_prefix_of(v.folder_path)) implies ws.contains(
        v,
    ) by {
        let w = choose|w: int| 0 <= w < s1.len() && s1[w] == v;
        if w < c0.len() {
            assert(pred(c0[w])) by {
                s0.lemma_filter_pred(pred, w);
            }
            assert(false);
        } else {
            assert(ws[w - c0.len()] == v);
            assert(ws.contains(v));
        }
    }
    assert forall|a: int| 0 <= a < ws.len() implies upsert_views(c0, ws).contains(
        #[trigger] ws[a],
    ) by {
        assert(s1[c0.len() + a] == ws[a]);
    }
}

/// A record view that carries its containing folder, as the data
/// model prescribes: its path is its folder path, a separator, and
/// its slash-free file name.
pub open spec fn view_carries_folder(v: VideoView) -> bool {
    v.path == v.folder_path + seq!['/'] + v.filename && crate::fs::valid_name(v.filename)
}

/// A catalog whose records all carry their containing folder.  Every
/// record a scan produces does; the laws below rest on it and keep it.
pub open spec fn views_carry_folder(vs: Seq<VideoView>) -> bool {
    forall|i: int| 0 <= i < vs.len() ==> view_carries_folder(#[trigger] vs[i])
}

/// Records carrying the seeds of one walk lie under the walked folder,
/// bear pairwise distinct paths, and carry their containing folders.
proof fn lemma_ws_from_walk(
    dir: Seq<char>,
    entries: Seq<crate::fs::FsEntry>,
    max: nat,
    ws: Seq<VideoView>,
)
    requires
        crate::fs::wf_entries(entries),
        view_seeds(ws) == spec_walk(dir, entries, 0, max),
    ensures
        forall|a: int| 0 <= a < ws.len() ==> dir.is_prefix_of(#[trigger] ws[a].folder_path),
        forall|a: int, b: int| 0 <= a < b < ws.len() ==> ws[a].path != ws[b].path,
        forall|a: int| 0 <= a < ws.len() ==> view_carries_folder(#[trigger] ws[a]),
{
    let seeds = spec_walk(dir, entries, 0, max);
    crate::scanner::lemma_walk_folders_under(dir, entries, entries.len() as int, 0, max);
    crate::scanner::lemma_walk_paths_distinct(dir, entries, entries.len() as int, 0, max);
    crate::scanner::lemma_walk_seeds_carry_folder(dir, entries, entries.len() as int, 0, max);
    assert(view_seeds(ws).len() == ws.len());
    assert forall|a: int| 0 <= a < ws.len() implies dir.is_prefix_of(
        #[trigger] ws[a].folder_path,
    ) by {
        assert(view_seeds(ws)[a] == view_seed(ws[a]));
        assert(dir.is_prefix_of(seeds[a].folder));
    }
    assert forall|a: int, b: int| 0 <= a < b < ws.len() implies ws[a].path != ws[b].path by {
        assert(view_seeds(ws)[a] == view_seed(ws[a]));
        assert(view_seeds(ws)[b] == view_seed(ws[b]));
        assert(seeds[a].path != seeds[b].path);
    }
    assert forall|a: int| 0 <= a < ws.len() implies view_carries_folder(#[trigger] ws[a]) by {
        assert(view_seeds(ws)[a] == view_seed(ws[a]));
        assert(seeds[a].path == seeds[a].folder + seq!['/'] + seeds[a].filename);
        assert(crate::fs::valid_name(seeds[a].filename));
    }
}

/// In a catalog whose records carry their folders, no record surviving
/// a prefix clear can hold the path of a record discovered under that
/// prefix: the path pins the containing folder, and the two folders
/// disagree about the prefix.
proof fn lemma_carry_folder_fresh(s0: Seq<VideoView>, dir: Seq<char>, ws: Seq<VideoView>)
    requires
        views_carry_folder(s0),
        forall|a: int| 0 <= a < ws.len() ==> dir.is_prefix_of(#[trigger] ws[a].folder_path),
        forall|a: int| 0 <= a < ws.len() ==> view_carries_folder(#[trigger] ws[a]),
    ensures
        forall|a: int|
            0 <= a < ws.len() ==> !crate::catalog::view_has_path(
                clear_views(s0, dir),
                #[trigger] ws[a].path,
            ),
{
    let pred = view_keep_out_of(dir);
    let cleared = clear_views(s0, dir);
    assert forall|a: int| 0 <= a < ws.len() implies !crate::catalog::view_has_path(
        cleared,
        #[trigger] ws[a].path,
    ) by {
        if crate::catalog::view_has_path(cleared, ws[a].path) {
            let w = choose|w: int| 0 <= w < cleared.len() && cleared[w].path == ws[a].path;
            assert(view_carries_folder(cleared[w])) by {
                assert(cleared.contains(cleared[w]));
                s0.lemma_filter_contains_rev(pred, cleared[w]);
                let q = choose|q: int| 0 <= q < s0.len() && s0[q] == cleared[w];
                assert(view_carries_folder(s0[q]));
            }
            crate::scanner::lemma_parent_split_unique(
                cleared[w].folder_path,
                cleared[w].filename,
                ws[a].folder_path,
                ws[a].filename,
            );
            assert(pred(cleared[w])) by {
                s0.lemma_filter_pred(pred, w);
            }
            assert(false);
        }
    }
}

/// Full replacement at the scan: when the committed records carry
/// exactly one walk's seeds over a well-formed snapshot, and the
/// catalog's records carry their containing folders as the data model
/// prescribes, a record under the scanned folder stands in the
/// catalog exactly when the walk discovered it.
pub proof fn lemma_scan_is_full_replace(
    s0: Seq<VideoView>,
    dir: Seq<char>,
    entries: Seq<crate::fs::FsEntry>,
    max: nat,
    ws: Seq<VideoView>,
)
    requires
        crate::fs::wf_entries(entries),
        view_seeds(ws) == spec_walk(dir, entries, 0, max),
        views_carry_folder(s0),
    ensures
        forall|v: VideoView|
            (#[trigger] upsert_views(clear_views(s0, dir), ws).contains(v) && dir.is_prefix_of(
                v.folder_path,
            )) ==> ws.contains(v),
        forall|a: int|
            0 <= a < ws.len() ==> upsert_views(clear_views(s0, dir), ws).contains(
                #[trigger] ws[a],
            ),
{
    lemma_ws_from_walk(dir, entries, max, ws);
    lemma_carry_folder_fresh(s0, dir, ws);
    lemma_full_replace(s0, dir, ws);
}

/// Idempotence at the scan: over a catalog whose records carry their
/// containing folders, two commits carrying the seeds of the same walk
/// — the snapshot unchanged in between — leave the catalog with the
/// same records, seed for seed; identifiers and timestamps may be
/// reissued.
pub proof fn lemma_rescan_of_unchanged_snapshot(
    s0: Seq<VideoView>,
    dir: Seq<char>,
    entries: Seq<crate::fs::FsEntry>,
    max: nat,
    ws1: Seq<VideoView>,
    ws2: Seq<VideoView>,
)
    requires
        crate::fs::wf_entries(entries),
        view_seeds(ws1) == spec_walk(dir, entries, 0, max),
        view_seeds(ws2) == spec_walk(dir, entries, 0, max),
        views_carry_folder(s0),
    ensures
        view_seeds(
            upsert_views(clear_views(upsert_views(clear_views(s0, dir), ws1), dir), ws2),
        ) == view_seeds(upsert_views(clear_views(s0, dir), ws1)),
{
    lemma_ws_from_walk(dir, entries, max, ws1);
    lemma_carry_folder_fresh(s0, dir, ws1);
    lemma_rescan_stable(s0, dir, ws1, ws2);
}

/// Every scan keeps the validity the two laws above rest on: over a
/// catalog whose records carry their containing folders, the committed
/// state's records all do too.
pub proof fn lemma_scan_preserves_carry_folder(
    s0: Seq<VideoView>,
    dir: Seq<char>,
    entries: Seq<crate::fs::FsEntry>,
    max: nat,
    ws: Seq<VideoView>,
)
    requires
        crate::fs::wf_entries(entries),
        view_seeds(ws) == spec_walk(dir, entries, 0, max),
        views_carry_folder(s0),
    ensures
        views_carry_folder(upsert_views(clear_views(s0, dir), ws)),
{
    lemma_ws_from_walk(dir, entries, max, ws);
    lemma_carry_folder_fresh(s0, dir, ws);
    let c0 = clear_views(s0, dir);
    let pred = view_keep_out_of(dir);
    lemma_upsert_all_new(c0, ws);
    let s1 = c0 + ws;
    assert forall|i: int| 0 <= i < s1.len() implies view_carries_folder(#[trigger] s1[i]) by {
        if i < c0.len() {
            assert(s1[i] == c0[i]);
            assert(c0.contains(c0[i]));
            s0.lemma_filter_contains_rev(pred, c0[i]);
            let q = choose|q: int| 0 <= q < s0.len() && s0[q] == c0[i];
            assert(view_carries_folder(s0[q]));
        } else {
            assert(s1[i] == ws[i - c0.len()]);
        }
    }
}

} // verus!
