//! The depth-bounded directory walker and its companions: thumbnail and
//! subtitle lookup beside a file, and the one-folder listing.
//!
//! The walker consumes a filesystem snapshot (`FsEntry`), skips hidden
//! and denylisted names, never follows symbolic links, silently passes
//! over unreadable entries, and emits one media record per accepted
//! file together with the per-folder count index.

use vstd::prelude::*;
use crate::classify::{is_skipped_name, name_is_media, file_name_is_media, name_is_skipped};
use crate::clock::{new_id, now_rfc3339};
use crate::fs::{FsEntry, valid_name, wf_entries};
use crate::models::{ScanResult, Video};
use crate::text::{dot_join, join_path, spec_stem, split_name, str_eq};
use crate::tree::{
    FolderCounts,
    bump,
    build_folder_tree,
    count_of,
    counts_nonneg,
    counts_total,
    distinct_keys,
    lemma_bump_total,
    lemma_bump_wf,
    lemma_count_le_total,
    node_summary,
    spec_children_sorted,
    spec_root_count,
    spec_root_name,
    sum_children,
};
use vstd::string::StrSliceExecFns;

verus! {

/// What the walker determines about one discovered file — everything
/// but the generated identifier and the timestamps.
#[verifier::ext_equal]
pub struct SeedView {
    pub path: Seq<char>,
    pub filename: Seq<char>,
    pub folder: Seq<char>,
    pub size: u64,
    pub thumbnail: Option<Seq<char>>,
}

/// The seed carried by a media record.
pub open spec fn seed_view(v: Video) -> SeedView {
    SeedView {
        path: v.path@,
        filename: v.filename@,
        folder: v.folder_path@,
        size: v.size,
        thumbnail: match v.thumbnail_path {
            Option::Some(t) => Option::Some(t@),
            Option::None => Option::None,
        },
    }
}

/// The seeds carried by a record sequence.
pub open spec fn seed_views(vs: Seq<Video>) -> Seq<SeedView> {
    vs.map_values(|v: Video| seed_view(v))
}

/// Whether some entry of a listing bears the given name.
pub open spec fn entry_exists(entries: Seq<FsEntry>, name: Seq<char>) -> bool {
    exists|i: int| 0 <= i < entries.len() && entries[i].name() == name
}

/// The name of the co-located thumbnail: the file's stem with each
/// image extension tried in fixed preference order, first match wins.
pub open spec fn spec_thumbnail_name(entries: Seq<FsEntry>, filename: Seq<char>) -> Option<
    Seq<char>,
> {
    let stem = spec_stem(filename);
    if entry_exists(entries, stem + seq!['.'] + "jpg"@) {
        Option::Some(stem + seq!['.'] + "jpg"@)
    } else if entry_exists(entries, stem + seq!['.'] + "jpeg"@) {
        Option::Some(stem + seq!['.'] + "jpeg"@)
    } else if entry_exists(entries, stem + seq!['.'] + "png"@) {
        Option::Some(stem + seq!['.'] + "png"@)
    } else if entry_exists(entries, stem + seq!['.'] + "webp"@) {
        Option::Some(stem + seq!['.'] + "webp"@)
    } else {
        Option::None
    }
}

/// The full path of the co-located thumbnail, if any.
pub open spec fn spec_thumbnail(dir: Seq<char>, entries: Seq<FsEntry>, filename: Seq<char>) -> Option<
    Seq<char>,
> {
    match spec_thumbnail_name(entries, filename) {
        Option::Some(n) => Option::Some(dir + seq!['/'] + n),
        Option::None => Option::None,
    }
}

/// The seed of an accepted file of a listing.
pub open spec fn seed_of_file(
    dir: Seq<char>,
    entries: Seq<FsEntry>,
    name: Seq<char>,
    size: u64,
) -> SeedView {
    SeedView {
        path: dir + seq!['/'] + name,
        filename: name,
        folder: dir,
        size,
        thumbnail: spec_thumbnail(dir, entries, name),
    }
}

/// The seeds contributed by the first `i` entries of the listing of
/// `dir`, walking at `depth` with bound `max`.
pub open spec fn walk_upto(
    dir: Seq<char>,
    entries: Seq<FsEntry>,
    i: int,
    depth: nat,
    max: nat,
) -> Seq<SeedView>
    decreases max - depth, 1nat, i,
{
    if depth > max || i <= 0 || i > entries.len() {
        Seq::empty()
    } else {
        walk_upto(dir, entries, i - 1, depth, max) + entry_seeds(
            dir,
            entries,
            entries[i - 1],
            depth,
            max,
        )
    }
}

/// The seeds contributed by one entry: an accepted media file yields
/// one seed; an accepted directory yields its own walk, one level
/// deeper; everything else yields none.
pub open spec fn entry_seeds(
    dir: Seq<char>,
    entries: Seq<FsEntry>,
    e: FsEntry,
    depth: nat,
    max: nat,
) -> Seq<SeedView>
    decreases max - depth, 0nat, 0int,
{
    match e {
        FsEntry::File { name, size, readable } => {
            if !is_skipped_name(name@) && name_is_media(name@) && readable {
                seq![seed_of_file(dir, entries, name@, size)]
            } else {
                Seq::empty()
            }
        },
        FsEntry::Dir { name, symlink, readable, entries: sub } => {
            if !is_skipped_name(name@) && depth < max && !symlink && readable {
                walk_upto(dir + seq!['/'] + name@, sub@, sub@.len() as int, (depth + 1) as nat, max)
            } else {
                Seq::empty()
            }
        },
    }
}

/// All seeds of a walk rooted at `dir` with depth bound `max`.
pub open spec fn spec_walk(dir: Seq<char>, entries: Seq<FsEntry>, depth: nat, max: nat) -> Seq<
    SeedView,
> {
    walk_upto(dir, entries, entries.len() as int, depth, max)
}

/// The count index that one seed sequence induces.
pub open spec fn counts_from(seeds: Seq<SeedView>) -> Seq<(Seq<char>, int)>
    decreases seeds.len(),
{
    if seeds.len() == 0 {
        Seq::empty()
    } else {
        bump(counts_from(seeds.drop_last()), seeds.last().folder)
    }
}

/// The induced index is well formed and its total is the seed count.
pub proof fn lemma_counts_from_wf(seeds: Seq<SeedView>)
    ensures
        distinct_keys(counts_from(seeds)),
        counts_nonneg(counts_from(seeds)),
        counts_total(counts_from(seeds)) == seeds.len(),
    decreases seeds.len(),
{
    if seeds.len() > 0 {
        lemma_counts_from_wf(seeds.drop_last());
        lemma_bump_wf(counts_from(seeds.drop_last()), seeds.last().folder);
        lemma_bump_total(counts_from(seeds.drop_last()), seeds.last().folder);
    }
}

/// A reference to an entry's name.
pub fn entry_name_ref(e: &FsEntry) -> (r: &String)
    ensures
        r@ == e.name(),
{
    match e {
        FsEntry::File { name, .. } => name,
        FsEntry::Dir { name, .. } => name,
    }
}

/// Decides `entry_exists`.
pub fn has_entry(entries: &Vec<FsEntry>, name: &str) -> (r: bool)
    ensures
        r == entry_exists(entries@, name@),
{
    let n = entries.len();
    let mut i: usize = 0;
    while i < n
        invariant
            n == entries@.len(),
            0 <= i <= n,
            forall|k: int| 0 <= k < i ==> entries@[k].name() != name@,
        decreases n - i,
    {
        if str_eq(entry_name_ref(&entries[i]).as_str(), name) {
            return true;
        }
        i = i + 1;
    }
    false
}

/// Looks for an image file sharing the given file's stem in the same
/// listing, trying the image extensions in fixed preference order;
/// returns its full path.
pub fn find_thumbnail_for_video(dir_path: &str, entries: &Vec<FsEntry>, filename: &str) -> (r:
    Option<String>)
    ensures
        match (r, spec_thumbnail(dir_path@, entries@, filename@)) {
            (Option::Some(a), Option::Some(b)) => a@ == b,
            (Option::None, Option::None) => true,
            _ => false,
        },
{
    let (stem, _) = split_name(filename);
    let c = dot_join(stem.as_str(), "jpg");
    if has_entry(entries, c.as_str()) {
        return Option::Some(join_path(dir_path, c.as_str()));
    }
    let c = dot_join(stem.as_str(), "jpeg");
    if has_entry(entries, c.as_str()) {
        return Option::Some(join_path(dir_path, c.as_str()));
    }
    let c = dot_join(stem.as_str(), "png");
    if has_entry(entries, c.as_str()) {
        return Option::Some(join_path(dir_path, c.as_str()));
    }
    let c = dot_join(stem.as_str(), "webp");
    if has_entry(entries, c.as_str()) {
        return Option::Some(join_path(dir_path, c.as_str()));
    }
    Option::None
}

/// Builds the media record of one accepted file: a fresh identifier,
/// the joined path, equal creation and update timestamps, no duration,
/// and the thumbnail found beside the file.
pub fn create_video_from_path(dir_path: &String, name: &String, size: u64, siblings: &Vec<
    FsEntry,
>) -> (v: Video)
    ensures
        seed_view(v) == seed_of_file(dir_path@, siblings@, name@, size),
        v.duration is None,
        v.created_at@ == v.updated_at@,
{
    let now = now_rfc3339();
    let thumbnail_path = find_thumbnail_for_video(dir_path.as_str(), siblings, name.as_str());
    let v = Video {
        id: new_id(),
        path: join_path(dir_path.as_str(), name.as_str()),
        filename: name.clone(),
        folder_path: dir_path.clone(),
        size,
        duration: Option::None,
        thumbnail_path,
        created_at: now.clone(),
        updated_at: now,
    };
    proof {
        assert(seed_view(v) =~= seed_of_file(dir_path@, siblings@, name@, size));
    }
    v
}

/// Walks the listing of `dir_path` depth-first with bound `max_depth`,
/// appending one record per accepted media file and counting each in
/// its immediate parent folder.  Hidden and denylisted names are
/// skipped, symbolic links are never followed, unreadable entries
/// contribute nothing.
pub fn scan_directory_shallow(
    dir_path: &String,
    entries: &Vec<FsEntry>,
    videos: &mut Vec<Video>,
    folder_counts: &mut FolderCounts,
    current_depth: usize,
    max_depth: usize,
)
    requires
        wf_entries(entries@),
        old(folder_counts).wf(),
        old(folder_counts)@ == counts_from(seed_views(old(videos)@)),
    ensures
        seed_views(final(videos)@) == seed_views(old(videos)@) + spec_walk(
            dir_path@,
            entries@,
            current_depth as nat,
            max_depth as nat,
        ),
        final(folder_counts).wf(),
        final(folder_counts)@ == counts_from(seed_views(final(videos)@)),
        final(videos)@.len() >= old(videos)@.len(),
        forall|k: int| #![trigger final(videos)@[k]]
            0 <= k < old(videos)@.len() ==> final(videos)@[k] == old(videos)@[k],
        forall|k: int| #![trigger final(videos)@[k]]
            old(videos)@.len() <= k < final(videos)@.len() ==> (final(videos)@[k].duration is None
                && final(videos)@[k].created_at@ == final(videos)@[k].updated_at@),
    decreases max_depth - current_depth,
{
    let ghost dir = dir_path@;
    let ghost d = current_depth as nat;
    let ghost m = max_depth as nat;
    if current_depth > max_depth {
        proof {
            assert(seed_views(videos@) =~= seed_views(videos@) + spec_walk(dir, entries@, d, m));
        }
        return ;
    }
    let n = entries.len();
    let mut i: usize = 0;
    while i < n
        invariant
            wf_entries(entries@),
            folder_counts.wf(),
            folder_counts@ == counts_from(seed_views(videos@)),
            current_depth <= max_depth,
            dir == dir_path@,
            d == current_depth as nat,
            m == max_depth as nat,
            n == entries@.len(),
            0 <= i <= n,
            seed_views(videos@) == seed_views(old(videos)@) + walk_upto(
                dir,
                entries@,
                i as int,
                d,
                m,
            ),
            videos@.len() >= old(videos)@.len(),
            forall|k: int| #![trigger videos@[k]]
                0 <= k < old(videos)@.len() ==> videos@[k] == old(videos)@[k],
            forall|k: int| #![trigger videos@[k]]
                old(videos)@.len() <= k < videos@.len() ==> (videos@[k].duration is None
                    && videos@[k].created_at@ == videos@[k].updated_at@),
        decreases n - i,
    {
        proof {
            assert(wf_entries(entries@));
        }
        let e = &entries[i];
        match e {
            FsEntry::File { name, size, readable } => {
                if *readable && !name_is_skipped(name.as_str()) && file_name_is_media(
                    name.as_str(),
                ) {
                    let video = create_video_from_path(dir_path, name, *size, entries);
                    let ghost before = videos@;
                    videos.push(video);
                    let cur_len = videos.len();
                    proof {
                        assert(seed_views(videos@) =~= seed_views(before).push(seed_view(video)));
                        assert(seed_views(videos@).drop_last() =~= seed_views(before));
                        lemma_counts_from_wf(seed_views(before));
                        lemma_count_le_total(counts_from(seed_views(before)), dir);
                        assert(cur_len as int == videos@.len());
                        assert(count_of(folder_counts@, dir) + 1 <= usize::MAX);
                    }
                    folder_counts.increment(dir_path);
                    proof {
                        assert(counts_from(seed_views(videos@)) == bump(
                            counts_from(seed_views(before)),
                            dir,
                        ));
                        assert(entry_seeds(dir, entries@, entries@[i as int], d, m)
                            =~= seq![seed_of_file(dir, entries@, name@, *size)]);
                        assert(seed_views(videos@) =~= seed_views(old(videos)@) + walk_upto(
                            dir,
                            entries@,
                            i + 1,
                            d,
                            m,
                        ));
                    }
                } else {
                    proof {
                        assert(entry_seeds(dir, entries@, entries@[i as int], d, m)
                            =~= Seq::<SeedView>::empty());
                        assert(seed_views(videos@) =~= seed_views(old(videos)@) + walk_upto(
                            dir,
                            entries@,
                            i + 1,
                            d,
                            m,
                        ));
                    }
                }
            },
            FsEntry::Dir { name, symlink, readable, entries: sub } => {
                if current_depth < max_depth && *readable && !*symlink && !name_is_skipped(
                    name.as_str(),
                ) {
                    let child_path = join_path(dir_path.as_str(), name.as_str());
                    proof {
                        assert(wf_entries(sub@)) by {
                            assert(crate::fs::wf_entry(entries@[i as int]));
                        }
                    }
                    let ghost before = videos@;
                    scan_directory_shallow(
                        &child_path,
                        sub,
                        videos,
                        folder_counts,
                        current_depth + 1,
                        max_depth,
                    );
                    proof {
                        assert(entry_seeds(dir, entries@, entries@[i as int], d, m) == spec_walk(
                            child_path@,
                            sub@,
                            (d + 1) as nat,
                            m,
                        ));
                        assert(seed_views(videos@) =~= seed_views(old(videos)@) + walk_upto(
                            dir,
                            entries@,
                            i + 1,
                            d,
                            m,
                        )) by {
                            assert(seed_views(before) == seed_views(old(videos)@) + walk_upto(
                                dir,
                                entries@,
                                i as int,
                                d,
                                m,
                            ));
                        }
                    }
                } else {
                    proof {
                        assert(entry_seeds(dir, entries@, entries@[i as int], d, m)
                            =~= Seq::<SeedView>::empty());
                        assert(seed_views(videos@) =~= seed_views(old(videos)@) + walk_upto(
                            dir,
                            entries@,
                            i + 1,
                            d,
                            m,
                        ));
                    }
                }
            },
        }
        i = i + 1;
    }
}

proof fn lemma_walk_at_limit_upto(dir: Seq<char>, entries: Seq<FsEntry>, i: int, depth: nat)
    ensures
        forall|k: int|
            0 <= k < walk_upto(dir, entries, i, depth, depth).len() ==> #[trigger] walk_upto(
                dir,
                entries,
                i,
                depth,
                depth,
            )[k].folder == dir,
    decreases i,
{
    if depth <= depth && 0 < i <= entries.len() {
        lemma_walk_at_limit_upto(dir, entries, i - 1, depth);
        let w = walk_upto(dir, entries, i, depth, depth);
        let rest = walk_upto(dir, entries, i - 1, depth, depth);
        let es = entry_seeds(dir, entries, entries[i - 1], depth, depth);
        assert forall|k: int| 0 <= k < w.len() implies #[trigger] w[k].folder == dir by {
            if k < rest.len() {
                assert(w[k] == rest[k]);
            } else {
                assert(w[k] == es[k - rest.len()]);
                match entries[i - 1] {
                    FsEntry::File { name, size, readable } => {},
                    FsEntry::Dir { .. } => {
                        assert(es =~= Seq::<SeedView>::empty());
                    },
                }
            }
        }
    }
}

/// At depth bound zero, no directory is descended into: every record a
/// scan of a root at depth zero yields lies directly inside the root.
pub proof fn lemma_depth_zero_is_direct(dir: Seq<char>, entries: Seq<FsEntry>)
    ensures
        forall|k: int|
            0 <= k < spec_walk(dir, entries, 0, 0).len() ==> #[trigger] spec_walk(
                dir,
                entries,
                0,
                0,
            )[k].folder == dir,
{
    lemma_walk_at_limit_upto(dir, entries, entries.len() as int, 0);
}

proof fn lemma_prefix_extends(a: Seq<char>, b: Seq<char>)
    ensures
        a.is_prefix_of(a + b),
{
    assert(a =~= (a + b).take(a.len() as int));
}

proof fn lemma_prefix_trans(a: Seq<char>, b: Seq<char>, c: Seq<char>)
    requires
        a.is_prefix_of(b),
        b.is_prefix_of(c),
    ensures
        a.is_prefix_of(c),
{
    assert(a =~= c.take(a.len() as int));
}

/// The walker only looks below the folder it is handed: every record
/// of a walk carries a folder path extending the walked folder.
pub proof fn lemma_walk_folders_under(
    dir: Seq<char>,
    entries: Seq<FsEntry>,
    i: int,
    depth: nat,
    max: nat,
)
    ensures
        forall|k: int|
            0 <= k < walk_upto(dir, entries, i, depth, max).len() ==> dir.is_prefix_of(
                #[trigger] walk_upto(dir, entries, i, depth, max)[k].folder,
            ),
    decreases max - depth, 1nat, i,
{
    if depth <= max && 0 < i <= entries.len() {
        lemma_walk_folders_under(dir, entries, i - 1, depth, max);
        let w = walk_upto(dir, entries, i, depth, max);
        let rest = walk_upto(dir, entries, i - 1, depth, max);
        let es = entry_seeds(dir, entries, entries[i - 1], depth, max);
        assert forall|k: int| 0 <= k < w.len() implies dir.is_prefix_of(
            #[trigger] w[k].folder,
        ) by {
            if k < rest.len() {
                assert(w[k] == rest[k]);
            } else {
                assert(w[k] == es[k - rest.len()]);
                lemma_entry_folders_under(dir, entries, entries[i - 1], depth, max);
            }
        }
    }
}

proof fn lemma_entry_folders_under(
    dir: Seq<char>,
    entries: Seq<FsEntry>,
    e: FsEntry,
    depth: nat,
    max: nat,
)
    ensures
        forall|k: int|
            0 <= k < entry_seeds(dir, entries, e, depth, max).len() ==> dir.is_prefix_of(
                #[trigger] entry_seeds(dir, entries, e, depth, max)[k].folder,
            ),
    decreases max - depth, 0nat, 0int,
{
    let es = entry_seeds(dir, entries, e, depth, max);
    match e {
        FsEntry::File { name, size, readable } => {
            assert forall|k: int| 0 <= k < es.len() implies dir.is_prefix_of(
                #[trigger] es[k].folder,
            ) by {
                assert(dir =~= dir.take(dir.len() as int));
            }
        },
        FsEntry::Dir { name, symlink, readable, entries: sub } => {
            if !is_skipped_name(name@) && depth < max && !symlink && readable {
                let child = dir + seq!['/'] + name@;
                lemma_walk_folders_under(child, sub@, sub@.len() as int, (depth + 1) as nat, max);
                assert forall|k: int| 0 <= k < es.len() implies dir.is_prefix_of(
                    #[trigger] es[k].folder,
                ) by {
                    assert(child.is_prefix_of(es[k].folder));
                    lemma_prefix_extends(dir, seq!['/'] + name@);
                    assert(dir + (seq!['/'] + name@) =~= child);
                    lemma_prefix_trans(dir, child, es[k].folder);
                }
            }
        },
    }
}

/// An accepted file reachable from a listing through the chain of
/// directory names `dirs`: every directory on the way bears one of the
/// names, is not skipped, not a symbolic link and readable, and the
/// final listing holds a readable media file `fname` of size `size`
/// whose name is not skipped.
pub open spec fn chain_to_file(
    entries: Seq<FsEntry>,
    dirs: Seq<Seq<char>>,
    fname: Seq<char>,
    size: u64,
) -> bool
    decreases dirs.len(),
{
    if dirs.len() == 0 {
        exists|i: int|
            0 <= i < entries.len() && ((#[trigger] entries[i]) matches FsEntry::File {
                name,
                size: s,
                readable,
            } && name@ == fname && s == size && readable && !is_skipped_name(fname)
                && name_is_media(fname))
    } else {
        exists|i: int|
            0 <= i < entries.len() && ((#[trigger] entries[i]) matches FsEntry::Dir {
                name,
                symlink,
                readable,
                entries: sub,
            } && name@ == dirs[0] && !symlink && readable && !is_skipped_name(dirs[0])
                && chain_to_file(sub@, dirs.drop_first(), fname, size))
    }
}

/// The folder path at the end of a chain of directory names.
pub open spec fn chain_path(dir: Seq<char>, dirs: Seq<Seq<char>>) -> Seq<char>
    decreases dirs.len(),
{
    if dirs.len() == 0 {
        dir
    } else {
        chain_path(dir + seq!['/'] + dirs.first(), dirs.drop_first())
    }
}

/// Every record one entry contributes stands in the walk that reaches
/// that entry.
proof fn lemma_entry_in_walk(
    dir: Seq<char>,
    entries: Seq<FsEntry>,
    i: int,
    m: int,
    depth: nat,
    max: nat,
    j: int,
)
    requires
        depth <= max,
        0 <= i < m <= entries.len(),
        0 <= j < entry_seeds(dir, entries, entries[i], depth, max).len(),
    ensures
        exists|k: int|
            0 <= k < walk_upto(dir, entries, m, depth, max).len() && #[trigger] walk_upto(
                dir,
                entries,
                m,
                depth,
                max,
            )[k] == entry_seeds(dir, entries, entries[i], depth, max)[j],
    decreases m,
{
    let rest = walk_upto(dir, entries, m - 1, depth, max);
    let es = entry_seeds(dir, entries, entries[m - 1], depth, max);
    if i == m - 1 {
        assert(walk_upto(dir, entries, m, depth, max)[rest.len() + j] == es[j]);
    } else {
        lemma_entry_in_walk(dir, entries, i, m - 1, depth, max, j);
        let k = choose|k: int|
            0 <= k < rest.len() && #[trigger] rest[k] == entry_seeds(
                dir,
                entries,
                entries[i],
                depth,
                max,
            )[j];
        assert(walk_upto(dir, entries, m, depth, max)[k] == rest[k]);
    }
}

/// Discovery, the positive half of the depth bound: a file `M` levels
/// below the walked folder, every step accepted, is discovered by any
/// walk whose remaining budget covers `M` — its record carries the
/// chain's folder, path and size.
pub proof fn lemma_walk_discovers(
    dir: Seq<char>,
    entries: Seq<FsEntry>,
    dirs: Seq<Seq<char>>,
    fname: Seq<char>,
    size: u64,
    depth: nat,
    max: nat,
)
    requires
        chain_to_file(entries, dirs, fname, size),
        depth + dirs.len() <= max,
    ensures
        exists|k: int|
            0 <= k < spec_walk(dir, entries, depth, max).len() && (#[trigger] spec_walk(
                dir,
                entries,
                depth,
                max,
            )[k]).path == chain_path(dir, dirs) + seq!['/'] + fname && spec_walk(
                dir,
                entries,
                depth,
                max,
            )[k].folder == chain_path(dir, dirs) && spec_walk(dir, entries, depth, max)[k].size
                == size,
    decreases dirs.len(),
{
    if dirs.len() == 0 {
        let i = choose|i: int|
            0 <= i < entries.len() && ((#[trigger] entries[i]) matches FsEntry::File {
                name,
                size: s,
                readable,
            } && name@ == fname && s == size && readable && !is_skipped_name(fname)
                && name_is_media(fname));
        let es = entry_seeds(dir, entries, entries[i], depth, max);
        assert(es =~= seq![seed_of_file(dir, entries, fname, size)]);
        lemma_entry_in_walk(dir, entries, i, entries.len() as int, depth, max, 0);
        let m = entries.len() as int;
        let kk = choose|kk: int|
            0 <= kk < walk_upto(dir, entries, m, depth, max).len() && #[trigger] walk_upto(
                dir,
                entries,
                m,
                depth,
                max,
            )[kk] == entry_seeds(dir, entries, entries[i], depth, max)[0];
        assert(spec_walk(dir, entries, depth, max)[kk] == seed_of_file(dir, entries, fname, size));
        assert((spec_walk(dir, entries, depth, max)[kk]).path == chain_path(dir, dirs) + seq!['/']
            + fname);
        assert(spec_walk(dir, entries, depth, max)[kk].folder == chain_path(dir, dirs));
    } else {
        let i = choose|i: int|
            0 <= i < entries.len() && ((#[trigger] entries[i]) matches FsEntry::Dir {
                name,
                symlink,
                readable,
                entries: sub,
            } && name@ == dirs[0] && !symlink && readable && !is_skipped_name(dirs[0])
                && chain_to_file(sub@, dirs.drop_first(), fname, size));
        match entries[i] {
            FsEntry::Dir { name, symlink, readable, entries: sub } => {
                let child = dir + seq!['/'] + name@;
                lemma_walk_discovers(
                    child,
                    sub@,
                    dirs.drop_first(),
                    fname,
                    size,
                    (depth + 1) as nat,
                    max,
                );
                assert(chain_path(dir, dirs) == chain_path(child, dirs.drop_first()));
                let es = entry_seeds(dir, entries, entries[i], depth, max);
                assert(es == spec_walk(child, sub@, (depth + 1) as nat, max));
                let k0 = choose|k: int|
                    0 <= k < spec_walk(child, sub@, (depth + 1) as nat, max).len() && (
                    #[trigger] spec_walk(child, sub@, (depth + 1) as nat, max)[k]).path
                        == chain_path(child, dirs.drop_first()) + seq!['/'] + fname && spec_walk(
                        child,
                        sub@,
                        (depth + 1) as nat,
                        max,
                    )[k].folder == chain_path(child, dirs.drop_first()) && spec_walk(
                        child,
                        sub@,
                        (depth + 1) as nat,
                        max,
                    )[k].size == size;
                lemma_entry_in_walk(dir, entries, i, entries.len() as int, depth, max, k0);
                let m = entries.len() as int;
                let kk = choose|kk: int|
                    0 <= kk < walk_upto(dir, entries, m, depth, max).len() && #[trigger] walk_upto(
                        dir,
                        entries,
                        m,
                        depth,
                        max,
                    )[kk] == entry_seeds(dir, entries, entries[i], depth, max)[k0];
                assert(spec_walk(dir, entries, depth, max)[kk] == spec_walk(
                    child,
                    sub@,
                    (depth + 1) as nat,
                    max,
                )[k0]);
                assert((spec_walk(dir, entries, depth, max)[kk]).path == chain_path(dir, dirs)
                    + seq!['/'] + fname);
                assert(spec_walk(dir, entries, depth, max)[kk].folder == chain_path(dir, dirs));
            },
            FsEntry::File { .. } => {
                assert(false);
            },
        }
    }
}

/// The bound, the negative half: every record a walk yields arises
/// from an accepted chain no longer than the remaining depth budget —
/// so a file more than `N` levels below the root generates no record
/// in a scan at depth `N`.
pub proof fn lemma_walk_bounded(
    dir: Seq<char>,
    entries: Seq<FsEntry>,
    i: int,
    depth: nat,
    max: nat,
    k: int,
)
    requires
        0 <= k < walk_upto(dir, entries, i, depth, max).len(),
    ensures
        exists|dirs: Seq<Seq<char>>, fname: Seq<char>, size: u64|
            {
                let w = walk_upto(dir, entries, i, depth, max)[k];
                &&& #[trigger] chain_to_file(entries, dirs, fname, size)
                &&& depth + dirs.len() <= max
                &&& w.path == chain_path(dir, dirs) + seq!['/'] + fname
                &&& w.folder == chain_path(dir, dirs)
                &&& w.size == size
            },
    decreases max - depth, 1nat, i,
{
    let w = walk_upto(dir, entries, i, depth, max);
    let rest = walk_upto(dir, entries, i - 1, depth, max);
    let es = entry_seeds(dir, entries, entries[i - 1], depth, max);
    if k < rest.len() {
        lemma_walk_bounded(dir, entries, i - 1, depth, max, k);
        let (dirs, fname, size) = choose|dirs: Seq<Seq<char>>, fname: Seq<char>, size: u64|
            {
                let r = walk_upto(dir, entries, i - 1, depth, max)[k];
                &&& #[trigger] chain_to_file(entries, dirs, fname, size)
                &&& depth + dirs.len() <= max
                &&& r.path == chain_path(dir, dirs) + seq!['/'] + fname
                &&& r.folder == chain_path(dir, dirs)
                &&& r.size == size
            };
        assert(w[k] == rest[k]);
        assert(chain_to_file(entries, dirs, fname, size));
    } else {
        let j = k - rest.len();
        assert(w[k] == es[j]);
        match entries[i - 1] {
            FsEntry::File { name, size, readable } => {
                assert(es[j] == seed_of_file(dir, entries, name@, size));
                let dirs: Seq<Seq<char>> = Seq::empty();
                assert(chain_to_file(entries, dirs, name@, size)) by {
                    assert(entries[i - 1] matches FsEntry::File { name: n2, size: s2, readable: r2 }
                        && n2@ == name@ && s2 == size && r2);
                }
                assert(chain_path(dir, dirs) == dir);
                assert(w[k].path == chain_path(dir, dirs) + seq!['/'] + name@);
            },
            FsEntry::Dir { name, symlink, readable, entries: sub } => {
                let child = dir + seq!['/'] + name@;
                assert(es == spec_walk(child, sub@, (depth + 1) as nat, max));
                lemma_walk_bounded(child, sub@, sub@.len() as int, (depth + 1) as nat, max, j);
                let (dirs0, fname, size) = choose|
                    dirs0: Seq<Seq<char>>,
                    fname: Seq<char>,
                    size: u64,
                |
                    {
                        let r = walk_upto(
                            child,
                            sub@,
                            sub@.len() as int,
                            (depth + 1) as nat,
                            max,
                        )[j];
                        &&& #[trigger] chain_to_file(sub@, dirs0, fname, size)
                        &&& depth + 1 + dirs0.len() <= max
                        &&& r.path == chain_path(child, dirs0) + seq!['/'] + fname
                        &&& r.folder == chain_path(child, dirs0)
                        &&& r.size == size
                    };
                let dirs = seq![name@] + dirs0;
                assert(dirs[0] == name@);
                assert(dirs.drop_first() =~= dirs0);
                assert(chain_to_file(entries, dirs, fname, size)) by {
                    assert(entries[i - 1] matches FsEntry::Dir {
                        name: n2,
                        symlink: sl2,
                        readable: r2,
                        entries: sub2,
                    } && n2@ == dirs[0] && !sl2 && r2 && chain_to_file(
                        sub2@,
                        dirs.drop_first(),
                        fname,
                        size,
                    ));
                }
                assert(chain_path(dir, dirs) == chain_path(child, dirs0));
            },
        }
    }
}

/// A chain's segments written out: each preceded by a separator.
pub open spec fn flatten_segs(dirs: Seq<Seq<char>>) -> Seq<char>
    decreases dirs.len(),
{
    if dirs.len() == 0 {
        Seq::empty()
    } else {
        seq!['/'] + dirs.first() + flatten_segs(dirs.drop_first())
    }
}

proof fn lemma_chain_path_flatten(dir: Seq<char>, dirs: Seq<Seq<char>>)
    ensures
        chain_path(dir, dirs) == dir + flatten_segs(dirs),
    decreases dirs.len(),
{
    if dirs.len() == 0 {
        assert(dir + Seq::<char>::empty() =~= dir);
    } else {
        lemma_chain_path_flatten(dir + seq!['/'] + dirs.first(), dirs.drop_first());
        assert((dir + seq!['/'] + dirs.first()) + flatten_segs(dirs.drop_first()) =~= dir + (
        seq!['/'] + dirs.first() + flatten_segs(dirs.drop_first())));
    }
}

/// A flattened chain is empty or starts with the separator.
proof fn lemma_flatten_shape(dirs: Seq<Seq<char>>)
    ensures
        flatten_segs(dirs).len() == 0 || flatten_segs(dirs)[0] == '/',
{
    if dirs.len() > 0 {
        assert(flatten_segs(dirs)[0] == (seq!['/'] + dirs.first() + flatten_segs(
            dirs.drop_first(),
        ))[0]);
    }
}

/// Reading a separator-free head off two equal concatenations: the
/// heads and the tails coincide.
proof fn lemma_seg_head(a: Seq<char>, b: Seq<char>, t1: Seq<char>, t2: Seq<char>)
    requires
        valid_name(a),
        valid_name(b),
        t1.len() == 0 || t1[0] == '/',
        t2.len() == 0 || t2[0] == '/',
        a + t1 == b + t2,
    ensures
        a == b,
        t1 == t2,
{
    if a.len() < b.len() {
        assert(t1.len() > 0) by {
            assert((a + t1).len() == (b + t2).len());
        }
        assert((a + t1)[a.len() as int] == t1[0]);
        assert((b + t2)[a.len() as int] == b[a.len() as int]);
        assert(b[a.len() as int] != '/');
        assert(false);
    }
    if b.len() < a.len() {
        assert(t2.len() > 0) by {
            assert((a + t1).len() == (b + t2).len());
        }
        assert((b + t2)[b.len() as int] == t2[0]);
        assert((a + t1)[b.len() as int] == a[b.len() as int]);
        assert(a[b.len() as int] != '/');
        assert(false);
    }
    assert(a =~= b) by {
        assert(forall|i: int| 0 <= i < a.len() ==> (a + t1)[i] == a[i] && (b + t2)[i] == b[i]);
    }
    assert(t1.len() == t2.len()) by {
        assert((a + t1).len() == a.len() + t1.len());
        assert((b + t2).len() == b.len() + t2.len());
        assert((a + t1).len() == (b + t2).len());
    }
    assert forall|i: int| 0 <= i < t1.len() implies t1[i] == t2[i] by {
        assert((a + t1)[a.len() + i] == t1[i]);
        assert((b + t2)[b.len() + i] == t2[i]);
        assert(a.len() == b.len());
    }
    assert(t1 =~= t2);
}

/// Valid chains flatten injectively.
proof fn lemma_flatten_injective(d1: Seq<Seq<char>>, d2: Seq<Seq<char>>)
    requires
        forall|j: int| 0 <= j < d1.len() ==> valid_name(#[trigger] d1[j]),
        forall|j: int| 0 <= j < d2.len() ==> valid_name(#[trigger] d2[j]),
        flatten_segs(d1) == flatten_segs(d2),
    ensures
        d1 == d2,
    decreases d1.len(),
{
    if d1.len() == 0 && d2.len() == 0 {
        assert(d1 =~= d2);
    } else if d1.len() == 0 {
        assert(flatten_segs(d2).len() >= 1 + d2.first().len()) by {
            assert(flatten_segs(d2) == seq!['/'] + d2.first() + flatten_segs(d2.drop_first()));
        }
        assert(valid_name(d2[0]));
        assert(false);
    } else if d2.len() == 0 {
        assert(flatten_segs(d1).len() >= 1 + d1.first().len()) by {
            assert(flatten_segs(d1) == seq!['/'] + d1.first() + flatten_segs(d1.drop_first()));
        }
        assert(valid_name(d1[0]));
        assert(false);
    } else {
        let f1 = flatten_segs(d1);
        let f2 = flatten_segs(d2);
        let r1 = flatten_segs(d1.drop_first());
        let r2 = flatten_segs(d2.drop_first());
        assert(f1 == seq!['/'] + d1.first() + r1);
        assert(f2 == seq!['/'] + d2.first() + r2);
        assert(d1.first() + r1 =~= d2.first() + r2) by {
            assert(forall|i: int|
                0 <= i < d1.first().len() + r1.len() ==> (d1.first() + r1)[i] == f1[i + 1]);
            assert(forall|i: int|
                0 <= i < d2.first().len() + r2.len() ==> (d2.first() + r2)[i] == f2[i + 1]);
            assert(f1.len() == f2.len());
        }
        lemma_flatten_shape(d1.drop_first());
        lemma_flatten_shape(d2.drop_first());
        assert(valid_name(d1[0]) && valid_name(d2[0]));
        lemma_seg_head(d1.first(), d2.first(), r1, r2);
        assert(forall|j: int|
            0 <= j < d1.drop_first().len() ==> valid_name(#[trigger] d1.drop_first()[j])) by {
            assert(forall|j: int|
                0 <= j < d1.drop_first().len() ==> #[trigger] d1.drop_first()[j] == d1[j + 1]);
        }
        assert(forall|j: int|
            0 <= j < d2.drop_first().len() ==> valid_name(#[trigger] d2.drop_first()[j])) by {
            assert(forall|j: int|
                0 <= j < d2.drop_first().len() ==> #[trigger] d2.drop_first()[j] == d2[j + 1]);
        }
        lemma_flatten_injective(d1.drop_first(), d2.drop_first());
        assert(d1 =~= d2) by {
            assert(forall|j: int| 1 <= j < d1.len() ==> d1[j] == d1.drop_first()[j - 1]);
            assert(forall|j: int| 1 <= j < d2.len() ==> d2[j] == d2.drop_first()[j - 1]);
        }
    }
}

/// From one folder, valid chains reach distinct paths: the chain can
/// be read back off the path.
pub proof fn lemma_chain_path_injective(dir: Seq<char>, d1: Seq<Seq<char>>, d2: Seq<Seq<char>>)
    requires
        forall|j: int| 0 <= j < d1.len() ==> valid_name(#[trigger] d1[j]),
        forall|j: int| 0 <= j < d2.len() ==> valid_name(#[trigger] d2[j]),
        chain_path(dir, d1) == chain_path(dir, d2),
    ensures
        d1 == d2,
{
    lemma_chain_path_flatten(dir, d1);
    lemma_chain_path_flatten(dir, d2);
    assert(flatten_segs(d1) =~= flatten_segs(d2)) by {
        assert(forall|i: int|
            0 <= i < flatten_segs(d1).len() ==> (dir + flatten_segs(d1))[dir.len() + i]
                == flatten_segs(d1)[i]);
        assert(forall|i: int|
            0 <= i < flatten_segs(d2).len() ==> (dir + flatten_segs(d2))[dir.len() + i]
                == flatten_segs(d2)[i]);
        assert((dir + flatten_segs(d1)).len() == (dir + flatten_segs(d2)).len());
    }
    lemma_flatten_injective(d1, d2);
}

/// Appending the file name to the chain lands on the file's path.
pub proof fn lemma_chain_path_push(dir: Seq<char>, dirs: Seq<Seq<char>>, f: Seq<char>)
    ensures
        chain_path(dir, dirs.push(f)) == chain_path(dir, dirs) + seq!['/'] + f,
    decreases dirs.len(),
{
    if dirs.len() == 0 {
        assert(dirs.push(f).first() == f);
        assert(dirs.push(f).drop_first() =~= Seq::<Seq<char>>::empty());
        assert(chain_path(dir, dirs.push(f)) == chain_path(
            dir + seq!['/'] + f,
            Seq::<Seq<char>>::empty(),
        ));
        assert(chain_path(dir + seq!['/'] + f, Seq::<Seq<char>>::empty()) == dir + seq!['/'] + f);
        assert(chain_path(dir, dirs) == dir);
    } else {
        assert(dirs.push(f).first() == dirs.first());
        assert(dirs.push(f).drop_first() =~= dirs.drop_first().push(f));
        assert(chain_path(dir, dirs.push(f)) == chain_path(
            dir + seq!['/'] + dirs.first(),
            dirs.drop_first().push(f),
        ));
        lemma_chain_path_push(dir + seq!['/'] + dirs.first(), dirs.drop_first(), f);
        assert(chain_path(dir, dirs) == chain_path(dir + seq!['/'] + dirs.first(), dirs.drop_first()));
    }
}

/// An accepted chain of a well-formed snapshot carries valid names.
pub proof fn lemma_chain_names_valid(
    entries: Seq<FsEntry>,
    dirs: Seq<Seq<char>>,
    fname: Seq<char>,
    size: u64,
)
    requires
        wf_entries(entries),
        chain_to_file(entries, dirs, fname, size),
    ensures
        forall|j: int| 0 <= j < dirs.len() ==> valid_name(#[trigger] dirs[j]),
        valid_name(fname),
    decreases dirs.len(),
{
    if dirs.len() == 0 {
        let i = choose|i: int|
            0 <= i < entries.len() && ((#[trigger] entries[i]) matches FsEntry::File {
                name,
                size: s,
                readable,
            } && name@ == fname && s == size && readable && !is_skipped_name(fname)
                && name_is_media(fname));
        assert(crate::fs::wf_entry(entries[i]));
    } else {
        let i = choose|i: int|
            0 <= i < entries.len() && ((#[trigger] entries[i]) matches FsEntry::Dir {
                name,
                symlink,
                readable,
                entries: sub,
            } && name@ == dirs[0] && !symlink && readable && !is_skipped_name(dirs[0])
                && chain_to_file(sub@, dirs.drop_first(), fname, size));
        assert(crate::fs::wf_entry(entries[i]));
        match entries[i] {
            FsEntry::Dir { name, symlink, readable, entries: sub } => {
                lemma_chain_names_valid(sub@, dirs.drop_first(), fname, size);
                assert forall|j: int| 0 <= j < dirs.len() implies valid_name(
                    #[trigger] dirs[j],
                ) by {
                    if j > 0 {
                        assert(dirs.drop_first()[j - 1] == dirs[j]);
                        assert(valid_name(dirs.drop_first()[j - 1]));
                    }
                }
            },
            FsEntry::File { .. } => {
                assert(false);
            },
        }
    }
}

/// The depth bound, judged by paths: with a well-formed snapshot, the
/// file at an accepted chain `M` directories below the scanned folder
/// has its path among a scan's records at depth bound `N` exactly when
/// `M <= N`.
pub proof fn lemma_walk_depth_iff(
    dir: Seq<char>,
    entries: Seq<FsEntry>,
    dirs: Seq<Seq<char>>,
    fname: Seq<char>,
    size: u64,
    max: nat,
)
    requires
        wf_entries(entries),
        chain_to_file(entries, dirs, fname, size),
    ensures
        (exists|k: int|
            0 <= k < spec_walk(dir, entries, 0, max).len() && (#[trigger] spec_walk(
                dir,
                entries,
                0,
                max,
            )[k]).path == chain_path(dir, dirs) + seq!['/'] + fname) <==> dirs.len() <= max,
{
    lemma_chain_names_valid(entries, dirs, fname, size);
    if dirs.len() <= max {
        lemma_walk_discovers(dir, entries, dirs, fname, size, 0, max);
    }
    if exists|k: int|
        0 <= k < spec_walk(dir, entries, 0, max).len() && (#[trigger] spec_walk(
            dir,
            entries,
            0,
            max,
        )[k]).path == chain_path(dir, dirs) + seq!['/'] + fname {
        let k = choose|k: int|
            0 <= k < spec_walk(dir, entries, 0, max).len() && (#[trigger] spec_walk(
                dir,
                entries,
                0,
                max,
            )[k]).path == chain_path(dir, dirs) + seq!['/'] + fname;
        lemma_walk_bounded(dir, entries, entries.len() as int, 0, max, k);
        let (dirs2, fname2, size2) = choose|dirs2: Seq<Seq<char>>, fname2: Seq<char>, size2: u64|
            {
                let w = walk_upto(dir, entries, entries.len() as int, 0, max)[k];
                &&& #[trigger] chain_to_file(entries, dirs2, fname2, size2)
                &&& 0 + dirs2.len() <= max
                &&& w.path == chain_path(dir, dirs2) + seq!['/'] + fname2
                &&& w.folder == chain_path(dir, dirs2)
                &&& w.size == size2
            };
        lemma_chain_names_valid(entries, dirs2, fname2, size2);
        lemma_chain_path_push(dir, dirs, fname);
        lemma_chain_path_push(dir, dirs2, fname2);
        assert(chain_path(dir, dirs.push(fname)) == chain_path(dir, dirs2.push(fname2)));
        assert(forall|j: int|
            0 <= j < dirs.push(fname).len() ==> valid_name(#[trigger] dirs.push(fname)[j]));
        assert(forall|j: int|
            0 <= j < dirs2.push(fname2).len() ==> valid_name(#[trigger] dirs2.push(fname2)[j]));
        lemma_chain_path_injective(dir, dirs.push(fname), dirs2.push(fname2));
        assert(dirs =~= dirs2) by {
            assert(dirs.push(fname).drop_last() =~= dirs);
            assert(dirs2.push(fname2).drop_last() =~= dirs2);
        }
    }
}

/// Every record one entry contributes reaches its path through that
/// entry's name: the path is the walked folder, a separator, the
/// entry's name, then nothing or a separator-led remainder.
proof fn lemma_entry_seed_through_name(
    dir: Seq<char>,
    entries: Seq<FsEntry>,
    e: FsEntry,
    depth: nat,
    max: nat,
    j: int,
)
    requires
        0 <= j < entry_seeds(dir, entries, e, depth, max).len(),
    ensures
        exists|tail: Seq<char>|
            entry_seeds(dir, entries, e, depth, max)[j].path == dir + seq!['/'] + e.name() + tail
                && (tail.len() == 0 || tail[0] == '/'),
    decreases max - depth, 0nat, 0int,
{
    let es = entry_seeds(dir, entries, e, depth, max);
    match e {
        FsEntry::File { name, size, readable } => {
            let tail: Seq<char> = Seq::empty();
            assert(es[j].path == dir + seq!['/'] + name@ + tail) by {
                assert(dir + seq!['/'] + name@ + tail =~= dir + seq!['/'] + name@);
            }
        },
        FsEntry::Dir { name, symlink, readable, entries: sub } => {
            let child = dir + seq!['/'] + name@;
            assert(es == walk_upto(child, sub@, sub@.len() as int, (depth + 1) as nat, max));
            lemma_walk_bounded(child, sub@, sub@.len() as int, (depth + 1) as nat, max, j);
            let (dirs0, fname, size) = choose|dirs0: Seq<Seq<char>>, fname: Seq<char>, size: u64|
                {
                    let r = walk_upto(child, sub@, sub@.len() as int, (depth + 1) as nat, max)[j];
                    &&& #[trigger] chain_to_file(sub@, dirs0, fname, size)
                    &&& depth + 1 + dirs0.len() <= max
                    &&& r.path == chain_path(child, dirs0) + seq!['/'] + fname
                    &&& r.folder == chain_path(child, dirs0)
                    &&& r.size == size
                };
            lemma_chain_path_flatten(child, dirs0);
            lemma_flatten_shape(dirs0);
            let tail = flatten_segs(dirs0) + seq!['/'] + fname;
            assert(es[j].path == dir + seq!['/'] + name@ + tail) by {
                assert((child + flatten_segs(dirs0)) + seq!['/'] + fname =~= dir + seq!['/']
                    + name@ + tail);
            }
            assert(tail[0] == '/') by {
                if flatten_segs(dirs0).len() == 0 {
                    assert(tail =~= seq!['/'] + fname);
                } else {
                    assert(tail[0] == flatten_segs(dirs0)[0]);
                }
            }
        },
    }
}

/// Every record of a walk reaches its path through the name of one of
/// the walked entries.
proof fn lemma_walk_seed_through(
    dir: Seq<char>,
    entries: Seq<FsEntry>,
    i: int,
    depth: nat,
    max: nat,
    k: int,
)
    requires
        0 <= k < walk_upto(dir, entries, i, depth, max).len(),
    ensures
        exists|m: int, tail: Seq<char>|
            0 <= m < i && walk_upto(dir, entries, i, depth, max)[k].path == dir + seq!['/']
                + (entries[m]).name() + tail && (tail.len() == 0 || tail[0] == '/'),
    decreases max - depth, 1nat, i,
{
    let w = walk_upto(dir, entries, i, depth, max);
    let rest = walk_upto(dir, entries, i - 1, depth, max);
    let es = entry_seeds(dir, entries, entries[i - 1], depth, max);
    if k < rest.len() {
        lemma_walk_seed_through(dir, entries, i - 1, depth, max, k);
        let (m, tail) = choose|m: int, tail: Seq<char>|
            0 <= m < i - 1 && walk_upto(dir, entries, i - 1, depth, max)[k].path == dir
                + seq!['/'] + (entries[m]).name() + tail && (tail.len() == 0 || tail[0] == '/');
        assert(w[k] == rest[k]);
        assert(w[k].path == dir + seq!['/'] + entries[m].name() + tail);
    } else {
        lemma_entry_seed_through_name(dir, entries, entries[i - 1], depth, max, k - rest.len());
        let tail = choose|tail: Seq<char>|
            entry_seeds(dir, entries, entries[i - 1], depth, max)[k - rest.len()].path == dir
                + seq!['/'] + entries[i - 1].name() + tail && (tail.len() == 0 || tail[0] == '/');
        assert(w[k] == es[k - rest.len()]);
        assert(w[k].path == dir + seq!['/'] + entries[i - 1].name() + tail);
    }
}

/// Paths reached through two differently named entries differ.
proof fn lemma_through_name_distinct(
    dir: Seq<char>,
    n1: Seq<char>,
    t1: Seq<char>,
    n2: Seq<char>,
    t2: Seq<char>,
)
    requires
        valid_name(n1),
        valid_name(n2),
        n1 != n2,
        t1.len() == 0 || t1[0] == '/',
        t2.len() == 0 || t2[0] == '/',
    ensures
        dir + seq!['/'] + n1 + t1 != dir + seq!['/'] + n2 + t2,
{
    if dir + seq!['/'] + n1 + t1 == dir + seq!['/'] + n2 + t2 {
        let p1 = dir + seq!['/'] + n1 + t1;
        let p2 = dir + seq!['/'] + n2 + t2;
        assert(n1 + t1 =~= n2 + t2) by {
            assert(forall|q: int|
                0 <= q < n1.len() + t1.len() ==> (n1 + t1)[q] == p1[dir.len() + 1 + q]);
            assert(forall|q: int|
                0 <= q < n2.len() + t2.len() ==> (n2 + t2)[q] == p2[dir.len() + 1 + q]);
            assert(p1.len() == p2.len());
        }
        lemma_seg_head(n1, n2, t1, t2);
        assert(false);
    }
}

/// With a well-formed snapshot, no two records of one walk share a
/// path: what a scan hands the store is duplicate-free by its key.
pub proof fn lemma_walk_paths_distinct(
    dir: Seq<char>,
    entries: Seq<FsEntry>,
    i: int,
    depth: nat,
    max: nat,
)
    requires
        wf_entries(entries),
    ensures
        forall|k1: int, k2: int|
            0 <= k1 < k2 < walk_upto(dir, entries, i, depth, max).len() ==> #[trigger] walk_upto(
                dir,
                entries,
                i,
                depth,
                max,
            )[k1].path != #[trigger] walk_upto(dir, entries, i, depth, max)[k2].path,
    decreases max - depth, 1nat, i,
{
    if depth > max || i <= 0 || i > entries.len() {
    } else {
        lemma_walk_paths_distinct(dir, entries, i - 1, depth, max);
        let w = walk_upto(dir, entries, i, depth, max);
        let rest = walk_upto(dir, entries, i - 1, depth, max);
        let e = entries[i - 1];
        let es = entry_seeds(dir, entries, e, depth, max);
        assert(crate::fs::wf_entry(e));
        // Within the new entry's own contribution.
        assert forall|j1: int, j2: int| 0 <= j1 < j2 < es.len() implies es[j1].path
            != es[j2].path by {
            match e {
                FsEntry::File { .. } => {},
                FsEntry::Dir { name, symlink, readable, entries: sub } => {
                    assert(wf_entries(sub@));
                    let child = dir + seq!['/'] + name@;
                    lemma_walk_paths_distinct(
                        child,
                        sub@,
                        sub@.len() as int,
                        (depth + 1) as nat,
                        max,
                    );
                    assert(es == walk_upto(
                        child,
                        sub@,
                        sub@.len() as int,
                        (depth + 1) as nat,
                        max,
                    ));
                },
            }
        }
        // Across the earlier entries and the new one: the paths go
        // through distinctly named entries.
        assert forall|k1: int, k2: int| 0 <= k1 < k2 < w.len() implies w[k1].path
            != w[k2].path by {
            if k2 < rest.len() {
                assert(rest[k1].path != rest[k2].path);
            } else if k1 >= rest.len() {
                assert(es[k1 - rest.len()].path != es[k2 - rest.len()].path);
            } else {
                lemma_walk_seed_through(dir, entries, i - 1, depth, max, k1);
                let (m, t1) = choose|m: int, t1: Seq<char>|
                    0 <= m < i - 1 && walk_upto(dir, entries, i - 1, depth, max)[k1].path == dir
                        + seq!['/'] + (entries[m]).name() + t1 && (t1.len() == 0 || t1[0] == '/');
                lemma_entry_seed_through_name(dir, entries, e, depth, max, k2 - rest.len());
                let t2 = choose|t2: Seq<char>|
                    entry_seeds(dir, entries, e, depth, max)[k2 - rest.len()].path == dir
                        + seq!['/'] + e.name() + t2 && (t2.len() == 0 || t2[0] == '/');
                assert(crate::fs::wf_entry(entries[m]));
                assert(entries[m].name() != e.name());
                lemma_through_name_distinct(dir, entries[m].name(), t1, e.name(), t2);
                assert(w[k1] == rest[k1]);
                assert(w[k2] == es[k2 - rest.len()]);
            }
        }
    }
}

/// Every record of a walk over a well-formed snapshot carries its
/// containing folder: its path is its folder, a separator, and its
/// slash-free file name.
pub proof fn lemma_walk_seeds_carry_folder(
    dir: Seq<char>,
    entries: Seq<FsEntry>,
    i: int,
    depth: nat,
    max: nat,
)
    requires
        wf_entries(entries),
    ensures
        forall|k: int|
            0 <= k < walk_upto(dir, entries, i, depth, max).len() ==> {
                let s = #[trigger] walk_upto(dir, entries, i, depth, max)[k];
                s.path == s.folder + seq!['/'] + s.filename && valid_name(s.filename)
            },
    decreases max - depth, 1nat, i,
{
    if depth > max || i <= 0 || i > entries.len() {
    } else {
        lemma_walk_seeds_carry_folder(dir, entries, i - 1, depth, max);
        let w = walk_upto(dir, entries, i, depth, max);
        let rest = walk_upto(dir, entries, i - 1, depth, max);
        let e = entries[i - 1];
        let es = entry_seeds(dir, entries, e, depth, max);
        assert(crate::fs::wf_entry(e));
        assert forall|k: int| 0 <= k < w.len() implies {
            let s = #[trigger] w[k];
            s.path == s.folder + seq!['/'] + s.filename && valid_name(s.filename)
        } by {
            if k < rest.len() {
                assert(w[k] == rest[k]);
            } else {
                assert(w[k] == es[k - rest.len()]);
                match e {
                    FsEntry::File { name, size, readable } => {},
                    FsEntry::Dir { name, symlink, readable, entries: sub } => {
                        assert(wf_entries(sub@));
                        lemma_walk_seeds_carry_folder(
                            dir + seq!['/'] + name@,
                            sub@,
                            sub@.len() as int,
                            (depth + 1) as nat,
                            max,
                        );
                    },
                }
            }
        }
    }
}

/// A path splits at its last separator in only one way: equal paths
/// built as folder, separator, slash-free name agree on both parts.
pub proof fn lemma_parent_split_unique(
    a: Seq<char>,
    f1: Seq<char>,
    b: Seq<char>,
    f2: Seq<char>,
)
    requires
        valid_name(f1),
        valid_name(f2),
        a + seq!['/'] + f1 == b + seq!['/'] + f2,
    ensures
        a == b,
        f1 == f2,
{
    let p = a + seq!['/'] + f1;
    assert(p.len() == a.len() + 1 + f1.len()) by {
        assert((a + seq!['/']).len() == a.len() + 1);
    }
    assert(p.len() == b.len() + 1 + f2.len()) by {
        assert((b + seq!['/']).len() == b.len() + 1);
    }
    assert(p[a.len() as int] == '/') by {
        assert(p[a.len() as int] == (a + seq!['/'])[a.len() as int]);
    }
    assert(p[b.len() as int] == '/') by {
        assert(p[b.len() as int] == ((b + seq!['/']) + f2)[b.len() as int]);
        assert((b + seq!['/'] + f2)[b.len() as int] == (b + seq!['/'])[b.len() as int]);
    }
    if a.len() < b.len() {
        assert(p[b.len() as int] == f1[b.len() - a.len() - 1]);
        assert(false);
    }
    if b.len() < a.len() {
        assert(p[a.len() as int] == f2[a.len() - b.len() - 1]);
        assert(false);
    }
    assert(a =~= b) by {
        assert(forall|q: int| 0 <= q < a.len() ==> p[q] == a[q] && p[q] == b[q]);
    }
    assert(f1 =~= f2) by {
        assert(forall|q: int|
            0 <= q < f1.len() ==> p[a.len() + 1 + q] == f1[q] && p[a.len() + 1 + q] == f2[q]);
    }
}

/// The name of the co-located subtitle: the file's stem with each
/// subtitle extension tried in fixed preference order.
pub open spec fn spec_subtitle_name(entries: Seq<FsEntry>, filename: Seq<char>) -> Option<
    Seq<char>,
> {
    let stem = spec_stem(filename);
    if entry_exists(entries, stem + seq!['.'] + "srt"@) {
        Option::Some(stem + seq!['.'] + "srt"@)
    } else if entry_exists(entries, stem + seq!['.'] + "ass"@) {
        Option::Some(stem + seq!['.'] + "ass"@)
    } else if entry_exists(entries, stem + seq!['.'] + "ssa"@) {
        Option::Some(stem + seq!['.'] + "ssa"@)
    } else if entry_exists(entries, stem + seq!['.'] + "sub"@) {
        Option::Some(stem + seq!['.'] + "sub"@)
    } else if entry_exists(entries, stem + seq!['.'] + "vtt"@) {
        Option::Some(stem + seq!['.'] + "vtt"@)
    } else {
        Option::None
    }
}

/// The full path of the co-located subtitle, if any.
pub open spec fn spec_subtitle(dir: Seq<char>, entries: Seq<FsEntry>, filename: Seq<char>) -> Option<
    Seq<char>,
> {
    match spec_subtitle_name(entries, filename) {
        Option::Some(n) => Option::Some(dir + seq!['/'] + n),
        Option::None => Option::None,
    }
}

/// Looks for a subtitle file sharing the given file's stem in the same
/// listing, trying the subtitle extensions in fixed preference order;
/// returns its full path.
pub fn find_subtitle_file(dir_path: &str, entries: &Vec<FsEntry>, filename: &str) -> (r: Option<
    String,
>)
    ensures
        match (r, spec_subtitle(dir_path@, entries@, filename@)) {
            (Option::Some(a), Option::Some(b)) => a@ == b,
            (Option::None, Option::None) => true,
            _ => false,
        },
{
    let (stem, _) = split_name(filename);
    let c = dot_join(stem.as_str(), "srt");
    if has_entry(entries, c.as_str()) {
        return Option::Some(join_path(dir_path, c.as_str()));
    }
    let c = dot_join(stem.as_str(), "ass");
    if has_entry(entries, c.as_str()) {
        return Option::Some(join_path(dir_path, c.as_str()));
    }
    let c = dot_join(stem.as_str(), "ssa");
    if has_entry(entries, c.as_str()) {
        return Option::Some(join_path(dir_path, c.as_str()));
    }
    let c = dot_join(stem.as_str(), "sub");
    if has_entry(entries, c.as_str()) {
        return Option::Some(join_path(dir_path, c.as_str()));
    }
    let c = dot_join(stem.as_str(), "vtt");
    if has_entry(entries, c.as_str()) {
        return Option::Some(join_path(dir_path, c.as_str()));
    }
    Option::None
}

/// The media file paths directly inside one listed folder, without
/// descending: every file whose extension is in the media set, in
/// listing order.
pub open spec fn spec_videos_in_folder(dir: Seq<char>, entries: Seq<FsEntry>) -> Seq<Seq<char>>
    decreases entries.len(),
{
    if entries.len() == 0 {
        Seq::empty()
    } else {
        let rest = spec_videos_in_folder(dir, entries.drop_last());
        match entries.last() {
            FsEntry::File { name, .. } => {
                if name_is_media(name@) {
                    rest.push(dir + seq!['/'] + name@)
                } else {
                    rest
                }
            },
            FsEntry::Dir { .. } => rest,
        }
    }
}

/// Lists the media files directly inside one folder, in listing order.
pub fn get_videos_in_folder(folder_path: &String, entries: &Vec<FsEntry>) -> (r: Vec<String>)
    ensures
        r@.map_values(|s: String| s@) == spec_videos_in_folder(folder_path@, entries@),
{
    let mut out: Vec<String> = Vec::new();
    let n = entries.len();
    let mut i: usize = 0;
    while i < n
        invariant
            n == entries@.len(),
            0 <= i <= n,
            out@.map_values(|s: String| s@) == spec_videos_in_folder(
                folder_path@,
                entries@.take(i as int),
            ),
        decreases n - i,
    {
        proof {
            assert(entries@.take(i + 1).drop_last() =~= entries@.take(i as int));
            assert(entries@.take(i + 1).last() == entries@[i as int]);
        }
        let e = &entries[i];
        match e {
            FsEntry::File { name, .. } => {
                if file_name_is_media(name.as_str()) {
                    out.push(join_path(folder_path.as_str(), name.as_str()));
                    proof {
                        assert(out@.map_values(|s: String| s@) =~= out@.drop_last().map_values(
                            |s: String| s@,
                        ).push(out@.last()@));
                    }
                }
            },
            FsEntry::Dir { .. } => {},
        }
        i = i + 1;
    }
    proof {
        assert(entries@.take(n as int) =~= entries@);
    }
    out
}

/// Scans a folder's snapshot with the given depth bound and builds the
/// one-level folder summary from the resulting counts.  Everything the
/// walker found is reported; every record counts as new.
pub fn scan_folder(folder_path: &String, entries: &Vec<FsEntry>, max_depth: usize) -> (r:
    ScanResult)
    requires
        wf_entries(entries@),
        spec_root_count(
            folder_path@,
            counts_from(spec_walk(folder_path@, entries@, 0, max_depth as nat)),
            entries@,
        ) <= usize::MAX,
    ensures
        seed_views(r.videos@) == spec_walk(folder_path@, entries@, 0, max_depth as nat),
        r.total_videos == r.videos@.len(),
        r.new_videos == r.videos@.len(),
        r.folders@.len() == 1,
        ({
            let cs = counts_from(spec_walk(folder_path@, entries@, 0, max_depth as nat));
            let tree = r.folders@[0];
            &&& tree.path@ == folder_path@
            &&& tree.name@ == spec_root_name(folder_path@)
            &&& tree.children@.map_values(|c: crate::models::FolderNode| node_summary(c))
                == spec_children_sorted(folder_path@, cs, entries@)
            &&& tree.video_count as int == spec_root_count(folder_path@, cs, entries@)
            &&& tree.video_count as int == count_of(cs, folder_path@) + sum_children(
                tree.children@,
            )
        }),
        forall|k: int| #![trigger r.videos@[k]]
            0 <= k < r.videos@.len() ==> (r.videos@[k].duration is None
                && r.videos@[k].created_at@ == r.videos@[k].updated_at@),
{
    let mut videos: Vec<Video> = Vec::new();
    let mut folder_counts = FolderCounts::new();
    proof {
        assert(seed_views(videos@) =~= Seq::<SeedView>::empty());
        assert(folder_counts@ == counts_from(seed_views(videos@)));
    }
    scan_directory_shallow(folder_path, entries, &mut videos, &mut folder_counts, 0, max_depth);
    proof {
        assert(seed_views(videos@) =~= spec_walk(folder_path@, entries@, 0, max_depth as nat));
        lemma_counts_from_wf(seed_views(videos@));
    }
    let total = videos.len();
    proof {
        assert(seed_views(videos@).len() == videos@.len());
        assert(counts_total(folder_counts@) <= usize::MAX);
    }
    let folder_tree = build_folder_tree(folder_path, entries, &folder_counts);
    let mut folders: Vec<crate::models::FolderNode> = Vec::new();
    folders.push(folder_tree);
    ScanResult { total_videos: total, new_videos: total, folders, videos }
}

} // verus!
