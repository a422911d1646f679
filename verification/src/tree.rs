//! The per-folder count index and the folder summary tree.
//!
//! During a scan the walker counts, per folder, the media files found
//! directly inside it.  The tree builder then aggregates those counts
//! over one explicit level below a root.  Aggregation matches folders by
//! textual path prefix, exactly as the catalog's prefix deletion does: a
//! sibling whose name extends another's (`/a/foo` beside `/a/foobar`)
//! is counted by both — a documented quirk of the aggregation rule that
//! is kept deliberately.

use vstd::prelude::*;
use crate::fs::FsEntry;
use crate::models::FolderNode;
use crate::ordering::{
    lemma_insert_le_sorted,
    lemma_insert_le_splice,
    lemma_sort_le_map,
    sort_le,
    total_preorder,
};
use crate::text::{
    ci_lex_le,
    file_name_of,
    join_path,
    lemma_lex_le_total,
    lemma_lex_le_trans,
    lower_seq,
    spec_file_name,
    str_eq,
    str_le_ci,
    str_starts_with,
};
use vstd::relations::sorted_by;
use vstd::string::StrSliceExecFns;

verus! {

/// The number of media files directly inside folder `f`, per the count
/// sequence `cs`; zero when `f` is not indexed.
pub open spec fn count_of(cs: Seq<(Seq<char>, int)>, f: Seq<char>) -> int
    decreases cs.len(),
{
    if cs.len() == 0 {
        0
    } else if cs.last().0 == f {
        cs.last().1
    } else {
        count_of(cs.drop_last(), f)
    }
}

/// The sum of all counts in the index.
pub open spec fn counts_total(cs: Seq<(Seq<char>, int)>) -> int
    decreases cs.len(),
{
    if cs.len() == 0 {
        0
    } else {
        counts_total(cs.drop_last()) + cs.last().1
    }
}

/// Whether folder `f` is indexed.
pub open spec fn has_folder(cs: Seq<(Seq<char>, int)>, f: Seq<char>) -> bool {
    exists|i: int| 0 <= i < cs.len() && cs[i].0 == f
}

/// The first index holding folder `f`, or `-1`.
pub open spec fn key_index(cs: Seq<(Seq<char>, int)>, f: Seq<char>) -> int
    decreases cs.len(),
{
    if cs.len() == 0 {
        -1
    } else if cs.first().0 == f {
        0
    } else {
        let r = key_index(cs.drop_first(), f);
        if r < 0 {
            -1
        } else {
            r + 1
        }
    }
}

/// No folder is indexed twice.
pub open spec fn distinct_keys(cs: Seq<(Seq<char>, int)>) -> bool {
    forall|i: int, j: int| 0 <= i < j < cs.len() ==> cs[i].0 != cs[j].0
}

/// All counts are non-negative.
pub open spec fn counts_nonneg(cs: Seq<(Seq<char>, int)>) -> bool {
    forall|i: int| 0 <= i < cs.len() ==> cs[i].1 >= 0
}

/// The index after one more file is found in folder `f`: the first
/// entry for `f` is incremented in place, or a fresh entry is appended
/// with count one.
pub open spec fn bump(cs: Seq<(Seq<char>, int)>, f: Seq<char>) -> Seq<(Seq<char>, int)> {
    let i = key_index(cs, f);
    if i < 0 {
        cs.push((f, 1int))
    } else {
        cs.update(i, (cs[i].0, cs[i].1 + 1))
    }
}

/// `key_index` finds the first occurrence, and `-1` exactly when the
/// folder is not indexed.
pub proof fn lemma_key_index(cs: Seq<(Seq<char>, int)>, f: Seq<char>)
    ensures
        has_folder(cs, f) ==> {
            let i = key_index(cs, f);
            0 <= i < cs.len() && cs[i].0 == f && (forall|k: int| 0 <= k < i ==> cs[k].0 != f)
        },
        !has_folder(cs, f) ==> key_index(cs, f) == -1,
    decreases cs.len(),
{
    if cs.len() == 0 {
    } else if cs.first().0 == f {
    } else {
        lemma_key_index(cs.drop_first(), f);
        assert(forall|k: int|
            0 <= k < cs.drop_first().len() ==> #[trigger] cs.drop_first()[k] == cs[k + 1]);
        if has_folder(cs, f) {
            let w = choose|w: int| 0 <= w < cs.len() && cs[w].0 == f;
            assert(w > 0);
            assert(cs.drop_first()[w - 1].0 == f);
            assert(has_folder(cs.drop_first(), f));
        }
        if has_folder(cs.drop_first(), f) {
            let w = choose|w: int| 0 <= w < cs.drop_first().len() && cs.drop_first()[w].0 == f;
            assert(cs[w + 1].0 == f);
            assert(has_folder(cs, f));
        }
        if has_folder(cs, f) {
            let i1 = key_index(cs.drop_first(), f);
            assert(cs.drop_first()[i1].0 == f);
            assert(cs[i1 + 1].0 == f);
            assert forall|k: int| 0 <= k < i1 + 1 implies cs[k].0 != f by {
                if k > 0 {
                    assert(cs.drop_first()[k - 1].0 != f);
                }
            }
        }
    }
}

/// Updating the count at an index keyed `k` leaves every other folder's
/// count unchanged, and sets `k`'s where keys are distinct.
proof fn lemma_count_update(cs: Seq<(Seq<char>, int)>, i: int, v: int, g: Seq<char>)
    requires
        0 <= i < cs.len(),
    ensures
        cs[i].0 != g ==> count_of(cs.update(i, (cs[i].0, v)), g) == count_of(cs, g),
        (cs[i].0 == g && (forall|k: int| i < k < cs.len() ==> cs[k].0 != g)) ==> count_of(
            cs.update(i, (cs[i].0, v)),
            g,
        ) == v,
    decreases cs.len(),
{
    let r = cs.update(i, (cs[i].0, v));
    if i == cs.len() - 1 {
        assert(r.last() == (cs[i].0, v));
        assert(r.drop_last() =~= cs.drop_last());
    } else {
        assert(r.last() == cs.last());
        assert(r.drop_last() =~= cs.drop_last().update(i, (cs[i].0, v)));
        assert(cs.drop_last()[i] == cs[i]);
        lemma_count_update(cs.drop_last(), i, v, g);
        assert(forall|k: int|
            i < k < cs.drop_last().len() ==> #[trigger] cs.drop_last()[k] == cs[k]);
    }
}

/// The count of a folder stored at an index with nothing equal after it.
pub proof fn lemma_count_at(cs: Seq<(Seq<char>, int)>, f: Seq<char>, i: int)
    requires
        0 <= i < cs.len(),
        cs[i].0 == f,
        forall|k: int| i < k < cs.len() ==> cs[k].0 != f,
    ensures
        count_of(cs, f) == cs[i].1,
    decreases cs.len(),
{
    if i == cs.len() - 1 {
    } else {
        assert(cs[cs.len() - 1].0 != f);
        assert(cs.drop_last()[i] == cs[i]);
        assert(forall|k: int|
            i < k < cs.drop_last().len() ==> #[trigger] cs.drop_last()[k] == cs[k]);
        lemma_count_at(cs.drop_last(), f, i);
    }
}

/// The count of an unindexed folder is zero.
pub proof fn lemma_count_absent(cs: Seq<(Seq<char>, int)>, f: Seq<char>)
    requires
        !has_folder(cs, f),
    ensures
        count_of(cs, f) == 0,
    decreases cs.len(),
{
    if cs.len() > 0 {
        assert(cs[cs.len() - 1].0 != f);
        assert(forall|i: int|
            0 <= i < cs.drop_last().len() ==> #[trigger] cs.drop_last()[i] == cs[i]);
        lemma_count_absent(cs.drop_last(), f);
    }
}

/// Bumping changes only the count of `f`, by one.
pub proof fn lemma_bump_count(cs: Seq<(Seq<char>, int)>, f: Seq<char>, g: Seq<char>)
    requires
        distinct_keys(cs),
    ensures
        count_of(bump(cs, f), f) == count_of(cs, f) + 1,
        g != f ==> count_of(bump(cs, f), g) == count_of(cs, g),
{
    lemma_key_index(cs, f);
    let i = key_index(cs, f);
    if i < 0 {
        lemma_count_absent(cs, f);
        let r = cs.push((f, 1int));
        assert(r.drop_last() =~= cs);
        assert(count_of(r, f) == 1);
        if g != f {
            assert(count_of(r, g) == count_of(cs, g));
        }
    } else {
        assert(forall|k: int| i < k < cs.len() ==> cs[k].0 != f) by {
            assert(forall|k: int| i < k < cs.len() ==> #[trigger] cs[k].0 != cs[i].0);
        }
        lemma_count_at(cs, f, i);
        lemma_count_update(cs, i, cs[i].1 + 1, f);
        if g != f {
            lemma_count_update(cs, i, cs[i].1 + 1, g);
        }
    }
}

/// The total of an updated index moves with the updated entry.
proof fn lemma_total_update(cs: Seq<(Seq<char>, int)>, i: int, v: int)
    requires
        0 <= i < cs.len(),
    ensures
        counts_total(cs.update(i, (cs[i].0, v))) == counts_total(cs) - cs[i].1 + v,
    decreases cs.len(),
{
    let r = cs.update(i, (cs[i].0, v));
    if i == cs.len() - 1 {
        assert(r.drop_last() =~= cs.drop_last());
    } else {
        assert(r.last() == cs.last());
        assert(r.drop_last() =~= cs.drop_last().update(i, (cs[i].0, v)));
        assert(cs.drop_last()[i] == cs[i]);
        lemma_total_update(cs.drop_last(), i, v);
    }
}

/// Bumping raises the total by one.
pub proof fn lemma_bump_total(cs: Seq<(Seq<char>, int)>, f: Seq<char>)
    ensures
        counts_total(bump(cs, f)) == counts_total(cs) + 1,
{
    lemma_key_index(cs, f);
    let i = key_index(cs, f);
    if i < 0 {
        let r = cs.push((f, 1int));
        assert(r.drop_last() =~= cs);
    } else {
        lemma_total_update(cs, i, cs[i].1 + 1);
    }
}

/// Bumping keeps keys distinct and counts non-negative, and indexes
/// exactly the old folders plus `f`.
pub proof fn lemma_bump_wf(cs: Seq<(Seq<char>, int)>, f: Seq<char>)
    requires
        distinct_keys(cs),
        counts_nonneg(cs),
    ensures
        distinct_keys(bump(cs, f)),
        counts_nonneg(bump(cs, f)),
        forall|g: Seq<char>| has_folder(bump(cs, f), g) == (has_folder(cs, g) || g == f),
{
    lemma_key_index(cs, f);
    let i = key_index(cs, f);
    let r = bump(cs, f);
    if i < 0 {
        assert forall|g: Seq<char>| has_folder(r, g) == (has_folder(cs, g) || g == f) by {
            if has_folder(r, g) {
                let w = choose|w: int| 0 <= w < r.len() && r[w].0 == g;
                if w < cs.len() {
                    assert(cs[w].0 == g);
                } else {
                    assert(g == f);
                }
            }
            if has_folder(cs, g) {
                let w = choose|w: int| 0 <= w < cs.len() && cs[w].0 == g;
                assert(r[w].0 == g);
            }
            if g == f {
                assert(r[cs.len() as int].0 == g);
            }
        }
        assert forall|a: int, b: int| 0 <= a < b < r.len() implies r[a].0 != r[b].0 by {
            if b < cs.len() {
                assert(cs[a].0 != cs[b].0);
            } else {
                assert(r[b].0 == f);
                assert(cs[a].0 != f);
            }
        }
    } else {
        assert forall|g: Seq<char>| has_folder(r, g) == (has_folder(cs, g) || g == f) by {
            if has_folder(r, g) {
                let w = choose|w: int| 0 <= w < r.len() && r[w].0 == g;
                assert(cs[w].0 == g);
            }
            if has_folder(cs, g) {
                let w = choose|w: int| 0 <= w < cs.len() && cs[w].0 == g;
                assert(r[w].0 == g);
            }
            if g == f {
                assert(r[i].0 == g);
            }
        }
        assert forall|a: int, b: int| 0 <= a < b < r.len() implies r[a].0 != r[b].0 by {
            assert(cs[a].0 != cs[b].0);
            assert(r[a].0 == cs[a].0 && r[b].0 == cs[b].0);
        }
    }
}

/// A count never exceeds the total.
pub proof fn lemma_count_le_total(cs: Seq<(Seq<char>, int)>, f: Seq<char>)
    requires
        counts_nonneg(cs),
    ensures
        0 <= count_of(cs, f),
        count_of(cs, f) <= counts_total(cs),
    decreases cs.len(),
{
    if cs.len() > 0 {
        assert(counts_nonneg(cs.drop_last())) by {
            assert(forall|i: int|
                0 <= i < cs.drop_last().len() ==> #[trigger] cs.drop_last()[i] == cs[i]);
        }
        lemma_count_le_total(cs.drop_last(), f);
        assert(cs[cs.len() - 1].1 >= 0);
        lemma_total_nonneg(cs.drop_last());
    }
}

/// A non-negative index has a non-negative total.
pub proof fn lemma_total_nonneg(cs: Seq<(Seq<char>, int)>)
    requires
        counts_nonneg(cs),
    ensures
        counts_total(cs) >= 0,
    decreases cs.len(),
{
    if cs.len() > 0 {
        assert(counts_nonneg(cs.drop_last())) by {
            assert(forall|i: int|
                0 <= i < cs.drop_last().len() ==> #[trigger] cs.drop_last()[i] == cs[i]);
        }
        lemma_total_nonneg(cs.drop_last());
        assert(cs[cs.len() - 1].1 >= 0);
    }
}

/// The ephemeral folder-to-count index built during one scan.
pub struct FolderCounts {
    pub entries: Vec<(String, usize)>,
}

impl View for FolderCounts {
    type V = Seq<(Seq<char>, int)>;

    open spec fn view(&self) -> Seq<(Seq<char>, int)> {
        self.entries@.map_values(|p: (String, usize)| (p.0@, p.1 as int))
    }
}

impl FolderCounts {
    /// The index invariant: folders are indexed at most once.
    pub open spec fn wf(&self) -> bool {
        distinct_keys(self@)
    }

    /// An empty index.
    pub fn new() -> (r: FolderCounts)
        ensures
            r@ =~= Seq::<(Seq<char>, int)>::empty(),
            r.wf(),
    {
        FolderCounts { entries: Vec::new() }
    }

    /// Every stored count is non-negative, because counts are machine
    /// naturals.
    pub proof fn lemma_nonneg(&self)
        ensures
            counts_nonneg(self@),
    {
    }

    /// Reads the count of `folder`; zero when it is not indexed.
    pub fn get(&self, folder: &str) -> (r: usize)
        requires
            self.wf(),
        ensures
            r as int == count_of(self@, folder@),
    {
        let n = self.entries.len();
        let mut i: usize = 0;
        while i < n
            invariant
                self.wf(),
                n == self.entries.len(),
                0 <= i <= n,
                forall|k: int| 0 <= k < i ==> self@[k].0 != folder@,
            decreases n - i,
        {
            if str_eq(self.entries[i].0.as_str(), folder) {
                proof {
                    assert(self@[i as int].0 == folder@);
                    assert(forall|k: int| i < k < self@.len() ==> self@[k].0 != folder@) by {
                        assert(forall|k: int|
                            i < k < self@.len() ==> #[trigger] self@[k].0 != self@[i as int].0);
                    }
                    lemma_count_at(self@, folder@, i as int);
                }
                return self.entries[i].1;
            }
            proof {
                assert(self@[i as int].0 == self.entries@[i as int].0@);
            }
            i = i + 1;
        }
        proof {
            lemma_count_absent(self@, folder@);
        }
        0
    }

    /// Records one more media file directly inside `folder`.
    pub fn increment(&mut self, folder: &String)
        requires
            old(self).wf(),
            count_of(old(self)@, folder@) + 1 <= usize::MAX,
        ensures
            final(self)@ == bump(old(self)@, folder@),
            final(self).wf(),
    {
        proof {
            self.lemma_nonneg();
            lemma_bump_wf(self@, folder@);
            lemma_key_index(self@, folder@);
        }
        let n = self.entries.len();
        let mut i: usize = 0;
        while i < n
            invariant
                old(self).wf(),
                self@ == old(self)@,
                count_of(old(self)@, folder@) + 1 <= usize::MAX,
                n == self.entries.len(),
                0 <= i <= n,
                forall|k: int| 0 <= k < i ==> self@[k].0 != folder@,
            decreases n - i,
        {
            if str_eq(self.entries[i].0.as_str(), folder.as_str()) {
                proof {
                    assert(self@[i as int].0 == folder@);
                    lemma_key_index(self@, folder@);
                    assert(has_folder(self@, folder@));
                    let ki = key_index(self@, folder@);
                    assert(ki == i as int) by {
                        if ki < i as int {
                            assert(self@[ki].0 != folder@);
                        }
                        if ki > i as int {
                            assert(self@[i as int].0 != folder@);
                        }
                    }
                    assert(forall|k: int| i < k < self@.len() ==> self@[k].0 != folder@) by {
                        assert(forall|k: int|
                            i < k < self@.len() ==> #[trigger] self@[k].0 != self@[i as int].0);
                    }
                    lemma_count_at(self@, folder@, i as int);
                }
                let c = self.entries[i].1;
                let key = self.entries[i].0.clone();
                self.entries.set(i, (key, c + 1));
                proof {
                    assert(self@ =~= bump(old(self)@, folder@));
                    lemma_bump_wf(old(self)@, folder@);
                }
                return ;
            }
            proof {
                assert(self@[i as int].0 == self.entries@[i as int].0@);
            }
            i = i + 1;
        }
        proof {
            assert(!has_folder(self@, folder@));
            lemma_key_index(self@, folder@);
        }
        self.entries.push((folder.clone(), 1));
        proof {
            assert(self@ =~= bump(old(self)@, folder@));
            lemma_bump_wf(old(self)@, folder@);
        }
    }
}

/// The counts attributed to folders strictly below `f` by textual
/// prefix match — including, by design, any indexed sibling whose path
/// merely extends `f` as a string.
pub open spec fn subtree_extra(cs: Seq<(Seq<char>, int)>, f: Seq<char>) -> int
    decreases cs.len(),
{
    if cs.len() == 0 {
        0
    } else {
        subtree_extra(cs.drop_last(), f) + if cs.last().0 != f && f.is_prefix_of(cs.last().0) {
            cs.last().1
        } else {
            0
        }
    }
}

/// The aggregated count of folder `f`: its own entry plus every entry
/// whose path extends it textually.
pub open spec fn spec_count_in_path(f: Seq<char>, cs: Seq<(Seq<char>, int)>) -> int {
    count_of(cs, f) + subtree_extra(cs, f)
}

proof fn lemma_subtree_le_total(cs: Seq<(Seq<char>, int)>, f: Seq<char>)
    requires
        counts_nonneg(cs),
    ensures
        0 <= subtree_extra(cs, f),
        subtree_extra(cs, f) <= counts_total(cs),
    decreases cs.len(),
{
    if cs.len() > 0 {
        assert(counts_nonneg(cs.drop_last())) by {
            assert(forall|i: int|
                0 <= i < cs.drop_last().len() ==> #[trigger] cs.drop_last()[i] == cs[i]);
        }
        lemma_subtree_le_total(cs.drop_last(), f);
        assert(cs[cs.len() - 1].1 >= 0);
    }
}

/// The aggregated count of any folder stays within the index total.
pub proof fn lemma_count_in_path_le_total(f: Seq<char>, cs: Seq<(Seq<char>, int)>)
    requires
        counts_nonneg(cs),
    ensures
        0 <= spec_count_in_path(f, cs),
        spec_count_in_path(f, cs) <= counts_total(cs),
    decreases cs.len(),
{
    if cs.len() > 0 {
        assert(counts_nonneg(cs.drop_last())) by {
            assert(forall|i: int|
                0 <= i < cs.drop_last().len() ==> #[trigger] cs.drop_last()[i] == cs[i]);
        }
        lemma_count_in_path_le_total(f, cs.drop_last());
        lemma_subtree_le_total(cs.drop_last(), f);
        assert(cs[cs.len() - 1].1 >= 0);
    }
}

proof fn lemma_subtree_take_le(cs: Seq<(Seq<char>, int)>, f: Seq<char>, j: int)
    requires
        counts_nonneg(cs),
        0 <= j <= cs.len(),
    ensures
        subtree_extra(cs.take(j), f) <= subtree_extra(cs, f),
    decreases cs.len(),
{
    if j == cs.len() {
        assert(cs.take(j) =~= cs);
    } else {
        assert(counts_nonneg(cs.drop_last())) by {
            assert(forall|i: int|
                0 <= i < cs.drop_last().len() ==> #[trigger] cs.drop_last()[i] == cs[i]);
        }
        assert(cs.take(j) =~= cs.drop_last().take(j));
        lemma_subtree_take_le(cs.drop_last(), f, j);
        assert(cs[cs.len() - 1].1 >= 0);
    }
}

/// Sums the aggregated count of the given folder over the index:
/// the folder's own entry plus every entry lying under it by textual
/// prefix.  The sibling-name quirk of prefix matching is preserved.
pub fn count_videos_in_path(folder_path: &String, video_counts: &FolderCounts) -> (r: usize)
    requires
        video_counts.wf(),
        counts_total(video_counts@) <= usize::MAX,
    ensures
        r as int == spec_count_in_path(folder_path@, video_counts@),
{
    proof {
        video_counts.lemma_nonneg();
        lemma_count_le_total(video_counts@, folder_path@);
    }
    let mut count = video_counts.get(folder_path.as_str());
    let n = video_counts.entries.len();
    let mut i: usize = 0;
    while i < n
        invariant
            video_counts.wf(),
            counts_total(video_counts@) <= usize::MAX,
            n == video_counts.entries.len(),
            0 <= i <= n,
            count as int == count_of(video_counts@, folder_path@) + subtree_extra(
                video_counts@.take(i as int),
                folder_path@,
            ),
        decreases n - i,
    {
        let ghost cs = video_counts@;
        let ghost f = folder_path@;
        proof {
            video_counts.lemma_nonneg();
            assert(cs.take(i + 1).drop_last() =~= cs.take(i as int));
            assert(cs.take(i + 1).last() == cs[i as int]);
            assert(cs[i as int].0 == video_counts.entries@[i as int].0@);
            assert(cs[i as int].1 == video_counts.entries@[i as int].1 as int);
            lemma_subtree_take_le(cs, f, i + 1);
            lemma_count_in_path_le_total(f, cs);
        }
        let key_matches = str_eq(video_counts.entries[i].0.as_str(), folder_path.as_str());
        let is_under = str_starts_with(video_counts.entries[i].0.as_str(), folder_path.as_str());
        if !key_matches && is_under {
            count = count + video_counts.entries[i].1;
        }
        i = i + 1;
    }
    proof {
        assert(video_counts@.take(n as int) =~= video_counts@);
    }
    count
}

/// A hidden name: one with a leading dot.
pub open spec fn is_hidden(name: Seq<char>) -> bool {
    name.len() > 0 && name[0] == '.'
}

/// Decides `is_hidden`.
pub fn name_is_hidden(name: &str) -> (r: bool)
    ensures
        r == is_hidden(name@),
{
    name.unicode_len() > 0 && name.get_char(0) == '.'
}

/// Whether a listing entry is presented as a child of the summary tree:
/// a directory, not hidden, not a symbolic link.
pub open spec fn is_tree_child(e: FsEntry) -> bool {
    match e {
        FsEntry::Dir { name, symlink, .. } => !symlink && !is_hidden(name@),
        FsEntry::File { .. } => false,
    }
}

/// The (path, display name, aggregated count) summary of one child.
pub open spec fn child_summary(root: Seq<char>, cs: Seq<(Seq<char>, int)>, e: FsEntry) -> (
    Seq<char>,
    Seq<char>,
    int,
) {
    (root + seq!['/'] + e.name(), e.name(), spec_count_in_path(root + seq!['/'] + e.name(), cs))
}

/// The included children in listing order: tree children whose
/// aggregated count is positive.
pub open spec fn spec_children(
    root: Seq<char>,
    cs: Seq<(Seq<char>, int)>,
    entries: Seq<FsEntry>,
) -> Seq<(Seq<char>, Seq<char>, int)>
    decreases entries.len(),
{
    if entries.len() == 0 {
        Seq::empty()
    } else {
        let rest = spec_children(root, cs, entries.drop_last());
        let e = entries.last();
        if is_tree_child(e) && child_summary(root, cs, e).2 > 0 {
            rest.push(child_summary(root, cs, e))
        } else {
            rest
        }
    }
}

/// Case-insensitive name order on child summaries.
pub open spec fn summary_le(a: (Seq<char>, Seq<char>, int), b: (Seq<char>, Seq<char>, int)) -> bool {
    ci_lex_le(a.1, b.1)
}

/// The included children sorted case-insensitively by name.
pub open spec fn spec_children_sorted(
    root: Seq<char>,
    cs: Seq<(Seq<char>, int)>,
    entries: Seq<FsEntry>,
) -> Seq<(Seq<char>, Seq<char>, int)> {
    sort_le(|a, b| summary_le(a, b), spec_children(root, cs, entries))
}

/// The sum of the summaries' counts.
pub open spec fn sum_summaries(s: Seq<(Seq<char>, Seq<char>, int)>) -> int
    decreases s.len(),
{
    if s.len() == 0 {
        0
    } else {
        sum_summaries(s.drop_last()) + s.last().2
    }
}

/// The sum of the nodes' counts.
pub open spec fn sum_children(s: Seq<FolderNode>) -> int
    decreases s.len(),
{
    if s.len() == 0 {
        0
    } else {
        sum_children(s.drop_last()) + s.last().video_count
    }
}

/// The display name of a root: its final path segment, or the whole
/// path where none can be split off.
pub open spec fn spec_root_name(root: Seq<char>) -> Seq<char> {
    match spec_file_name(root) {
        Some(n) => n,
        None => root,
    }
}

/// The root's own aggregated count: its direct count plus the counts of
/// the included children.
pub open spec fn spec_root_count(
    root: Seq<char>,
    cs: Seq<(Seq<char>, int)>,
    entries: Seq<FsEntry>,
) -> int {
    count_of(cs, root) + sum_summaries(spec_children_sorted(root, cs, entries))
}

/// The summary triple of a built node.
pub open spec fn node_summary(c: FolderNode) -> (Seq<char>, Seq<char>, int) {
    (c.path@, c.name@, c.video_count as int)
}

/// Case-insensitive name order on nodes.
pub open spec fn node_le(a: FolderNode, b: FolderNode) -> bool {
    ci_lex_le(a.name@, b.name@)
}

/// `node_le` relates every pair and chains.
pub proof fn lemma_node_le_preorder()
    ensures
        total_preorder(|a, b| node_le(a, b)),
{
    let leq = |a, b| node_le(a, b);
    assert forall|a: FolderNode, b: FolderNode| #[trigger] leq(a, b) || #[trigger] leq(b, a) by {
        lemma_lex_le_total(lower_seq(a.name@), lower_seq(b.name@));
    }
    assert forall|a: FolderNode, b: FolderNode, c: FolderNode|
        #[trigger] leq(a, b) && #[trigger] leq(b, c) implies leq(a, c) by {
        lemma_lex_le_trans(lower_seq(a.name@), lower_seq(b.name@), lower_seq(c.name@));
    }
}

proof fn lemma_sum_children_map(s: Seq<FolderNode>)
    ensures
        sum_summaries(s.map_values(|c: FolderNode| node_summary(c))) == sum_children(s),
    decreases s.len(),
{
    let m = s.map_values(|c: FolderNode| node_summary(c));
    if s.len() > 0 {
        lemma_sum_children_map(s.drop_last());
        assert(m.drop_last() =~= s.drop_last().map_values(|c: FolderNode| node_summary(c)));
        assert(m.last() == node_summary(s.last()));
    }
}

proof fn lemma_sum_children_take_le(s: Seq<FolderNode>, j: int)
    requires
        0 <= j <= s.len(),
    ensures
        sum_children(s.take(j)) <= sum_children(s),
    decreases s.len(),
{
    if j == s.len() {
        assert(s.take(j) =~= s);
    } else {
        assert(s.take(j) =~= s.drop_last().take(j));
        lemma_sum_children_take_le(s.drop_last(), j);
    }
}

/// Builds one level of the folder summary tree: the root and its
/// direct subdirectories, each carrying its prefix-aggregated count,
/// children with a zero count pruned, siblings in case-insensitive
/// name order.  The root's count is its direct count plus the sum of
/// the included children's counts.
pub fn build_folder_tree(root_path: &String, entries: &Vec<FsEntry>, video_counts: &FolderCounts) -> (r:
    FolderNode)
    requires
        video_counts.wf(),
        counts_total(video_counts@) <= usize::MAX,
        spec_root_count(root_path@, video_counts@, entries@) <= usize::MAX,
    ensures
        r.path@ == root_path@,
        r.name@ == spec_root_name(root_path@),
        r.children@.map_values(|c: FolderNode| node_summary(c)) == spec_children_sorted(
            root_path@,
            video_counts@,
            entries@,
        ),
        forall|i: int| 0 <= i < r.children@.len() ==> #[trigger] r.children@[i].children@.len() == 0,
        r.video_count as int == spec_root_count(root_path@, video_counts@, entries@),
        r.video_count as int == count_of(video_counts@, root_path@) + sum_children(r.children@),
{
    let ghost cs = video_counts@;
    let ghost root = root_path@;
    let name: String = match file_name_of(root_path.as_str()) {
        Some(n) => n,
        None => root_path.clone(),
    };

    // Collect the included children in listing order.
    let mut nodes: Vec<FolderNode> = Vec::new();
    let n = entries.len();
    let mut i: usize = 0;
    while i < n
        invariant
            video_counts.wf(),
            counts_total(cs) <= usize::MAX,
            cs == video_counts@,
            root == root_path@,
            n == entries.len(),
            0 <= i <= n,
            nodes@.map_values(|c: FolderNode| node_summary(c)) == spec_children(
                root,
                cs,
                entries@.take(i as int),
            ),
            forall|k: int| 0 <= k < nodes@.len() ==> #[trigger] nodes@[k].children@.len() == 0,
        decreases n - i,
    {
        proof {
            assert(entries@.take(i + 1).drop_last() =~= entries@.take(i as int));
            assert(entries@.take(i + 1).last() == entries@[i as int]);
        }
        let e = &entries[i];
        match e {
            FsEntry::Dir { name: dname, symlink, .. } => {
                if !*symlink && !name_is_hidden(dname.as_str()) {
                    let child_path = join_path(root_path.as_str(), dname.as_str());
                    let video_count = count_videos_in_path(&child_path, video_counts);
                    if video_count > 0 {
                        let node = FolderNode {
                            path: child_path,
                            name: dname.clone(),
                            children: Vec::new(),
                            video_count,
                        };
                        nodes.push(node);
                        proof {
                            assert(nodes@.map_values(|c: FolderNode| node_summary(c))
                                =~= nodes@.drop_last().map_values(|c: FolderNode| node_summary(c))
                                .push(node_summary(nodes@.last())));
                            assert(node_summary(nodes@.last()) == child_summary(
                                root,
                                cs,
                                entries@[i as int],
                            ));
                        }
                    }
                }
            },
            FsEntry::File { .. } => {},
        }
        i = i + 1;
    }
    proof {
        assert(entries@.take(n as int) =~= entries@);
    }

    // Sort the children case-insensitively by display name.
    let total_nodes = nodes.len();
    let ghost unsorted = nodes@;
    proof {
        assert(unsorted.len() == total_nodes as int);
    }
    let ghost leq = |a: FolderNode, b: FolderNode| node_le(a, b);
    proof {
        lemma_node_le_preorder();
    }
    let mut sorted: Vec<FolderNode> = Vec::new();
    let mut taken: usize = 0;
    while nodes.len() > 0
        invariant
            unsorted.len() <= usize::MAX,
            forall|a: FolderNode, b: FolderNode| #[trigger] leq(a, b) == node_le(a, b),
            0 <= taken <= unsorted.len(),
            nodes@ == unsorted.skip(taken as int),
            sorted@ == sort_le(leq, unsorted.take(taken as int)),
            sorted_by(sorted@, leq),
            total_preorder(leq),
            forall|k: int| 0 <= k < unsorted.len() ==> #[trigger] unsorted[k].children@.len() == 0,
            forall|k: int| 0 <= k < sorted@.len() ==> #[trigger] sorted@[k].children@.len() == 0,
        decreases nodes.len(),
    {
        let x = nodes.remove(0);
        proof {
            assert(x == unsorted[taken as int]);
            assert(unsorted.skip(taken as int).skip(1) =~= unsorted.skip(taken + 1));
        }
        let mut j: usize = sorted.len();
        while j > 0 && !str_le_ci(sorted[j - 1].name.as_str(), x.name.as_str())
            invariant
                0 <= j <= sorted@.len(),
                forall|k: int| j <= k < sorted@.len() ==> !node_le(#[trigger] sorted@[k], x),
            decreases j,
        {
            j = j - 1;
        }
        proof {
            lemma_insert_le_splice(leq, sorted@, x, j as int);
            lemma_insert_le_sorted(leq, sorted@, x);
            assert(unsorted.take(taken + 1).drop_last() =~= unsorted.take(taken as int));
            assert(unsorted.take(taken + 1).last() == unsorted[taken as int]);
        }
        sorted.insert(j, x);
        proof {
            assert(sorted@ =~= sort_le(leq, unsorted.take(taken as int)).subrange(0, j as int)
                + seq![x] + sort_le(leq, unsorted.take(taken as int)).subrange(
                j as int,
                sort_le(leq, unsorted.take(taken as int)).len() as int,
            ));
        }
        taken = taken + 1;
    }
    proof {
        assert(unsorted.take(taken as int) =~= unsorted);
        lemma_sort_le_map(
            leq,
            |a: (Seq<char>, Seq<char>, int), b: (Seq<char>, Seq<char>, int)| summary_le(a, b),
            |c: FolderNode| node_summary(c),
            unsorted,
        );
        lemma_sum_children_map(sorted@);
    }

    // The root's aggregated count: direct count plus included children.
    let direct = video_counts.get(root_path.as_str());
    let mut video_count = direct;
    let m = sorted.len();
    let mut k: usize = 0;
    while k < m
        invariant
            m == sorted.len(),
            0 <= k <= m,
            direct as int == count_of(cs, root),
            video_count as int == direct as int + sum_children(sorted@.take(k as int)),
            direct as int + sum_children(sorted@) <= usize::MAX,
        decreases m - k,
    {
        proof {
            assert(sorted@.take(k + 1).drop_last() =~= sorted@.take(k as int));
            assert(sorted@.take(k + 1).last() == sorted@[k as int]);
            lemma_sum_children_take_le(sorted@, k + 1);
        }
        video_count = video_count + sorted[k].video_count;
        k = k + 1;
    }
    proof {
        assert(sorted@.take(m as int) =~= sorted@);
    }

    FolderNode { path: root_path.clone(), name, children: sorted, video_count }
}

} // verus!
