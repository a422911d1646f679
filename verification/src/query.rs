//! The query engine: translates a `FilterOptions` descriptor into a
//! predicate, an ordering and a page over the catalog.
//!
//! Facet filters combine as AND across facets and OR within one facet:
//! each non-empty identifier set narrows to records associated with at
//! least one of its identifiers, and an empty set does not constrain.
//! The folder filter is a textual path prefix; the search filter is a
//! case-insensitive substring of the filename.  An unrecognized sort
//! key falls back to the filename, and any direction but `desc` sorts
//! ascending.  The page is cut out of the one deterministic sorted
//! sequence, so pages taken at consecutive offsets tile it exactly.

use vstd::prelude::*;
use crate::catalog::Database;
use crate::models::{FilterOptions, Video};
use crate::ordering::{
    lemma_insert_le_sorted,
    lemma_insert_le_splice,
    lemma_sort_le_map,
    lemma_sort_le_multiset,
    lemma_sort_le_sorted,
    sort_le,
    total_preorder,
};
use crate::seqs::{lemma_filter_agree, lemma_filter_empty, lemma_filter_push};
use crate::taxonomy::ids_view;
use crate::text::{
    contains_seq_ci,
    lemma_lex_le_total,
    lemma_lex_le_trans,
    lex_le,
    str_contains_ci,
    str_eq,
    str_le,
    str_starts_with,
};
use vstd::relations::sorted_by;
use vstd::string::StrSliceExecFns;

verus! {

/// A record as its plain field values.
#[verifier::ext_equal]
pub struct VideoView {
    pub id: Seq<char>,
    pub path: Seq<char>,
    pub filename: Seq<char>,
    pub folder_path: Seq<char>,
    pub size: u64,
    pub duration: Option<u64>,
    pub thumbnail_path: Option<Seq<char>>,
    pub created_at: Seq<char>,
    pub updated_at: Seq<char>,
}

/// The view of one record.
pub open spec fn vview(v: Video) -> VideoView {
    VideoView {
        id: v.id@,
        path: v.path@,
        filename: v.filename@,
        folder_path: v.folder_path@,
        size: v.size,
        duration: v.duration,
        thumbnail_path: match v.thumbnail_path {
            Option::Some(t) => Option::Some(t@),
            Option::None => Option::None,
        },
        created_at: v.created_at@,
        updated_at: v.updated_at@,
    }
}

/// The views of a record sequence.
pub open spec fn video_views(vs: Seq<Video>) -> Seq<VideoView> {
    vs.map_values(|v: Video| vview(v))
}

/// The four sort keys; anything unrecognized is the filename.
#[derive(PartialEq, Eq, Structural, Clone, Copy, Debug)]
pub enum SortKey {
    Filename,
    Size,
    Created,
    Updated,
}

/// The sort key a descriptor names.
pub open spec fn spec_sort_key(s: Seq<char>) -> SortKey {
    if s == "size"@ {
        SortKey::Size
    } else if s == "created_at"@ {
        SortKey::Created
    } else if s == "updated_at"@ {
        SortKey::Updated
    } else {
        SortKey::Filename
    }
}

/// Decides `spec_sort_key`.
pub fn parse_sort_key(s: &str) -> (r: SortKey)
    ensures
        r == spec_sort_key(s@),
{
    if str_eq(s, "size") {
        SortKey::Size
    } else if str_eq(s, "created_at") {
        SortKey::Created
    } else if str_eq(s, "updated_at") {
        SortKey::Updated
    } else {
        SortKey::Filename
    }
}

/// Whether a descriptor asks for descending order.
pub open spec fn spec_descending(s: Seq<char>) -> bool {
    s == "desc"@
}

/// Decides `spec_descending`.
pub fn parse_descending(s: &str) -> (r: bool)
    ensures
        r == spec_descending(s@),
{
    str_eq(s, "desc")
}

/// The ascending order a sort key induces on record views.
pub open spec fn key_le(key: SortKey, a: VideoView, b: VideoView) -> bool {
    match key {
        SortKey::Filename => lex_le(a.filename, b.filename),
        SortKey::Size => a.size <= b.size,
        SortKey::Created => lex_le(a.created_at, b.created_at),
        SortKey::Updated => lex_le(a.updated_at, b.updated_at),
    }
}

/// The order a descriptor asks for: the key's order, flipped when
/// descending.
pub open spec fn view_le(key: SortKey, desc: bool, a: VideoView, b: VideoView) -> bool {
    if desc {
        key_le(key, b, a)
    } else {
        key_le(key, a, b)
    }
}

/// Any sort order relates every pair of views and chains.
pub proof fn lemma_view_le_preorder(key: SortKey, desc: bool)
    ensures
        total_preorder(|a, b| view_le(key, desc, a, b)),
{
    let leq = |a, b| view_le(key, desc, a, b);
    assert forall|a: VideoView, b: VideoView| #[trigger] leq(a, b) || #[trigger] leq(b, a) by {
        match key {
            SortKey::Filename => lemma_lex_le_total(a.filename, b.filename),
            SortKey::Size => {},
            SortKey::Created => lemma_lex_le_total(a.created_at, b.created_at),
            SortKey::Updated => lemma_lex_le_total(a.updated_at, b.updated_at),
        }
    }
    assert forall|a: VideoView, b: VideoView, c: VideoView|
        #[trigger] leq(a, b) && #[trigger] leq(b, c) implies leq(a, c) by {
        if desc {
            match key {
                SortKey::Filename => lemma_lex_le_trans(c.filename, b.filename, a.filename),
                SortKey::Size => {},
                SortKey::Created => lemma_lex_le_trans(c.created_at, b.created_at, a.created_at),
                SortKey::Updated => lemma_lex_le_trans(c.updated_at, b.updated_at, a.updated_at),
            }
        } else {
            match key {
                SortKey::Filename => lemma_lex_le_trans(a.filename, b.filename, c.filename),
                SortKey::Size => {},
                SortKey::Created => lemma_lex_le_trans(a.created_at, b.created_at, c.created_at),
                SortKey::Updated => lemma_lex_le_trans(a.updated_at, b.updated_at, c.updated_at),
            }
        }
    }
}

/// Decides `view_le` on two records.
pub fn video_le(key: SortKey, desc: bool, a: &Video, b: &Video) -> (r: bool)
    ensures
        r == view_le(key, desc, vview(*a), vview(*b)),
{
    let (x, y) = if desc {
        (b, a)
    } else {
        (a, b)
    };
    match key {
        SortKey::Filename => str_le(x.filename.as_str(), y.filename.as_str()),
        SortKey::Size => x.size <= y.size,
        SortKey::Created => str_le(x.created_at.as_str(), y.created_at.as_str()),
        SortKey::Updated => str_le(x.updated_at.as_str(), y.updated_at.as_str()),
    }
}

/// OR within one facet: an empty identifier set does not constrain;
/// a non-empty one requires at least one association.
pub open spec fn matches_facet(
    pairs: Seq<(Seq<char>, Seq<char>)>,
    vid: Seq<char>,
    ids: Seq<Seq<char>>,
) -> bool {
    ids.len() == 0 || exists|i: int| 0 <= i < ids.len() && pairs.contains((vid, #[trigger] ids[i]))
}

/// AND across facets: every present filter must accept the record.
pub open spec fn spec_matches(
    v: VideoView,
    vt: Seq<(Seq<char>, Seq<char>)>,
    vp: Seq<(Seq<char>, Seq<char>)>,
    vl: Seq<(Seq<char>, Seq<char>)>,
    f: FilterOptions,
) -> bool {
    &&& match f.folder_path {
        Option::Some(p) => p@.is_prefix_of(v.folder_path),
        Option::None => true,
    }
    &&& matches_facet(vt, v.id, ids_view(f.tag_ids@))
    &&& matches_facet(vp, v.id, ids_view(f.participant_ids@))
    &&& matches_facet(vl, v.id, ids_view(f.language_ids@))
    &&& match f.search_query {
        Option::Some(q) => q@.len() == 0 || contains_seq_ci(v.filename, q@),
        Option::None => true,
    }
}

/// The record predicate one descriptor compiles to, against one
/// store's association tables.
pub open spec fn match_pred(db: Database, f: FilterOptions) -> spec_fn(VideoView) -> bool {
    |v: VideoView| spec_matches(v, db.vt(), db.vp(), db.vl(), f)
}

/// The record order one descriptor compiles to.
pub open spec fn query_leq(f: FilterOptions) -> spec_fn(VideoView, VideoView) -> bool {
    |a, b| view_le(spec_sort_key(f.sort_by@), spec_descending(f.sort_order@), a, b)
}

/// The compiled order relates every pair of views and chains.
pub proof fn lemma_query_leq_preorder(f: FilterOptions)
    ensures
        total_preorder(query_leq(f)),
{
    let key = spec_sort_key(f.sort_by@);
    let desc = spec_descending(f.sort_order@);
    lemma_view_le_preorder(key, desc);
    let leq0 = |a, b| view_le(key, desc, a, b);
    let leq = query_leq(f);
    assert forall|a: VideoView, b: VideoView| #[trigger] leq(a, b) || #[trigger] leq(b, a) by {
        assert(leq0(a, b) || leq0(b, a));
        assert(leq(a, b) == view_le(key, desc, a, b));
        assert(leq(b, a) == view_le(key, desc, b, a));
    }
    assert forall|a: VideoView, b: VideoView, c: VideoView|
        #[trigger] leq(a, b) && #[trigger] leq(b, c) implies leq(a, c) by {
        assert(leq0(a, b) && leq0(b, c));
        assert(leq0(a, c));
    }
}

/// Whether the pair table holds `(vid, id)`.
fn pair_present(pairs: &Vec<(String, String)>, vid: &str, id: &str) -> (r: bool)
    ensures
        r == crate::catalog::pairs_view(pairs@).contains((vid@, id@)),
{
    let n = pairs.len();
    let mut i: usize = 0;
    while i < n
        invariant
            n == pairs@.len(),
            0 <= i <= n,
            forall|k: int|
                0 <= k < i ==> #[trigger] crate::catalog::pairs_view(pairs@)[k] != (vid@, id@),
        decreases n - i,
    {
        if str_eq(pairs[i].0.as_str(), vid) && str_eq(pairs[i].1.as_str(), id) {
            proof {
                assert(crate::catalog::pairs_view(pairs@)[i as int] == (vid@, id@));
            }
            return true;
        }
        proof {
            assert(crate::catalog::pairs_view(pairs@)[i as int] == (
                pairs@[i as int].0@,
                pairs@[i as int].1@,
            ));
        }
        i = i + 1;
    }
    proof {
        if crate::catalog::pairs_view(pairs@).contains((vid@, id@)) {
            let w = choose|w: int|
                0 <= w < crate::catalog::pairs_view(pairs@).len() && crate::catalog::pairs_view(
                    pairs@,
                )[w] == (vid@, id@);
            assert(crate::catalog::pairs_view(pairs@)[w] != (vid@, id@));
        }
    }
    false
}

/// Decides `matches_facet`.
fn facet_ok(pairs: &Vec<(String, String)>, vid: &str, ids: &Vec<String>) -> (r: bool)
    ensures
        r == matches_facet(crate::catalog::pairs_view(pairs@), vid@, ids_view(ids@)),
{
    let n = ids.len();
    if n == 0 {
        return true;
    }
    let mut i: usize = 0;
    while i < n
        invariant
            n == ids@.len(),
            0 <= i <= n,
            forall|k: int|
                0 <= k < i ==> !crate::catalog::pairs_view(pairs@).contains(
                    (vid@, #[trigger] ids_view(ids@)[k]),
                ),
        decreases n - i,
    {
        if pair_present(pairs, vid, ids[i].as_str()) {
            proof {
                assert(ids_view(ids@)[i as int] == ids@[i as int]@);
            }
            return true;
        }
        proof {
            assert(ids_view(ids@)[i as int] == ids@[i as int]@);
        }
        i = i + 1;
    }
    false
}

impl Database {
    /// Whether the given record matches the descriptor against this
    /// store's association tables.
    pub fn matches_filter(&self, v: &Video, filter: &FilterOptions) -> (r: bool)
        ensures
            r == spec_matches(vview(*v), self.vt(), self.vp(), self.vl(), *filter),
    {
        let folder_ok = match &filter.folder_path {
            Option::Some(p) => str_starts_with(v.folder_path.as_str(), p.as_str()),
            Option::None => true,
        };
        if !folder_ok {
            return false;
        }
        if !facet_ok(&self.video_tags, v.id.as_str(), &filter.tag_ids) {
            return false;
        }
        if !facet_ok(&self.video_participants, v.id.as_str(), &filter.participant_ids) {
            return false;
        }
        if !facet_ok(&self.video_languages, v.id.as_str(), &filter.language_ids) {
            return false;
        }
        match &filter.search_query {
            Option::Some(q) => {
                if q.unicode_len() == 0 {
                    true
                } else {
                    str_contains_ci(v.filename.as_str(), q.as_str())
                }
            },
            Option::None => true,
        }
    }

    /// The views of the records the descriptor matches, in store order.
    pub open spec fn matching_views(&self, f: FilterOptions) -> Seq<VideoView> {
        video_views(self.videos@).filter(match_pred(*self, f))
    }

    /// The matching views in the descriptor's order: the one sorted
    /// sequence every page is cut from.
    pub open spec fn sorted_views(&self, f: FilterOptions) -> Seq<VideoView> {
        sort_le(query_leq(f), self.matching_views(f))
    }

    /// The page the descriptor cuts out of the sorted sequence.
    pub open spec fn page_views(&self, f: FilterOptions) -> Seq<VideoView> {
        page_at(self.sorted_views(f), f.offset as int, f.limit as int)
    }

    /// Counts the records the descriptor matches, ignoring its page
    /// bounds — the total a page is measured against.
    pub fn get_video_count(&self, filter: &FilterOptions) -> (r: usize)
        ensures
            r as int == self.matching_views(*filter).len(),
    {
        let ghost pred = match_pred(*self, *filter);
        proof {
            lemma_filter_empty(pred);
            assert(video_views(self.videos@.take(0)) =~= Seq::<VideoView>::empty());
        }
        let n = self.videos.len();
        let mut count: usize = 0;
        let mut i: usize = 0;
        while i < n
            invariant
                pred == match_pred(*self, *filter),
                n == self.videos@.len(),
                0 <= i <= n,
                count <= i,
                count as int == video_views(self.videos@.take(i as int)).filter(pred).len(),
            decreases n - i,
        {
            proof {
                assert(video_views(self.videos@.take(i + 1)) =~= video_views(
                    self.videos@.take(i as int),
                ).push(vview(self.videos@[i as int])));
                lemma_filter_push(
                    video_views(self.videos@.take(i as int)),
                    vview(self.videos@[i as int]),
                    pred,
                );
            }
            if self.matches_filter(&self.videos[i], filter) {
                count = count + 1;
            }
            i = i + 1;
        }
        proof {
            assert(self.videos@.take(n as int) =~= self.videos@);
        }
        count
    }

    /// Answers the descriptor: the matching records, sorted by its key
    /// and direction, cut to its page.  Each returned record is a
    /// field-for-field copy.
    pub fn get_videos(&self, filter: &FilterOptions) -> (r: Vec<Video>)
        ensures
            video_views(r@) == self.page_views(*filter),
            sorted_by(video_views(r@), query_leq(*filter)),
    {
        let ghost pred = match_pred(*self, *filter);
        let ghost key = spec_sort_key(filter.sort_by@);
        let ghost desc = spec_descending(filter.sort_order@);
        let ghost vleq = |a: Video, b: Video| view_le(key, desc, vview(a), vview(b));
        let ghost wleq = query_leq(*filter);

        // Collect the matching records, in store order.
        proof {
            lemma_filter_empty(pred);
            assert(video_views(self.videos@.take(0)) =~= Seq::<VideoView>::empty());
            assert(video_views(Seq::<Video>::empty()) =~= Seq::<VideoView>::empty());
        }
        let mut matched: Vec<Video> = Vec::new();
        let n = self.videos.len();
        let mut i: usize = 0;
        while i < n
            invariant
                pred == match_pred(*self, *filter),
                n == self.videos@.len(),
                0 <= i <= n,
                video_views(matched@) == video_views(self.videos@.take(i as int)).filter(pred),
            decreases n - i,
        {
            proof {
                assert(video_views(self.videos@.take(i + 1)) =~= video_views(
                    self.videos@.take(i as int),
                ).push(vview(self.videos@[i as int])));
                lemma_filter_push(
                    video_views(self.videos@.take(i as int)),
                    vview(self.videos@[i as int]),
                    pred,
                );
            }
            if self.matches_filter(&self.videos[i], filter) {
                let c = self.videos[i].duplicate();
                proof {
                    assert(vview(c) =~= vview(self.videos@[i as int]));
                }
                matched.push(c);
                proof {
                    assert(video_views(matched@) =~= video_views(matched@.drop_last()).push(
                        vview(matched@.last()),
                    ));
                }
            }
            i = i + 1;
        }
        proof {
            assert(self.videos@.take(n as int) =~= self.videos@);
        }

        // Sort by the descriptor's key and direction.
        let sort_key = parse_sort_key(filter.sort_by.as_str());
        let descending = parse_descending(filter.sort_order.as_str());
        proof {
            lemma_view_le_preorder(key, desc);
            assert forall|a: Video, b: Video| #[trigger] vleq(a, b) == wleq(vview(a), vview(b)) by {}
            assert forall|a: Video, b: Video| #[trigger] vleq(a, b) || #[trigger] vleq(b, a) by {
                assert(wleq(vview(a), vview(b)) || wleq(vview(b), vview(a)));
            }
            assert forall|a: Video, b: Video, c: Video|
                #[trigger] vleq(a, b) && #[trigger] vleq(b, c) implies vleq(a, c) by {
                assert(wleq(vview(a), vview(b)) && wleq(vview(b), vview(c)));
                assert(wleq(vview(a), vview(c)));
            }
        }
        let ghost unsorted = matched@;
        let total_matched = matched.len();
        proof {
            assert(unsorted.len() == total_matched as int);
        }
        let mut sorted: Vec<Video> = Vec::new();
        let mut taken: usize = 0;
        while matched.len() > 0
            invariant
                unsorted.len() <= usize::MAX,
                key == spec_sort_key(filter.sort_by@),
                desc == spec_descending(filter.sort_order@),
                sort_key == key,
                descending == desc,
                forall|a: Video, b: Video| #[trigger] vleq(a, b) == view_le(
                    key,
                    desc,
                    vview(a),
                    vview(b),
                ),
                total_preorder(vleq),
                0 <= taken <= unsorted.len(),
                matched@ == unsorted.skip(taken as int),
                sorted@ == sort_le(vleq, unsorted.take(taken as int)),
                sorted_by(sorted@, vleq),
            decreases matched.len(),
        {
            let x = matched.remove(0);
            proof {
                assert(x == unsorted[taken as int]);
                assert(unsorted.skip(taken as int).skip(1) =~= unsorted.skip(taken + 1));
            }
            let mut j: usize = sorted.len();
            while j > 0 && !video_le(sort_key, descending, &sorted[j - 1], &x)
                invariant
                    sort_key == key,
                    descending == desc,
                    0 <= j <= sorted@.len(),
                    forall|k: int|
                        j <= k < sorted@.len() ==> !view_le(
                            key,
                            desc,
                            vview(#[trigger] sorted@[k]),
                            vview(x),
                        ),
                decreases j,
            {
                j = j - 1;
            }
            proof {
                assert forall|k: int| j as int <= k < sorted@.len() implies !vleq(
                    #[trigger] sorted@[k],
                    x,
                ) by {}
                lemma_insert_le_splice(vleq, sorted@, x, j as int);
                lemma_insert_le_sorted(vleq, sorted@, x);
                assert(unsorted.take(taken + 1).drop_last() =~= unsorted.take(taken as int));
                assert(unsorted.take(taken + 1).last() == unsorted[taken as int]);
            }
            sorted.insert(j, x);
            proof {
                assert(sorted@ =~= sort_le(vleq, unsorted.take(taken as int)).subrange(
                    0,
                    j as int,
                ) + seq![x] + sort_le(vleq, unsorted.take(taken as int)).subrange(
                    j as int,
                    sort_le(vleq, unsorted.take(taken as int)).len() as int,
                ));
            }
            taken = taken + 1;
        }
        proof {
            assert(unsorted.take(taken as int) =~= unsorted);
            lemma_sort_le_map(vleq, wleq, |v: Video| vview(v), unsorted);
        }

        // Cut the page out of the sorted sequence.
        let len = sorted.len();
        let lo = if filter.offset > len {
            len
        } else {
            filter.offset
        };
        let room = len - lo;
        let take_n = if filter.limit > room {
            room
        } else {
            filter.limit
        };
        let mut page: Vec<Video> = Vec::new();
        let mut k: usize = 0;
        proof {
            assert(video_views(page@) =~= Seq::<VideoView>::empty());
            assert(video_views(sorted@).subrange(lo as int, lo as int) =~= Seq::<
                VideoView,
            >::empty());
        }
        while k < take_n
            invariant
                len == sorted@.len(),
                lo + take_n <= len,
                0 <= k <= take_n,
                video_views(page@) == video_views(sorted@).subrange(lo as int, lo + k),
            decreases take_n - k,
        {
            let ghost before_page = page@;
            let c = sorted[lo + k].duplicate();
            proof {
                assert(vview(c) =~= vview(sorted@[lo + k]));
                assert(video_views(sorted@)[lo + k] == vview(sorted@[lo + k]));
            }
            page.push(c);
            proof {
                assert(video_views(page@) =~= video_views(before_page).push(vview(c)));
                assert(video_views(page@) =~= video_views(sorted@).subrange(
                    lo as int,
                    lo + k + 1,
                ));
            }
            k = k + 1;
        }
        proof {
            assert(video_views(sorted@).len() == sorted@.len());
            assert(video_views(page@) =~= page_at(
                self.sorted_views(*filter),
                filter.offset as int,
                filter.limit as int,
            ));
            lemma_query_leq_preorder(*filter);
            lemma_sort_le_sorted(wleq, self.matching_views(*filter));
            crate::ordering::lemma_sorted_subrange(
                self.sorted_views(*filter),
                wleq,
                lo as int,
                lo + take_n,
            );
        }
        page
    }
}

/// The slice of `s` a page at `off` with size `k` holds: clipped to
/// the sequence's bounds.
pub open spec fn page_at(s: Seq<VideoView>, off: int, k: int) -> Seq<VideoView> {
    let lo = if off > s.len() {
        s.len() as int
    } else {
        off
    };
    let hi = if off + k > s.len() {
        s.len() as int
    } else {
        off + k
    };
    if lo <= hi {
        s.subrange(lo, hi)
    } else {
        Seq::empty()
    }
}

/// The pages of `s` taken at offsets `off`, `off + k`, `off + 2k`, …
/// laid end to end — the sequence a caller builds by paging until
/// nothing remains.
pub open spec fn pages_from(s: Seq<VideoView>, k: int, off: int) -> Seq<VideoView>
    decreases (if off <= s.len() { s.len() - off } else { 0 }),
{
    if k < 1 || off < 0 || off >= s.len() {
        Seq::empty()
    } else {
        page_at(s, off, k) + pages_from(s, k, off + k)
    }
}

/// Consecutive pages tile: laid end to end they are exactly the
/// records from `off` on.
pub proof fn lemma_pages_tile(s: Seq<VideoView>, k: int, off: int)
    requires
        k >= 1,
        0 <= off,
    ensures
        pages_from(s, k, off) == s.subrange(
            if off <= s.len() {
                off
            } else {
                s.len() as int
            },
            s.len() as int,
        ),
    decreases (if off <= s.len() { s.len() - off } else { 0 }),
{
    if off >= s.len() {
        assert(pages_from(s, k, off) =~= s.subrange(s.len() as int, s.len() as int));
    } else {
        lemma_pages_tile(s, k, off + k);
        let hi = if off + k > s.len() {
            s.len() as int
        } else {
            off + k
        };
        assert(page_at(s, off, k) == s.subrange(off, hi));
        assert(s.subrange(off, hi) + s.subrange(hi, s.len() as int) =~= s.subrange(
            off,
            s.len() as int,
        ));
    }
}

/// Pagination reproduces the result set: for any query with a positive
/// page size, concatenating the pages at offsets 0, limit, 2·limit, …
/// until none remain yields exactly the full sorted result — and that
/// result holds exactly the matching records, with no duplicate and no
/// omission.
pub proof fn lemma_pagination_reproduces(db: Database, f: FilterOptions)
    requires
        f.limit >= 1,
    ensures
        pages_from(db.sorted_views(f), f.limit as int, 0) == db.sorted_views(f),
        db.sorted_views(f).to_multiset() == db.matching_views(f).to_multiset(),
{
    lemma_pages_tile(db.sorted_views(f), f.limit as int, 0);
    assert(db.sorted_views(f).subrange(0, db.sorted_views(f).len() as int) =~= db.sorted_views(
        f,
    ));
    lemma_sort_le_multiset(query_leq(f), db.matching_views(f));
}

/// Two descriptors that agree on everything but the page bounds cut
/// their pages out of the same sorted sequence.
pub proof fn lemma_page_of_same_query(db: Database, f: FilterOptions, g: FilterOptions)
    requires
        crate::models::opt_str_like(f.folder_path, g.folder_path),
        ids_view(f.tag_ids@) == ids_view(g.tag_ids@),
        ids_view(f.participant_ids@) == ids_view(g.participant_ids@),
        ids_view(f.language_ids@) == ids_view(g.language_ids@),
        crate::models::opt_str_like(f.search_query, g.search_query),
        f.sort_by@ == g.sort_by@,
        f.sort_order@ == g.sort_order@,
    ensures
        db.matching_views(g) == db.matching_views(f),
        db.sorted_views(g) == db.sorted_views(f),
        db.page_views(g) == page_at(db.sorted_views(f), g.offset as int, g.limit as int),
{
    assert forall|v: VideoView| #[trigger] (match_pred(db, f))(v) == (match_pred(db, g))(v) by {
        assert((match_pred(db, f))(v) == spec_matches(v, db.vt(), db.vp(), db.vl(), f));
        assert((match_pred(db, g))(v) == spec_matches(v, db.vt(), db.vp(), db.vl(), g));
    }
    lemma_filter_agree(video_views(db.videos@), match_pred(db, f), match_pred(db, g));
    assert(query_leq(g) =~= query_leq(f));
}

/// OR within one facet: a record associated with any one of the
/// requested identifiers passes the facet.
pub proof fn lemma_facet_or(
    pairs: Seq<(Seq<char>, Seq<char>)>,
    vid: Seq<char>,
    ids: Seq<Seq<char>>,
    i: int,
)
    requires
        0 <= i < ids.len(),
        pairs.contains((vid, ids[i])),
    ensures
        matches_facet(pairs, vid, ids),
{
}

/// AND across facets: a record outside the requested folder prefix is
/// excluded, however well its facets match.
pub proof fn lemma_facets_and(
    v: VideoView,
    vt: Seq<(Seq<char>, Seq<char>)>,
    vp: Seq<(Seq<char>, Seq<char>)>,
    vl: Seq<(Seq<char>, Seq<char>)>,
    f: FilterOptions,
)
    requires
        f.folder_path matches Option::Some(p) && !p@.is_prefix_of(v.folder_path),
    ensures
        !spec_matches(v, vt, vp, vl, f),
{
}

} // verus!
