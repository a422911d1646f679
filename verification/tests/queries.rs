//! The query engine: facet composition, search, sorting, pagination.

use media_catalog::catalog::Database;
use media_catalog::commands;
use media_catalog::models::{FilterOptions, Video};

fn record(id: &str, path: &str, folder: &str, name: &str, size: u64) -> Video {
    Video {
        id: id.to_string(),
        path: path.to_string(),
        filename: name.to_string(),
        folder_path: folder.to_string(),
        size,
        duration: None,
        thumbnail_path: None,
        created_at: format!("2024-01-0{}T00:00:00+00:00", (size % 9) + 1),
        updated_at: format!("2024-01-0{}T00:00:00+00:00", (size % 9) + 1),
    }
}

fn filter() -> FilterOptions {
    FilterOptions::default()
}

#[test]
fn default_filter_matches_everything() {
    let f = filter();
    assert!(f.folder_path.is_none());
    assert!(f.search_query.is_none());
    assert_eq!(f.sort_by, "filename");
    assert_eq!(f.sort_order, "asc");
    assert_eq!(f.limit, 100);
    assert_eq!(f.offset, 0);
    let mut db = Database::new();
    db.upsert_video(record("a", "/r/x.mp4", "/r", "x.mp4", 1)).unwrap();
    assert_eq!(db.get_video_count(&f), 1);
}

#[test]
fn size_descending_first_page() {
    // Two records of size 100 and 200: size descending, page size one,
    // returns the larger first and reports more to come.
    let mut db = Database::new();
    db.upsert_video(record("a", "/r/small.mp4", "/r", "small.mp4", 100)).unwrap();
    db.upsert_video(record("b", "/r/big.mp4", "/r", "big.mp4", 200)).unwrap();
    let mut f = filter();
    f.sort_by = "size".to_string();
    f.sort_order = "desc".to_string();
    f.limit = 1;
    f.offset = 0;
    let page = commands::get_videos(&db, &f);
    assert_eq!(page.videos.len(), 1);
    assert_eq!(page.videos[0].size, 200);
    assert_eq!(page.total, 2);
    assert!(page.has_more);
    f.offset = 1;
    let page = commands::get_videos(&db, &f);
    assert_eq!(page.videos.len(), 1);
    assert_eq!(page.videos[0].size, 100);
    assert!(!page.has_more);
}

#[test]
fn filename_is_the_default_and_fallback_sort() {
    let mut db = Database::new();
    db.upsert_video(record("a", "/r/bb.mp4", "/r", "bb.mp4", 1)).unwrap();
    db.upsert_video(record("b", "/r/aa.mp4", "/r", "aa.mp4", 2)).unwrap();
    let mut f = filter();
    f.sort_by = "unheard-of".to_string();
    let names: Vec<String> = db.get_videos(&f).into_iter().map(|v| v.filename).collect();
    assert_eq!(names, vec!["aa.mp4".to_string(), "bb.mp4".to_string()]);
}

#[test]
fn facets_or_within_and_across() {
    // OR within a facet: filtering by {T1, T2} includes a record tagged
    // only T1.  AND across facets: folder "/a" with tag T1 excludes a
    // T1-tagged record under "/b".
    let mut db = Database::new();
    db.upsert_video(record("va", "/a/x.mp4", "/a", "x.mp4", 1)).unwrap();
    db.upsert_video(record("vb", "/b/y.mp4", "/b", "y.mp4", 2)).unwrap();
    let t1 = db.create_tag("t1", "#1").unwrap();
    let t2 = db.create_tag("t2", "#2").unwrap();
    db.set_video_tags("va", &vec![t1.id.clone()]).unwrap();
    db.set_video_tags("vb", &vec![t1.id.clone()]).unwrap();

    let mut f = filter();
    f.tag_ids = vec![t1.id.clone(), t2.id.clone()];
    let hits: Vec<String> = db.get_videos(&f).into_iter().map(|v| v.id).collect();
    assert_eq!(hits, vec!["va".to_string(), "vb".to_string()]);

    f.folder_path = Some("/a".to_string());
    let hits: Vec<String> = db.get_videos(&f).into_iter().map(|v| v.id).collect();
    assert_eq!(hits, vec!["va".to_string()]);

    // An empty facet set does not constrain.
    let mut f = filter();
    f.tag_ids = vec![];
    assert_eq!(db.get_video_count(&f), 2);
}

#[test]
fn facets_combine_three_ways() {
    let mut db = Database::new();
    db.upsert_video(record("v1", "/r/x.mp4", "/r", "x.mp4", 1)).unwrap();
    db.upsert_video(record("v2", "/r/y.mp4", "/r", "y.mp4", 2)).unwrap();
    let t = db.create_tag("t", "#1").unwrap();
    let p = db.create_participant("ann").unwrap();
    let l = db.create_language("en", "English").unwrap();
    db.set_video_tags("v1", &vec![t.id.clone()]).unwrap();
    db.set_video_participants("v1", &vec![p.id.clone()]).unwrap();
    db.set_video_languages("v1", &vec![l.id.clone()]).unwrap();
    db.set_video_tags("v2", &vec![t.id.clone()]).unwrap();

    let mut f = filter();
    f.tag_ids = vec![t.id.clone()];
    f.participant_ids = vec![p.id.clone()];
    f.language_ids = vec![l.id.clone()];
    let hits: Vec<String> = db.get_videos(&f).into_iter().map(|v| v.id).collect();
    assert_eq!(hits, vec!["v1".to_string()]);
}

#[test]
fn search_is_a_case_insensitive_substring() {
    let mut db = Database::new();
    db.upsert_video(record("a", "/r/Holiday.mp4", "/r", "Holiday.mp4", 1)).unwrap();
    db.upsert_video(record("b", "/r/work.mp4", "/r", "work.mp4", 2)).unwrap();
    let mut f = filter();
    f.search_query = Some("LIDA".to_string());
    let hits: Vec<String> = db.get_videos(&f).into_iter().map(|v| v.filename).collect();
    assert_eq!(hits, vec!["Holiday.mp4".to_string()]);
    // An empty search does not constrain.
    f.search_query = Some(String::new());
    assert_eq!(db.get_video_count(&f), 2);
}

#[test]
fn folder_filter_is_a_textual_prefix() {
    let mut db = Database::new();
    db.upsert_video(record("1", "/a/foo/x.mp4", "/a/foo", "x.mp4", 1)).unwrap();
    db.upsert_video(record("2", "/a/foobar/y.mp4", "/a/foobar", "y.mp4", 2)).unwrap();
    db.upsert_video(record("3", "/b/z.mp4", "/b", "z.mp4", 3)).unwrap();
    let mut f = filter();
    f.folder_path = Some("/a/foo".to_string());
    // The documented quirk again: the sibling with the extending name
    // is included by the textual prefix match.
    assert_eq!(db.get_video_count(&f), 2);
}

#[test]
fn pages_tile_the_full_result() {
    // Concatenating pages at offsets 0, k, 2k … until has_more is
    // false reproduces the whole result, without duplicates.
    let mut db = Database::new();
    for i in 0..7u64 {
        let name = format!("clip{}.mp4", i);
        let path = format!("/r/clip{}.mp4", i);
        db.upsert_video(record(&format!("id{}", i), &path, "/r", &name, i + 1)).unwrap();
    }
    let mut gathered: Vec<String> = Vec::new();
    let mut offset = 0usize;
    loop {
        let mut f = filter();
        f.limit = 3;
        f.offset = offset;
        let page = commands::get_videos(&db, &f);
        let got = page.videos.len();
        gathered.extend(page.videos.into_iter().map(|v| v.filename));
        if !page.has_more {
            break;
        }
        offset += got;
    }
    let full: Vec<String> = db.get_videos(&filter()).into_iter().map(|v| v.filename).collect();
    assert_eq!(gathered, full);
    assert_eq!(gathered.len(), 7);
}

#[test]
fn offset_beyond_the_result_is_empty() {
    let mut db = Database::new();
    db.upsert_video(record("a", "/r/x.mp4", "/r", "x.mp4", 1)).unwrap();
    let mut f = filter();
    f.offset = 5;
    let page = commands::get_videos(&db, &f);
    assert_eq!(page.videos.len(), 0);
    assert_eq!(page.total, 1);
    assert!(!page.has_more);
}

#[test]
fn created_and_updated_sorts_use_timestamp_order() {
    let mut db = Database::new();
    let mut early = record("a", "/r/x.mp4", "/r", "x.mp4", 1);
    early.created_at = "2023-01-01T00:00:00+00:00".to_string();
    let mut late = record("b", "/r/y.mp4", "/r", "y.mp4", 2);
    late.created_at = "2024-06-01T00:00:00+00:00".to_string();
    db.upsert_video(late).unwrap();
    db.upsert_video(early).unwrap();
    let mut f = filter();
    f.sort_by = "created_at".to_string();
    let ids: Vec<String> = db.get_videos(&f).into_iter().map(|v| v.id).collect();
    assert_eq!(ids, vec!["a".to_string(), "b".to_string()]);
}
