//! Scanning, tree building and full-replace behavior over snapshot data.

use media_catalog::catalog::Database;
use media_catalog::commands;
use media_catalog::fs::FsEntry;
use media_catalog::scanner;
use media_catalog::tree::{build_folder_tree, count_videos_in_path, FolderCounts};

fn file(name: &str, size: u64) -> FsEntry {
    FsEntry::File { name: name.to_string(), size, readable: true }
}

fn dir(name: &str, entries: Vec<FsEntry>) -> FsEntry {
    FsEntry::Dir { name: name.to_string(), symlink: false, readable: true, entries }
}

#[test]
fn scan_depth_one_finds_both_levels() {
    // A root with one direct file and one file a level below: depth 1
    // finds both, and the tree shows the root at 2 with one child at 1.
    let root = String::from("/lib");
    let entries = vec![
        file("movie.mp4", 500),
        dir("sub", vec![file("clip.mkv", 100)]),
    ];
    let result = scanner::scan_folder(&root, &entries, 1);
    assert_eq!(result.total_videos, 2);
    assert_eq!(result.new_videos, 2);
    let mut paths: Vec<String> = result.videos.iter().map(|v| v.path.clone()).collect();
    paths.sort();
    assert_eq!(paths, vec!["/lib/movie.mp4".to_string(), "/lib/sub/clip.mkv".to_string()]);
    assert_eq!(result.folders.len(), 1);
    let tree = &result.folders[0];
    assert_eq!(tree.path, "/lib");
    assert_eq!(tree.name, "lib");
    assert_eq!(tree.video_count, 2);
    assert_eq!(tree.children.len(), 1);
    assert_eq!(tree.children[0].name, "sub");
    assert_eq!(tree.children[0].path, "/lib/sub");
    assert_eq!(tree.children[0].video_count, 1);
}

#[test]
fn scan_depth_zero_stays_at_root() {
    let root = String::from("/lib");
    let entries = vec![
        file("movie.mp4", 500),
        dir("sub", vec![file("clip.mkv", 100)]),
    ];
    let result = scanner::scan_folder(&root, &entries, 0);
    assert_eq!(result.total_videos, 1);
    assert_eq!(result.videos[0].path, "/lib/movie.mp4");
    assert_eq!(result.videos[0].folder_path, "/lib");
}

#[test]
fn scan_depth_bound_is_exact() {
    // A file two levels down appears at depth 2 and not at depth 1.
    let root = String::from("/r");
    let entries = vec![dir("a", vec![dir("b", vec![file("deep.mp4", 7)])])];
    let shallow = scanner::scan_folder(&root, &entries, 1);
    assert_eq!(shallow.total_videos, 0);
    let deep = scanner::scan_folder(&root, &entries, 2);
    assert_eq!(deep.total_videos, 1);
    assert_eq!(deep.videos[0].path, "/r/a/b/deep.mp4");
}

#[test]
fn scan_skips_hidden_system_symlinks_and_unreadable() {
    let root = String::from("/r");
    let entries = vec![
        file(".hidden.mp4", 1),
        file("seen.mp4", 2),
        FsEntry::File { name: "broken.mp4".to_string(), size: 3, readable: false },
        file("notes.txt", 4),
        dir("node_modules", vec![file("noise.mp4", 5)]),
        dir(".git", vec![file("also.mp4", 6)]),
        FsEntry::Dir {
            name: "linked".to_string(),
            symlink: true,
            readable: true,
            entries: vec![file("looped.mp4", 7)],
        },
        FsEntry::Dir {
            name: "locked".to_string(),
            symlink: false,
            readable: false,
            entries: vec![file("secret.mp4", 8)],
        },
    ];
    let result = scanner::scan_folder(&root, &entries, 3);
    assert_eq!(result.total_videos, 1);
    assert_eq!(result.videos[0].path, "/r/seen.mp4");
    assert_eq!(result.videos[0].size, 2);
    assert!(result.videos[0].duration.is_none());
    assert_eq!(result.videos[0].created_at, result.videos[0].updated_at);
}

#[test]
fn thumbnail_prefers_fixed_extension_order() {
    let entries = vec![
        file("clip.mp4", 1),
        file("clip.png", 2),
        file("clip.jpeg", 3),
    ];
    let thumb = scanner::find_thumbnail_for_video("/r", &entries, "clip.mp4");
    assert_eq!(thumb, Some("/r/clip.jpeg".to_string()));
    let none = scanner::find_thumbnail_for_video("/r", &entries, "other.mp4");
    assert_eq!(none, None);
}

#[test]
fn subtitle_lookup_prefers_fixed_order() {
    let entries = vec![
        file("clip.mp4", 1),
        file("clip.vtt", 2),
        file("clip.ass", 3),
    ];
    let sub = media_catalog::scanner::find_subtitle_file("/r", &entries, "clip.mp4");
    assert_eq!(sub, Some("/r/clip.ass".to_string()));
}

#[test]
fn videos_in_folder_lists_only_direct_media() {
    let root = String::from("/r");
    let entries = vec![
        file("a.mp4", 1),
        file("b.txt", 2),
        dir("sub", vec![file("c.mkv", 3)]),
        file("d.webm", 4),
    ];
    let listed = scanner::get_videos_in_folder(&root, &entries);
    assert_eq!(listed, vec!["/r/a.mp4".to_string(), "/r/d.webm".to_string()]);
}

#[test]
fn counts_aggregate_by_textual_prefix() {
    // The documented quirk: "/a/foo" also aggregates "/a/foobar".
    let mut counts = FolderCounts::new();
    counts.increment(&"/a/foo".to_string());
    counts.increment(&"/a/foobar".to_string());
    counts.increment(&"/a/foobar".to_string());
    assert_eq!(counts.get("/a/foo"), 1);
    assert_eq!(counts.get("/a/foobar"), 2);
    assert_eq!(counts.get("/a/none"), 0);
    assert_eq!(count_videos_in_path(&"/a/foo".to_string(), &counts), 3);
    assert_eq!(count_videos_in_path(&"/a/foobar".to_string(), &counts), 2);
    assert_eq!(count_videos_in_path(&"/a".to_string(), &counts), 3);
}

#[test]
fn tree_prunes_empty_children_and_sorts_case_insensitively() {
    let root = String::from("/r");
    let entries = vec![
        dir("beta", vec![]),
        dir("Alpha", vec![]),
        dir("empty", vec![]),
        dir(".hide", vec![]),
    ];
    let mut counts = FolderCounts::new();
    counts.increment(&"/r".to_string());
    counts.increment(&"/r/beta".to_string());
    counts.increment(&"/r/Alpha".to_string());
    counts.increment(&"/r/.hide".to_string());
    let tree = build_folder_tree(&root, &entries, &counts);
    assert_eq!(tree.path, "/r");
    assert_eq!(tree.name, "r");
    let names: Vec<String> = tree.children.iter().map(|c| c.name.clone()).collect();
    assert_eq!(names, vec!["Alpha".to_string(), "beta".to_string()]);
    // Root: its direct count plus the included children's counts; the
    // hidden child's file is not presented.
    assert_eq!(tree.video_count, 1 + 1 + 1);
    assert!(tree.children.iter().all(|c| c.children.is_empty()));
}

#[test]
fn rescan_removes_deleted_records() {
    // Full replace: a file gone from disk loses its record on re-scan.
    let mut db = Database::new();
    let root = String::from("/lib");
    let before = vec![file("movie.mp4", 500), file("gone.mp4", 100)];
    commands::scan_folder(&mut db, &root, Some(&before)).unwrap();
    assert!(db.get_video_by_path("/lib/gone.mp4").is_some());
    let after = vec![file("movie.mp4", 500)];
    commands::scan_folder(&mut db, &root, Some(&after)).unwrap();
    assert!(db.get_video_by_path("/lib/gone.mp4").is_none());
    assert!(db.get_video_by_path("/lib/movie.mp4").is_some());
}

#[test]
fn rescan_is_idempotent_on_stable_fields() {
    let mut db = Database::new();
    let root = String::from("/lib");
    let entries = vec![file("movie.mp4", 500), dir("sub", vec![file("clip.mkv", 9)])];
    commands::scan_folder(&mut db, &root, Some(&entries)).unwrap();
    let first: Vec<(String, String, String, u64)> = {
        let filter = media_catalog::models::FilterOptions::default();
        db.get_videos(&filter)
            .into_iter()
            .map(|v| (v.path, v.filename, v.folder_path, v.size))
            .collect()
    };
    commands::scan_folder(&mut db, &root, Some(&entries)).unwrap();
    let second: Vec<(String, String, String, u64)> = {
        let filter = media_catalog::models::FilterOptions::default();
        db.get_videos(&filter)
            .into_iter()
            .map(|v| (v.path, v.filename, v.folder_path, v.size))
            .collect()
    };
    assert_eq!(first, second);
}

#[test]
fn scan_respects_registered_depth() {
    let mut db = Database::new();
    let root = String::from("/r");
    db.register_mounted_folder(&root, Some(0));
    let entries = vec![file("a.mp4", 1), dir("sub", vec![file("b.mp4", 2)])];
    let result = commands::scan_folder(&mut db, &root, Some(&entries)).unwrap();
    assert_eq!(result.total_videos, 1);
    db.update_folder_scan_depth("/r", 1);
    let result = commands::scan_folder(&mut db, &root, Some(&entries)).unwrap();
    assert_eq!(result.total_videos, 2);
}

#[test]
fn unregistered_roots_scan_at_depth_two() {
    let mut db = Database::new();
    let root = String::from("/r");
    let entries = vec![dir(
        "a",
        vec![dir("b", vec![file("two.mp4", 1), dir("c", vec![file("three.mp4", 2)])])],
    )];
    let result = commands::scan_folder(&mut db, &root, Some(&entries)).unwrap();
    assert_eq!(result.total_videos, 1);
    assert_eq!(result.videos[0].path, "/r/a/b/two.mp4");
}

#[test]
fn unreadable_root_is_fatal_and_mutates_nothing() {
    // An unlistable root — nonexistent or permission-denied — arrives
    // as no snapshot at all: the scan surfaces the error and the prior
    // records under the prefix survive untouched.
    let mut db = Database::new();
    let root = String::from("/lib");
    let before = vec![file("movie.mp4", 500)];
    commands::scan_folder(&mut db, &root, Some(&before)).unwrap();
    let err = commands::scan_folder(&mut db, &root, None).unwrap_err();
    assert_eq!(err, media_catalog::catalog::StoreError::Unreadable);
    assert!(db.get_video_by_path("/lib/movie.mp4").is_some());
    let tree_err = commands::get_folder_tree(&db, &root, None).unwrap_err();
    assert_eq!(tree_err, media_catalog::catalog::StoreError::Unreadable);
}

#[test]
fn folder_tree_preview_commits_nothing() {
    let db = Database::new();
    let root = String::from("/r");
    let entries = vec![file("a.mp4", 1)];
    let tree = commands::get_folder_tree(&db, &root, Some(&entries)).unwrap();
    assert_eq!(tree.video_count, 1);
    let filter = media_catalog::models::FilterOptions::default();
    assert_eq!(db.get_video_count(&filter), 0);
}
