//! The catalog store: upserts, prefix clearing, roots, taxonomy CRUD
//! and associations.

use media_catalog::catalog::{Database, StoreError};
use media_catalog::models::Video;

fn record(id: &str, path: &str, folder: &str, name: &str, size: u64) -> Video {
    Video {
        id: id.to_string(),
        path: path.to_string(),
        filename: name.to_string(),
        folder_path: folder.to_string(),
        size,
        duration: None,
        thumbnail_path: None,
        created_at: "2024-01-01T00:00:00+00:00".to_string(),
        updated_at: "2024-01-01T00:00:00+00:00".to_string(),
    }
}

#[test]
fn upsert_never_duplicates_a_path() {
    let mut db = Database::new();
    db.upsert_video(record("a", "/r/x.mp4", "/r", "x.mp4", 10)).unwrap();
    db.upsert_video(record("b", "/r/x.mp4", "/r", "x.mp4", 20)).unwrap();
    let filter = media_catalog::models::FilterOptions::default();
    assert_eq!(db.get_video_count(&filter), 1);
    let stored = db.get_video_by_path("/r/x.mp4").unwrap();
    // The update kept the first identifier and took the new size.
    assert_eq!(stored.id, "a");
    assert_eq!(stored.size, 20);
}

#[test]
fn upsert_refuses_a_colliding_identifier() {
    let mut db = Database::new();
    db.upsert_video(record("a", "/r/x.mp4", "/r", "x.mp4", 10)).unwrap();
    let err = db.upsert_video(record("a", "/r/y.mp4", "/r", "y.mp4", 10)).unwrap_err();
    assert_eq!(err, StoreError::DuplicateId);
    assert!(db.get_video_by_path("/r/y.mp4").is_none());
}

#[test]
fn clear_prefix_matches_textually() {
    // The documented quirk: clearing "/a/foo" also clears "/a/foobar".
    let mut db = Database::new();
    db.upsert_video(record("1", "/a/foo/x.mp4", "/a/foo", "x.mp4", 1)).unwrap();
    db.upsert_video(record("2", "/a/foobar/y.mp4", "/a/foobar", "y.mp4", 2)).unwrap();
    db.upsert_video(record("3", "/b/z.mp4", "/b", "z.mp4", 3)).unwrap();
    db.clear_folder_videos("/a/foo");
    assert!(db.get_video_by_path("/a/foo/x.mp4").is_none());
    assert!(db.get_video_by_path("/a/foobar/y.mp4").is_none());
    assert!(db.get_video_by_path("/b/z.mp4").is_some());
}

#[test]
fn delete_video_removes_by_identifier() {
    let mut db = Database::new();
    db.upsert_video(record("a", "/r/x.mp4", "/r", "x.mp4", 10)).unwrap();
    db.upsert_video(record("b", "/r/y.mp4", "/r", "y.mp4", 11)).unwrap();
    db.delete_video("a");
    assert!(db.get_video_by_path("/r/x.mp4").is_none());
    assert!(db.get_video_by_path("/r/y.mp4").is_some());
}

#[test]
fn update_video_path_rewrites_and_guards_uniqueness() {
    let mut db = Database::new();
    db.upsert_video(record("a", "/r/x.mp4", "/r", "x.mp4", 10)).unwrap();
    db.upsert_video(record("b", "/r/y.mp4", "/r", "y.mp4", 11)).unwrap();
    let err = db
        .update_video_path("/r/x.mp4", "/r/y.mp4", "/r", "y.mp4", "t1".to_string())
        .unwrap_err();
    assert_eq!(err, StoreError::DuplicatePath);
    db.update_video_path("/r/x.mp4", "/s/x.mp4", "/s", "x.mp4", "t2".to_string()).unwrap();
    let moved = db.get_video_by_path("/s/x.mp4").unwrap();
    assert_eq!(moved.folder_path, "/s");
    assert_eq!(moved.updated_at, "t2");
    assert_eq!(moved.id, "a");
    // A missing source is a silent no-op.
    db.update_video_path("/r/none.mp4", "/s/none.mp4", "/s", "none.mp4", "t3".to_string())
        .unwrap();
}

#[test]
fn mounted_folder_registration_replaces_by_path() {
    let mut db = Database::new();
    let first = db.add_mounted_folder("/media/films", "films", 2);
    assert_eq!(first.path, "/media/films");
    assert_eq!(first.scan_depth, 2);
    let second = db.add_mounted_folder("/media/films", "films again", 4);
    let roots = db.get_mounted_folders();
    assert_eq!(roots.len(), 1);
    assert_eq!(roots[0].name, "films again");
    assert_eq!(roots[0].scan_depth, 4);
    assert_eq!(roots[0].id, second.id);
    let found = db.get_mounted_folder("/media/films").unwrap();
    assert_eq!(found.scan_depth, 4);
    assert!(db.get_mounted_folder("/elsewhere").is_none());
}

#[test]
fn register_derives_display_name_and_default_depth() {
    let mut db = Database::new();
    let root = db.register_mounted_folder(&"/media/films".to_string(), None);
    assert_eq!(root.name, "films");
    assert_eq!(root.scan_depth, 2);
}

#[test]
fn removing_a_root_cascades_to_its_records() {
    let mut db = Database::new();
    db.add_mounted_folder("/media", "media", 2);
    db.upsert_video(record("a", "/media/x.mp4", "/media", "x.mp4", 1)).unwrap();
    db.upsert_video(record("b", "/other/y.mp4", "/other", "y.mp4", 2)).unwrap();
    db.remove_mounted_folder("/media");
    assert!(db.get_mounted_folder("/media").is_none());
    assert!(db.get_video_by_path("/media/x.mp4").is_none());
    assert!(db.get_video_by_path("/other/y.mp4").is_some());
}

#[test]
fn tags_keep_names_unique_and_list_sorted() {
    let mut db = Database::new();
    db.create_tag("drama", "#111111").unwrap();
    db.create_tag("action", "#222222").unwrap();
    let err = db.create_tag("drama", "#333333").unwrap_err();
    assert_eq!(err, StoreError::DuplicateName);
    assert_eq!(err.describe(), "name already in use");
    let names: Vec<String> = db.get_tags().into_iter().map(|t| t.name).collect();
    assert_eq!(names, vec!["action".to_string(), "drama".to_string()]);
}

#[test]
fn tag_update_and_delete() {
    let mut db = Database::new();
    let a = db.create_tag("one", "#1").unwrap();
    let b = db.create_tag("two", "#2").unwrap();
    let err = db.update_tag(&a.id, "two", "#9").unwrap_err();
    assert_eq!(err, StoreError::DuplicateName);
    db.update_tag(&a.id, "uno", "#9").unwrap();
    let names: Vec<String> = db.get_tags().into_iter().map(|t| t.name).collect();
    assert_eq!(names, vec!["two".to_string(), "uno".to_string()]);
    db.delete_tag(&b.id);
    let names: Vec<String> = db.get_tags().into_iter().map(|t| t.name).collect();
    assert_eq!(names, vec!["uno".to_string()]);
}

#[test]
fn participants_and_languages_mirror_the_tag_rules() {
    let mut db = Database::new();
    db.create_participant("ann").unwrap();
    assert_eq!(
        db.create_participant("ann").unwrap_err(),
        StoreError::DuplicateName
    );
    db.create_language("en", "English").unwrap();
    assert_eq!(
        db.create_language("en", "English again").unwrap_err(),
        StoreError::DuplicateCode
    );
    let langs = db.get_languages();
    assert_eq!(langs.len(), 1);
    assert_eq!(langs[0].code, "en");
}

#[test]
fn associations_replace_wholesale_and_join_back() {
    let mut db = Database::new();
    db.upsert_video(record("v1", "/r/x.mp4", "/r", "x.mp4", 1)).unwrap();
    let t1 = db.create_tag("one", "#1").unwrap();
    let t2 = db.create_tag("two", "#2").unwrap();
    db.set_video_tags("v1", &vec![t1.id.clone(), t2.id.clone()]).unwrap();
    let attached: Vec<String> = db.get_video_tags("v1").into_iter().map(|t| t.name).collect();
    assert_eq!(attached, vec!["one".to_string(), "two".to_string()]);
    db.set_video_tags("v1", &vec![t2.id.clone()]).unwrap();
    let attached: Vec<String> = db.get_video_tags("v1").into_iter().map(|t| t.name).collect();
    assert_eq!(attached, vec!["two".to_string()]);
}

#[test]
fn association_setter_refuses_a_repeated_identifier() {
    let mut db = Database::new();
    let t1 = db.create_tag("one", "#1").unwrap();
    let err = db
        .set_video_tags("v1", &vec![t1.id.clone(), t1.id.clone()])
        .unwrap_err();
    assert_eq!(err, StoreError::DuplicatePair);
    // The pair inserted before the refusal stays, as a keyed store
    // failing mid-batch would leave it.
    assert_eq!(db.get_video_tags("v1").len(), 1);
}

#[test]
fn metadata_lookup_reports_not_found_distinctly() {
    let mut db = Database::new();
    db.upsert_video(record("v1", "/r/x.mp4", "/r", "x.mp4", 1)).unwrap();
    let t = db.create_tag("one", "#1").unwrap();
    let p = db.create_participant("ann").unwrap();
    db.set_video_tags("v1", &vec![t.id.clone()]).unwrap();
    db.set_video_participants("v1", &vec![p.id.clone()]).unwrap();
    let m = media_catalog::commands::get_video_with_metadata(&db, "v1").unwrap();
    assert_eq!(m.video.path, "/r/x.mp4");
    assert_eq!(m.tags.len(), 1);
    assert_eq!(m.participants.len(), 1);
    assert_eq!(m.languages.len(), 0);
    let err = media_catalog::commands::get_video_with_metadata(&db, "nope").unwrap_err();
    assert_eq!(err, StoreError::NotFound);
}

#[test]
fn upsert_refreshes_mutable_fields_in_place() {
    let mut db = Database::new();
    let mut with_duration = record("a", "/r/x.mp4", "/r", "x.mp4", 10);
    with_duration.duration = Some(90_000);
    with_duration.thumbnail_path = Some("/r/x.jpg".to_string());
    db.upsert_video(with_duration).unwrap();
    // A re-discovered record carries no duration; the update takes it
    // over, as the full-replace policy prescribes.
    db.upsert_video(record("fresh", "/r/x.mp4", "/r", "x.mp4", 12)).unwrap();
    let stored = db.get_video_by_path("/r/x.mp4").unwrap();
    assert_eq!(stored.duration, None);
    assert_eq!(stored.thumbnail_path, None);
    assert_eq!(stored.size, 12);
    assert_eq!(stored.id, "a");
}

#[test]
fn language_and_participant_updates_guard_uniqueness() {
    let mut db = Database::new();
    let en = db.create_language("en", "English").unwrap();
    let _de = db.create_language("de", "German").unwrap();
    assert_eq!(db.update_language(&en.id, "de", "whatever").unwrap_err(), StoreError::DuplicateCode);
    db.update_language(&en.id, "en-US", "American English").unwrap();
    let codes: Vec<String> = db.get_languages().into_iter().map(|l| l.code).collect();
    assert!(codes.contains(&"en-US".to_string()));
    db.delete_language(&en.id);
    assert_eq!(db.get_languages().len(), 1);

    let ann = db.create_participant("ann").unwrap();
    let _bob = db.create_participant("bob").unwrap();
    assert_eq!(db.update_participant(&ann.id, "bob").unwrap_err(), StoreError::DuplicateName);
    db.update_participant(&ann.id, "anna").unwrap();
    db.delete_participant(&ann.id);
    let names: Vec<String> = db.get_participants().into_iter().map(|p| p.name).collect();
    assert_eq!(names, vec!["bob".to_string()]);
}

#[test]
fn language_setter_refuses_a_repeated_identifier() {
    let mut db = Database::new();
    let l = db.create_language("en", "English").unwrap();
    let err = db
        .set_video_languages("v1", &vec![l.id.clone(), l.id.clone()])
        .unwrap_err();
    assert_eq!(err, StoreError::DuplicatePair);
}

#[test]
fn plan_move_builds_target_path() {
    let ok = media_catalog::commands::plan_move("/a/b/clip.mp4", "/c").unwrap();
    assert_eq!(ok.0, "/c/clip.mp4");
    assert_eq!(ok.1, "clip.mp4");
    let err = media_catalog::commands::plan_move("///", "/c").unwrap_err();
    assert_eq!(err, StoreError::InvalidPath);
}
