//! Path and name handling, classification, and the player helpers.

use media_catalog::classify::{classify_name, EntryClass, has_media_extension, name_is_skipped};
use media_catalog::player;
use media_catalog::text::{dot_join, file_name_of, join_path, split_name, str_contains_ci, str_eq, str_le, str_le_ci, str_starts_with};

#[test]
fn extensions_are_matched_case_insensitively() {
    assert!(has_media_extension("mp4"));
    assert!(has_media_extension("MKV"));
    assert!(has_media_extension("WebM"));
    assert!(!has_media_extension("txt"));
    assert!(!has_media_extension(""));
}

#[test]
fn classification_covers_all_cases() {
    assert_eq!(classify_name(".DS_Store", false), EntryClass::Skip);
    assert_eq!(classify_name("node_modules", true), EntryClass::Skip);
    assert_eq!(classify_name("Library", true), EntryClass::Skip);
    assert_eq!(classify_name(".Trash", true), EntryClass::Skip);
    assert_eq!(classify_name("films", true), EntryClass::Directory);
    assert_eq!(classify_name("clip.MOV", false), EntryClass::MediaFile);
    assert_eq!(classify_name("cover.jpeg", false), EntryClass::ImageFile);
    assert_eq!(classify_name("notes.txt", false), EntryClass::Other);
    assert_eq!(classify_name("README", false), EntryClass::Other);
}

#[test]
fn skip_rule_is_hidden_or_denylisted() {
    assert!(name_is_skipped(".anything"));
    assert!(name_is_skipped("node_modules"));
    assert!(name_is_skipped("Library"));
    assert!(!name_is_skipped("library"));
    assert!(!name_is_skipped("films"));
}

#[test]
fn path_pieces_split_and_join() {
    assert_eq!(join_path("/a/b", "c.mp4"), "/a/b/c.mp4");
    assert_eq!(dot_join("clip", "jpg"), "clip.jpg");
    assert_eq!(file_name_of("/a/b/c.mp4"), Some("c.mp4".to_string()));
    assert_eq!(file_name_of("/a/b/"), Some("b".to_string()));
    assert_eq!(file_name_of("plain"), Some("plain".to_string()));
    assert_eq!(file_name_of("/"), None);
    assert_eq!(file_name_of(""), None);
    let (stem, ext) = split_name("archive.tar.gz");
    assert_eq!(stem, "archive.tar");
    assert_eq!(ext, Some("gz".to_string()));
    let (stem, ext) = split_name("noext");
    assert_eq!(stem, "noext");
    assert_eq!(ext, None);
    let (stem, ext) = split_name(".hidden");
    assert_eq!(stem, ".hidden");
    assert_eq!(ext, None);
}

#[test]
fn string_predicates_behave() {
    assert!(str_eq("abc", "abc"));
    assert!(!str_eq("abc", "abd"));
    assert!(str_starts_with("/a/foobar", "/a/foo"));
    assert!(!str_starts_with("/a/fo", "/a/foo"));
    assert!(str_contains_ci("Holiday Special", "day spe"));
    assert!(!str_contains_ci("Holiday", "work"));
    assert!(str_contains_ci("anything", ""));
    assert!(str_le("abc", "abd"));
    assert!(str_le("ab", "abc"));
    assert!(!str_le("b", "az"));
    // Case-insensitive order: "Beta" sorts after "alpha".
    assert!(str_le_ci("alpha", "Beta"));
    assert!(!str_le_ci("Beta", "alpha"));
}

#[test]
fn player_arguments_are_assembled_in_order() {
    let args = player::mpv_args("/r/x.mp4", None, None);
    assert_eq!(
        args,
        vec![
            "/r/x.mp4".to_string(),
            "--force-window=yes".to_string(),
            "--keep-open=yes".to_string(),
            "--osd-level=1".to_string(),
            "--input-default-bindings=yes".to_string(),
            "--input-vo-keyboard=yes".to_string(),
        ]
    );
    let sub = "/r/x.srt".to_string();
    let start = "12.5".to_string();
    let args = player::mpv_args("/r/x.mp4", Some(&sub), Some(&start));
    assert_eq!(args[6], "--sub-file=/r/x.srt");
    assert_eq!(args[7], "--start=12.5");
}

#[test]
fn player_candidates_cover_the_probe_spots() {
    let manifest = "/proj".to_string();
    let exe = "/bin/app".to_string();
    let dev = player::dev_mpv_candidates(Some(&manifest), Some(&exe), "x86_64-unknown-linux-gnu");
    assert_eq!(dev.len(), 4);
    assert_eq!(dev[0], "/proj/binaries/mpv-x86_64-unknown-linux-gnu");
    assert_eq!(dev[3], "/bin/app/binaries/mpv-x86_64-unknown-linux-gnu");
    let libs = player::bundled_libs_candidates(Some(&manifest), None);
    assert_eq!(libs, vec!["/proj/binaries/libs".to_string()]);
    let sys = player::system_mpv_candidates("linux");
    assert_eq!(sys, vec!["/usr/bin/mpv".to_string(), "/usr/local/bin/mpv".to_string()]);
    let mac = player::system_mpv_candidates("macos");
    assert_eq!(mac.len(), 3);
}

#[test]
fn identifiers_and_timestamps_are_generated() {
    let id = media_catalog::clock::new_id();
    assert_eq!(id.len(), 36);
    let other = media_catalog::clock::new_id();
    assert_ne!(id, other);
    let now = media_catalog::clock::now_rfc3339();
    assert!(now.len() >= 20);
    assert!(now.contains('T'));
}
