//! The path classifier: decides what a directory entry name stands for.
//!
//! An entry is skipped when its name is hidden (leading `.`) or matches a
//! fixed denylist of system directories.  Files are classified as media or
//! image by the ASCII-lowered extension's membership in two fixed sets.

use vstd::prelude::*;
use crate::text::{lower_seq, lemma_lower_fixed, spec_extension, split_name, str_eq, str_eq_ci};
use vstd::string::StrSliceExecFns;

verus! {

/// What a directory entry is to the scanner.
#[derive(PartialEq, Eq, Structural, Clone, Copy, Debug)]
pub enum EntryClass {
    /// Hidden or denylisted: not looked at further.
    Skip,
    /// A file whose extension is in the media set.
    MediaFile,
    /// A file whose extension is in the image set.
    ImageFile,
    /// A directory that may be descended into.
    Directory,
    /// Anything else: a file of no interest.
    Other,
}

/// A hidden name, or one of the fixed system directory names.
pub open spec fn is_skipped_name(name: Seq<char>) -> bool {
    (name.len() > 0 && name[0] == '.') || name == "node_modules"@ || name == "Library"@
        || name == ".Trash"@
}

/// Membership of an ASCII-lowered extension in the fixed media set.
pub open spec fn is_media_ext(ext: Seq<char>) -> bool {
    let l = lower_seq(ext);
    ||| l == "mp4"@
    ||| l == "mkv"@
    ||| l == "avi"@
    ||| l == "webm"@
    ||| l == "mov"@
    ||| l == "wmv"@
    ||| l == "flv"@
    ||| l == "m4v"@
    ||| l == "mpg"@
    ||| l == "mpeg"@
    ||| l == "3gp"@
    ||| l == "ts"@
}

/// Membership of an ASCII-lowered extension in the fixed image set.
pub open spec fn is_image_ext(ext: Seq<char>) -> bool {
    let l = lower_seq(ext);
    ||| l == "jpg"@
    ||| l == "jpeg"@
    ||| l == "png"@
    ||| l == "webp"@
}

/// Whether a file name carries a media extension.
pub open spec fn name_is_media(name: Seq<char>) -> bool {
    match spec_extension(name) {
        Some(e) => is_media_ext(e),
        None => false,
    }
}

/// Whether a file name carries an image extension.
pub open spec fn name_is_image(name: Seq<char>) -> bool {
    match spec_extension(name) {
        Some(e) => is_image_ext(e),
        None => false,
    }
}

/// The classification of an entry with the given name, file or directory.
pub open spec fn spec_classify(name: Seq<char>, is_dir: bool) -> EntryClass {
    if is_skipped_name(name) {
        EntryClass::Skip
    } else if is_dir {
        EntryClass::Directory
    } else if name_is_media(name) {
        EntryClass::MediaFile
    } else if name_is_image(name) {
        EntryClass::ImageFile
    } else {
        EntryClass::Other
    }
}

/// Decides `is_skipped_name`.
pub fn name_is_skipped(name: &str) -> (r: bool)
    ensures
        r == is_skipped_name(name@),
{
    if name.unicode_len() > 0 && name.get_char(0) == '.' {
        return true;
    }
    proof {
        reveal_strlit(".Trash");
        assert(name@ != ".Trash"@) by {
            if name@ == ".Trash"@ {
                assert(name@[0] == '.');
            }
        }
    }
    str_eq(name, "node_modules") || str_eq(name, "Library")
}

/// Each lowercase extension literal is fixed under ASCII lowering.
proof fn lemma_ext_literals_lower()
    ensures
        lower_seq("mp4"@) == "mp4"@,
        lower_seq("mkv"@) == "mkv"@,
        lower_seq("avi"@) == "avi"@,
        lower_seq("webm"@) == "webm"@,
        lower_seq("mov"@) == "mov"@,
        lower_seq("wmv"@) == "wmv"@,
        lower_seq("flv"@) == "flv"@,
        lower_seq("m4v"@) == "m4v"@,
        lower_seq("mpg"@) == "mpg"@,
        lower_seq("mpeg"@) == "mpeg"@,
        lower_seq("3gp"@) == "3gp"@,
        lower_seq("ts"@) == "ts"@,
        lower_seq("jpg"@) == "jpg"@,
        lower_seq("jpeg"@) == "jpeg"@,
        lower_seq("png"@) == "png"@,
        lower_seq("webp"@) == "webp"@,
{
    reveal_strlit("mp4");
    reveal_strlit("mkv");
    reveal_strlit("avi");
    reveal_strlit("webm");
    reveal_strlit("mov");
    reveal_strlit("wmv");
    reveal_strlit("flv");
    reveal_strlit("m4v");
    reveal_strlit("mpg");
    reveal_strlit("mpeg");
    reveal_strlit("3gp");
    reveal_strlit("ts");
    reveal_strlit("jpg");
    reveal_strlit("jpeg");
    reveal_strlit("png");
    reveal_strlit("webp");
    lemma_lower_fixed("mp4"@);
    lemma_lower_fixed("mkv"@);
    lemma_lower_fixed("avi"@);
    lemma_lower_fixed("webm"@);
    lemma_lower_fixed("mov"@);
    lemma_lower_fixed("wmv"@);
    lemma_lower_fixed("flv"@);
    lemma_lower_fixed("m4v"@);
    lemma_lower_fixed("mpg"@);
    lemma_lower_fixed("mpeg"@);
    lemma_lower_fixed("3gp"@);
    lemma_lower_fixed("ts"@);
    lemma_lower_fixed("jpg"@);
    lemma_lower_fixed("jpeg"@);
    lemma_lower_fixed("png"@);
    lemma_lower_fixed("webp"@);
}

/// Decides `is_media_ext`.
pub fn has_media_extension(ext: &str) -> (r: bool)
    ensures
        r == is_media_ext(ext@),
{
    proof {
        lemma_ext_literals_lower();
    }
    str_eq_ci(ext, "mp4") || str_eq_ci(ext, "mkv") || str_eq_ci(ext, "avi") || str_eq_ci(
        ext,
        "webm",
    ) || str_eq_ci(ext, "mov") || str_eq_ci(ext, "wmv") || str_eq_ci(ext, "flv") || str_eq_ci(
        ext,
        "m4v",
    ) || str_eq_ci(ext, "mpg") || str_eq_ci(ext, "mpeg") || str_eq_ci(ext, "3gp") || str_eq_ci(
        ext,
        "ts",
    )
}

/// Decides `is_image_ext`.
pub fn has_image_extension(ext: &str) -> (r: bool)
    ensures
        r == is_image_ext(ext@),
{
    proof {
        lemma_ext_literals_lower();
    }
    str_eq_ci(ext, "jpg") || str_eq_ci(ext, "jpeg") || str_eq_ci(ext, "png") || str_eq_ci(
        ext,
        "webp",
    )
}

/// Decides `name_is_media`.
pub fn file_name_is_media(name: &str) -> (r: bool)
    ensures
        r == name_is_media(name@),
{
    let (_, ext) = split_name(name);
    match ext {
        Some(e) => has_media_extension(e.as_str()),
        None => false,
    }
}

/// Decides `name_is_image`.
pub fn file_name_is_image(name: &str) -> (r: bool)
    ensures
        r == name_is_image(name@),
{
    let (_, ext) = split_name(name);
    match ext {
        Some(e) => has_image_extension(e.as_str()),
        None => false,
    }
}

/// Classifies one directory entry name.
pub fn classify_name(name: &str, is_dir: bool) -> (r: EntryClass)
    ensures
        r == spec_classify(name@, is_dir),
{
    if name_is_skipped(name) {
        EntryClass::Skip
    } else if is_dir {
        EntryClass::Directory
    } else if file_name_is_media(name) {
        EntryClass::MediaFile
    } else if file_name_is_image(name) {
        EntryClass::ImageFile
    } else {
        EntryClass::Other
    }
}

} // verus!
