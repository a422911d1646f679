//! The data shapes of the catalog: media records, mounted roots, the
//! taxonomy entities, folder-tree nodes, and query descriptors.

use vstd::prelude::*;

verus! {

/// One media record of the catalog, keyed by its absolute path.
///
/// `duration` is a length in milliseconds; the scanner leaves it unset,
/// later processing may fill it.
#[derive(Debug)]
pub struct Video {
    pub id: String,
    pub path: String,
    pub filename: String,
    pub folder_path: String,
    pub size: u64,
    pub duration: Option<u64>,
    pub thumbnail_path: Option<String>,
    pub created_at: String,
    pub updated_at: String,
}

/// Field-by-field sameness of two optional strings.
pub open spec fn opt_str_like(a: Option<String>, b: Option<String>) -> bool {
    match (a, b) {
        (Option::Some(x), Option::Some(y)) => x@ == y@,
        (Option::None, Option::None) => true,
        _ => false,
    }
}

/// Field-by-field sameness of two media records.
pub open spec fn video_like(a: Video, b: Video) -> bool {
    &&& a.id@ == b.id@
    &&& a.path@ == b.path@
    &&& a.filename@ == b.filename@
    &&& a.folder_path@ == b.folder_path@
    &&& a.size == b.size
    &&& a.duration == b.duration
    &&& opt_str_like(a.thumbnail_path, b.thumbnail_path)
    &&& a.created_at@ == b.created_at@
    &&& a.updated_at@ == b.updated_at@
}

/// Copies an optional string.
pub fn clone_opt_string(s: &Option<String>) -> (r: Option<String>)
    ensures
        opt_str_like(*s, r),
{
    match s {
        Option::Some(x) => Option::Some(x.clone()),
        Option::None => Option::None,
    }
}

impl Video {
    /// Copies the record field by field.
    pub fn duplicate(&self) -> (r: Video)
        ensures
            video_like(*self, r),
    {
        Video {
            id: self.id.clone(),
            path: self.path.clone(),
            filename: self.filename.clone(),
            folder_path: self.folder_path.clone(),
            size: self.size,
            duration: self.duration,
            thumbnail_path: clone_opt_string(&self.thumbnail_path),
            created_at: self.created_at.clone(),
            updated_at: self.updated_at.clone(),
        }
    }
}

/// A user-registered directory to scan, keyed by its path.
#[derive(Debug)]
pub struct MountedFolder {
    pub id: String,
    pub path: String,
    pub name: String,
    pub scan_depth: usize,
    pub created_at: String,
}

/// Field-by-field sameness of two mounted roots.
pub open spec fn folder_like(a: MountedFolder, b: MountedFolder) -> bool {
    &&& a.id@ == b.id@
    &&& a.path@ == b.path@
    &&& a.name@ == b.name@
    &&& a.scan_depth == b.scan_depth
    &&& a.created_at@ == b.created_at@
}

impl MountedFolder {
    /// Copies the root record field by field.
    pub fn duplicate(&self) -> (r: MountedFolder)
        ensures
            folder_like(*self, r),
    {
        MountedFolder {
            id: self.id.clone(),
            path: self.path.clone(),
            name: self.name.clone(),
            scan_depth: self.scan_depth,
            created_at: self.created_at.clone(),
        }
    }
}

/// A tag: a named, colored label attachable to records.
#[derive(Debug)]
pub struct Tag {
    pub id: String,
    pub name: String,
    pub color: String,
}

/// Field-by-field sameness of two tags.
pub open spec fn tag_like(a: Tag, b: Tag) -> bool {
    a.id@ == b.id@ && a.name@ == b.name@ && a.color@ == b.color@
}

impl Tag {
    /// Copies the tag field by field.
    pub fn duplicate(&self) -> (r: Tag)
        ensures
            tag_like(*self, r),
    {
        Tag { id: self.id.clone(), name: self.name.clone(), color: self.color.clone() }
    }
}

/// A participant: a named person attachable to records.
#[derive(Debug)]
pub struct Participant {
    pub id: String,
    pub name: String,
}

/// Field-by-field sameness of two participants.
pub open spec fn participant_like(a: Participant, b: Participant) -> bool {
    a.id@ == b.id@ && a.name@ == b.name@
}

impl Participant {
    /// Copies the participant field by field.
    pub fn duplicate(&self) -> (r: Participant)
        ensures
            participant_like(*self, r),
    {
        Participant { id: self.id.clone(), name: self.name.clone() }
    }
}

/// A language, keyed by its code.
#[derive(Debug)]
pub struct Language {
    pub id: String,
    pub code: String,
    pub name: String,
}

/// Field-by-field sameness of two languages.
pub open spec fn language_like(a: Language, b: Language) -> bool {
    a.id@ == b.id@ && a.code@ == b.code@ && a.name@ == b.name@
}

impl Language {
    /// Copies the language field by field.
    pub fn duplicate(&self) -> (r: Language)
        ensures
            language_like(*self, r),
    {
        Language { id: self.id.clone(), code: self.code.clone(), name: self.name.clone() }
    }
}

/// A record together with its taxonomy annotations.
#[derive(Debug)]
pub struct VideoWithMetadata {
    pub video: Video,
    pub tags: Vec<Tag>,
    pub participants: Vec<Participant>,
    pub languages: Vec<Language>,
}

/// One node of the folder summary tree: a path, a display name, the
/// children in case-insensitive name order, and the aggregated count.
#[derive(Debug)]
pub struct FolderNode {
    pub path: String,
    pub name: String,
    pub children: Vec<FolderNode>,
    pub video_count: usize,
}

/// The outcome of one scan: how many records were found, the folder
/// summary, and the records themselves.
#[derive(Debug)]
pub struct ScanResult {
    pub total_videos: usize,
    pub new_videos: usize,
    pub folders: Vec<FolderNode>,
    pub videos: Vec<Video>,
}

/// A query descriptor: optional folder prefix, facet id sets, optional
/// filename search, sort key and direction, and the page bounds.
#[derive(Debug)]
pub struct FilterOptions {
    pub folder_path: Option<String>,
    pub tag_ids: Vec<String>,
    pub participant_ids: Vec<String>,
    pub language_ids: Vec<String>,
    pub search_query: Option<String>,
    pub sort_by: String,
    pub sort_order: String,
    pub limit: usize,
    pub offset: usize,
}

impl Default for FilterOptions {
    /// The default query: no filters, filename ascending, first hundred records.
    fn default() -> (r: Self)
        ensures
            r.folder_path is None,
            r.tag_ids@ =~= Seq::<String>::empty(),
            r.participant_ids@ =~= Seq::<String>::empty(),
            r.language_ids@ =~= Seq::<String>::empty(),
            r.search_query is None,
            r.sort_by@ == "filename"@,
            r.sort_order@ == "asc"@,
            r.limit == 100,
            r.offset == 0,
    {
        FilterOptions {
            folder_path: Option::None,
            tag_ids: Vec::new(),
            participant_ids: Vec::new(),
            language_ids: Vec::new(),
            search_query: Option::None,
            sort_by: "filename".to_owned(),
            sort_order: "asc".to_owned(),
            limit: 100,
            offset: 0,
        }
    }
}

/// One page of query results: the records, the total matching count,
/// and whether records beyond this page remain.
#[derive(Debug)]
pub struct PaginatedVideos {
    pub videos: Vec<Video>,
    pub total: usize,
    pub has_more: bool,
}

} // verus!
