//! Attachments: the kind of a file by its extension, and where the file is
//! found in a resource directory.

use vstd::prelude::*;
use crate::model::{opt_chars, MediaKind};
use crate::text::{chars_of, ends_with, has_suffix, lowered, to_lower};

verus! {

/// One file of a resource directory: its file name and its full path.
#[derive(Debug, PartialEq, Eq)]
pub struct ResourceFile {
    pub name: String,
    pub path: String,
}

/// A resource directory and the files that were found in it.
#[derive(Debug, PartialEq, Eq)]
pub struct ResourceDirectory {
    pub directory: String,
    pub files: Vec<ResourceFile>,
}

/// The model of a `ResourceFile`.
pub struct ResourceFileModel {
    pub name: Seq<char>,
    pub path: Seq<char>,
}

impl View for ResourceFile {
    type V = ResourceFileModel;

    open spec fn view(&self) -> ResourceFileModel {
        ResourceFileModel { name: self.name@, path: self.path@ }
    }
}

/// The models of a directory listing.
pub open spec fn files_of(s: Seq<ResourceFile>) -> Seq<ResourceFileModel> {
    s.map_values(|f: ResourceFile| f@)
}

/// The models of a table of extensions.
pub open spec fn extensions_of(s: Seq<&'static str>) -> Seq<Seq<char>> {
    s.map_values(|e: &'static str| e@)
}

/// Extensions of photos.
pub open spec fn photo_extensions() -> Seq<Seq<char>> {
    seq![
        "png"@,
        "apng"@,
        "jpg"@,
        "jpeg"@,
        "gif"@,
        "webp"@,
        "avif"@,
        "jfif"@,
        "pjpeg"@,
        "pjp"@,
        "svg"@,
        "bmp"@,
        "ico"@,
        "tif"@,
        "tiff"@,
    ]
}

/// Extensions of videos.
pub open spec fn video_extensions() -> Seq<Seq<char>> {
    seq!["mp4"@, "avi"@, "mov"@, "wmv"@, "mkv"@, "webm"@, "flv"@]
}

/// Extensions of audio files.
pub open spec fn audio_extensions() -> Seq<Seq<char>> {
    seq!["opus"@, "mp3"@, "aac"@, "ogg"@, "wav"@]
}

/// Whether `name`, letter case aside, ends in one of the entries of `table`.
pub open spec fn has_extension(name: Seq<char>, table: Seq<Seq<char>>) -> bool {
    exists|i: int| 0 <= i < table.len() && ends_with(lowered(name), #[trigger] table[i])
}

/// The kind of the file called `name`: the first of photo, video and audio
/// whose table holds its extension, else `Other`.
pub open spec fn kind_of(name: Seq<char>) -> MediaKind {
    if has_extension(name, photo_extensions()) {
        MediaKind::Photo
    } else if has_extension(name, video_extensions()) {
        MediaKind::Video
    } else if has_extension(name, audio_extensions()) {
        MediaKind::Audio
    } else {
        MediaKind::Other
    }
}

/// The path of the first file at or after index `from` whose name is `name`,
/// letter case aside.
pub open spec fn lookup_from(name: Seq<char>, files: Seq<ResourceFileModel>, from: int) -> Option<
    Seq<char>,
>
    decreases files.len() - from,
{
    if from < 0 || from >= files.len() {
        None
    } else if lowered(files[from].name) == lowered(name) {
        Some(files[from].path)
    } else {
        lookup_from(name, files, from + 1)
    }
}

/// Where the attachment called `name` is found: nowhere without a resource
/// directory, else at the path of the first listed file of that name.
pub open spec fn resolved(
    name: Seq<char>,
    has_directory: bool,
    files: Seq<ResourceFileModel>,
) -> Option<
    Seq<char>,
> {
    if has_directory {
        lookup_from(name, files, 0)
    } else {
        None
    }
}

/// The file that is found is the first in the listing, from `from` on,
/// with that name, letter case aside; none is found exactly where the
/// listing has none.
pub proof fn lookup_is_first(name: Seq<char>, files: Seq<ResourceFileModel>, from: int)
    requires
        0 <= from,
    ensures
        match lookup_from(name, files, from) {
            Some(path) => exists|k: int|
                {
                    &&& from <= k < files.len()
                    &&& lowered((#[trigger] files[k]).name) == lowered(name)
                    &&& files[k].path == path
                    &&& forall|u: int|
                        from <= u < k ==> lowered((#[trigger] files[u]).name) != lowered(name)
                },
            None => forall|u: int|
                from <= u < files.len() ==> lowered((#[trigger] files[u]).name) != lowered(name),
        },
    decreases files.len() - from,
{
    if from < files.len() {
        if lowered(files[from].name) == lowered(name) {
            assert(files[from].path == lookup_from(name, files, from)->0);
        } else {
            lookup_is_first(name, files, from + 1);
        }
    }
}

/// The extensions of photos, in lower case.
pub fn photo_types() -> (r: Vec<&'static str>)
    ensures
        extensions_of(r@) == photo_extensions(),
{
    let r = vec![
        "png",
        "apng",
        "jpg",
        "jpeg",
        "gif",
        "webp",
        "avif",
        "jfif",
        "pjpeg",
        "pjp",
        "svg",
        "bmp",
        "ico",
        "tif",
        "tiff",
    ];
    assert(extensions_of(r@) =~= photo_extensions());
    r
}

/// The extensions of videos, in lower case.
pub fn video_types() -> (r: Vec<&'static str>)
    ensures
        extensions_of(r@) == video_extensions(),
{
    let r = vec!["mp4", "avi", "mov", "wmv", "mkv", "webm", "flv"];
    assert(extensions_of(r@) =~= video_extensions());
    r
}

/// The extensions of audio files, in lower case.
pub fn audio_types() -> (r: Vec<&'static str>)
    ensures
        extensions_of(r@) == audio_extensions(),
{
    let r = vec!["opus", "mp3", "aac", "ogg", "wav"];
    assert(extensions_of(r@) =~= audio_extensions());
    r
}

/// Whether `name`, letter case aside, ends in one of the entries of `table`.
pub fn ends_in_one_of(name: &[char], table: &Vec<&'static str>) -> (r: bool)
    ensures
        r == has_extension(name@, extensions_of(table@)),
{
    let lower = to_lower(name);
    let ghost exts = extensions_of(table@);
    let mut i: usize = 0;
    while i < table.len()
        invariant
            i <= table.len(),
            lower@ == lowered(name@),
            exts == extensions_of(table@),
            forall|j: int| 0 <= j < i ==> !ends_with(lower@, #[trigger] exts[j]),
        decreases table.len() - i,
    {
        let ext = chars_of(table[i]);
        assert(ext@ == exts[i as int]);
        if has_suffix(lower.as_slice(), ext.as_slice()) {
            return true;
        }
        i += 1;
    }
    false
}

/// The kind of the file called `name`.
pub fn classify(name: &[char]) -> (r: MediaKind)
    ensures
        r == kind_of(name@),
{
    if ends_in_one_of(name, &photo_types()) {
        MediaKind::Photo
    } else if ends_in_one_of(name, &video_types()) {
        MediaKind::Video
    } else if ends_in_one_of(name, &audio_types()) {
        MediaKind::Audio
    } else {
        MediaKind::Other
    }
}

/// Whether two names are the same, letter case aside.
pub fn same_name(a: &[char], b: &[char]) -> (r: bool)
    ensures
        r == (lowered(a@) == lowered(b@)),
{
    let x = to_lower(a);
    let y = to_lower(b);
    if x.len() != y.len() {
        return false;
    }
    let mut i: usize = 0;
    while i < x.len()
        invariant
            i <= x.len(),
            x.len() == y.len(),
            x@ == lowered(a@),
            y@ == lowered(b@),
            forall|j: int| 0 <= j < i ==> x@[j] == y@[j],
        decreases x.len() - i,
    {
        if x[i] != y[i] {
            return false;
        }
        i += 1;
    }
    assert(x@ =~= y@);
    true
}

/// Where the attachment called `name` is found among `files`.
pub fn resolve(name: &[char], has_directory: bool, files: &Vec<ResourceFile>) -> (r: Option<String>)
    ensures
        opt_chars(r) == resolved(name@, has_directory, files_of(files@)),
{
    if !has_directory {
        return None;
    }
    let ghost listing = files_of(files@);
    let mut i: usize = 0;
    while i < files.len()
        invariant
            i <= files.len(),
            has_directory,
            listing == files_of(files@),
            lookup_from(name@, listing, i as int) == lookup_from(name@, listing, 0),
        decreases files.len() - i,
    {
        let file = &files[i];
        let entry = chars_of(file.name.as_str());
        assert(listing[i as int] == file@);
        if same_name(entry.as_slice(), name) {
            let found = file.path.clone();
            return Some(found);
        }
        i += 1;
    }
    None
}

/// Searches the listing of a resource directory for a file called `path`,
/// letter case aside, and gives the full path of the first one found.
/// Without a directory nothing is found.
pub fn full_file_path(
    path: &str,
    directory: &Option<String>,
    directory_files: &Vec<ResourceFile>,
) -> (r: Option<String>)
    ensures
        opt_chars(r) == resolved(path@, directory is Some, files_of(directory_files@)),
{
    let name = chars_of(path);
    resolve(name.as_slice(), directory.is_some(), directory_files)
}

} // verus!
