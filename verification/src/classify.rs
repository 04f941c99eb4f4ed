//! The directory entry classifier: the policy that sorts the immediate
//! entries of one directory into subdirectories to queue, files to hash and
//! entries to skip, and that decides from a file's own metadata whether it
//! is hashed at all. Every decision is made for one entry alone, so a skipped
//! entry never affects its siblings.

use crate::model::{paths_of, FileAttributes, FileType, ScannedFile, TIMESTAMP_UNAVAILABLE};
use vstd::prelude::*;
use vstd::string::StrSliceExecFns;

verus! {

/// The first character of the name of a hidden entry.
pub const HIDDEN_MARKER: char = '.';

/// The flags of a scan that bear on classification.
#[derive(Debug, Clone, Copy, PartialEq, Eq, Structural)]
pub struct ScanOptions {
    /// Skip files of zero bytes.
    pub ignore_empty: bool,
    /// Traverse and hash hidden entries too.
    pub include_hidden: bool,
    /// Attach `FileAttributes` to every scanned file.
    pub load_file_attributes: bool,
}

impl Default for ScanOptions {
    /// Hidden entries are skipped, empty files are hashed, attributes are not
    /// collected.
    fn default() -> (options: ScanOptions)
        ensures
            options == (ScanOptions {
                ignore_empty: false,
                include_hidden: false,
                load_file_attributes: false,
            }),
    {
        ScanOptions { ignore_empty: false, include_hidden: false, load_file_attributes: false }
    }
}

/// One immediate entry of a directory, as the listing reports it.
#[derive(Debug, Clone, PartialEq, Eq)]
pub struct DirEntry {
    /// The entry's own name, without the directory.
    pub name: String,
    /// The entry's path.
    pub path: String,
    /// Whether the entry is a directory.
    pub is_dir: bool,
}

/// The mathematical value of a `DirEntry`.
pub struct EntryInfo {
    pub name: Seq<char>,
    pub path: Seq<char>,
    pub is_dir: bool,
}

impl View for DirEntry {
    type V = EntryInfo;

    open spec fn view(&self) -> EntryInfo {
        EntryInfo { name: self.name@, path: self.path@, is_dir: self.is_dir }
    }
}

/// The values of a sequence of entries, in the same order.
pub open spec fn entries_of(entries: Seq<DirEntry>) -> Seq<EntryInfo> {
    entries.map_values(|e: DirEntry| e@)
}

/// What becomes of an entry, judged by its name and kind.
#[derive(Debug, Clone, Copy, PartialEq, Eq, Structural)]
pub enum EntryClass {
    /// Skipped: the name is hidden and hidden entries are not included.
    Hidden,
    /// Queued for a later traversal.
    Subdirectory,
    /// A file that is hashed if its metadata admits it.
    Candidate,
}

/// A file's own metadata, read without following a symbolic link. A
/// timestamp is `None` where the platform does not expose it.
#[derive(Debug, Clone, Copy, PartialEq, Eq, Structural)]
pub struct EntryMeta {
    pub size: u64,
    pub created: Option<u64>,
    pub accessed: Option<u64>,
    pub modified: Option<u64>,
    pub is_symlink: bool,
    pub is_dir: bool,
}

/// Whether a candidate file is hashed, judged by its metadata.
#[derive(Debug, Clone, Copy, PartialEq, Eq, Structural)]
pub enum Admission {
    /// Skipped: the metadata could not be read, as for a symbolic link whose
    /// target is gone.
    BrokenLink,
    /// Skipped: the file is empty and empty files are ignored.
    Empty,
    /// The file is hashed.
    Admit,
}

/// Whether a name is that of a hidden entry: it begins with the marker.
pub open spec fn is_hidden_name(name: Seq<char>) -> bool {
    name.len() > 0 && name[0] == HIDDEN_MARKER
}

/// The class of an entry. The hidden policy comes first, so a hidden
/// directory is skipped, not queued.
pub open spec fn classify(entry: EntryInfo, options: ScanOptions) -> EntryClass {
    if !options.include_hidden && is_hidden_name(entry.name) {
        EntryClass::Hidden
    } else if entry.is_dir {
        EntryClass::Subdirectory
    } else {
        EntryClass::Candidate
    }
}

/// The paths of the entries of the given class, in listing order.
pub open spec fn paths_classified(
    entries: Seq<EntryInfo>,
    options: ScanOptions,
    class: EntryClass,
) -> Seq<Seq<char>>
    decreases entries.len(),
{
    if entries.len() == 0 {
        Seq::empty()
    } else if classify(entries.last(), options) == class {
        paths_classified(entries.drop_last(), options, class).push(entries.last().path)
    } else {
        paths_classified(entries.drop_last(), options, class)
    }
}

/// The admission of a candidate whose metadata read gave `meta`.
pub open spec fn admission(meta: Option<EntryMeta>, options: ScanOptions) -> Admission {
    match meta {
        None => Admission::BrokenLink,
        Some(m) => if options.ignore_empty && m.size == 0 {
            Admission::Empty
        } else {
            Admission::Admit
        },
    }
}

/// The timestamp recorded for what the platform reported.
pub open spec fn timestamp_of(seconds: Option<u64>) -> i128 {
    match seconds {
        Some(s) => s as i128,
        None => TIMESTAMP_UNAVAILABLE,
    }
}

/// The kind of an entry; being a symbolic link is tested first.
pub open spec fn file_type_of(meta: EntryMeta) -> FileType {
    if meta.is_symlink {
        FileType::SymLink
    } else if meta.is_dir {
        FileType::Directory
    } else {
        FileType::File
    }
}

/// The attributes recorded for a file with the given metadata.
pub open spec fn attributes_for(meta: EntryMeta) -> FileAttributes {
    FileAttributes {
        size: meta.size,
        created_date: timestamp_of(meta.created),
        accessed_date: timestamp_of(meta.accessed),
        edit_date: timestamp_of(meta.modified),
        file_type: file_type_of(meta),
    }
}

/// Whether `name` is the name of a hidden entry.
pub fn is_hidden(name: &str) -> (hidden: bool)
    ensures
        hidden == is_hidden_name(name@),
{
    if name.is_empty() {
        false
    } else {
        name.get_char(0) == HIDDEN_MARKER
    }
}

/// Classifies one entry.
pub fn classify_entry(entry: &DirEntry, options: &ScanOptions) -> (class: EntryClass)
    ensures
        class == classify(entry@, *options),
{
    if !options.include_hidden && is_hidden(entry.name.as_str()) {
        EntryClass::Hidden
    } else if entry.is_dir {
        EntryClass::Subdirectory
    } else {
        EntryClass::Candidate
    }
}

/// The entries of one directory, sorted by class; each list keeps the
/// listing's order.
#[derive(Debug, Clone, PartialEq, Eq)]
pub struct Classified {
    /// Paths of the directories to queue.
    pub subdirectories: Vec<String>,
    /// Paths of the files to examine and hash.
    pub candidates: Vec<String>,
    /// Paths of the entries skipped as hidden.
    pub hidden: Vec<String>,
}

/// Sorts the entries of one directory into subdirectories, candidate files
/// and hidden entries.
pub fn classify_entries(entries: Vec<DirEntry>, options: &ScanOptions) -> (sorted: Classified)
    ensures
        paths_of(sorted.subdirectories@) == paths_classified(
            entries_of(entries@),
            *options,
            EntryClass::Subdirectory,
        ),
        paths_of(sorted.candidates@) == paths_classified(
            entries_of(entries@),
            *options,
            EntryClass::Candidate,
        ),
        paths_of(sorted.hidden@) == paths_classified(
            entries_of(entries@),
            *options,
            EntryClass::Hidden,
        ),
{
    let ghost all = entries_of(entries@);
    let mut subdirectories: Vec<String> = Vec::new();
    let mut candidates: Vec<String> = Vec::new();
    let mut hidden: Vec<String> = Vec::new();
    for entry in it: entries.into_iter()
        invariant
            it.seq() == entries@,
            all == entries_of(entries@),
            paths_of(subdirectories@) =~= paths_classified(
                all.take(it.index() as int),
                *options,
                EntryClass::Subdirectory,
            ),
            paths_of(candidates@) =~= paths_classified(
                all.take(it.index() as int),
                *options,
                EntryClass::Candidate,
            ),
            paths_of(hidden@) =~= paths_classified(
                all.take(it.index() as int),
                *options,
                EntryClass::Hidden,
            ),
    {
        let ghost done = it.index() as int;
        proof {
            assert(all.take(done + 1).drop_last() =~= all.take(done));
            assert(all.take(done + 1).last() == entry@);
        }
        match classify_entry(&entry, options) {
            EntryClass::Hidden => hidden.push(entry.path),
            EntryClass::Subdirectory => subdirectories.push(entry.path),
            EntryClass::Candidate => candidates.push(entry.path),
        }
    }
    proof {
        assert(all.take(entries@.len() as int) =~= all);
    }
    Classified { subdirectories, candidates, hidden }
}

/// Decides from the outcome of a candidate's metadata read whether the file
/// is hashed; `None` stands for a read that failed.
pub fn admit_file(meta: Option<&EntryMeta>, options: &ScanOptions) -> (verdict: Admission)
    ensures
        verdict == admission(
            match meta {
                Some(m) => Some(*m),
                None => None,
            },
            *options,
        ),
{
    match meta {
        None => Admission::BrokenLink,
        Some(m) => {
            if options.ignore_empty && m.size == 0 {
                Admission::Empty
            } else {
                Admission::Admit
            }
        },
    }
}

fn timestamp(seconds: Option<u64>) -> (stamp: i128)
    ensures
        stamp == timestamp_of(seconds),
{
    match seconds {
        Some(s) => s as i128,
        None => TIMESTAMP_UNAVAILABLE,
    }
}

/// The attributes to record for a file with the given metadata.
pub fn attributes_of(meta: &EntryMeta) -> (attributes: FileAttributes)
    ensures
        attributes == attributes_for(*meta),
{
    let file_type = if meta.is_symlink {
        FileType::SymLink
    } else if meta.is_dir {
        FileType::Directory
    } else {
        FileType::File
    };
    FileAttributes {
        size: meta.size,
        created_date: timestamp(meta.created),
        accessed_date: timestamp(meta.accessed),
        edit_date: timestamp(meta.modified),
        file_type,
    }
}

/// The record of a file that was admitted and fully read: its digest, its
/// path, and its attributes if the scan collects them.
pub fn scanned_file(hash: String, path: String, meta: &EntryMeta, options: &ScanOptions) -> (file:
    ScannedFile)
    ensures
        file@.hash == hash@,
        file@.path == path@,
        file@.attributes == if options.load_file_attributes {
            Some(attributes_for(*meta))
        } else {
            None
        },
{
    let attributes = if options.load_file_attributes {
        Some(attributes_of(meta))
    } else {
        None
    };
    ScannedFile { hash, path, attributes }
}

/// The hidden policy: with hidden entries included no entry is classed as
/// hidden; without, an entry is classed as hidden exactly when its name
/// begins with the marker, whether it is a file or a directory.
pub proof fn lemma_hidden_policy(entry: EntryInfo, options: ScanOptions)
    ensures
        options.include_hidden ==> classify(entry, options) != EntryClass::Hidden,
        !options.include_hidden ==> (classify(entry, options) == EntryClass::Hidden
            <==> is_hidden_name(entry.name)),
        classify(entry, options) != EntryClass::Hidden ==> (classify(entry, options)
            == EntryClass::Subdirectory <==> entry.is_dir),
{
}

/// The empty-file policy: a file of zero bytes whose metadata was read is
/// skipped when empty files are ignored and hashed when they are not; a file
/// that is not empty is always hashed.
pub proof fn lemma_empty_file_policy(meta: EntryMeta, options: ScanOptions)
    ensures
        meta.size == 0 && options.ignore_empty ==> admission(Some(meta), options)
            == Admission::Empty,
        meta.size == 0 && !options.ignore_empty ==> admission(Some(meta), options)
            == Admission::Admit,
        meta.size > 0 ==> admission(Some(meta), options) == Admission::Admit,
{
}

/// A broken link is skipped whatever the flags.
pub proof fn lemma_broken_link_is_skipped(options: ScanOptions)
    ensures
        admission(None, options) == Admission::BrokenLink,
{
}

/// Classification is made entry by entry: what a listing yields is what its
/// parts yield, one after the other, so no entry changes the fate of another.
pub proof fn lemma_classification_is_per_entry(
    first: Seq<EntryInfo>,
    second: Seq<EntryInfo>,
    options: ScanOptions,
    class: EntryClass,
)
    ensures
        paths_classified(first + second, options, class) == paths_classified(
            first,
            options,
            class,
        ) + paths_classified(second, options, class),
    decreases second.len(),
{
    if second.len() == 0 {
        assert(first + second =~= first);
        assert(paths_classified(first, options, class) + paths_classified(second, options, class)
            =~= paths_classified(first, options, class));
    } else {
        lemma_classification_is_per_entry(first, second.drop_last(), options, class);
        assert((first + second).drop_last() =~= first + second.drop_last());
        assert((first + second).last() == second.last());
        assert(paths_classified(first + second, options, class) =~= paths_classified(
            first,
            options,
            class,
        ) + paths_classified(second, options, class));
    }
}

/// Every entry of a listing lands in exactly one of the three classes.
pub proof fn lemma_classes_partition(entries: Seq<EntryInfo>, options: ScanOptions)
    ensures
        paths_classified(entries, options, EntryClass::Hidden).len() + paths_classified(
            entries,
            options,
            EntryClass::Subdirectory,
        ).len() + paths_classified(entries, options, EntryClass::Candidate).len()
            == entries.len(),
    decreases entries.len(),
{
    if entries.len() > 0 {
        lemma_classes_partition(entries.drop_last(), options);
    }
}

} // verus!
