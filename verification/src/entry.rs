//! The entry model: one file or directory record in an archive's
//! logical namespace.

use vstd::prelude::*;
use crate::text::lex_le;

verus! {

/// An item (file or directory) within an archive.
///
/// `name` is the full path within the archive, with `/` as separator;
/// directory paths carry a trailing slash.
#[derive(Debug, Clone)]
pub struct FileItem {
    /// The full path of the item within the archive.
    pub name: String,
    /// Whether the item is a directory.
    pub is_dir: bool,
    /// The size of the item in bytes.
    pub size: u64,
    /// The modification date of the item, kept as an opaque string.
    pub modified_date: String,
    /// A descriptive label for the kind of the item.
    pub type_label: String,
}

/// The mathematical model of a `FileItem`.
pub struct EntryModel {
    pub name: Seq<char>,
    pub is_dir: bool,
    pub size: u64,
    pub modified_date: Seq<char>,
    pub type_label: Seq<char>,
}

impl View for FileItem {
    type V = EntryModel;

    open spec fn view(&self) -> EntryModel {
        EntryModel {
            name: self.name@,
            is_dir: self.is_dir,
            size: self.size,
            modified_date: self.modified_date@,
            type_label: self.type_label@,
        }
    }
}

/// The listing order: directories before files, then lexicographic by
/// path within each group.
pub open spec fn entry_le(a: EntryModel, b: EntryModel) -> bool {
    (a.is_dir && !b.is_dir) || (a.is_dir == b.is_dir && lex_le(a.name, b.name))
}

/// The view of each element of a vector of entries.
pub open spec fn views_of(v: Seq<FileItem>) -> Seq<EntryModel> {
    v.map_values(|e: FileItem| e@)
}

/// Some entry of `s` is named `n`.
pub open spec fn has_name(s: Seq<EntryModel>, n: Seq<char>) -> bool {
    exists|i: int| 0 <= i < s.len() && s[i].name == n
}

/// No two entries of `s` share a name.
pub open spec fn names_unique(s: Seq<EntryModel>) -> bool {
    forall|i: int, j: int| 0 <= i < j < s.len() ==> s[i].name != s[j].name
}

/// `s` is ordered by `entry_le`.
pub open spec fn entries_sorted(s: Seq<EntryModel>) -> bool {
    forall|i: int, j: int| 0 <= i < j < s.len() ==> entry_le(s[i], s[j])
}

/// An entry is marked as a directory exactly when its name carries the
/// trailing slash.
pub open spec fn dir_flag_consistent(s: Seq<EntryModel>) -> bool {
    forall|i: int|
        0 <= i < s.len() ==> (s[i].is_dir <==> (s[i].name.len() > 0 && s[i].name.last() == '/'))
}

/// `s` holds no backslash.
pub open spec fn no_backslash(s: Seq<char>) -> bool {
    forall|i: int| 0 <= i < s.len() ==> s[i] != '\\'
}

/// A well-formed entry: a nonempty, slash-normalized name whose
/// trailing slash agrees with the directory flag.
pub open spec fn wf_entry(e: EntryModel) -> bool {
    e.name.len() > 0 && no_backslash(e.name) && (e.is_dir <==> (e.name.len() > 0 && e.name.last()
        == '/'))
}

/// A well-formed entry sequence: pairwise distinct names, every entry
/// well-formed.
pub open spec fn entries_wf(s: Seq<EntryModel>) -> bool {
    names_unique(s) && (forall|i: int| 0 <= i < s.len() ==> wf_entry(#[trigger] s[i]))
}

} // verus!
