//! The record type for one filesystem node discovered during a scan, and
//! the row type served by the listing endpoint.
use vstd::prelude::*;

verus! {

/// Whether a filesystem node is a plain file or a directory.
#[derive(Clone, Copy, PartialEq, Eq, Structural, Debug)]
pub enum Kind {
    File,
    Dir,
}

/// One filesystem node discovered during a scan.
///
/// `path` is the node's absolute path and acts as the natural key: a table
/// never holds two entries with the same `path`. `parent_path` is the path
/// of the containing directory, or the sentinel `"root"` for the scan's
/// starting directory, whose `name` is also `"root"`.
pub struct Entry {
    pub path: String,
    pub parent_path: String,
    pub name: String,
    pub kind: Kind,
}

/// The mathematical value of an [`Entry`]: the same four fields with the
/// strings abstracted to character sequences.
pub struct EntryModel {
    pub path: Seq<char>,
    pub parent_path: Seq<char>,
    pub name: Seq<char>,
    pub kind: Kind,
}

impl View for Entry {
    type V = EntryModel;

    open spec fn view(&self) -> EntryModel {
        EntryModel {
            path: self.path@,
            parent_path: self.parent_path@,
            name: self.name@,
            kind: self.kind,
        }
    }
}

impl Entry {
    /// Builds an entry from its four fields.
    pub fn new(path: String, parent_path: String, name: String, kind: Kind) -> (e: Entry)
        ensures
            e@ == (EntryModel { path: path@, parent_path: parent_path@, name: name@, kind }),
    {
        Entry { path, parent_path, name, kind }
    }
}

/// One row of the listing endpoint's response: the store-assigned identity
/// of an entry together with its name and path.
pub struct File {
    pub id: i64,
    pub name: String,
    pub path: String,
}

impl File {
    /// Builds a row from an identity and an entry's name and path.
    pub fn new(id: i64, name: String, path: String) -> (f: File)
        ensures
            f.id == id,
            f.name@ == name@,
            f.path@ == path@,
    {
        File { id, name, path }
    }
}

} // verus!
