use vstd::prelude::*;

verus! {

/// The type of a filesystem node, as a stat call reports it.
#[derive(Clone, Copy, Debug, PartialEq, Eq, Structural)]
pub enum FileKind {
    File,
    Dir,
    Symlink,
    Other,
}

/// A point-in-time snapshot of one node's metadata.
#[derive(Clone, Copy, Debug, PartialEq, Eq, Structural)]
pub struct Metadata {
    pub kind: FileKind,
    /// Size in bytes.
    pub len: u64,
    /// Modification time in nanoseconds since the Unix epoch, where the
    /// platform reports one.
    pub modified: Option<u64>,
    pub readonly: bool,
}

impl Metadata {
    pub fn is_dir(&self) -> (r: bool)
        ensures
            r == (self.kind is Dir),
    {
        match self.kind {
            FileKind::Dir => true,
            _ => false,
        }
    }

    pub fn is_file(&self) -> (r: bool)
        ensures
            r == (self.kind is File),
    {
        match self.kind {
            FileKind::File => true,
            _ => false,
        }
    }
}

/// One entry of a directory listing: its final component and its full path.
#[derive(Debug)]
pub struct DirEntry {
    pub file_name: String,
    pub path: String,
}

/// One filesystem node with the metadata fetched for it.
#[derive(Debug)]
pub struct Entity {
    pub file_name: String,
    pub path: String,
    pub metadata: Metadata,
}

impl Entity {
    pub fn new(file_name: String, path: String, metadata: Metadata) -> (r: Entity)
        ensures
            r == (Entity { file_name, path, metadata }),
    {
        Entity { file_name, path, metadata }
    }
}

/// The cause of a failed filesystem operation.
#[derive(Clone, Copy, Debug, PartialEq, Eq, Structural)]
pub enum IoErrorKind {
    NotFound,
    PermissionDenied,
    Other,
}

/// A failed filesystem operation and the path it was made on.
#[derive(Debug)]
pub struct IoError {
    pub kind: IoErrorKind,
    pub path: String,
}

impl IoError {
    pub fn new(kind: IoErrorKind, path: String) -> (r: IoError)
        ensures
            r == (IoError { kind, path }),
    {
        IoError { kind, path }
    }
}

} // verus!
