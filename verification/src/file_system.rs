//! What the storage layer needs to know of a file system: the kinds of
//! failure, the flags and locks of an open file, and the few decisions that
//! surround a positioned transfer.

use vstd::prelude::*;
use vstd::string::{StrSliceExecFns, StringExecFns};

verus! {

/// The failures of the file collaborator that the core tells apart.
#[derive(Debug, Clone, Copy, PartialEq, Eq, Structural)]
pub enum IoErrorKind {
    NotFound,
    PermissionDenied,
    AlreadyExists,
    UnexpectedEof,
    InvalidData,
    InvalidInput,
    Other,
}

/// The lock requested on a file when it is opened.
#[derive(Debug, Clone, Copy, PartialEq, Eq, Structural)]
pub enum FileLockType {
    NoLock,
    ReadLock,
    WriteLock,
}


/// The flag of a file opened for reading.
pub const FILE_FLAGS_READ: u16 = 1;

/// The flag of a file opened for writing.
pub const FILE_FLAGS_WRITE: u16 = 2;

/// The flag of a file opened past the cache of the operating system.
pub const FILE_FLAGS_DIRECT_IO: u16 = 4;

/// The flag of a file that is created if it does not exist.
pub const FILE_FLAGS_CREATE: u16 = 8;

/// How a file is to be opened: a set of the four flags above.
#[derive(Debug, Clone, Copy, PartialEq, Eq, Structural)]
pub struct FileFlags {
    pub bits: u16,
}

impl FileFlags {
    /// Whether every flag of `other` is set.
    pub open spec fn has(self, other: u16) -> bool {
        self.bits & other == other
    }

    /// The set of the flags of `bits`; bits that name no flag are dropped.
    pub fn from_bits_truncate(bits: u16) -> (flags: Self)
        ensures
            flags.bits == bits & 15,
    {
        FileFlags { bits: bits & 15 }
    }

    /// Whether every flag of `other` is set.
    pub fn contains(&self, other: u16) -> (r: bool)
        ensures
            r == self.has(other),
    {
        self.bits & other == other
    }

    /// The flags of both sets.
    pub fn union(&self, other: FileFlags) -> (flags: Self)
        ensures
            flags.bits == self.bits | other.bits,
    {
        FileFlags { bits: self.bits | other.bits }
    }

    /// Whether the flags fit together: a file opened for reading is not
    /// opened for writing, nor created.
    pub open spec fn valid(self) -> bool {
        !self.has(FILE_FLAGS_READ | FILE_FLAGS_WRITE) && !self.has(
            FILE_FLAGS_READ | FILE_FLAGS_CREATE,
        )
    }

    pub fn is_valid(&self) -> (r: bool)
        ensures
            r == self.valid(),
    {
        !self.contains(FILE_FLAGS_READ | FILE_FLAGS_WRITE) && !self.contains(
            FILE_FLAGS_READ | FILE_FLAGS_CREATE,
        )
    }
}

/// What the operating system is asked for when a file is opened.
#[derive(Debug, Clone, Copy, PartialEq, Eq, Structural)]
pub struct OpenMode {
    /// Read-only, as opposed to read-write and closed on exec.
    pub read_only: bool,
    /// Create the file if it does not exist.
    pub create: bool,
    /// Bypass the cache and write through.
    pub direct: bool,
}

/// What the operating system is asked for when a file is opened with
/// `flags`.
pub fn open_mode(flags: FileFlags) -> (mode: OpenMode)
    requires
        flags.valid(),
    ensures
        mode == (OpenMode {
            read_only: flags.has(FILE_FLAGS_READ),
            create: flags.has(FILE_FLAGS_CREATE),
            direct: flags.has(FILE_FLAGS_DIRECT_IO),
        }),
{
    OpenMode {
        read_only: flags.contains(FILE_FLAGS_READ),
        create: flags.contains(FILE_FLAGS_CREATE),
        direct: flags.contains(FILE_FLAGS_DIRECT_IO),
    }
}

/// Whether a positioned transfer moved the number of bytes it was asked
/// for. Fewer or more is an unexpected end of file.
pub fn check_transfer(expected: i64, actual: u64) -> (r: Result<(), IoErrorKind>)
    ensures
        r == if expected == actual {
            Ok::<(), IoErrorKind>(())
        } else {
            Err::<(), IoErrorKind>(IoErrorKind::UnexpectedEof)
        },
{
    if expected >= 0 && expected as u64 == actual {
        Ok(())
    } else {
        Err(IoErrorKind::UnexpectedEof)
    }
}

/// What separates the parts of a path.
pub fn path_separator() -> (separator: &'static str)
    ensures
        separator@ == seq!['/'],
{
    let separator = "/";
    proof {
        reveal_strlit("/");
        assert(separator@ =~= seq!['/']);
    }
    separator
}

/// The path of `r` below `l`: the two, with the separator in between.
pub fn join_path(l: &str, r: &str) -> (path: String)
    ensures
        path@ == l@ + seq!['/'] + r@,
{
    let mut path = String::from_str(l);
    path.append(path_separator());
    path.append(r);
    path
}

/// Whether a directory listing shows the entry `name`: entries without a
/// name, and entries whose name begins with a dot, are hidden.
pub fn is_listed(name: &str) -> (r: bool)
    ensures
        r == (name@.len() > 0 && name@[0] != '.'),
{
    if name.unicode_len() == 0 {
        return false;
    }
    name.get_char(0) != '.'
}

/// Whether `name` is one of the two entries that stand for a directory
/// itself and for its parent, which a removal of the directory's content
/// passes over.
pub fn is_dot_entry(name: &str) -> (r: bool)
    ensures
        r == (name@ == seq!['.'] || name@ == seq!['.', '.']),
{
    let n = name.unicode_len();
    if n == 1 {
        let is_dot = name.get_char(0) == '.';
        assert(is_dot <==> name@ =~= seq!['.']);
        is_dot
    } else if n == 2 {
        let both = name.get_char(0) == '.' && name.get_char(1) == '.';
        assert(both <==> name@ =~= seq!['.', '.']);
        both
    } else {
        assert(seq!['.'].len() == 1 && seq!['.', '.'].len() == 2);
        false
    }
}

} // verus!
