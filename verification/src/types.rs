//! The in-memory data model of a parsed archive: headers, the recursive
//! file tree, the archive wrapper, and their mathematical views.
//!
//! Filenames are byte strings.  The parser guarantees that every filename
//! it accepts is well-formed UTF-8 (see [`crate::utils::is_utf8`]); callers
//! that need text convert at the edge.

use vstd::prelude::*;

verus! {

/// The 4 magic bytes at the start of every archive.
pub open spec fn spec_magic() -> Seq<u8> {
    seq![0x4Bu8, 0x4Cu8, 0x55u8, 0x00u8]
}

/// Fixed-layout metadata of one archive entry: one packed flags byte,
/// an 8-byte big-endian size, and the filename bytes.
#[derive(Debug, PartialEq, Eq)]
pub struct Header {
    /// Filename length in bytes; the wire format caps it at 31 (5 bits).
    pub filename_length: u8,
    /// The two reserved bits; they round-trip unchanged.
    pub unused: u8,
    /// True for a file, false for a directory.
    pub is_file: bool,
    /// Payload byte length for a file; byte span of the nested child
    /// region for a directory.
    pub filesize: u64,
    /// The filename, UTF-8 encoded.
    pub filename: Vec<u8>,
}

/// Mathematical view of a [`Header`].
pub ghost struct HeaderV {
    pub filename_length: u8,
    pub unused: u8,
    pub is_file: bool,
    pub filesize: u64,
    pub filename: Seq<u8>,
}

impl View for Header {
    type V = HeaderV;

    open spec fn view(&self) -> HeaderV {
        HeaderV {
            filename_length: self.filename_length,
            unused: self.unused,
            is_file: self.is_file,
            filesize: self.filesize,
            filename: self.filename@,
        }
    }
}

impl HeaderV {
    /// A header is well formed when its length field is the filename's
    /// byte length, fits the 5-bit budget, and the reserved bits fit
    /// their 2 bits.
    pub open spec fn wf(self) -> bool {
        &&& self.filename_length == self.filename.len()
        &&& self.filename.len() <= 31
        &&& self.unused < 4
    }

    /// The byte length of this header on the wire.
    pub open spec fn wire_len(self) -> int {
        9 + self.filename.len() as int
    }
}

/// One node of the parsed tree: a header, the absolute byte offset of the
/// node's payload (for a directory: of its nested header-size field), and
/// the child nodes of a directory, in header-list order.
#[derive(Debug, PartialEq, Eq)]
pub struct File {
    pub header: Header,
    pub absolute_offset: u64,
    pub childs: Vec<File>,
}

/// Mathematical view of a [`File`] tree node.
pub ghost struct FileV {
    pub header: HeaderV,
    pub absolute_offset: u64,
    pub childs: Seq<FileV>,
}

/// The view of a tree node, with child nodes viewed recursively.
pub open spec fn file_view(f: File) -> FileV
    decreases f,
{
    FileV { header: f.header@, absolute_offset: f.absolute_offset, childs: files_view(f.childs@) }
}

/// The elementwise view of a sequence of tree nodes.
pub open spec fn files_view(fs: Seq<File>) -> Seq<FileV>
    decreases fs,
{
    if fs.len() == 0 {
        Seq::empty()
    } else {
        files_view(fs.drop_last()).push(file_view(fs.last()))
    }
}

/// `files_view` maps `file_view` over the sequence, elementwise.
pub proof fn lemma_files_view(fs: Seq<File>)
    ensures
        files_view(fs).len() == fs.len(),
        forall|i: int| 0 <= i < fs.len() ==> files_view(fs)[i] == file_view(fs[i]),
    decreases fs,
{
    if fs.len() > 0 {
        lemma_files_view(fs.drop_last());
    }
}

/// The elementwise view of a sequence of headers.
pub open spec fn headers_view(hs: Seq<Header>) -> Seq<HeaderV> {
    Seq::new(hs.len(), |i: int| hs[i]@)
}

impl View for File {
    type V = FileV;

    open spec fn view(&self) -> FileV {
        file_view(*self)
    }
}

/// A whole parsed archive: the two size fields read from the preamble and
/// the top-level entries, in header-list order.
#[derive(Debug, PartialEq, Eq)]
pub struct Archive {
    pub headersize: u64,
    pub filesize: u64,
    pub files: Vec<File>,
}

/// Mathematical view of an [`Archive`].
pub ghost struct ArchiveV {
    pub headersize: u64,
    pub filesize: u64,
    pub files: Seq<FileV>,
}

impl View for Archive {
    type V = ArchiveV;

    open spec fn view(&self) -> ArchiveV {
        ArchiveV {
            headersize: self.headersize,
            filesize: self.filesize,
            files: files_view(self.files@),
        }
    }
}

/// A parsed archive as handed to extraction: the tree alone; the caller
/// keeps hold of the archive bytes the offsets point into.
#[derive(Debug, PartialEq, Eq)]
pub struct ArchiveFile {
    pub archive: Archive,
}

impl View for ArchiveFile {
    type V = ArchiveV;

    open spec fn view(&self) -> ArchiveV {
        self.archive@
    }
}

/// Options of an extraction: the destination directory and whether
/// already-present entries may be replaced.
#[derive(Debug, PartialEq, Eq)]
pub struct ExtractOption {
    pub base_path: Vec<u8>,
    pub replace: bool,
}

impl ExtractOption {
    /// Options for extracting under `path`, replacing existing entries.
    pub fn new(path: Vec<u8>) -> (out: Self)
        ensures
            out.base_path@ == path@,
            out.replace == true,
    {
        ExtractOption { base_path: path, replace: true }
    }

    /// The same options with the replace flag set to `replace`.
    pub fn replace(self, replace: bool) -> (out: Self)
        ensures
            out.base_path@ == self.base_path@,
            out.replace == replace,
    {
        ExtractOption { base_path: self.base_path, replace }
    }
}

} // verus!
