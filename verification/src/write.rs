//! The serializer side: a tree built bottom-up from plain values, its
//! size rules, and the one-pass emission of header and payload bytes.
//!
//! A directory's header-block size is the sum of its direct children's
//! header lengths; its total size is `8 + headerBlockSize + sum of the
//! children's total sizes`.  Sizes are computed once the children are
//! fully sized, never by forward reference.

use vstd::prelude::*;

use crate::codec::encode_header;
use crate::types::{spec_magic, HeaderV};
use crate::utils;
use crate::utils::{is_utf8, u64_be_bytes};

verus! {

/// Error of building or serializing an archive.
#[derive(Debug, PartialEq, Eq)]
pub enum WriteError {
    /// A filename longer than the 31 bytes the 5-bit length field can
    /// carry; holds the offending name.
    FileNameTooLong(Vec<u8>),
    /// A filename that is not well-formed UTF-8; holds the offending
    /// bytes.
    FilenameNotUTF8(Vec<u8>),
    /// A path with no usable final component; holds the path.
    FilenameError(Vec<u8>),
    /// An I/O failure of the caller's reading or writing, carried as its
    /// message.
    IoError(String),
    /// Any other failure, such as sizes that exceed the integer range.
    Unknown,
}

/// One entry of a tree to be serialized: its computed total size, its
/// kind, its name, a file's payload bytes, and a directory's children in
/// the order they will be laid out.
#[derive(Debug, PartialEq, Eq)]
pub struct File {
    pub filesize: u64,
    pub is_file: bool,
    pub filename: Vec<u8>,
    pub content: Vec<u8>,
    pub childs: Vec<File>,
}

/// Mathematical view of a serializer-side [`File`].
pub ghost struct WFileV {
    pub filesize: u64,
    pub is_file: bool,
    pub filename: Seq<u8>,
    pub content: Seq<u8>,
    pub childs: Seq<WFileV>,
}

/// The view of a serializer-side node, children viewed recursively.
pub open spec fn wfile_view(f: File) -> WFileV
    decreases f,
{
    WFileV {
        filesize: f.filesize,
        is_file: f.is_file,
        filename: f.filename@,
        content: f.content@,
        childs: wfiles_view(f.childs@),
    }
}

/// The elementwise view of a sequence of serializer-side nodes.
pub open spec fn wfiles_view(fs: Seq<File>) -> Seq<WFileV>
    decreases fs,
{
    if fs.len() == 0 {
        Seq::empty()
    } else {
        wfiles_view(fs.drop_last()).push(wfile_view(fs.last()))
    }
}

/// `wfiles_view` maps `wfile_view` over the sequence, elementwise.
pub proof fn lemma_wfiles_view(fs: Seq<File>)
    ensures
        wfiles_view(fs).len() == fs.len(),
        forall|i: int| 0 <= i < fs.len() ==> wfiles_view(fs)[i] == wfile_view(fs[i]),
    decreases fs,
{
    if fs.len() > 0 {
        lemma_wfiles_view(fs.drop_last());
    }
}

impl View for File {
    type V = WFileV;

    open spec fn view(&self) -> WFileV {
        wfile_view(*self)
    }
}

impl WFileV {
    /// The header this node serializes to: its name length, zeroed
    /// reserved bits, its kind, and its size.
    pub open spec fn header(self) -> HeaderV {
        HeaderV {
            filename_length: self.filename.len() as u8,
            unused: 0,
            is_file: self.is_file,
            filesize: self.filesize,
            filename: self.filename,
        }
    }
}

/// The byte length of the flat header block describing `fs`: each entry
/// contributes its flags byte, 8 size bytes, and its name.
pub open spec fn spec_headerblock_size(fs: Seq<WFileV>) -> int
    decreases fs,
{
    if fs.len() == 0 {
        0
    } else {
        (9 + fs[0].filename.len()) + spec_headerblock_size(fs.drop_first())
    }
}

/// The total size of one node: a file's payload byte count; for a
/// directory, 8 bytes of nested header-size field, the nested header
/// block, and the children's total sizes.
pub open spec fn spec_size(f: WFileV) -> int
    decreases f,
{
    if f.is_file {
        f.content.len() as int
    } else {
        8 + spec_headerblock_size(f.childs) + spec_sizes_sum(f.childs)
    }
}

/// The sum of the total sizes of the nodes of `fs`.
pub open spec fn spec_sizes_sum(fs: Seq<WFileV>) -> int
    decreases fs,
{
    if fs.len() == 0 {
        0
    } else {
        spec_size(fs[0]) + spec_sizes_sum(fs.drop_first())
    }
}

/// A serializer-side node is well formed when its name fits the 5-bit
/// length budget and is UTF-8, its recorded size is the size the format
/// assigns it, files carry no children, and directories no payload bytes.
pub open spec fn wf_wfile(f: WFileV) -> bool
    decreases f,
{
    &&& f.filename.len() <= 31
    &&& is_utf8(f.filename)
    &&& f.filesize == spec_size(f)
    &&& (f.is_file ==> f.childs.len() == 0)
    &&& (!f.is_file ==> f.content.len() == 0)
    &&& (forall|i: int| 0 <= i < f.childs.len() ==> wf_wfile(#[trigger] f.childs[i]))
}

/// The flat header block of `fs`: each node's header, concatenated in
/// order.
pub open spec fn encode_headerlist(fs: Seq<WFileV>) -> Seq<u8>
    decreases fs,
{
    if fs.len() == 0 {
        Seq::empty()
    } else {
        encode_header(fs[0].header()) + encode_headerlist(fs.drop_first())
    }
}

/// The payload region of one node: a file's bytes; for a directory, its
/// nested header-size field, nested header block, then the children's
/// payload regions in order.
pub open spec fn encode_payload(f: WFileV) -> Seq<u8>
    decreases f,
{
    if f.is_file {
        f.content
    } else {
        u64_be_bytes(spec_headerblock_size(f.childs) as u64) + encode_headerlist(f.childs)
            + encode_payloads(f.childs)
    }
}

/// The concatenated payload regions of the nodes of `fs`, in order.
pub open spec fn encode_payloads(fs: Seq<WFileV>) -> Seq<u8>
    decreases fs,
{
    if fs.len() == 0 {
        Seq::empty()
    } else {
        encode_payload(fs[0]) + encode_payloads(fs.drop_first())
    }
}

/// A whole archive to be serialized: the two recorded size fields and the
/// top-level entries.
#[derive(Debug, PartialEq, Eq)]
pub struct Archive {
    pub headersize: u64,
    pub filesize: u64,
    pub childs: Vec<File>,
}

/// Mathematical view of a serializer-side [`Archive`].
pub ghost struct WArchiveV {
    pub headersize: u64,
    pub filesize: u64,
    pub childs: Seq<WFileV>,
}

impl View for Archive {
    type V = WArchiveV;

    open spec fn view(&self) -> WArchiveV {
        WArchiveV {
            headersize: self.headersize,
            filesize: self.filesize,
            childs: wfiles_view(self.childs@),
        }
    }
}

/// An archive is well formed when its recorded header-block size and
/// total size are those the format assigns and its entries are well
/// formed.
pub open spec fn wf_warchive(a: WArchiveV) -> bool {
    &&& a.headersize == spec_headerblock_size(a.childs)
    &&& a.filesize == 20 + spec_headerblock_size(a.childs) + spec_sizes_sum(a.childs)
    &&& (forall|i: int| 0 <= i < a.childs.len() ==> wf_wfile(#[trigger] a.childs[i]))
}

/// The complete wire form of an archive: magic, the two big-endian size
/// fields, the top-level header block, then the payload regions.
pub open spec fn encode_archive(a: WArchiveV) -> Seq<u8> {
    spec_magic() + u64_be_bytes(a.headersize) + u64_be_bytes(a.filesize) + encode_headerlist(
        a.childs,
    ) + encode_payloads(a.childs)
}

/// Decompositions of the list-valued measures and encodings when one
/// node is appended.
pub proof fn lemma_list_specs_push(fs: Seq<WFileV>, f: WFileV)
    ensures
        spec_headerblock_size(fs.push(f)) == spec_headerblock_size(fs) + 9 + f.filename.len(),
        spec_sizes_sum(fs.push(f)) == spec_sizes_sum(fs) + spec_size(f),
        encode_headerlist(fs.push(f)) == encode_headerlist(fs) + encode_header(f.header()),
        encode_payloads(fs.push(f)) == encode_payloads(fs) + encode_payload(f),
    decreases fs,
{
    if fs.len() == 0 {
        let p = fs.push(f);
        assert(p.drop_first() =~= Seq::<WFileV>::empty());
        assert(p[0] == f);
        assert(spec_headerblock_size(p.drop_first()) == 0);
        assert(spec_sizes_sum(p.drop_first()) == 0);
        assert(encode_headerlist(p.drop_first()) == Seq::<u8>::empty());
        assert(encode_payloads(p.drop_first()) == Seq::<u8>::empty());
        assert(encode_headerlist(p) =~= encode_headerlist(fs) + encode_header(f.header()));
        assert(encode_payloads(p) =~= encode_payloads(fs) + encode_payload(f));
    } else {
        assert(fs.push(f).drop_first() =~= fs.drop_first().push(f));
        assert(fs.push(f)[0] == fs[0]);
        lemma_list_specs_push(fs.drop_first(), f);
        assert(encode_headerlist(fs.push(f)) =~= encode_headerlist(fs) + encode_header(
            f.header(),
        ));
        assert(encode_payloads(fs.push(f)) =~= encode_payloads(fs) + encode_payload(f));
    }
}

/// The list-valued measures and encodings of `fs` split at any index
/// into the part over the first `i` nodes and the part over the rest.
pub proof fn lemma_list_specs_split(fs: Seq<WFileV>, i: int)
    requires
        0 <= i <= fs.len(),
    ensures
        spec_headerblock_size(fs) == spec_headerblock_size(fs.take(i)) + spec_headerblock_size(
            fs.skip(i),
        ),
        spec_sizes_sum(fs) == spec_sizes_sum(fs.take(i)) + spec_sizes_sum(fs.skip(i)),
        encode_headerlist(fs) == encode_headerlist(fs.take(i)) + encode_headerlist(fs.skip(i)),
        encode_payloads(fs) == encode_payloads(fs.take(i)) + encode_payloads(fs.skip(i)),
    decreases i,
{
    if i == 0 {
        assert(fs.take(0) =~= Seq::<WFileV>::empty());
        assert(fs.skip(0) =~= fs);
        assert(encode_headerlist(fs.take(0)) == Seq::<u8>::empty());
        assert(encode_payloads(fs.take(0)) == Seq::<u8>::empty());
        assert(Seq::<u8>::empty() + encode_headerlist(fs) =~= encode_headerlist(fs));
        assert(Seq::<u8>::empty() + encode_payloads(fs) =~= encode_payloads(fs));
    } else {
        lemma_list_specs_split(fs, i - 1);
        lemma_list_specs_push(fs.take(i - 1), fs[i - 1]);
        assert(fs.take(i) =~= fs.take(i - 1).push(fs[i - 1]));
        let sk = fs.skip(i - 1);
        assert(sk[0] == fs[i - 1]);
        assert(sk.drop_first() =~= fs.skip(i));
        assert(spec_headerblock_size(sk) == (9 + fs[i - 1].filename.len())
            + spec_headerblock_size(fs.skip(i)));
        assert(spec_sizes_sum(sk) == spec_size(fs[i - 1]) + spec_sizes_sum(fs.skip(i)));
        assert(encode_headerlist(sk) == encode_header(fs[i - 1].header()) + encode_headerlist(
            fs.skip(i),
        ));
        assert(encode_payloads(sk) == encode_payload(fs[i - 1]) + encode_payloads(fs.skip(i)));
        assert(encode_headerlist(fs) =~= encode_headerlist(fs.take(i)) + encode_headerlist(
            fs.skip(i),
        ));
        assert(encode_payloads(fs) =~= encode_payloads(fs.take(i)) + encode_payloads(fs.skip(i)));
    }
}

/// A node's total size is non-negative, and its parts are bounded by it.
pub proof fn lemma_spec_size_nonneg(f: WFileV)
    ensures
        spec_size(f) >= 0,
        spec_sizes_sum(f.childs) >= 0,
        spec_headerblock_size(f.childs) >= 0,
    decreases f, 1int,
{
    lemma_sizes_sum_nonneg(f.childs);
}

/// The sum of total sizes is non-negative.
pub proof fn lemma_sizes_sum_nonneg(fs: Seq<WFileV>)
    ensures
        spec_sizes_sum(fs) >= 0,
        spec_headerblock_size(fs) >= 0,
    decreases fs, 0int,
{
    if fs.len() > 0 {
        lemma_spec_size_nonneg(fs[0]);
        lemma_sizes_sum_nonneg(fs.drop_first());
    }
}

impl File {
    /// The wire bytes of this entry's header: packed flags byte,
    /// big-endian size, filename.
    pub fn header(&self) -> (out: Vec<u8>)
        requires
            self@.filename.len() <= 31,
        ensures
            out@ == encode_header(self@.header()),
    {
        let flag: u8 = if self.is_file {
            1
        } else {
            0
        };
        let b0: u8 = ((self.filename.len() as u8) << 3) | flag;
        let mut out: Vec<u8> = Vec::new();
        out.push(b0);
        let size_bytes = utils::u64_to_slice(self.filesize);
        utils::push_bytes(&mut out, size_bytes.as_slice());
        utils::push_bytes(&mut out, self.filename.as_slice());
        proof {
            let l: u8 = self@.filename.len() as u8;
            let f: u8 = if self.is_file {
                1u8
            } else {
                0u8
            };
            assert(((l << 3) | f) == ((l << 3) | (0u8 << 1) | f)) by (bit_vector);
            assert(out@ =~= encode_header(self@.header()));
        }
        out
    }

    /// The byte length of this entry's header on the wire.
    pub fn header_len(&self) -> (out: usize)
        requires
            self@.filename.len() <= 31,
        ensures
            out == self@.header().wire_len(),
    {
        1 + 8 + self.filename.len()
    }

    /// The byte length of the flat header block describing this entry's
    /// children.
    pub fn header_size(&self) -> (out: u64)
        requires
            spec_headerblock_size(self@.childs) <= u64::MAX,
        ensures
            out == spec_headerblock_size(self@.childs),
    {
        let ghost cv = self@.childs;
        let mut acc: u64 = 0;
        let mut i: usize = 0;
        proof {
            lemma_wfiles_view(self.childs@);
            assert(cv.take(0) =~= Seq::<WFileV>::empty());
        }
        while i < self.childs.len()
            invariant
                i <= self.childs@.len(),
                cv == wfiles_view(self.childs@),
                cv.len() == self.childs@.len(),
                forall|j: int| 0 <= j < cv.len() ==> cv[j] == wfile_view(self.childs@[j]),
                acc == spec_headerblock_size(cv.take(i as int)),
                spec_headerblock_size(cv) <= u64::MAX,
            decreases self.childs@.len() - i,
        {
            proof {
                lemma_list_specs_split(cv, i as int);
                lemma_sizes_sum_nonneg(cv.take(i as int));
                lemma_sizes_sum_nonneg(cv.skip(i as int));
                let sk = cv.skip(i as int);
                assert(sk[0] == cv[i as int]);
                lemma_sizes_sum_nonneg(sk.drop_first());
                assert(spec_headerblock_size(sk) == (9 + cv[i as int].filename.len())
                    + spec_headerblock_size(sk.drop_first()));
                lemma_list_specs_push(cv.take(i as int), cv[i as int]);
                assert(cv.take(i as int).push(cv[i as int]) =~= cv.take(i as int + 1));
            }
            let child = &self.childs[i];
            acc = acc + 9 + child.filename.len() as u64;
            i = i + 1;
        }
        proof {
            assert(cv.take(cv.len() as int) =~= cv);
        }
        acc
    }

    /// The total size the format assigns this entry, recomputed from its
    /// parts: payload length for a file; `8 + headerBlockSize + sum of
    /// child sizes` for a directory.
    pub fn file_size(&self) -> (out: u64)
        requires
            spec_size(self@) <= u64::MAX,
        ensures
            out == spec_size(self@),
        decreases *self, 1int,
    {
        if self.is_file {
            return self.content.len() as u64;
        }
        let ghost cv = self@.childs;
        proof {
            lemma_sizes_sum_nonneg(cv);
        }
        let hs = self.header_size();
        let mut acc: u64 = 8 + hs;
        let mut i: usize = 0;
        proof {
            lemma_wfiles_view(self.childs@);
            assert(cv.take(0) =~= Seq::<WFileV>::empty());
        }
        while i < self.childs.len()
            invariant
                i <= self.childs@.len(),
                cv == wfiles_view(self.childs@),
                cv.len() == self.childs@.len(),
                forall|j: int| 0 <= j < cv.len() ==> cv[j] == wfile_view(self.childs@[j]),
                acc == 8 + spec_headerblock_size(cv) + spec_sizes_sum(cv.take(i as int)),
                8 + spec_headerblock_size(cv) + spec_sizes_sum(cv) <= u64::MAX,
            decreases self.childs@.len() - i, 0int,
        {
            proof {
                lemma_list_specs_split(cv, i as int);
                lemma_sizes_sum_nonneg(cv.take(i as int));
                let sk = cv.skip(i as int);
                assert(sk[0] == cv[i as int]);
                assert(spec_sizes_sum(sk) == spec_size(cv[i as int]) + spec_sizes_sum(
                    sk.drop_first(),
                ));
                lemma_sizes_sum_nonneg(sk.drop_first());
                lemma_spec_size_nonneg(cv[i as int]);
                lemma_list_specs_push(cv.take(i as int), cv[i as int]);
                assert(cv.take(i as int).push(cv[i as int]) =~= cv.take(i as int + 1));
            }
            let child = &self.childs[i];
            acc = acc + child.file_size();
            i = i + 1;
        }
        proof {
            assert(cv.take(cv.len() as int) =~= cv);
        }
        acc
    }

    /// This entry with its recorded size replaced by the size the format
    /// assigns it, computed from its parts.
    pub fn update_size(self) -> (out: Self)
        requires
            spec_size(self@) <= u64::MAX,
        ensures
            out@ == (WFileV { filesize: spec_size(self@) as u64, ..self@ }),
            spec_size(out@) == spec_size(self@),
            self@.filename.len() <= 31 && is_utf8(self@.filename) && (self@.is_file
                ==> self@.childs.len() == 0) && (!self@.is_file ==> self@.content.len() == 0) && (
            forall|i: int| 0 <= i < self@.childs.len() ==> wf_wfile(#[trigger] self@.childs[i]))
                ==> wf_wfile(out@),
    {
        let size = self.file_size();
        let out = File { filesize: size, ..self };
        proof {
            assert(out@.childs == self@.childs);
        }
        out
    }

    /// Build one entry from its parts, validating the filename and
    /// computing the entry's size bottom-up from the already-sized
    /// children.  A name longer than 31 bytes is rejected before
    /// anything else; then a name that is not UTF-8; a size beyond the
    /// integer range yields `Unknown`.
    pub fn from_parts(filename: Vec<u8>, is_file: bool, content: Vec<u8>, childs: Vec<File>) -> (out:
        Result<File, WriteError>)
        requires
            forall|i: int|
                0 <= i < childs@.len() ==> wf_wfile(#[trigger] wfiles_view(childs@)[i]),
            is_file ==> childs@.len() == 0,
            !is_file ==> content@.len() == 0,
        ensures
            ({
                let target = WFileV {
                    filesize: 0,
                    is_file,
                    filename: filename@,
                    content: content@,
                    childs: wfiles_view(childs@),
                };
                match out {
                    Ok(f) => filename@.len() <= 31 && is_utf8(filename@) && spec_size(target)
                        <= u64::MAX && f@ == (WFileV {
                        filesize: spec_size(target) as u64,
                        ..target
                    }) && wf_wfile(f@),
                    Err(WriteError::FileNameTooLong(n)) => filename@.len() > 31 && n@ == filename@,
                    Err(WriteError::FilenameNotUTF8(n)) => filename@.len() <= 31 && !is_utf8(
                        filename@,
                    ) && n@ == filename@,
                    Err(WriteError::Unknown) => filename@.len() <= 31 && is_utf8(filename@)
                        && spec_size(target) > u64::MAX,
                    _ => false,
                }
            }),
    {
        if filename.len() > 31 {
            return Err(WriteError::FileNameTooLong(filename));
        }
        if !utils::utf8_check(filename.as_slice()) {
            return Err(WriteError::FilenameNotUTF8(filename));
        }
        let ghost cv = wfiles_view(childs@);
        let ghost target = WFileV {
            filesize: 0u64,
            is_file,
            filename: filename@,
            content: content@,
            childs: cv,
        };
        if is_file {
            let size = content.len() as u64;
            let out = File { filesize: size, is_file, filename, content, childs };
            proof {
                assert(out@.childs == cv);
            }
            Ok(out)
        } else {
            // bottom-up: each child is already sized, so its recorded
            // size is its true size and only the checked sums remain
            let mut acc: u64 = 8;
            let mut i: usize = 0;
            proof {
                lemma_wfiles_view(childs@);
                assert(cv.take(0) =~= Seq::<WFileV>::empty());
            }
            while i < childs.len()
                invariant
                    i <= childs@.len(),
                    !is_file,
                    filename@.len() <= 31,
                    is_utf8(filename@),
                    target == (WFileV {
                        filesize: 0u64,
                        is_file,
                        filename: filename@,
                        content: content@,
                        childs: cv,
                    }),
                    cv == wfiles_view(childs@),
                    cv.len() == childs@.len(),
                    forall|j: int| 0 <= j < cv.len() ==> cv[j] == wfile_view(childs@[j]),
                    forall|j: int| 0 <= j < cv.len() ==> wf_wfile(#[trigger] cv[j]),
                    acc == 8 + spec_headerblock_size(cv.take(i as int)) + spec_sizes_sum(
                        cv.take(i as int),
                    ),
                decreases childs@.len() - i,
            {
                proof {
                    lemma_list_specs_push(cv.take(i as int), cv[i as int]);
                    assert(cv.take(i as int).push(cv[i as int]) =~= cv.take(i as int + 1));
                    lemma_list_specs_split(cv, i as int + 1);
                    lemma_sizes_sum_nonneg(cv.skip(i as int + 1));
                    assert(cv[i as int].filesize == spec_size(cv[i as int]));
                    assert(spec_size(target) == 8 + spec_headerblock_size(cv) + spec_sizes_sum(
                        cv,
                    ));
                    assert(spec_size(target) >= acc + 9 + cv[i as int].filename.len() + cv[
                        i as int
                    ].filesize);
                }
                let child = &childs[i];
                let step = match (9u64 + child.filename.len() as u64).checked_add(child.filesize) {
                    Some(s) => s,
                    None => {
                        return Err(WriteError::Unknown);
                    },
                };
                acc = match acc.checked_add(step) {
                    Some(s) => s,
                    None => {
                        return Err(WriteError::Unknown);
                    },
                };
                i = i + 1;
            }
            proof {
                assert(cv.take(cv.len() as int) =~= cv);
                assert(spec_size(target) == 8 + spec_headerblock_size(cv) + spec_sizes_sum(cv));
            }
            let out = File { filesize: acc, is_file, filename, content, childs };
            proof {
                assert(out@.childs == cv);
            }
            Ok(out)
        }
    }
}

impl File {
    /// Append this entry's payload region to `buffer`: a file's bytes
    /// verbatim; for a directory, its nested header-size field, the flat
    /// header block of its children, then each child's payload region in
    /// order.
    pub fn write_to_buf(&self, buffer: &mut Vec<u8>)
        requires
            wf_wfile(self@),
        ensures
            final(buffer)@ == old(buffer)@ + encode_payload(self@),
        decreases *self,
    {
        let ghost orig = buffer@;
        if self.is_file {
            utils::push_bytes(buffer, self.content.as_slice());
            return ;
        }
        let ghost cv = self@.childs;
        proof {
            lemma_sizes_sum_nonneg(cv);
            lemma_spec_size_nonneg(self@);
        }
        let hs = self.header_size();
        let hs_bytes = utils::u64_to_slice(hs);
        utils::push_bytes(buffer, hs_bytes.as_slice());
        let ghost after_size = orig + u64_be_bytes(spec_headerblock_size(cv) as u64);
        let mut i: usize = 0;
        proof {
            lemma_wfiles_view(self.childs@);
            assert(cv.take(0) =~= Seq::<WFileV>::empty());
            assert(after_size + encode_headerlist(cv.take(0)) =~= after_size);
        }
        while i < self.childs.len()
            invariant
                i <= self.childs@.len(),
                cv == wfiles_view(self.childs@),
                cv.len() == self.childs@.len(),
                forall|j: int| 0 <= j < cv.len() ==> cv[j] == wfile_view(self.childs@[j]),
                forall|j: int| 0 <= j < cv.len() ==> wf_wfile(#[trigger] cv[j]),
                buffer@ == after_size + encode_headerlist(cv.take(i as int)),
            decreases self.childs@.len() - i,
        {
            proof {
                lemma_list_specs_push(cv.take(i as int), cv[i as int]);
                assert(cv.take(i as int).push(cv[i as int]) =~= cv.take(i as int + 1));
            }
            let child = &self.childs[i];
            let h = child.header();
            utils::push_bytes(buffer, h.as_slice());
            proof {
                assert(buffer@ =~= after_size + encode_headerlist(cv.take(i as int + 1)));
            }
            i = i + 1;
        }
        proof {
            assert(cv.take(cv.len() as int) =~= cv);
        }
        let ghost after_headers = buffer@;
        proof {
            assert(encode_payloads(cv.take(0)) == Seq::<u8>::empty());
            assert(after_headers + encode_payloads(cv.take(0)) =~= after_headers);
        }
        let mut i: usize = 0;
        while i < self.childs.len()
            invariant
                i <= self.childs@.len(),
                cv == wfiles_view(self.childs@),
                cv.len() == self.childs@.len(),
                forall|j: int| 0 <= j < cv.len() ==> cv[j] == wfile_view(self.childs@[j]),
                forall|j: int| 0 <= j < cv.len() ==> wf_wfile(#[trigger] cv[j]),
                buffer@ == after_headers + encode_payloads(cv.take(i as int)),
            decreases self.childs@.len() - i,
        {
            proof {
                lemma_list_specs_push(cv.take(i as int), cv[i as int]);
                assert(cv.take(i as int).push(cv[i as int]) =~= cv.take(i as int + 1));
            }
            let child = &self.childs[i];
            child.write_to_buf(buffer);
            proof {
                assert(buffer@ =~= after_headers + encode_payloads(cv.take(i as int + 1)));
            }
            i = i + 1;
        }
        proof {
            assert(cv.take(cv.len() as int) =~= cv);
            assert(buffer@ =~= orig + encode_payload(self@));
        }
    }
}

impl Archive {
    /// Wrap already-built top-level entries as an archive, recording the
    /// header-block size and total archive size the format assigns; sizes
    /// beyond the integer range yield `Unknown`.
    pub fn from_childs(childs: Vec<File>) -> (out: Result<Archive, WriteError>)
        requires
            forall|i: int|
                0 <= i < childs@.len() ==> wf_wfile(#[trigger] wfiles_view(childs@)[i]),
        ensures
            ({
                let cv = wfiles_view(childs@);
                match out {
                    Ok(a) => 20 + spec_headerblock_size(cv) + spec_sizes_sum(cv) <= u64::MAX
                        && a@ == (WArchiveV {
                        headersize: spec_headerblock_size(cv) as u64,
                        filesize: (20 + spec_headerblock_size(cv) + spec_sizes_sum(cv)) as u64,
                        childs: cv,
                    }) && wf_warchive(a@),
                    Err(WriteError::Unknown) => 20 + spec_headerblock_size(cv) + spec_sizes_sum(cv)
                        > u64::MAX,
                    _ => false,
                }
            }),
    {
        let ghost cv = wfiles_view(childs@);
        let mut hacc: u64 = 0;
        let mut sacc: u64 = 20;
        let mut i: usize = 0;
        proof {
            lemma_wfiles_view(childs@);
            assert(cv.take(0) =~= Seq::<WFileV>::empty());
        }
        while i < childs.len()
            invariant
                i <= childs@.len(),
                cv == wfiles_view(childs@),
                cv.len() == childs@.len(),
                forall|j: int| 0 <= j < cv.len() ==> cv[j] == wfile_view(childs@[j]),
                forall|j: int| 0 <= j < cv.len() ==> wf_wfile(#[trigger] cv[j]),
                hacc == spec_headerblock_size(cv.take(i as int)),
                sacc == 20 + spec_headerblock_size(cv.take(i as int)) + spec_sizes_sum(
                    cv.take(i as int),
                ),
                hacc <= sacc,
            decreases childs@.len() - i,
        {
            proof {
                lemma_list_specs_push(cv.take(i as int), cv[i as int]);
                assert(cv.take(i as int).push(cv[i as int]) =~= cv.take(i as int + 1));
                lemma_list_specs_split(cv, i as int + 1);
                lemma_sizes_sum_nonneg(cv.skip(i as int + 1));
                lemma_sizes_sum_nonneg(cv.take(i as int));
                assert(cv[i as int].filesize == spec_size(cv[i as int]));
            }
            let child = &childs[i];
            let step = match (9u64 + child.filename.len() as u64).checked_add(child.filesize) {
                Some(s) => s,
                None => {
                    return Err(WriteError::Unknown);
                },
            };
            sacc = match sacc.checked_add(step) {
                Some(s) => s,
                None => {
                    return Err(WriteError::Unknown);
                },
            };
            hacc = hacc + 9 + child.filename.len() as u64;
            i = i + 1;
        }
        proof {
            assert(cv.take(cv.len() as int) =~= cv);
        }
        let out = Archive { headersize: hacc, filesize: sacc, childs };
        proof {
            assert(out@.childs == cv);
        }
        Ok(out)
    }

    /// The complete wire bytes of this archive: magic, the two size
    /// fields, the top-level header block, then the payload regions.
    pub fn to_bytes(&self) -> (out: Vec<u8>)
        requires
            wf_warchive(self@),
        ensures
            out@ == encode_archive(self@),
    {
        let ghost cv = self@.childs;
        let mut out: Vec<u8> = Vec::new();
        out.push(0x4B);
        out.push(0x4C);
        out.push(0x55);
        out.push(0x00);
        proof {
            assert(out@ =~= spec_magic());
            lemma_sizes_sum_nonneg(cv);
        }
        let hs_bytes = utils::u64_to_slice(self.headersize);
        utils::push_bytes(&mut out, hs_bytes.as_slice());
        let fs_bytes = utils::u64_to_slice(self.filesize);
        utils::push_bytes(&mut out, fs_bytes.as_slice());
        let ghost after_sizes = out@;
        let mut i: usize = 0;
        proof {
            lemma_wfiles_view(self.childs@);
            assert(cv.take(0) =~= Seq::<WFileV>::empty());
            assert(after_sizes + encode_headerlist(cv.take(0)) =~= after_sizes);
        }
        while i < self.childs.len()
            invariant
                i <= self.childs@.len(),
                cv == wfiles_view(self.childs@),
                cv.len() == self.childs@.len(),
                forall|j: int| 0 <= j < cv.len() ==> cv[j] == wfile_view(self.childs@[j]),
                forall|j: int| 0 <= j < cv.len() ==> wf_wfile(#[trigger] cv[j]),
                out@ == after_sizes + encode_headerlist(cv.take(i as int)),
            decreases self.childs@.len() - i,
        {
            proof {
                lemma_list_specs_push(cv.take(i as int), cv[i as int]);
                assert(cv.take(i as int).push(cv[i as int]) =~= cv.take(i as int + 1));
            }
            let child = &self.childs[i];
            let h = child.header();
            utils::push_bytes(&mut out, h.as_slice());
            proof {
                assert(out@ =~= after_sizes + encode_headerlist(cv.take(i as int + 1)));
            }
            i = i + 1;
        }
        proof {
            assert(cv.take(cv.len() as int) =~= cv);
        }
        let ghost after_headers = out@;
        proof {
            assert(encode_payloads(cv.take(0)) == Seq::<u8>::empty());
            assert(after_headers + encode_payloads(cv.take(0)) =~= after_headers);
        }
        let mut i: usize = 0;
        while i < self.childs.len()
            invariant
                i <= self.childs@.len(),
                cv == wfiles_view(self.childs@),
                cv.len() == self.childs@.len(),
                forall|j: int| 0 <= j < cv.len() ==> cv[j] == wfile_view(self.childs@[j]),
                forall|j: int| 0 <= j < cv.len() ==> wf_wfile(#[trigger] cv[j]),
                out@ == after_headers + encode_payloads(cv.take(i as int)),
            decreases self.childs@.len() - i,
        {
            proof {
                lemma_list_specs_push(cv.take(i as int), cv[i as int]);
                assert(cv.take(i as int).push(cv[i as int]) =~= cv.take(i as int + 1));
            }
            let child = &self.childs[i];
            child.write_to_buf(&mut out);
            proof {
                assert(out@ =~= after_headers + encode_payloads(cv.take(i as int + 1)));
            }
            i = i + 1;
        }
        proof {
            assert(cv.take(cv.len() as int) =~= cv);
            assert(out@ =~= encode_archive(self@));
        }
        out
    }
}

} // verus!
