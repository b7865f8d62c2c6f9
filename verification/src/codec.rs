//! The specification of the archive format: what each region of a byte
//! buffer denotes, as total functions over byte sequences.
//!
//! The executable parser of [`crate::read`] returns exactly what these
//! functions denote; the serializer of [`crate::write`] emits exactly the
//! bytes that [`encode_header`] and its companions describe.

use vstd::prelude::*;

use crate::read::ReadError;
use crate::types::{spec_magic, ArchiveV, FileV, Header, HeaderV};
use crate::utils::{
    be_u32_of, be_u64_of, filename_length_of, is_file_of, is_utf8, pack_flags, unused_of,
    u64_be_bytes,
};

verus! {

/// The wire bytes of one header: the packed flags byte, the 8-byte
/// big-endian size, then the filename bytes.
pub open spec fn encode_header(h: HeaderV) -> Seq<u8>
    recommends
        h.wf(),
{
    seq![pack_flags(h.filename_length, h.unused, h.is_file)] + u64_be_bytes(h.filesize)
        + h.filename
}

/// The 4 bytes reported by a failed magic match: the 4 bytes present, or
/// all-ones when fewer than 4 bytes remain.
pub open spec fn magic_found(s: Seq<u8>, pos: int) -> u32 {
    if pos + 4 <= s.len() {
        be_u32_of(s.subrange(pos, pos + 4))
    } else {
        0xFFFFFFFFu32
    }
}

/// Match the 4 magic bytes at `pos`; the new position on success.
pub open spec fn spec_parse_magic(s: Seq<u8>, pos: int) -> Result<int, ReadError>
    recommends
        0 <= pos <= s.len(),
{
    if pos + 4 <= s.len() && s.subrange(pos, pos + 4) == spec_magic() {
        Ok(pos + 4)
    } else {
        Err(ReadError::WrongMagic(magic_found(s, pos), pos as u64))
    }
}

/// Decode one header at `pos`, reading no byte at `end` or beyond; the
/// header denoted and the position just past it on success.
pub open spec fn spec_parse_header(s: Seq<u8>, pos: int, end: int) -> Result<
    (HeaderV, int),
    ReadError,
>
    recommends
        0 <= pos <= end <= s.len(),
{
    if pos + 1 > end {
        Err(ReadError::MissingHeaderInfoByte(pos as u64))
    } else {
        let b0 = s[pos];
        if pos + 9 > end {
            Err(ReadError::MissingHeaderFileSize(pos as u64))
        } else {
            let filesize = be_u64_of(s.subrange(pos + 1, pos + 9));
            let namelen = filename_length_of(b0) as int;
            if pos + 9 + namelen > end {
                Err(ReadError::Unknown(pos as u64))
            } else {
                let name = s.subrange(pos + 9, pos + 9 + namelen);
                if !is_utf8(name) {
                    Err(ReadError::IllegalFilename(pos as u64))
                } else {
                    Ok(
                        (
                            HeaderV {
                                filename_length: filename_length_of(b0),
                                unused: unused_of(b0),
                                is_file: is_file_of(b0),
                                filesize,
                                filename: name,
                            },
                            pos + 9 + namelen,
                        ),
                    )
                }
            }
        }
    }
}

/// Decode the flat header list filling `[pos, end)` exactly.
pub open spec fn spec_parse_headerlist(s: Seq<u8>, pos: int, end: int) -> Result<
    Seq<HeaderV>,
    ReadError,
>
    recommends
        0 <= pos <= end <= s.len(),
    decreases end - pos,
{
    if pos >= end {
        Ok(Seq::empty())
    } else {
        match spec_parse_header(s, pos, end) {
            Err(e) => Err(e),
            Ok((h, p2)) => match spec_parse_headerlist(s, p2, end) {
                Err(e) => Err(e),
                Ok(rest) => Ok(seq![h] + rest),
            },
        }
    }
}

/// Decode the payload region of one entry whose header is `h`, starting
/// at cursor `pos`, with `offset` the entry's absolute payload position:
/// a file's bytes are skipped, a directory's nested header-size field and
/// header block are read and its children decoded recursively.
pub open spec fn spec_parse_file(s: Seq<u8>, pos: int, h: HeaderV, offset: u64) -> Result<
    (FileV, int),
    ReadError,
>
    recommends
        0 <= pos <= s.len(),
    decreases s.len() - pos, 0int,
{
    if h.is_file {
        if pos + h.filesize > s.len() {
            Err(ReadError::FileJump(h.filesize, pos as u64))
        } else {
            Ok((FileV { header: h, absolute_offset: offset, childs: Seq::empty() }, pos
                + h.filesize))
        }
    } else {
        if pos + 8 > s.len() {
            Err(ReadError::MissingFileInfo(pos as u64))
        } else {
            let hsize = be_u64_of(s.subrange(pos, pos + 8)) as int;
            if pos + 8 + hsize > s.len() {
                Err(ReadError::IncompleteHeader(hsize as u64, (pos + 8) as u64))
            } else {
                match spec_parse_headerlist(s, pos + 8, pos + 8 + hsize) {
                    Err(e) => Err(e),
                    Ok(hs) => {
                        if offset + 8 + hsize > u64::MAX {
                            Err(ReadError::Unknown(pos as u64))
                        } else {
                            match spec_parse_filelist(
                                s,
                                pos + 8 + hsize,
                                hs,
                                (offset + 8 + hsize) as u64,
                            ) {
                                Err(e) => Err(e),
                                Ok((childs, p2)) => Ok(
                                    (FileV { header: h, absolute_offset: offset, childs }, p2),
                                ),
                            }
                        }
                    },
                }
            }
        }
    }
}

/// Decode the payload regions of the entries listed in `hs`, in order,
/// pairing each with its running absolute offset: after each entry the
/// offset advances by that entry's declared size.
pub open spec fn spec_parse_filelist(
    s: Seq<u8>,
    pos: int,
    hs: Seq<HeaderV>,
    offset: u64,
) -> Result<(Seq<FileV>, int), ReadError>
    recommends
        0 <= pos <= s.len(),
    decreases s.len() - pos, hs.len() + 1,
{
    if hs.len() == 0 {
        Ok((Seq::empty(), pos))
    } else {
        match spec_parse_file(s, pos, hs[0], offset) {
            Err(e) => Err(e),
            Ok((f, p2)) => {
                if p2 < pos || p2 > s.len() {
                    // Never taken: a parse consumes forward and stays in
                    // bounds (lemma_spec_parse_bounds); stated so that the
                    // recursion is visibly well founded.
                    Err(ReadError::Unknown(#[verifier::truncate] (pos as u64)))
                } else if offset + hs[0].filesize > u64::MAX {
                    Err(ReadError::Unknown(#[verifier::truncate] (p2 as u64)))
                } else {
                    match spec_parse_filelist(
                        s,
                        p2,
                        hs.drop_first(),
                        (offset + hs[0].filesize) as u64,
                    ) {
                        Err(e) => Err(e),
                        Ok((fs, p3)) => Ok((seq![f] + fs, p3)),
                    }
                }
            },
        }
    }
}

/// Decode a whole archive buffer: magic, the two 8-byte size fields, the
/// top-level header block, then the payload walk of the top-level entries.
pub open spec fn spec_parse_archive(s: Seq<u8>) -> Result<(ArchiveV, int), ReadError> {
    match spec_parse_magic(s, 0) {
        Err(e) => Err(e),
        Ok(_) => {
            if s.len() < 12 {
                Err(ReadError::MissingArchiveInfo(4))
            } else {
                let headersize = be_u64_of(s.subrange(4, 12));
                if s.len() < 20 {
                    Err(ReadError::MissingArchiveInfo(12))
                } else {
                    let filesize = be_u64_of(s.subrange(12, 20));
                    if 20 + headersize > s.len() {
                        Err(ReadError::IncompleteHeader(headersize, 20))
                    } else if 20 + headersize > u64::MAX {
                        Err(ReadError::Unknown(20))
                    } else {
                        match spec_parse_headerlist(s, 20, 20 + headersize) {
                            Err(e) => Err(e),
                            Ok(hs) => match spec_parse_filelist(
                                s,
                                20 + headersize,
                                hs,
                                (20 + headersize) as u64,
                            ) {
                                Err(e) => Err(e),
                                Ok((files, p2)) => Ok(
                                    (ArchiveV { headersize, filesize, files }, p2),
                                ),
                            },
                        }
                    }
                }
            }
        },
    }
}

/// Prepend already-parsed headers to the outcome of parsing the rest.
pub open spec fn headerlist_append(pre: Seq<HeaderV>, r: Result<Seq<HeaderV>, ReadError>) -> Result<
    Seq<HeaderV>,
    ReadError,
> {
    match r {
        Ok(hs) => Ok(pre + hs),
        Err(e) => Err(e),
    }
}

/// Prepend already-parsed entries to the outcome of parsing the rest.
pub open spec fn filelist_append(pre: Seq<FileV>, r: Result<(Seq<FileV>, int), ReadError>) -> Result<
    (Seq<FileV>, int),
    ReadError,
> {
    match r {
        Ok((fs, p)) => Ok((pre + fs, p)),
        Err(e) => Err(e),
    }
}

/// A successful parse of one entry's payload region only moves the cursor
/// forward and never past the end of the buffer.
pub proof fn lemma_spec_parse_file_bounds(s: Seq<u8>, pos: int, h: HeaderV, offset: u64)
    requires
        0 <= pos <= s.len(),
    ensures
        spec_parse_file(s, pos, h, offset) matches Ok(r) ==> pos <= r.1 <= s.len(),
    decreases s.len() - pos, 0int,
{
    if !h.is_file && pos + 8 <= s.len() {
        let hsize = be_u64_of(s.subrange(pos, pos + 8)) as int;
        if pos + 8 + hsize <= s.len() {
            if let Ok(hs) = spec_parse_headerlist(s, pos + 8, pos + 8 + hsize) {
                if offset + 8 + hsize <= u64::MAX {
                    lemma_spec_parse_filelist_bounds(
                        s,
                        pos + 8 + hsize,
                        hs,
                        (offset + 8 + hsize) as u64,
                    );
                }
            }
        }
    }
}

/// A successful walk of a header list's payload regions only moves the
/// cursor forward and never past the end of the buffer.
pub proof fn lemma_spec_parse_filelist_bounds(s: Seq<u8>, pos: int, hs: Seq<HeaderV>, offset: u64)
    requires
        0 <= pos <= s.len(),
    ensures
        spec_parse_filelist(s, pos, hs, offset) matches Ok(r) ==> pos <= r.1 <= s.len(),
    decreases s.len() - pos, hs.len() + 1,
{
    if hs.len() > 0 {
        lemma_spec_parse_file_bounds(s, pos, hs[0], offset);
        if let Ok((f, p2)) = spec_parse_file(s, pos, hs[0], offset) {
            if pos <= p2 <= s.len() && offset + hs[0].filesize <= u64::MAX {
                lemma_spec_parse_filelist_bounds(
                    s,
                    p2,
                    hs.drop_first(),
                    (offset + hs[0].filesize) as u64,
                );
            }
        }
    }
}

/// The view of an executable header-parse result.
pub open spec fn header_result_view(r: Result<(Header, usize), ReadError>) -> Result<
    (HeaderV, int),
    ReadError,
> {
    match r {
        Ok((h, p)) => Ok((h@, p as int)),
        Err(e) => Err(e),
    }
}

/// The view of an executable header-list-parse result.
pub open spec fn headerlist_result_view(r: Result<Vec<Header>, ReadError>) -> Result<
    Seq<HeaderV>,
    ReadError,
> {
    match r {
        Ok(hs) => Ok(crate::types::headers_view(hs@)),
        Err(e) => Err(e),
    }
}

/// The view of an executable file-parse result.
pub open spec fn file_result_view(r: Result<(crate::types::File, usize), ReadError>) -> Result<
    (FileV, int),
    ReadError,
> {
    match r {
        Ok((f, p)) => Ok((f@, p as int)),
        Err(e) => Err(e),
    }
}

/// The view of an executable file-list-parse result.
pub open spec fn filelist_result_view(
    r: Result<(Vec<crate::types::File>, usize), ReadError>,
) -> Result<(Seq<FileV>, int), ReadError> {
    match r {
        Ok((fs, p)) => Ok((crate::types::files_view(fs@), p as int)),
        Err(e) => Err(e),
    }
}

/// The view of an executable archive-parse result.
pub open spec fn archive_result_view(
    r: Result<(crate::types::Archive, usize), ReadError>,
) -> Result<(ArchiveV, int), ReadError> {
    match r {
        Ok((a, p)) => Ok((a@, p as int)),
        Err(e) => Err(e),
    }
}

/// The header list a serializer-side tree level presents: each node's
/// header, in order.
pub open spec fn wheaders_of(fs: Seq<crate::write::WFileV>) -> Seq<HeaderV> {
    Seq::new(fs.len(), |i: int| fs[i].header())
}

/// The read-side tree that a serializer-side node denotes once laid out
/// with its payload at absolute position `offset`.
pub open spec fn rfile_of(f: crate::write::WFileV, offset: int) -> FileV
    decreases f,
{
    FileV {
        header: f.header(),
        absolute_offset: offset as u64,
        childs: if f.is_file {
            Seq::empty()
        } else {
            rfiles_of(f.childs, offset + 8 + crate::write::spec_headerblock_size(f.childs))
        },
    }
}

/// The read-side nodes a serializer-side level denotes, each placed after
/// the sizes of those before it, starting at absolute position `start`.
pub open spec fn rfiles_of(fs: Seq<crate::write::WFileV>, start: int) -> Seq<FileV>
    decreases fs,
{
    if fs.len() == 0 {
        Seq::empty()
    } else {
        seq![rfile_of(fs[0], start)] + rfiles_of(
            fs.drop_first(),
            start + crate::write::spec_size(fs[0]),
        )
    }
}

/// A read-side tree carries the same filenames, kinds, sizes and child
/// order as a serializer-side tree (offsets and payload bytes aside).
pub open spec fn matches_tree(w: crate::write::WFileV, r: FileV) -> bool
    decreases w,
{
    &&& r.header == w.header()
    &&& r.childs.len() == w.childs.len()
    &&& (forall|i: int|
        0 <= i < w.childs.len() ==> matches_tree(#[trigger] w.childs[i], r.childs[i]))
}

/// The encodings are as long as the sizes the format records: one node's
/// payload region is `spec_size` bytes long.
pub proof fn lemma_encode_payload_len(f: crate::write::WFileV)
    ensures
        crate::write::encode_payload(f).len() == crate::write::spec_size(f),
    decreases f,
{
    if !f.is_file {
        lemma_encode_list_len(f.childs);
    }
}

/// A level's header block is `spec_headerblock_size` bytes long and its
/// payload regions together `spec_sizes_sum` bytes.
pub proof fn lemma_encode_list_len(fs: Seq<crate::write::WFileV>)
    ensures
        crate::write::encode_headerlist(fs).len() == crate::write::spec_headerblock_size(fs),
        crate::write::encode_payloads(fs).len() == crate::write::spec_sizes_sum(fs),
    decreases fs,
{
    if fs.len() > 0 {
        lemma_encode_payload_len(fs[0]);
        lemma_encode_list_len(fs.drop_first());
    }
}

/// Parsing the encoding of one well-formed header at its position yields
/// that header back, reserved bits included.
pub proof fn lemma_parse_encode_header(s: Seq<u8>, pos: int, end: int, h: HeaderV)
    requires
        h.wf(),
        is_utf8(h.filename),
        0 <= pos,
        pos + h.wire_len() <= end <= s.len(),
        s.subrange(pos, pos + h.wire_len()) == encode_header(h),
    ensures
        spec_parse_header(s, pos, end) == Ok::<(HeaderV, int), ReadError>((
            h,
            pos + h.wire_len(),
        )),
{
    let e = encode_header(h);
    let b0 = pack_flags(h.filename_length, h.unused, h.is_file);
    crate::utils::lemma_pack_flags(h.filename_length, h.unused, h.is_file, 0);
    crate::utils::lemma_u64_be_bytes_round(h.filesize);
    assert(e.len() == h.wire_len());
    assert(e[0] == b0);
    assert(s.subrange(pos, pos + h.wire_len())[0] == s[pos]);
    assert(s[pos] == b0);
    assert(filename_length_of(b0) == h.filename_length);
    assert(unused_of(b0) == h.unused);
    assert(is_file_of(b0) == h.is_file);
    let namelen = h.filename.len() as int;
    assert forall|k: int| 0 <= k < 8 implies s[pos + 1 + k] == u64_be_bytes(h.filesize)[k] by {
        assert(s.subrange(pos, pos + h.wire_len())[1 + k] == s[pos + 1 + k]);
        assert(e[1 + k] == u64_be_bytes(h.filesize)[k]);
    }
    assert(s.subrange(pos + 1, pos + 9) =~= u64_be_bytes(h.filesize));
    assert(be_u64_of(s.subrange(pos + 1, pos + 9)) == h.filesize);
    assert forall|k: int| 0 <= k < namelen implies s[pos + 9 + k] == h.filename[k] by {
        assert(s.subrange(pos, pos + h.wire_len())[9 + k] == s[pos + 9 + k]);
        assert(e[9 + k] == h.filename[k]);
    }
    assert(s.subrange(pos + 9, pos + 9 + namelen) =~= h.filename);
    assert(spec_parse_header(s, pos, end) == Ok::<(HeaderV, int), ReadError>((
        HeaderV {
            filename_length: filename_length_of(b0),
            unused: unused_of(b0),
            is_file: is_file_of(b0),
            filesize: h.filesize,
            filename: h.filename,
        },
        pos + 9 + namelen,
    )));
}

/// Parsing the encoded header block of a well-formed level yields exactly
/// that level's headers.
pub proof fn lemma_parse_encode_headerlist(s: Seq<u8>, pos: int, fs: Seq<crate::write::WFileV>)
    requires
        forall|i: int| 0 <= i < fs.len() ==> crate::write::wf_wfile(#[trigger] fs[i]),
        0 <= pos,
        pos + crate::write::spec_headerblock_size(fs) <= s.len(),
        s.subrange(pos, pos + crate::write::spec_headerblock_size(fs))
            == crate::write::encode_headerlist(fs),
    ensures
        spec_parse_headerlist(s, pos, pos + crate::write::spec_headerblock_size(fs)) == Ok::<
            Seq<HeaderV>,
            ReadError,
        >(wheaders_of(fs)),
    decreases fs,
{
    let hbs = crate::write::spec_headerblock_size(fs);
    let end = pos + hbs;
    crate::write::lemma_sizes_sum_nonneg(fs);
    if fs.len() == 0 {
        assert(wheaders_of(fs) =~= Seq::<HeaderV>::empty());
    } else {
        let f0 = fs[0];
        let h = f0.header();
        let hlen = 9 + f0.filename.len() as int;
        let rest = fs.drop_first();
        crate::write::lemma_sizes_sum_nonneg(rest);
        assert(h.wf());
        assert(h.wire_len() == hlen);
        let e = crate::write::encode_headerlist(fs);
        assert(e == encode_header(h) + crate::write::encode_headerlist(rest));
        lemma_encode_list_len(rest);
        assert(encode_header(h).len() == hlen);
        assert forall|k: int| 0 <= k < hlen implies s[pos + k] == encode_header(h)[k] by {
            assert(s.subrange(pos, end)[k] == s[pos + k]);
            assert(e[k] == encode_header(h)[k]);
        }
        assert(s.subrange(pos, pos + hlen) =~= encode_header(h));
        lemma_parse_encode_header(s, pos, end, h);
        let hbs2 = crate::write::spec_headerblock_size(rest);
        assert forall|k: int| 0 <= k < hbs2 implies s[pos + hlen + k]
            == crate::write::encode_headerlist(rest)[k] by {
            assert(s.subrange(pos, end)[hlen + k] == s[pos + hlen + k]);
            assert(e[hlen + k] == crate::write::encode_headerlist(rest)[k]);
        }
        assert(s.subrange(pos + hlen, pos + hlen + hbs2) =~= crate::write::encode_headerlist(
            rest,
        ));
        lemma_parse_encode_headerlist(s, pos + hlen, rest);
        assert(spec_parse_headerlist(s, pos + hlen, end) == Ok::<Seq<HeaderV>, ReadError>(
            wheaders_of(rest),
        ));
        assert(seq![h] + wheaders_of(rest) =~= wheaders_of(fs));
    }
}

/// Parsing the encoded payload region of one well-formed node, with its
/// own header in hand, reconstructs that node's read-side tree and stops
/// exactly at the region's end.
pub proof fn lemma_parse_encode_file(s: Seq<u8>, pos: int, f: crate::write::WFileV, offset: u64)
    requires
        crate::write::wf_wfile(f),
        0 <= pos,
        pos + crate::write::spec_size(f) <= s.len(),
        offset + crate::write::spec_size(f) <= u64::MAX,
        s.subrange(pos, pos + crate::write::spec_size(f)) == crate::write::encode_payload(f),
    ensures
        spec_parse_file(s, pos, f.header(), offset) == Ok::<(FileV, int), ReadError>((
            rfile_of(f, offset as int),
            pos + crate::write::spec_size(f),
        )),
    decreases f,
{
    let size = crate::write::spec_size(f);
    if f.is_file {
        assert(f.header().filesize == size);
        assert(rfile_of(f, offset as int).childs =~= Seq::<FileV>::empty());
    } else {
        let cs = f.childs;
        let hbs = crate::write::spec_headerblock_size(cs);
        let sum = crate::write::spec_sizes_sum(cs);
        crate::write::lemma_sizes_sum_nonneg(cs);
        lemma_encode_list_len(cs);
        let e = crate::write::encode_payload(f);
        assert(e == u64_be_bytes(hbs as u64) + crate::write::encode_headerlist(cs)
            + crate::write::encode_payloads(cs));
        crate::utils::lemma_u64_be_bytes_round(hbs as u64);
        assert forall|k: int| 0 <= k < 8 implies #[trigger] u64_be_bytes(hbs as u64)[k] == s[pos
            + k] by {
            assert(s.subrange(pos, pos + size)[k] == s[pos + k]);
            assert(e[k] == u64_be_bytes(hbs as u64)[k]);
        }
        assert(s.subrange(pos, pos + 8) =~= u64_be_bytes(hbs as u64));
        assert(be_u64_of(s.subrange(pos, pos + 8)) == hbs as u64);
        assert(hbs as u64 as int == hbs);
        assert forall|k: int| 0 <= k < hbs implies s[pos + 8 + k]
            == crate::write::encode_headerlist(cs)[k] by {
            assert(s.subrange(pos, pos + size)[8 + k] == s[pos + 8 + k]);
            assert(e[8 + k] == crate::write::encode_headerlist(cs)[k]);
        }
        assert(s.subrange(pos + 8, pos + 8 + hbs) =~= crate::write::encode_headerlist(cs));
        lemma_parse_encode_headerlist(s, pos + 8, cs);
        assert forall|k: int| 0 <= k < sum implies s[pos + 8 + hbs + k]
            == crate::write::encode_payloads(cs)[k] by {
            assert(s.subrange(pos, pos + size)[8 + hbs + k] == s[pos + 8 + hbs + k]);
            assert(e[8 + hbs + k] == crate::write::encode_payloads(cs)[k]);
        }
        assert(s.subrange(pos + 8 + hbs, pos + 8 + hbs + sum) =~= crate::write::encode_payloads(
            cs,
        ));
        lemma_parse_encode_filelist(s, pos + 8 + hbs, cs, (offset + 8 + hbs) as u64);
        assert(rfile_of(f, offset as int).childs == rfiles_of(cs, offset as int + 8 + hbs));
    }
}

/// Parsing the encoded payload regions of a well-formed level, with its
/// headers in hand, reconstructs the level's read-side nodes at their
/// running offsets and stops exactly at the regions' end.
pub proof fn lemma_parse_encode_filelist(
    s: Seq<u8>,
    pos: int,
    fs: Seq<crate::write::WFileV>,
    offset: u64,
)
    requires
        forall|i: int| 0 <= i < fs.len() ==> crate::write::wf_wfile(#[trigger] fs[i]),
        0 <= pos,
        pos + crate::write::spec_sizes_sum(fs) <= s.len(),
        offset + crate::write::spec_sizes_sum(fs) <= u64::MAX,
        s.subrange(pos, pos + crate::write::spec_sizes_sum(fs)) == crate::write::encode_payloads(
            fs,
        ),
    ensures
        spec_parse_filelist(s, pos, wheaders_of(fs), offset) == Ok::<(Seq<FileV>, int), ReadError>(
            (rfiles_of(fs, offset as int), pos + crate::write::spec_sizes_sum(fs)),
        ),
    decreases fs,
{
    let sum = crate::write::spec_sizes_sum(fs);
    if fs.len() == 0 {
        assert(wheaders_of(fs) =~= Seq::<HeaderV>::empty());
        assert(rfiles_of(fs, offset as int) =~= Seq::<FileV>::empty());
    } else {
        let f0 = fs[0];
        let size0 = crate::write::spec_size(f0);
        let rest = fs.drop_first();
        crate::write::lemma_spec_size_nonneg(f0);
        crate::write::lemma_sizes_sum_nonneg(rest);
        lemma_encode_payload_len(f0);
        lemma_encode_list_len(rest);
        let e = crate::write::encode_payloads(fs);
        assert(e == crate::write::encode_payload(f0) + crate::write::encode_payloads(rest));
        assert forall|k: int| 0 <= k < size0 implies s[pos + k] == crate::write::encode_payload(
            f0,
        )[k] by {
            assert(s.subrange(pos, pos + sum)[k] == s[pos + k]);
            assert(e[k] == crate::write::encode_payload(f0)[k]);
        }
        assert(s.subrange(pos, pos + size0) =~= crate::write::encode_payload(f0));
        lemma_parse_encode_file(s, pos, f0, offset);
        let hs = wheaders_of(fs);
        assert(hs[0] == f0.header());
        assert(hs.drop_first() =~= wheaders_of(rest));
        let sum2 = crate::write::spec_sizes_sum(rest);
        assert forall|k: int| 0 <= k < sum2 implies s[pos + size0 + k]
            == crate::write::encode_payloads(rest)[k] by {
            assert(s.subrange(pos, pos + sum)[size0 + k] == s[pos + size0 + k]);
            assert(e[size0 + k] == crate::write::encode_payloads(rest)[k]);
        }
        assert(s.subrange(pos + size0, pos + size0 + sum2) =~= crate::write::encode_payloads(
            rest,
        ));
        lemma_parse_encode_filelist(s, pos + size0, rest, (offset + size0) as u64);
        assert(f0.header().filesize == size0);
        assert(seq![rfile_of(f0, offset as int)] + rfiles_of(rest, offset as int + size0)
            =~= rfiles_of(fs, offset as int));
    }
}

/// Round trip: serializing a well-formed archive and parsing the bytes
/// back reconstructs the archive exactly: the same size fields, and for
/// every entry, recursively, the same filename, kind, size and child
/// order, each entry placed at its computed absolute offset; no leftover
/// bytes remain.
pub proof fn lemma_archive_round_trip(a: crate::write::WArchiveV)
    requires
        crate::write::wf_warchive(a),
    ensures
        ({
            let s = crate::write::encode_archive(a);
            let hbs = crate::write::spec_headerblock_size(a.childs);
            &&& s.len() == a.filesize
            &&& spec_parse_archive(s) == Ok::<(ArchiveV, int), ReadError>((
                ArchiveV {
                    headersize: a.headersize,
                    filesize: a.filesize,
                    files: rfiles_of(a.childs, 20 + hbs),
                },
                a.filesize as int,
            ))
            &&& rfiles_of(a.childs, 20 + hbs).len() == a.childs.len()
            &&& (forall|i: int|
                0 <= i < a.childs.len() ==> matches_tree(
                    #[trigger] a.childs[i],
                    rfiles_of(a.childs, 20 + hbs)[i],
                ))
        }),
{
    let s = crate::write::encode_archive(a);
    let cs = a.childs;
    let hbs = crate::write::spec_headerblock_size(cs);
    let sum = crate::write::spec_sizes_sum(cs);
    crate::write::lemma_sizes_sum_nonneg(cs);
    lemma_encode_list_len(cs);
    crate::utils::lemma_u64_be_bytes_round(a.headersize);
    crate::utils::lemma_u64_be_bytes_round(a.filesize);
    assert(s.len() == 20 + hbs + sum);
    assert(s.subrange(0, 4) =~= spec_magic());
    assert(spec_parse_magic(s, 0) == Ok::<int, ReadError>(4));
    assert(s.subrange(4, 12) =~= u64_be_bytes(a.headersize));
    assert(s.subrange(12, 20) =~= u64_be_bytes(a.filesize));
    assert(be_u64_of(s.subrange(4, 12)) == a.headersize);
    assert(be_u64_of(s.subrange(12, 20)) == a.filesize);
    assert(a.headersize == hbs);
    assert(s.subrange(20, 20 + hbs) =~= crate::write::encode_headerlist(cs));
    lemma_parse_encode_headerlist(s, 20, cs);
    assert(s.subrange(20 + hbs, 20 + hbs + sum) =~= crate::write::encode_payloads(cs));
    lemma_parse_encode_filelist(s, 20 + hbs, cs, (20 + hbs) as u64);
    lemma_rfiles_match(cs, 20 + hbs);
}

/// The read-side nodes a well-formed level denotes match that level in
/// content.
pub proof fn lemma_rfiles_match(fs: Seq<crate::write::WFileV>, start: int)
    requires
        forall|i: int| 0 <= i < fs.len() ==> crate::write::wf_wfile(#[trigger] fs[i]),
    ensures
        rfiles_of(fs, start).len() == fs.len(),
        forall|i: int|
            0 <= i < fs.len() ==> matches_tree(#[trigger] fs[i], rfiles_of(fs, start)[i]),
    decreases fs, 1int,
{
    if fs.len() > 0 {
        lemma_rfile_matches(fs[0], start);
        assert forall|i: int| 0 <= i < fs.drop_first().len() implies crate::write::wf_wfile(
            #[trigger] fs.drop_first()[i],
        ) by {
            assert(fs.drop_first()[i] == fs[i + 1]);
        }
        lemma_rfiles_match(fs.drop_first(), start + crate::write::spec_size(fs[0]));
        assert forall|i: int| 0 <= i < fs.len() implies matches_tree(
            #[trigger] fs[i],
            rfiles_of(fs, start)[i],
        ) by {
            if i > 0 {
                assert(fs.drop_first()[i - 1] == fs[i]);
                assert(rfiles_of(fs, start)[i] == rfiles_of(
                    fs.drop_first(),
                    start + crate::write::spec_size(fs[0]),
                )[i - 1]);
            }
        }
    }
}

/// The read-side node a well-formed serializer-side node denotes matches
/// it in content.
pub proof fn lemma_rfile_matches(f: crate::write::WFileV, offset: int)
    requires
        crate::write::wf_wfile(f),
    ensures
        matches_tree(f, rfile_of(f, offset)),
    decreases f, 2int,
{
    if f.is_file {
    } else {
        lemma_rfiles_match(
            f.childs,
            offset + 8 + crate::write::spec_headerblock_size(f.childs),
        );
    }
}

/// Siblings in header-list order sit at consecutive offsets: each node's
/// absolute offset is the previous node's absolute offset plus the
/// previous node's declared size.
pub open spec fn offsets_monotonic(fs: Seq<FileV>) -> bool {
    forall|i: int|
        0 <= i && i + 1 < fs.len() ==> (#[trigger] fs[i + 1]).absolute_offset == fs[
            i
        ].absolute_offset + fs[i].header.filesize
}

/// Offset monotonicity holds of every sibling list in the tree.
pub open spec fn tree_offsets_monotonic(f: FileV) -> bool
    decreases f,
{
    &&& offsets_monotonic(f.childs)
    &&& (forall|i: int|
        0 <= i < f.childs.len() ==> tree_offsets_monotonic(#[trigger] f.childs[i]))
}

/// A parsed entry is anchored at the offset the walk paired it with, and
/// offset monotonicity holds throughout its subtree.
pub proof fn lemma_parse_file_offsets(s: Seq<u8>, pos: int, h: HeaderV, offset: u64)
    requires
        0 <= pos <= s.len(),
    ensures
        spec_parse_file(s, pos, h, offset) matches Ok(r) ==> r.0.absolute_offset == offset
            && r.0.header == h && tree_offsets_monotonic(r.0),
    decreases s.len() - pos, 0int,
{
    if h.is_file {
        if pos + h.filesize <= s.len() {
            let r = spec_parse_file(s, pos, h, offset)->Ok_0;
            assert(r.0.childs.len() == 0);
        }
    } else {
        if pos + 8 <= s.len() {
            let hsize = be_u64_of(s.subrange(pos, pos + 8)) as int;
            if pos + 8 + hsize <= s.len() {
                if let Ok(hs) = spec_parse_headerlist(s, pos + 8, pos + 8 + hsize) {
                    if offset + 8 + hsize <= u64::MAX {
                        lemma_parse_filelist_offsets(
                            s,
                            pos + 8 + hsize,
                            hs,
                            (offset + 8 + hsize) as u64,
                        );
                    }
                }
            }
        }
    }
}

/// A parsed sibling list starts at the running offset and its entries sit
/// at consecutive offsets, each subtree monotonic as well.
pub proof fn lemma_parse_filelist_offsets(s: Seq<u8>, pos: int, hs: Seq<HeaderV>, offset: u64)
    requires
        0 <= pos <= s.len(),
    ensures
        spec_parse_filelist(s, pos, hs, offset) matches Ok(r) ==> {
            let fs = r.0;
            &&& fs.len() == hs.len()
            &&& (forall|i: int| 0 <= i < fs.len() ==> (#[trigger] fs[i]).header == hs[i])
            &&& (fs.len() > 0 ==> fs[0].absolute_offset == offset)
            &&& offsets_monotonic(fs)
            &&& (forall|i: int|
                0 <= i < fs.len() ==> tree_offsets_monotonic(#[trigger] fs[i]))
        },
    decreases s.len() - pos, hs.len() + 1,
{
    if hs.len() > 0 {
        lemma_spec_parse_file_bounds(s, pos, hs[0], offset);
        lemma_parse_file_offsets(s, pos, hs[0], offset);
        if let Ok((f0, p2)) = spec_parse_file(s, pos, hs[0], offset) {
            if pos <= p2 <= s.len() && offset + hs[0].filesize <= u64::MAX {
                let noff = (offset + hs[0].filesize) as u64;
                lemma_parse_filelist_offsets(s, p2, hs.drop_first(), noff);
                if let Ok((rest, p3)) = spec_parse_filelist(s, p2, hs.drop_first(), noff) {
                    let fs = seq![f0] + rest;
                    assert(fs[0] == f0);
                    assert forall|i: int| 0 <= i < fs.len() implies (#[trigger] fs[i]).header
                        == hs[i] by {
                        if i > 0 {
                            assert(fs[i] == rest[i - 1]);
                            assert(hs.drop_first()[i - 1] == hs[i]);
                        }
                    }
                    assert forall|i: int| 0 <= i && i + 1 < fs.len() implies (#[trigger] fs[
                        i + 1
                    ]).absolute_offset == fs[i].absolute_offset + fs[i].header.filesize by {
                        if i == 0 {
                            if rest.len() > 0 {
                                assert(fs[1] == rest[0]);
                                assert(rest[0].absolute_offset == noff);
                            }
                        } else {
                            assert(fs[i] == rest[i - 1]);
                            assert(fs[i + 1] == rest[i]);
                        }
                    }
                    assert forall|i: int| 0 <= i < fs.len() implies tree_offsets_monotonic(
                        #[trigger] fs[i],
                    ) by {
                        if i > 0 {
                            assert(fs[i] == rest[i - 1]);
                        }
                    }
                }
            }
        }
    }
}

/// Offset monotonicity of every parsed archive: in every sibling list of
/// the tree, each subsequent node's absolute offset is the previous
/// node's absolute offset plus the previous node's size; the walk starts
/// just past the top-level header block.
pub proof fn lemma_parse_archive_offsets(s: Seq<u8>)
    ensures
        spec_parse_archive(s) matches Ok(r) ==> {
            let a = r.0;
            &&& offsets_monotonic(a.files)
            &&& (a.files.len() > 0 ==> a.files[0].absolute_offset == 20 + a.headersize)
            &&& (forall|i: int|
                0 <= i < a.files.len() ==> tree_offsets_monotonic(#[trigger] a.files[i]))
        },
{
    if s.len() >= 20 {
        let headersize = be_u64_of(s.subrange(4, 12));
        if 20 + headersize <= s.len() {
            if let Ok(hs) = spec_parse_headerlist(s, 20, 20 + headersize) {
                lemma_parse_filelist_offsets(s, 20 + headersize, hs, (20 + headersize) as u64);
            }
        }
    }
}

/// Magic rejection: a buffer that does not start with the 4 magic bytes
/// parses to `WrongMagic` at offset 0, carrying the bytes found there,
/// and never to a different error kind.
pub proof fn lemma_wrong_magic(s: Seq<u8>)
    requires
        s.len() < 4 || s.subrange(0, 4) != spec_magic(),
    ensures
        spec_parse_archive(s) == Err::<(ArchiveV, int), ReadError>(
            ReadError::WrongMagic(magic_found(s, 0), 0),
        ),
{
}

/// The byte length of the header block that describes the nodes of `fs`
/// on the read side.
pub open spec fn rheaderblock_size(fs: Seq<FileV>) -> int
    decreases fs,
{
    if fs.len() == 0 {
        0
    } else {
        (9 + fs[0].header.filename.len()) + rheaderblock_size(fs.drop_first())
    }
}

/// The sum of the declared sizes of the nodes of `fs`.
pub open spec fn rsizes_sum(fs: Seq<FileV>) -> int
    decreases fs,
{
    if fs.len() == 0 {
        0
    } else {
        fs[0].header.filesize + rsizes_sum(fs.drop_first())
    }
}

/// The size invariant of a tree: a file node has no children; a
/// directory node's declared size is `8 + headerBlockSize(children) +
/// sum(child sizes)`; and so on recursively.
pub open spec fn sizes_consistent(f: FileV) -> bool
    decreases f,
{
    &&& (f.header.is_file ==> f.childs.len() == 0)
    &&& (!f.header.is_file ==> f.header.filesize == 8 + rheaderblock_size(f.childs) + rsizes_sum(
        f.childs,
    ))
    &&& (forall|i: int| 0 <= i < f.childs.len() ==> sizes_consistent(#[trigger] f.childs[i]))
}

/// Size invariant: the tree a well-formed serializer-side node denotes
/// satisfies the size invariant at every node.
pub proof fn lemma_rfile_sizes(f: crate::write::WFileV, offset: int)
    requires
        crate::write::wf_wfile(f),
    ensures
        sizes_consistent(rfile_of(f, offset)),
    decreases f, 2int,
{
    let r = rfile_of(f, offset);
    if f.is_file {
        assert(r.childs.len() == 0);
    } else {
        let start = offset + 8 + crate::write::spec_headerblock_size(f.childs);
        lemma_rfiles_sizes(f.childs, start);
        assert(r.childs == rfiles_of(f.childs, start));
    }
}

/// Size invariant, levelwise: the nodes a well-formed level denotes
/// satisfy the size invariant, and the level's read-side measures equal
/// the serializer-side ones.
pub proof fn lemma_rfiles_sizes(fs: Seq<crate::write::WFileV>, start: int)
    requires
        forall|i: int| 0 <= i < fs.len() ==> crate::write::wf_wfile(#[trigger] fs[i]),
    ensures
        rfiles_of(fs, start).len() == fs.len(),
        rheaderblock_size(rfiles_of(fs, start)) == crate::write::spec_headerblock_size(fs),
        rsizes_sum(rfiles_of(fs, start)) == crate::write::spec_sizes_sum(fs),
        forall|i: int|
            0 <= i < fs.len() ==> sizes_consistent(#[trigger] rfiles_of(fs, start)[i]),
    decreases fs, 1int,
{
    if fs.len() > 0 {
        let rf = rfiles_of(fs, start);
        lemma_rfile_sizes(fs[0], start);
        assert forall|i: int| 0 <= i < fs.drop_first().len() implies crate::write::wf_wfile(
            #[trigger] fs.drop_first()[i],
        ) by {
            assert(fs.drop_first()[i] == fs[i + 1]);
        }
        let rest_start = start + crate::write::spec_size(fs[0]);
        lemma_rfiles_sizes(fs.drop_first(), rest_start);
        assert(rf[0] == rfile_of(fs[0], start));
        assert(rf.drop_first() =~= rfiles_of(fs.drop_first(), rest_start));
        assert(rf[0].header.filesize == crate::write::spec_size(fs[0]));
        assert forall|i: int| 0 <= i < fs.len() implies sizes_consistent(
            #[trigger] rfiles_of(fs, start)[i],
        ) by {
            if i > 0 {
                assert(rfiles_of(fs, start)[i] == rfiles_of(fs.drop_first(), rest_start)[i - 1]);
            }
        }
    }
}

/// Size invariant at archive level: every top-level tree a well-formed
/// archive serializes to, once parsed back, satisfies the size invariant
/// at every node.
pub proof fn lemma_archive_sizes(a: crate::write::WArchiveV)
    requires
        crate::write::wf_warchive(a),
    ensures
        forall|i: int|
            0 <= i < a.childs.len() ==> sizes_consistent(
                #[trigger] rfiles_of(
                    a.childs,
                    20 + crate::write::spec_headerblock_size(a.childs),
                )[i],
            ),
{
    lemma_rfiles_sizes(a.childs, 20 + crate::write::spec_headerblock_size(a.childs));
}

} // verus!
