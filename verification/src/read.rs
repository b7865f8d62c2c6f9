//! The archive parser: a cursor-based recursive-descent decoder that turns
//! a byte buffer into a typed tree, with explicit bounds checks and
//! offset-tagged errors.
//!
//! Every function's result equals the corresponding specification function
//! of [`crate::codec`]; the parse reads only header bytes and size fields,
//! never payload bytes.

use vstd::prelude::*;

use crate::codec::{
    archive_result_view, file_result_view, filelist_result_view, header_result_view,
    headerlist_result_view, spec_parse_archive, spec_parse_file, spec_parse_filelist,
    spec_parse_header, spec_parse_headerlist, spec_parse_magic,
};
use crate::types::{Archive, ArchiveFile, File, Header};
use crate::utils;

verus! {

/// Error of a failed parse.  Every variant carries the byte offset nearest
/// the failure; a parse error is terminal: no partial tree is returned.
#[derive(Debug, PartialEq, Eq, Structural)]
pub enum ReadError {
    /// A failure with no more precise description, such as a running
    /// offset that would exceed the integer range.
    Unknown(u64),
    /// The buffer does not begin with the 4 magic bytes; carries the 4
    /// bytes found instead, big-endian, or all-ones when fewer than 4
    /// bytes were available.
    WrongMagic(u32, u64),
    /// The flags byte of a header is missing.
    MissingHeaderInfoByte(u64),
    /// The 8 size bytes of a header are missing or cut short.
    MissingHeaderFileSize(u64),
    /// A filename is not well-formed UTF-8.
    IllegalFilename(u64),
    /// The archive preamble's size fields are missing or cut short.
    MissingArchiveInfo(u64),
    /// A header block is longer than the bytes available; carries the
    /// declared block size.
    IncompleteHeader(u64, u64),
    /// A file's declared payload length exceeds the remaining bytes;
    /// carries the declared length.
    FileJump(u64, u64),
    /// The nested header-size field of a directory is missing.
    MissingFileInfo(u64),
}

/// The result of parsing positioned like the executable parser's.
pub open spec fn pos_result_view(r: Result<usize, ReadError>) -> Result<int, ReadError> {
    match r {
        Ok(p) => Ok(p as int),
        Err(e) => Err(e),
    }
}

/// Match the 4 magic bytes at `pos`; on success the position just past
/// them, else `WrongMagic` with the bytes found there.
pub fn parse_magic(data: &[u8], pos: usize) -> (out: Result<usize, ReadError>)
    requires
        pos <= data@.len(),
    ensures
        pos_result_view(out) == spec_parse_magic(data@, pos as int),
{
    let n = data.len();
    if n - pos >= 4 {
        let b0 = *vstd::slice::slice_index_get(data, pos);
        let b1 = *vstd::slice::slice_index_get(data, pos + 1);
        let b2 = *vstd::slice::slice_index_get(data, pos + 2);
        let b3 = *vstd::slice::slice_index_get(data, pos + 3);
        let ghost found = data@.subrange(pos as int, pos + 4);
        proof {
            assert(found[0] == b0 && found[1] == b1 && found[2] == b2 && found[3] == b3);
        }
        if b0 == 0x4B && b1 == 0x4C && b2 == 0x55 && b3 == 0x00 {
            proof {
                assert(found =~= crate::types::spec_magic());
            }
            Ok(pos + 4)
        } else {
            proof {
                assert(found != crate::types::spec_magic());
            }
            Err(
                ReadError::WrongMagic(
                    (((b0 as u32) << 24) | ((b1 as u32) << 16) | ((b2 as u32) << 8) | (b3 as u32)),
                    pos as u64,
                ),
            )
        }
    } else {
        Err(ReadError::WrongMagic(0xFFFFFFFF, pos as u64))
    }
}

/// Decode one header at `pos`, reading no byte at `end` or beyond.
pub fn parse_header(data: &[u8], pos: usize, end: usize) -> (out: Result<
    (Header, usize),
    ReadError,
>)
    requires
        pos <= end,
        end <= data@.len(),
    ensures
        header_result_view(out) == spec_parse_header(data@, pos as int, end as int),
{
    if end - pos < 1 {
        return Err(ReadError::MissingHeaderInfoByte(pos as u64));
    }
    let b0 = *vstd::slice::slice_index_get(data, pos);
    if end - pos < 9 {
        return Err(ReadError::MissingHeaderFileSize(pos as u64));
    }
    let filesize = utils::slice_to_u64(vstd::slice::slice_subrange(data, pos + 1, pos + 9));
    let namelen = (b0 >> 3) as usize;
    proof {
        utils::lemma_pack_flags(0, 0, false, b0);
    }
    if end - pos - 9 < namelen {
        return Err(ReadError::Unknown(pos as u64));
    }
    let name_slice = vstd::slice::slice_subrange(data, pos + 9, pos + 9 + namelen);
    if !utils::utf8_check(name_slice) {
        return Err(ReadError::IllegalFilename(pos as u64));
    }
    let filename = vstd::slice::slice_to_vec(name_slice);
    let header = Header {
        filename_length: b0 >> 3,
        unused: (b0 >> 1) & 3,
        is_file: (b0 & 1) == 1,
        filesize,
        filename,
    };
    Ok((header, pos + 9 + namelen))
}

/// Decode the flat header list that fills `[pos, end)` exactly.
pub fn parse_headerlist(data: &[u8], pos: usize, end: usize) -> (out: Result<
    Vec<Header>,
    ReadError,
>)
    requires
        pos <= end,
        end <= data@.len(),
    ensures
        headerlist_result_view(out) == spec_parse_headerlist(data@, pos as int, end as int),
{
    let ghost s = data@;
    let mut cur: usize = pos;
    let mut acc: Vec<Header> = Vec::new();
    proof {
        assert(crate::types::headers_view(acc@) =~= Seq::<crate::types::HeaderV>::empty());
    }
    while cur < end
        invariant
            pos <= cur <= end <= data@.len(),
            s == data@,
            spec_parse_headerlist(s, pos as int, end as int) == crate::codec::headerlist_append(
                crate::types::headers_view(acc@),
                spec_parse_headerlist(s, cur as int, end as int),
            ),
        decreases end - cur,
    {
        let ghost prev = cur as int;
        match parse_header(data, cur, end) {
            Err(e) => {
                proof {
                    assert(spec_parse_headerlist(s, prev, end as int) == Err::<
                        Seq<crate::types::HeaderV>,
                        ReadError,
                    >(e));
                }
                return Err(e);
            },
            Ok((h, p2)) => {
                proof {
                    assert(spec_parse_header(s, prev, end as int) == Ok::<
                        (crate::types::HeaderV, int),
                        ReadError,
                    >((h@, p2 as int)));
                    // the new position lies strictly past `cur`, inside the block
                    assert(p2 == prev + 9 + crate::utils::filename_length_of(s[prev]));
                    assert(prev < p2 <= end);
                }
                let ghost old_acc = acc@;
                acc.push(h);
                proof {
                    assert(crate::types::headers_view(acc@) =~= crate::types::headers_view(
                        old_acc,
                    ).push(h@));
                    let tailr = spec_parse_headerlist(s, p2 as int, end as int);
                    assert(spec_parse_headerlist(s, prev, end as int)
                        == crate::codec::headerlist_append(seq![h@], tailr));
                    match tailr {
                        Ok(rest) => {
                            assert(crate::types::headers_view(old_acc) + (seq![h@] + rest)
                                =~= crate::types::headers_view(acc@) + rest);
                        },
                        Err(_) => {},
                    }
                }
                cur = p2;
            },
        }
    }
    proof {
        assert(spec_parse_headerlist(s, cur as int, end as int) == Ok::<
            Seq<crate::types::HeaderV>,
            ReadError,
        >(Seq::empty()));
        assert(crate::types::headers_view(acc@) + Seq::<crate::types::HeaderV>::empty()
            =~= crate::types::headers_view(acc@));
    }
    Ok(acc)
}

/// Decode the payload region of one entry whose header is `header`,
/// starting at cursor `pos`, with `offset` the entry's absolute payload
/// position: a file's bytes are skipped unread; a directory's nested
/// header block is decoded and its children walked recursively.
pub fn parse_file(data: &[u8], pos: usize, header: &Header, offset: u64) -> (out: Result<
    (File, usize),
    ReadError,
>)
    requires
        pos <= data@.len(),
    ensures
        file_result_view(out) == spec_parse_file(data@, pos as int, header@, offset),
    decreases data@.len() - pos, 0int,
{
    let ghost s = data@;
    let own_header = Header {
        filename_length: header.filename_length,
        unused: header.unused,
        is_file: header.is_file,
        filesize: header.filesize,
        filename: vstd::slice::slice_to_vec(header.filename.as_slice()),
    };
    assert(own_header@ == header@);
    if header.is_file {
        if header.filesize > (data.len() - pos) as u64 {
            return Err(ReadError::FileJump(header.filesize, pos as u64));
        }
        let f = File { header: own_header, absolute_offset: offset, childs: Vec::new() };
        proof {
            assert(crate::types::files_view(Seq::<File>::empty()) =~= Seq::<
                crate::types::FileV,
            >::empty());
        }
        Ok((f, pos + header.filesize as usize))
    } else {
        if data.len() - pos < 8 {
            return Err(ReadError::MissingFileInfo(pos as u64));
        }
        let hsize = utils::slice_to_u64(vstd::slice::slice_subrange(data, pos, pos + 8));
        if hsize > (data.len() - pos - 8) as u64 {
            return Err(ReadError::IncompleteHeader(hsize, (pos + 8) as u64));
        }
        let hsz = hsize as usize;
        let headers = match parse_headerlist(data, pos + 8, pos + 8 + hsz) {
            Err(e) => {
                return Err(e);
            },
            Ok(hs) => hs,
        };
        if offset > u64::MAX - 8 || hsize > u64::MAX - 8 - offset {
            return Err(ReadError::Unknown(pos as u64));
        }
        match parse_filelist(data, pos + 8 + hsz, &headers, offset + 8 + hsize) {
            Err(e) => Err(e),
            Ok((childs, p2)) => {
                let f = File { header: own_header, absolute_offset: offset, childs };
                Ok((f, p2))
            },
        }
    }
}

/// Decode the payload regions of the entries listed in `headers`, in
/// order, pairing each with its running absolute offset: after each entry
/// the offset advances by that entry's declared size.
pub fn parse_filelist(data: &[u8], pos: usize, headers: &Vec<Header>, offset: u64) -> (out: Result<
    (Vec<File>, usize),
    ReadError,
>)
    requires
        pos <= data@.len(),
    ensures
        filelist_result_view(out) == spec_parse_filelist(
            data@,
            pos as int,
            crate::types::headers_view(headers@),
            offset,
        ),
    decreases data@.len() - pos, headers@.len() + 1,
{
    let ghost s = data@;
    let ghost hv = crate::types::headers_view(headers@);
    let mut cur: usize = pos;
    let mut cur_offset: u64 = offset;
    let mut i: usize = 0;
    let mut acc: Vec<File> = Vec::new();
    proof {
        assert(crate::types::files_view(acc@) =~= Seq::<crate::types::FileV>::empty());
        assert(hv.skip(0) =~= hv);
    }
    while i < headers.len()
        invariant
            pos <= cur <= data@.len(),
            i <= headers@.len(),
            s == data@,
            hv == crate::types::headers_view(headers@),
            acc@.len() == i,
            spec_parse_filelist(s, pos as int, hv, offset) == crate::codec::filelist_append(
                crate::types::files_view(acc@),
                spec_parse_filelist(s, cur as int, hv.skip(i as int), cur_offset),
            ),
        decreases headers@.len() - i,
    {
        let ghost prev = cur as int;
        let ghost prev_off = cur_offset;
        let ghost tail = hv.skip(i as int);
        proof {
            assert(tail[0] == hv[i as int]);
            assert(tail.len() == hv.len() - i);
        }
        let h = &headers[i];
        match parse_file(data, cur, h, cur_offset) {
            Err(e) => {
                proof {
                    assert(spec_parse_filelist(s, prev, tail, prev_off) == Err::<
                        (Seq<crate::types::FileV>, int),
                        ReadError,
                    >(e));
                }
                return Err(e);
            },
            Ok((f, p2)) => {
                proof {
                    crate::codec::lemma_spec_parse_file_bounds(s, prev, h@, prev_off);
                    assert(prev <= p2 <= s.len());
                }
                if cur_offset > u64::MAX - h.filesize {
                    proof {
                        assert(spec_parse_filelist(s, prev, tail, prev_off) == Err::<
                            (Seq<crate::types::FileV>, int),
                            ReadError,
                        >(ReadError::Unknown(p2 as u64)));
                    }
                    return Err(ReadError::Unknown(p2 as u64));
                }
                let ghost old_acc = acc@;
                acc.push(f);
                cur = p2;
                cur_offset = cur_offset + h.filesize;
                i = i + 1;
                proof {
                    crate::types::lemma_files_view(old_acc);
                    crate::types::lemma_files_view(acc@);
                    assert(crate::types::files_view(acc@) =~= crate::types::files_view(
                        old_acc,
                    ).push(f@));
                    assert(tail.drop_first() =~= hv.skip(i as int));
                    let tailr = spec_parse_filelist(s, cur as int, hv.skip(i as int), cur_offset);
                    assert(spec_parse_filelist(s, prev, tail, prev_off)
                        == crate::codec::filelist_append(seq![f@], tailr));
                    match tailr {
                        Ok(r) => {
                            assert(crate::types::files_view(old_acc) + (seq![f@] + r.0)
                                =~= crate::types::files_view(acc@) + r.0);
                        },
                        Err(_) => {},
                    }
                }
            },
        }
    }
    proof {
        assert(hv.skip(i as int) =~= Seq::<crate::types::HeaderV>::empty());
        assert(spec_parse_filelist(s, cur as int, hv.skip(i as int), cur_offset) == Ok::<
            (Seq<crate::types::FileV>, int),
            ReadError,
        >((Seq::empty(), cur as int)));
        assert(crate::types::files_view(acc@) + Seq::<crate::types::FileV>::empty()
            =~= crate::types::files_view(acc@));
    }
    Ok((acc, cur))
}

/// Decode a whole archive buffer: magic, the two 8-byte size fields, the
/// top-level header block, then the payload walk of the top-level
/// entries.  On success the position returned is where the leftover
/// bytes, if any, begin.
pub fn parse_archive(data: &[u8]) -> (out: Result<(Archive, usize), ReadError>)
    ensures
        archive_result_view(out) == spec_parse_archive(data@),
{
    let ghost s = data@;
    match parse_magic(data, 0) {
        Err(e) => {
            return Err(e);
        },
        Ok(_) => {},
    }
    if data.len() < 12 {
        return Err(ReadError::MissingArchiveInfo(4));
    }
    let headersize = utils::slice_to_u64(vstd::slice::slice_subrange(data, 4, 12));
    if data.len() < 20 {
        return Err(ReadError::MissingArchiveInfo(12));
    }
    let filesize = utils::slice_to_u64(vstd::slice::slice_subrange(data, 12, 20));
    if headersize > (data.len() - 20) as u64 {
        return Err(ReadError::IncompleteHeader(headersize, 20));
    }
    let hsz = headersize as usize;
    let headers = match parse_headerlist(data, 20, 20 + hsz) {
        Err(e) => {
            return Err(e);
        },
        Ok(hs) => hs,
    };
    match parse_filelist(data, 20 + hsz, &headers, 20 + headersize) {
        Err(e) => Err(e),
        Ok((files, p2)) => Ok((Archive { headersize, filesize, files }, p2)),
    }
}

impl ArchiveFile {
    /// Decode an archive buffer into a tree; leftover bytes past the
    /// parsed region are ignored.
    pub fn from_bytes(data: &[u8]) -> (out: Result<ArchiveFile, ReadError>)
        ensures
            match out {
                Ok(af) => spec_parse_archive(data@) matches Ok(r) && af@ == r.0,
                Err(e) => spec_parse_archive(data@) == Err::<
                    (crate::types::ArchiveV, int),
                    ReadError,
                >(e),
            },
    {
        match parse_archive(data) {
            Ok((archive, _)) => Ok(ArchiveFile { archive }),
            Err(e) => Err(e),
        }
    }
}

} // verus!
