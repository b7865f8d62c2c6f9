//! Virtual files: bounded, independently positioned read/seek views over
//! a byte range of the archive.
//!
//! A virtual file holds no shared cursor: every read takes the archive
//! bytes and an explicit position, so any number of virtual files over
//! the same range stay independent of one another.

use vstd::prelude::*;

verus! {

/// A position to seek to: absolute from the range's start, relative to
/// the current position, or relative to the range's end.
#[derive(Debug, PartialEq, Eq, Structural)]
pub enum SeekFrom {
    Start(u64),
    Current(i64),
    End(i64),
}

/// Error of a seek that would move before the range's start.
#[derive(Debug, PartialEq, Eq, Structural)]
pub enum SeekError {
    InvalidArgument,
}

/// A bounded view over the byte range `[start_offset, end_offset)` of an
/// archive, with its own position, relative to the range's start.
#[derive(Debug, PartialEq, Eq)]
pub struct VirtualFile {
    pub start_offset: u64,
    pub end_offset: u64,
    pub current_offset: u64,
}

impl VirtualFile {
    /// The range is ordered and the position lies inside it.
    pub open spec fn wf(self) -> bool {
        &&& self.start_offset <= self.end_offset
        &&& self.current_offset <= self.end_offset - self.start_offset
    }

    /// The byte length of the range.
    pub open spec fn spec_len(self) -> int {
        self.end_offset - self.start_offset
    }

    /// How many bytes a read with bound `max_len` returns: the smaller
    /// of the bound and the bytes remaining before the range's end.
    pub open spec fn spec_read_len(self, max_len: int) -> int {
        let rem = self.spec_len() - self.current_offset;
        if max_len < rem {
            max_len
        } else {
            rem
        }
    }

    /// What a read returns and the state it leaves: the bytes at the
    /// current position, and the position advanced past them.
    pub open spec fn spec_read(self, data: Seq<u8>, max_len: int) -> (Seq<u8>, VirtualFile) {
        let n = self.spec_read_len(max_len);
        let from = self.start_offset + self.current_offset;
        (
            data.subrange(from, from + n),
            VirtualFile { current_offset: (self.current_offset + n) as u64, ..self },
        )
    }

    /// A view over the byte range starting at `s.0`, `s.1` bytes long,
    /// positioned at its start.
    pub fn from_sizes(s: (u64, u64)) -> (out: Self)
        requires
            s.0 + s.1 <= u64::MAX,
        ensures
            out.start_offset == s.0,
            out.end_offset == s.0 + s.1,
            out.current_offset == 0,
            out.wf(),
    {
        VirtualFile { start_offset: s.0, end_offset: s.0 + s.1, current_offset: 0 }
    }

    /// Read at most `max_len` bytes from the current position: the bytes
    /// of the range at that position, never past the range's end, and 0
    /// bytes at the end of the range.  The position advances by the
    /// count returned.  Nothing but this file's own state changes, so
    /// interleaved reads of other virtual files are unaffected.
    pub fn read(&mut self, data: &[u8], max_len: usize) -> (out: Vec<u8>)
        requires
            old(self).wf(),
            old(self).end_offset <= data@.len(),
        ensures
            (out@, *final(self)) == old(self).spec_read(data@, max_len as int),
            final(self).wf(),
            final(self).start_offset == old(self).start_offset,
            final(self).end_offset == old(self).end_offset,
    {
        let dlen: usize = data.len();
        let remaining: u64 = (self.end_offset - self.start_offset) - self.current_offset;
        let n: u64 = if (max_len as u64) < remaining {
            max_len as u64
        } else {
            remaining
        };
        let from: u64 = self.start_offset + self.current_offset;
        proof {
            assert(from + n <= self.end_offset <= dlen);
        }
        let out = vstd::slice::slice_to_vec(
            vstd::slice::slice_subrange(data, from as usize, (from + n) as usize),
        );
        self.current_offset = self.current_offset + n;
        out
    }

    /// Move the position: `Start(n)` clamps to the range length;
    /// `Current(n)` rejects a move before position 0 and clamps forward
    /// motion to the range length; `End(n)` clamps a non-negative `n` to
    /// the range length and rejects a negative `n` that reaches before
    /// the range's start.  The new position is returned.
    pub fn seek(&mut self, pos: SeekFrom) -> (out: Result<u64, SeekError>)
        requires
            old(self).wf(),
        ensures
            final(self).wf(),
            final(self).start_offset == old(self).start_offset,
            final(self).end_offset == old(self).end_offset,
            match pos {
                SeekFrom::Start(n) => out == Ok::<u64, SeekError>(final(self).current_offset)
                    && final(self).current_offset == (if n <= old(self).spec_len() {
                    n as int
                } else {
                    old(self).spec_len()
                }),
                SeekFrom::Current(n) => if old(self).current_offset + n < 0 {
                    out == Err::<u64, SeekError>(SeekError::InvalidArgument) && *final(self)
                        == *old(self)
                } else {
                    out == Ok::<u64, SeekError>(final(self).current_offset) && final(self).current_offset == (if old(self).current_offset + n <= old(self).spec_len() {
                        old(self).current_offset + n
                    } else {
                        old(self).spec_len()
                    })
                },
                SeekFrom::End(n) => if n >= 0 {
                    out == Ok::<u64, SeekError>(final(self).current_offset) && final(self).current_offset == old(self).spec_len()
                } else if old(self).spec_len() + n < 0 {
                    out == Err::<u64, SeekError>(SeekError::InvalidArgument) && *final(self)
                        == *old(self)
                } else {
                    out == Ok::<u64, SeekError>(final(self).current_offset) && final(self).current_offset == old(self).spec_len() + n
                },
            },
    {
        let len: u64 = self.end_offset - self.start_offset;
        match pos {
            SeekFrom::Start(n) => {
                self.current_offset = if n <= len {
                    n
                } else {
                    len
                };
                Ok(self.current_offset)
            },
            SeekFrom::Current(n) => {
                if n >= 0 {
                    let add = n as u64;
                    self.current_offset = if add <= len - self.current_offset {
                        self.current_offset + add
                    } else {
                        len
                    };
                    Ok(self.current_offset)
                } else {
                    let mag: u64 = ((-(n + 1)) as u64) + 1;
                    if mag > self.current_offset {
                        Err(SeekError::InvalidArgument)
                    } else {
                        self.current_offset = self.current_offset - mag;
                        Ok(self.current_offset)
                    }
                }
            },
            SeekFrom::End(n) => {
                if n >= 0 {
                    self.current_offset = len;
                    Ok(self.current_offset)
                } else {
                    let mag: u64 = ((-(n + 1)) as u64) + 1;
                    if mag > len {
                        Err(SeekError::InvalidArgument)
                    } else {
                        self.current_offset = len - mag;
                        Ok(self.current_offset)
                    }
                }
            },
        }
    }

    /// The bytes of the range from the current position to its end; the
    /// position ends at the range's end.
    pub fn get_slice(&mut self, data: &[u8]) -> (out: Vec<u8>)
        requires
            old(self).wf(),
            old(self).end_offset <= data@.len(),
        ensures
            out@ == data@.subrange(
                old(self).start_offset + old(self).current_offset,
                old(self).end_offset as int,
            ),
            final(self).current_offset == final(self).spec_len(),
            final(self).wf(),
            final(self).start_offset == old(self).start_offset,
            final(self).end_offset == old(self).end_offset,
    {
        let dlen: usize = data.len();
        let remaining: u64 = (self.end_offset - self.start_offset) - self.current_offset;
        proof {
            assert(remaining <= dlen);
        }
        let out = self.read(data, remaining as usize);
        out
    }
}

/// Virtual-file independence and completeness: a read is a function of
/// the file's own state and the shared bytes alone, so two virtual files
/// over the same entry, read in any interleaving, each see exactly their
/// own range; and two successive reads of one file return adjacent
/// ranges whose bytes concatenate to the range they span.
pub proof fn lemma_reads_concatenate(vf: VirtualFile, data: Seq<u8>, m1: int, m2: int)
    requires
        vf.wf(),
        vf.end_offset <= data.len(),
        m1 >= 0,
        m2 >= 0,
    ensures
        ({
            let (b1, vf1) = vf.spec_read(data, m1);
            let (b2, vf2) = vf1.spec_read(data, m2);
            let from = vf.start_offset + vf.current_offset;
            &&& b1 + b2 == data.subrange(from, from + b1.len() + b2.len())
            &&& vf2.current_offset == vf.current_offset + b1.len() + b2.len()
        }),
{
    let (b1, vf1) = vf.spec_read(data, m1);
    let (b2, vf2) = vf1.spec_read(data, m2);
    let from = vf.start_offset + vf.current_offset;
    assert(b1 + b2 =~= data.subrange(from, from + b1.len() + b2.len()));
}

/// Reading a whole range in one call returns exactly the range's bytes.
pub proof fn lemma_read_all(vf: VirtualFile, data: Seq<u8>, m: int)
    requires
        vf.wf(),
        vf.current_offset == 0,
        vf.end_offset <= data.len(),
        m >= vf.spec_len(),
    ensures
        vf.spec_read(data, m).0 == data.subrange(vf.start_offset as int, vf.end_offset as int),
{
}

} // verus!
