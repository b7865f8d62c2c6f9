//! Byte-level utilities of the archive format: big-endian integer
//! encode/decode and the bit-field layout of a header's first byte.

use vstd::prelude::*;

verus! {

/// The 8-byte big-endian unsigned integer denoted by `s` (first 8 bytes).
pub open spec fn be_u64_of(s: Seq<u8>) -> u64
    recommends
        s.len() >= 8,
{
    (((s[0] as u64) << 56) | ((s[1] as u64) << 48) | ((s[2] as u64) << 40) | ((s[3] as u64) << 32)
        | ((s[4] as u64) << 24) | ((s[5] as u64) << 16) | ((s[6] as u64) << 8) | (s[7] as u64))
}

/// The 8-byte big-endian encoding of `x`.
pub open spec fn u64_be_bytes(x: u64) -> Seq<u8> {
    seq![
        ((x >> 56) & 0xff) as u8,
        ((x >> 48) & 0xff) as u8,
        ((x >> 40) & 0xff) as u8,
        ((x >> 32) & 0xff) as u8,
        ((x >> 24) & 0xff) as u8,
        ((x >> 16) & 0xff) as u8,
        ((x >> 8) & 0xff) as u8,
        (x & 0xff) as u8,
    ]
}

/// The 4-byte big-endian unsigned integer denoted by `s` (first 4 bytes).
pub open spec fn be_u32_of(s: Seq<u8>) -> u32
    recommends
        s.len() >= 4,
{
    (((s[0] as u32) << 24) | ((s[1] as u32) << 16) | ((s[2] as u32) << 8) | (s[3] as u32))
}

/// Big-endian encode and decode of a `u64` invert each other.
pub proof fn lemma_u64_be_bytes_round(x: u64)
    ensures
        u64_be_bytes(x).len() == 8,
        be_u64_of(u64_be_bytes(x)) == x,
{
    let s = u64_be_bytes(x);
    assert((((((x >> 56) & 0xff) as u64) << 56) | ((((x >> 48) & 0xff) as u64) << 48) | ((((x
        >> 40) & 0xff) as u64) << 40) | ((((x >> 32) & 0xff) as u64) << 32) | ((((x >> 24)
        & 0xff) as u64) << 24) | ((((x >> 16) & 0xff) as u64) << 16) | ((((x >> 8) & 0xff) as u64)
        << 8) | (((x & 0xff) as u64))) == x) by (bit_vector);
    assert(((x >> 56) & 0xff) as u8 as u64 == ((x >> 56) & 0xff)) by (bit_vector);
    assert(((x >> 48) & 0xff) as u8 as u64 == ((x >> 48) & 0xff)) by (bit_vector);
    assert(((x >> 40) & 0xff) as u8 as u64 == ((x >> 40) & 0xff)) by (bit_vector);
    assert(((x >> 32) & 0xff) as u8 as u64 == ((x >> 32) & 0xff)) by (bit_vector);
    assert(((x >> 24) & 0xff) as u8 as u64 == ((x >> 24) & 0xff)) by (bit_vector);
    assert(((x >> 16) & 0xff) as u8 as u64 == ((x >> 16) & 0xff)) by (bit_vector);
    assert(((x >> 8) & 0xff) as u8 as u64 == ((x >> 8) & 0xff)) by (bit_vector);
    assert((x & 0xff) as u8 as u64 == (x & 0xff)) by (bit_vector);
}

/// Read the first 8 bytes of `slice` as a big-endian unsigned integer.
pub fn slice_to_u64(slice: &[u8]) -> (out: u64)
    requires
        slice@.len() >= 8,
    ensures
        out == be_u64_of(slice@),
{
    let b0 = *vstd::slice::slice_index_get(slice, 0);
    let b1 = *vstd::slice::slice_index_get(slice, 1);
    let b2 = *vstd::slice::slice_index_get(slice, 2);
    let b3 = *vstd::slice::slice_index_get(slice, 3);
    let b4 = *vstd::slice::slice_index_get(slice, 4);
    let b5 = *vstd::slice::slice_index_get(slice, 5);
    let b6 = *vstd::slice::slice_index_get(slice, 6);
    let b7 = *vstd::slice::slice_index_get(slice, 7);
    (((b0 as u64) << 56) | ((b1 as u64) << 48) | ((b2 as u64) << 40) | ((b3 as u64) << 32) | ((
    b4 as u64) << 24) | ((b5 as u64) << 16) | ((b6 as u64) << 8) | (b7 as u64))
}

/// Encode `x` as its 8 big-endian bytes.
pub fn u64_to_slice(x: u64) -> (out: Vec<u8>)
    ensures
        out@ == u64_be_bytes(x),
{
    let mut out: Vec<u8> = Vec::new();
    out.push(((x >> 56) & 0xff) as u8);
    out.push(((x >> 48) & 0xff) as u8);
    out.push(((x >> 40) & 0xff) as u8);
    out.push(((x >> 32) & 0xff) as u8);
    out.push(((x >> 24) & 0xff) as u8);
    out.push(((x >> 16) & 0xff) as u8);
    out.push(((x >> 8) & 0xff) as u8);
    out.push((x & 0xff) as u8);
    proof {
        assert(out@ =~= u64_be_bytes(x));
    }
    out
}

/// The first byte of a header packs, from the most significant bit down:
/// 5 bits of filename length, 2 reserved bits, and 1 is-file flag bit.
pub open spec fn pack_flags(filename_length: u8, unused: u8, is_file: bool) -> u8
    recommends
        filename_length < 32,
        unused < 4,
{
    ((filename_length << 3) | (unused << 1) | (if is_file {
        1u8
    } else {
        0u8
    }))
}

/// The filename length carried by a header's first byte (its top 5 bits).
pub open spec fn filename_length_of(b: u8) -> u8 {
    b >> 3
}

/// The reserved bits carried by a header's first byte.
pub open spec fn unused_of(b: u8) -> u8 {
    ((b >> 1) & 3)
}

/// The is-file flag carried by a header's first byte (its lowest bit).
pub open spec fn is_file_of(b: u8) -> bool {
    (b & 1) == 1
}

/// Packing the three header fields and unpacking them again is the
/// identity, in both directions.
pub proof fn lemma_pack_flags(filename_length: u8, unused: u8, is_file: bool, b: u8)
    ensures
        filename_length < 32 && unused < 4 ==> filename_length_of(
            pack_flags(filename_length, unused, is_file),
        ) == filename_length,
        filename_length < 32 && unused < 4 ==> unused_of(
            pack_flags(filename_length, unused, is_file),
        ) == unused,
        filename_length < 32 && unused < 4 ==> is_file_of(
            pack_flags(filename_length, unused, is_file),
        ) == is_file,
        filename_length_of(b) < 32,
        unused_of(b) < 4,
        pack_flags(filename_length_of(b), unused_of(b), is_file_of(b)) == b,
{
    let f: u8 = if is_file {
        1u8
    } else {
        0u8
    };
    assert(filename_length < 32 && unused < 4 && f < 2 ==> (((filename_length << 3) | (unused << 1)
        | f) >> 3) == filename_length) by (bit_vector);
    assert(filename_length < 32 && unused < 4 && f < 2 ==> ((((filename_length << 3) | (unused
        << 1) | f) >> 1) & 3) == unused) by (bit_vector);
    assert(filename_length < 32 && unused < 4 && f < 2 ==> (((filename_length << 3) | (unused << 1)
        | f) & 1) == f) by (bit_vector);
    assert((b >> 3) < 32) by (bit_vector);
    assert(((b >> 1) & 3) < 4) by (bit_vector);
    assert((((b >> 3) << 3) | (((b >> 1) & 3) << 1) | (b & 1)) == b) by (bit_vector);
    assert((b & 1) == 1 || (b & 1) == 0) by (bit_vector);
}

/// Whether `b` is a UTF-8 continuation byte.
pub open spec fn is_utf8_cont(b: u8) -> bool {
    0x80 <= b && b <= 0xBF
}

/// Whether `s` is a well-formed UTF-8 byte sequence: a run of 1- to 4-byte
/// scalar-value encodings, excluding overlong forms, surrogates and values
/// beyond U+10FFFF.
pub open spec fn is_utf8(s: Seq<u8>) -> bool
    decreases s.len(),
{
    if s.len() == 0 {
        true
    } else {
        let b0 = s[0];
        if b0 < 0x80 {
            is_utf8(s.skip(1))
        } else if 0xC2 <= b0 && b0 <= 0xDF {
            s.len() >= 2 && is_utf8_cont(s[1]) && is_utf8(s.skip(2))
        } else if b0 == 0xE0 {
            s.len() >= 3 && 0xA0 <= s[1] && s[1] <= 0xBF && is_utf8_cont(s[2]) && is_utf8(s.skip(3))
        } else if b0 == 0xED {
            s.len() >= 3 && 0x80 <= s[1] && s[1] <= 0x9F && is_utf8_cont(s[2]) && is_utf8(s.skip(3))
        } else if (0xE1 <= b0 && b0 <= 0xEF) {
            s.len() >= 3 && is_utf8_cont(s[1]) && is_utf8_cont(s[2]) && is_utf8(s.skip(3))
        } else if b0 == 0xF0 {
            s.len() >= 4 && 0x90 <= s[1] && s[1] <= 0xBF && is_utf8_cont(s[2]) && is_utf8_cont(s[3])
                && is_utf8(s.skip(4))
        } else if 0xF1 <= b0 && b0 <= 0xF3 {
            s.len() >= 4 && is_utf8_cont(s[1]) && is_utf8_cont(s[2]) && is_utf8_cont(s[3])
                && is_utf8(s.skip(4))
        } else if b0 == 0xF4 {
            s.len() >= 4 && 0x80 <= s[1] && s[1] <= 0x8F && is_utf8_cont(s[2]) && is_utf8_cont(s[3])
                && is_utf8(s.skip(4))
        } else {
            false
        }
    }
}

/// Decide whether `bytes` is well-formed UTF-8.
pub fn utf8_check(bytes: &[u8]) -> (out: bool)
    ensures
        out == is_utf8(bytes@),
{
    let n = bytes.len();
    let mut i: usize = 0;
    proof {
        assert(bytes@.skip(0) =~= bytes@);
    }
    while i < n
        invariant
            i <= n,
            n == bytes@.len(),
            is_utf8(bytes@) == is_utf8(bytes@.skip(i as int)),
        decreases n - i,
    {
        let ghost tail = bytes@.skip(i as int);
        let b0 = *vstd::slice::slice_index_get(bytes, i);
        assert(tail[0] == b0);
        let width: usize = if b0 < 0x80 {
            1
        } else if 0xC2 <= b0 && b0 <= 0xDF {
            2
        } else if 0xE0 <= b0 && b0 <= 0xEF {
            3
        } else if 0xF0 <= b0 && b0 <= 0xF4 {
            4
        } else {
            0
        };
        if width == 0 || n - i < width {
            assert(!is_utf8(tail));
            return false;
        } else {
            let mut good: bool = true;
            if width >= 2 {
                let b1 = *vstd::slice::slice_index_get(bytes, i + 1);
                assert(tail[1] == b1);
                let lo: u8 = if b0 == 0xE0 {
                    0xA0
                } else if b0 == 0xF0 {
                    0x90
                } else {
                    0x80
                };
                let hi: u8 = if b0 == 0xED {
                    0x9F
                } else if b0 == 0xF4 {
                    0x8F
                } else {
                    0xBF
                };
                good = lo <= b1 && b1 <= hi;
            }
            if good && width >= 3 {
                let b2 = *vstd::slice::slice_index_get(bytes, i + 2);
                assert(tail[2] == b2);
                good = 0x80 <= b2 && b2 <= 0xBF;
            }
            if good && width >= 4 {
                let b3 = *vstd::slice::slice_index_get(bytes, i + 3);
                assert(tail[3] == b3);
                good = 0x80 <= b3 && b3 <= 0xBF;
            }
            if !good {
                assert(!is_utf8(tail));
                return false;
            }
            proof {
                assert(tail.skip(width as int) =~= bytes@.skip(i + width));
                assert(is_utf8(tail) == is_utf8(bytes@.skip(i + width)));
            }
            i = i + width;
        }
    }
    proof {
        assert(bytes@.skip(n as int) =~= Seq::<u8>::empty());
    }
    true
}

/// Append all of `src` to the end of `dst`.
pub fn push_bytes(dst: &mut Vec<u8>, src: &[u8])
    ensures
        final(dst)@ == old(dst)@ + src@,
{
    let ghost orig = dst@;
    let mut i: usize = 0;
    while i < src.len()
        invariant
            i <= src@.len(),
            dst@ == orig + src@.subrange(0, i as int),
        decreases src@.len() - i,
    {
        dst.push(*vstd::slice::slice_index_get(src, i));
        proof {
            assert(orig + src@.subrange(0, i as int + 1) =~= (orig + src@.subrange(
                0,
                i as int,
            )).push(src@[i as int]));
        }
        i = i + 1;
    }
    proof {
        assert(orig + src@.subrange(0, i as int) =~= orig + src@);
    }
}

/// Take the first `boundry` elements out of `v`, leaving the rest in place.
pub fn split_in_place<T: Copy>(v: &mut Vec<T>, boundry: usize) -> (out: Vec<T>)
    requires
        boundry <= old(v)@.len(),
    ensures
        out@ == old(v)@.subrange(0, boundry as int),
        final(v)@ == old(v)@.subrange(boundry as int, old(v)@.len() as int),
{
    let ghost orig = v@;
    let mut out: Vec<T> = Vec::new();
    let mut i: usize = 0;
    while i < boundry
        invariant
            i <= boundry <= orig.len(),
            v@ == orig,
            out@ == orig.subrange(0, i as int),
        decreases boundry - i,
    {
        out.push(v[i]);
        proof {
            assert(out@ =~= orig.subrange(0, i + 1));
        }
        i = i + 1;
    }
    let mut rest: Vec<T> = Vec::new();
    let mut j: usize = boundry;
    while j < v.len()
        invariant
            boundry <= j <= orig.len(),
            v@ == orig,
            rest@ == orig.subrange(boundry as int, j as int),
        decreases orig.len() - j,
    {
        rest.push(v[j]);
        proof {
            assert(rest@ =~= orig.subrange(boundry as int, j + 1));
        }
        j = j + 1;
    }
    *v = rest;
    out
}

} // verus!
