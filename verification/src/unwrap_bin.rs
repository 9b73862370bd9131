//! `banner.bin` / `icon.bin` payloads: the IMD5 wrapper, the LZ77 container
//! and stream, and the U8 archive they hold.
use vstd::prelude::*;
use crate::bytes::{be16_at, be32_at, be_u16_at, be_u32_at};
use crate::text::{
    chars_of, eq_ci, eq_ignore_case, file_extension, file_stem, path_extension, path_file_stem, push_str,
    string_from_chars,
};
use crate::u8_archive::{name_at, name_at_spec, NameFailure, U8Layout, U8WalkError};

verus! {

/// Magic number of a U8 archive.
pub const U8_MAGIC: u32 = 0x55AA382D;

/// Magic number of an LZ77 container ("LZ77").
pub const LZ77_MAGIC: u32 = 0x4C5A3737;

/// An image file found among the extracted files.
pub struct ImageSource {
    pub source_path: String,
}

/// Why a `.bin` payload could not be read.
#[derive(Debug, PartialEq, Eq)]
pub enum BinError {
    OutOfBoundsU32 { offset: u64 },
    OutOfBoundsU16 { offset: u64 },
    StringOffsetOutOfBounds { offset: u64 },
    MissingNulTerminator { offset: u64 },
    InvalidUtf8 { offset: u64, detail: String },
    Imd5TooSmall,
    Imd5HeaderNotFound,
    Imd5PayloadBeyondFile,
    Lz77TooSmall,
    Lz77WrongType { found_type: u8 },
    Lz77EofFlags,
    Lz77EofLiteral,
    Lz77EofBackref1,
    Lz77EofBackref2,
    Lz77InvalidBackref,
    ContainerTooSmall,
    ContainerWrongMagic { found_magic: u32 },
    ContainerUnsupportedMethod { method: u8 },
    UnsupportedPayload { first: [u8; 4] },
    InnerNotU8 { magic: u32 },
    U8TooSmall,
    U8MagicNotFound { found_magic: u32 },
    RootNotDirectory { root_type: u16 },
    ZeroNodes,
    InvalidBounds,
}

// ---------------------------------------------------------------------------
// Field readers.
// ---------------------------------------------------------------------------

/// The big-endian `u32` at `offset`, when four bytes are there.
pub open spec fn u32_at_spec(data: Seq<u8>, offset: int) -> Result<u32, BinError> {
    if offset + 4 <= data.len() {
        Ok(be32_at(data, offset) as u32)
    } else {
        Err(BinError::OutOfBoundsU32 { offset: offset as u64 })
    }
}

/// The big-endian `u16` at `offset`, when two bytes are there.
pub open spec fn u16_at_spec(data: Seq<u8>, offset: int) -> Result<u16, BinError> {
    if offset + 2 <= data.len() {
        Ok(be16_at(data, offset) as u16)
    } else {
        Err(BinError::OutOfBoundsU16 { offset: offset as u64 })
    }
}

/// Reads the big-endian `u32` at `offset`.
pub fn read_u32_be(data: &[u8], offset: usize) -> (r: Result<u32, BinError>)
    ensures
        r == u32_at_spec(data@, offset as int),
{
    read_u32_be64(data, offset as u64)
}

/// Reads the big-endian `u32` at a 64-bit `offset`.
pub fn read_u32_be64(data: &[u8], offset: u64) -> (r: Result<u32, BinError>)
    ensures
        r == u32_at_spec(data@, offset as int),
{
    let len = data.len() as u64;
    if offset <= len && len - offset >= 4 {
        let v = be_u32_at(data, offset as usize);
        Ok(v)
    } else {
        Err(BinError::OutOfBoundsU32 { offset })
    }
}

/// Reads the big-endian `u16` at `offset`.
pub fn read_u16_be(data: &[u8], offset: usize) -> (r: Result<u16, BinError>)
    ensures
        r == u16_at_spec(data@, offset as int),
{
    read_u16_be64(data, offset as u64)
}

/// Reads the big-endian `u16` at a 64-bit `offset`.
pub fn read_u16_be64(data: &[u8], offset: u64) -> (r: Result<u16, BinError>)
    ensures
        r == u16_at_spec(data@, offset as int),
{
    let len = data.len() as u64;
    if offset <= len && len - offset >= 2 {
        let v = be_u16_at(data, offset as usize);
        Ok(v)
    } else {
        Err(BinError::OutOfBoundsU16 { offset })
    }
}

/// Reads the NUL-terminated UTF-8 string at `offset`.
pub fn cstring_at(data: &[u8], offset: usize) -> (r: Result<String, BinError>)
    ensures
        match name_at_spec(data@, offset as int) {
            Ok(s) => r matches Ok(n) && n@ == s,
            Err(NameFailure::OffsetOutOfBounds) => r == Err::<String, BinError>(
                BinError::StringOffsetOutOfBounds { offset: offset as u64 },
            ),
            Err(NameFailure::MissingNul) => r == Err::<String, BinError>(
                BinError::MissingNulTerminator { offset: offset as u64 },
            ),
            Err(NameFailure::InvalidUtf8 { detail }) => r matches Err(BinError::InvalidUtf8 { offset: o, detail: d })
                && o == offset && d@ == detail,
        },
{
    match name_at(data, offset as u64) {
        Ok(s) => Ok(s),
        Err(U8WalkError::NameOffsetOutOfBounds { offset }) => Err(BinError::StringOffsetOutOfBounds { offset }),
        Err(U8WalkError::MissingNul { offset }) => Err(BinError::MissingNulTerminator { offset }),
        Err(U8WalkError::InvalidUtf8 { offset, detail }) => Err(BinError::InvalidUtf8 { offset, detail }),
        Err(_) => Err(BinError::InvalidBounds),
    }
}

// ---------------------------------------------------------------------------
// IMD5.
// ---------------------------------------------------------------------------

/// The payload that an IMD5 header announces: `size` bytes from 0x20 on.
pub open spec fn imd5_spec(data: Seq<u8>) -> Result<Seq<u8>, BinError> {
    if data.len() < 0x20 {
        Err(BinError::Imd5TooSmall)
    } else if !(data[0] == 0x49 && data[1] == 0x4D && data[2] == 0x44 && data[3] == 0x35) {
        Err(BinError::Imd5HeaderNotFound)
    } else if 0x20 + be32_at(data, 4) > data.len() {
        Err(BinError::Imd5PayloadBeyondFile)
    } else {
        Ok(data.subrange(0x20, 0x20 + be32_at(data, 4)))
    }
}

/// Strips the IMD5 header and returns the payload it announces.
pub fn strip_imd5(data: &[u8]) -> (r: Result<&[u8], BinError>)
    ensures
        match imd5_spec(data@) {
            Ok(p) => r matches Ok(q) && q@ == p,
            Err(e) => r == Err::<&[u8], BinError>(e),
        },
{
    if data.len() < 0x20 {
        return Err(BinError::Imd5TooSmall);
    }
    if !(data[0] == 0x49 && data[1] == 0x4D && data[2] == 0x44 && data[3] == 0x35) {
        return Err(BinError::Imd5HeaderNotFound);
    }
    let payload_size = be_u32_at(data, 4);
    if 0x20 + payload_size as u64 > data.len() as u64 {
        return Err(BinError::Imd5PayloadBeyondFile);
    }
    let end: usize = 0x20 + payload_size as usize;
    Ok(&data[0x20..end])
}

// ---------------------------------------------------------------------------
// LZ77 (type 0x10).
// ---------------------------------------------------------------------------

/// Output size announced by an LZ77 stream header (bytes 1..4, little-endian).
pub open spec fn lz_declared_size(data: Seq<u8>) -> int {
    data[1] + data[2] * 0x100 + data[3] * 0x10000
}

/// `out` extended by copying `n` bytes one at a time from `start` on; a copy
/// may read bytes that it has itself just written.
pub open spec fn lz_copy(out: Seq<u8>, start: int, n: nat) -> Seq<u8>
    decreases n,
{
    if n == 0 {
        out
    } else {
        let o = lz_copy(out, start, (n - 1) as nat);
        o.push(o[start + n - 1])
    }
}

pub proof fn lemma_lz_copy_len(out: Seq<u8>, start: int, n: nat)
    ensures
        lz_copy(out, start, n).len() == out.len() + n,
    decreases n,
{
    if n > 0 {
        lemma_lz_copy_len(out, start, (n - 1) as nat);
    }
}

/// Whether token `bit` of a flag byte is a back-reference.
pub open spec fn lz_flag_set(flags: u8, bit: int) -> bool {
    flags & (0x80u8 >> (bit as u8)) != 0
}

/// Length of the back-reference whose first byte is `b1`.
pub open spec fn lz_ref_len(b1: u8) -> int {
    b1 / 16 + 3
}

/// Distance of the back-reference made of `b1`, `b2`.
pub open spec fn lz_ref_disp(b1: u8, b2: u8) -> int {
    (b1 % 16) * 256 + b2 + 1
}

/// Decoding from a flag byte at `pos`, with `out` decoded so far.
pub open spec fn lz_from(data: Seq<u8>, size: int, pos: int, out: Seq<u8>) -> Result<Seq<u8>, BinError>
    decreases size - out.len(), 1int,
{
    if out.len() >= size {
        Ok(out)
    } else if pos < 0 || pos >= data.len() {
        Err(BinError::Lz77EofFlags)
    } else {
        lz_group(data, size, pos + 1, out, data[pos], 0)
    }
}

/// Decoding token `bit` of the group led by `flags`, the token's bytes at `pos`.
pub open spec fn lz_group(data: Seq<u8>, size: int, pos: int, out: Seq<u8>, flags: u8, bit: int) -> Result<
    Seq<u8>,
    BinError,
>
    decreases size - out.len(), 0int,
{
    if out.len() >= size {
        Ok(out)
    } else if bit < 0 || bit >= 8 || pos < 0 {
        Err(BinError::Lz77EofFlags)
    } else if !lz_flag_set(flags, bit) {
        if pos >= data.len() {
            Err(BinError::Lz77EofLiteral)
        } else {
            let o = out.push(data[pos]);
            if bit + 1 >= 8 {
                lz_from(data, size, pos + 1, o)
            } else {
                lz_group(data, size, pos + 1, o, flags, bit + 1)
            }
        }
    } else if pos >= data.len() {
        Err(BinError::Lz77EofBackref1)
    } else if pos + 1 >= data.len() {
        Err(BinError::Lz77EofBackref2)
    } else {
        let b1 = data[pos];
        let b2 = data[pos + 1];
        let disp = lz_ref_disp(b1, b2);
        if disp > out.len() {
            Err(BinError::Lz77InvalidBackref)
        } else {
            let n: nat = if lz_ref_len(b1) <= size - out.len() {
                lz_ref_len(b1) as nat
            } else {
                (size - out.len()) as nat
            };
            let o = lz_copy(out, out.len() - disp, n);
            proof {
                lemma_lz_copy_len(out, out.len() - disp, n);
            }
            if bit + 1 >= 8 {
                lz_from(data, size, pos + 2, o)
            } else {
                lz_group(data, size, pos + 2, o, flags, bit + 1)
            }
        }
    }
}

/// What an LZ77 (type 0x10) stream decodes to.
pub open spec fn lz77_spec(data: Seq<u8>) -> Result<Seq<u8>, BinError> {
    if data.len() < 4 {
        Err(BinError::Lz77TooSmall)
    } else if data[0] != 0x10 {
        Err(BinError::Lz77WrongType { found_type: data[0] })
    } else {
        lz_from(data, lz_declared_size(data), 4, Seq::empty())
    }
}

/// Appends `n` bytes copied one at a time from `start` on.
fn lz_copy_exec(out: &mut Vec<u8>, start: usize, n: usize)
    requires
        start < old(out)@.len(),
    ensures
        final(out)@ == lz_copy(old(out)@, start as int, n as nat),
{
    let ghost o0 = out@;
    let mut k: usize = 0;
    while k < n
        invariant
            k <= n,
            start < o0.len(),
            out@ == lz_copy(o0, start as int, k as nat),
            out@.len() == o0.len() + k,
        decreases n - k,
    {
        let cur = out.len();
        let v = out[start + k];
        out.push(v);
        k = k + 1;
        proof {
            lemma_lz_copy_len(o0, start as int, k as nat);
        }
    }
}

/// Decompresses an LZ77 (type 0x10) stream.
pub fn decompress_lz77(data: &[u8]) -> (r: Result<Vec<u8>, BinError>)
    ensures
        match lz77_spec(data@) {
            Ok(v) => r matches Ok(w) && w@ == v,
            Err(e) => r == Err::<Vec<u8>, BinError>(e),
        },
{
    if data.len() < 4 {
        return Err(BinError::Lz77TooSmall);
    }
    if data[0] != 0x10 {
        return Err(BinError::Lz77WrongType { found_type: data[0] });
    }
    let out_size: usize = (data[1] as usize) | ((data[2] as usize) << 8) | ((data[3] as usize) << 16);
    proof {
        let (a, b, c) = (data[1], data[2], data[3]);
        assert((a as usize) | ((b as usize) << 8) | ((c as usize) << 16) == (a as usize) + (b as usize)
            * 0x100 + (c as usize) * 0x10000) by (bit_vector);
    }
    let ghost size = out_size as int;
    let ghost target = lz_from(data@, size, 4, Seq::empty());
    let len = data.len();
    let mut out: Vec<u8> = Vec::with_capacity(out_size);
    let mut pos: usize = 4;
    while out.len() < out_size
        invariant
            size == out_size,
            size == lz_declared_size(data@),
            len == data@.len(),
            pos <= len + 2,
            out@.len() <= size,
            lz_from(data@, size, pos as int, out@) == target,
            target == lz77_spec(data@),
        decreases size - out@.len(),
    {
        let ghost len0 = out@.len();
        if pos >= len {
            return Err(BinError::Lz77EofFlags);
        }
        let flags = data[pos];
        pos = pos + 1;
        let mut bit: u8 = 0;
        while bit < 8
            invariant
                size == out_size,
                len == data@.len(),
                bit <= 8,
                pos <= len + 2,
                out@.len() <= size,
                target == lz77_spec(data@),
                bit == 0 ==> out@.len() == len0 && len0 < size && flags == data@[pos - 1],
                bit > 0 ==> out@.len() > len0,
                (if bit < 8 {
                    lz_group(data@, size, pos as int, out@, flags, bit as int)
                } else {
                    lz_from(data@, size, pos as int, out@)
                }) == target,
            ensures
                out@.len() <= size,
                out@.len() > len0,
                pos <= len + 2,
                lz_from(data@, size, pos as int, out@) == target,
            decreases 8 - bit,
        {
            if out.len() >= out_size {
                break;
            }
            let compressed = (flags & (0x80u8 >> bit)) != 0;
            if !compressed {
                if pos >= len {
                    return Err(BinError::Lz77EofLiteral);
                }
                out.push(data[pos]);
                pos = pos + 1;
            } else {
                if pos >= len {
                    return Err(BinError::Lz77EofBackref1);
                }
                if pos + 1 >= len {
                    return Err(BinError::Lz77EofBackref2);
                }
                let b1 = data[pos];
                let b2 = data[pos + 1];
                pos = pos + 2;
                proof {
                    assert((((b1 & 0x0F) as usize) << 8) | b2 as usize <= 4095) by (bit_vector);
                }
                let length: usize = ((b1 >> 4) as usize) + 3;
                let disp: usize = ((((b1 & 0x0F) as usize) << 8) | b2 as usize) + 1;
                proof {
                    assert((b1 >> 4) as usize == (b1 as usize) / 16) by (bit_vector);
                    assert((((b1 & 0x0F) as usize) << 8) | b2 as usize == ((b1 as usize) % 16) * 256
                        + (b2 as usize)) by (bit_vector);
                }
                if disp > out.len() {
                    return Err(BinError::Lz77InvalidBackref);
                }
                let copy_start = out.len() - disp;
                let room = out_size - out.len();
                let n = if length <= room { length } else { room };
                proof {
                    lemma_lz_copy_len(out@, copy_start as int, n as nat);
                }
                lz_copy_exec(&mut out, copy_start, n);
            }
            bit = bit + 1;
        }
    }
    Ok(out)
}

/// An LZ77 stream ends exactly at the size its header announces.
pub proof fn law_lz77_output_has_declared_size(data: Seq<u8>)
    ensures
        lz77_spec(data) matches Ok(out) ==> out.len() == lz_declared_size(data),
{
    if data.len() >= 4 && data[0] == 0x10 {
        lemma_lz_from_len(data, lz_declared_size(data), 4, Seq::empty());
    }
}

/// The groups of a literal-only LZ77 stream of `s`: for each run of up to
/// eight bytes, a zero flag byte followed by the bytes.
pub open spec fn lz_literal_groups(s: Seq<u8>) -> Seq<u8>
    decreases s.len(),
{
    if s.len() == 0 {
        Seq::empty()
    } else if s.len() <= 8 {
        seq![0u8] + s
    } else {
        seq![0u8] + s.take(8) + lz_literal_groups(s.skip(8))
    }
}

/// The literal-only LZ77 (type 0x10) stream of `s`: the type byte, the
/// length in three little-endian bytes, then the literal groups.
pub open spec fn lz_literal_stream(s: Seq<u8>) -> Seq<u8> {
    seq![0x10u8, (s.len() % 0x100) as u8, ((s.len() / 0x100) % 0x100) as u8, ((s.len() / 0x10000) % 0x100) as u8]
        + lz_literal_groups(s)
}

/// Where the bytes of `s` sit among its literal groups: group `j` starts
/// with a zero flag byte at `9j`, and byte `8j + b` of `s` follows at
/// `9j + 1 + b`.
proof fn lemma_literal_groups(s: Seq<u8>, j: int, b: int)
    requires
        0 <= j,
        0 <= b < 8,
        8 * j + b < s.len(),
    ensures
        9 * j + 1 + b < lz_literal_groups(s).len(),
        lz_literal_groups(s)[9 * j] == 0,
        lz_literal_groups(s)[9 * j + 1 + b] == s[8 * j + b],
    decreases s.len(),
{
    let g = lz_literal_groups(s);
    if s.len() <= 8 {
        assert(j == 0);
    } else {
        let rest = s.skip(8);
        let head = seq![0u8] + s.take(8);
        assert(g == head + lz_literal_groups(rest));
        if j > 0 {
            lemma_literal_groups(rest, j - 1, b);
            assert(rest[8 * (j - 1) + b] == s[8 * j + b]);
            assert(g[9 * j] == lz_literal_groups(rest)[9 * (j - 1)]);
            assert(g[9 * j + 1 + b] == lz_literal_groups(rest)[9 * (j - 1) + 1 + b]);
        }
    }
}

/// The flag byte of a literal group marks no token as a back-reference.
proof fn lemma_zero_flags(bit: int)
    requires
        0 <= bit < 8,
    ensures
        !lz_flag_set(0, bit),
{
    let b = bit as u8;
    assert(0u8 & (0x80u8 >> b) == 0) by (bit_vector);
}

/// Decoding the literal stream from group `j`, token `bit`, gives `s`.
proof fn lemma_literal_group_decodes(s: Seq<u8>, j: int, bit: int)
    requires
        s.len() < 0x100_0000,
        0 <= j,
        0 <= bit < 8,
        8 * j + bit <= s.len(),
        bit > 0 ==> 8 * j < s.len(),
    ensures
        lz_group(lz_literal_stream(s), s.len() as int, 4 + 9 * j + 1 + bit, s.take(8 * j + bit), 0, bit) == Ok::<
            Seq<u8>,
            BinError,
        >(s),
    decreases s.len() - (8 * j + bit), 0int,
{
    let d = lz_literal_stream(s);
    let out = s.take(8 * j + bit);
    if out.len() >= s.len() {
        assert(out =~= s);
    } else {
        lemma_zero_flags(bit);
        lemma_literal_groups(s, j, bit);
        let pos = 4 + 9 * j + 1 + bit;
        assert(d[pos] == lz_literal_groups(s)[9 * j + 1 + bit]);
        assert(out.push(d[pos]) =~= s.take(8 * j + bit + 1));
        if bit + 1 >= 8 {
            lemma_literal_from_decodes(s, j + 1);
            assert(pos + 1 == 4 + 9 * (j + 1));
            assert(8 * j + bit + 1 == 8 * (j + 1));
        } else {
            lemma_literal_group_decodes(s, j, bit + 1);
        }
    }
}

/// Decoding the literal stream from the flag byte of group `j` gives `s`.
proof fn lemma_literal_from_decodes(s: Seq<u8>, j: int)
    requires
        s.len() < 0x100_0000,
        0 <= j,
        8 * j <= s.len(),
    ensures
        lz_from(lz_literal_stream(s), s.len() as int, 4 + 9 * j, s.take(8 * j)) == Ok::<Seq<u8>, BinError>(s),
    decreases s.len() - 8 * j, 1int,
{
    let d = lz_literal_stream(s);
    if 8 * j >= s.len() {
        assert(s.take(8 * j) =~= s);
    } else {
        lemma_literal_groups(s, j, 0);
        assert(d[4 + 9 * j] == lz_literal_groups(s)[9 * j]);
        lemma_literal_group_decodes(s, j, 0);
    }
}

/// A literal-only LZ77 stream decodes back to the bytes it was made from.
pub proof fn law_lz77_literal_round_trip(s: Seq<u8>)
    requires
        s.len() < 0x100_0000,
    ensures
        lz77_spec(lz_literal_stream(s)) == Ok::<Seq<u8>, BinError>(s),
{
    let d = lz_literal_stream(s);
    let n = s.len() as int;
    assert(d[1] + d[2] * 0x100 + d[3] * 0x10000 == n) by (nonlinear_arith)
        requires
            d[1] == n % 0x100,
            d[2] == (n / 0x100) % 0x100,
            d[3] == (n / 0x10000) % 0x100,
            0 <= n < 0x100_0000,
    ;
    assert(s.take(0) =~= Seq::<u8>::empty());
    lemma_literal_from_decodes(s, 0);
}

/// A stream whose first group holds the literals `p`, then one
/// back-reference made of `b1`, `b2`, then the literals `tail`, with `size`
/// declared.
pub open spec fn lz_one_ref_stream(p: Seq<u8>, b1: u8, b2: u8, tail: Seq<u8>, size: int) -> Seq<u8> {
    seq![
        0x10u8,
        (size % 0x100) as u8,
        ((size / 0x100) % 0x100) as u8,
        ((size / 0x10000) % 0x100) as u8,
        0x80u8 >> (p.len() as u8),
    ] + p + seq![b1, b2] + tail
}

/// Copying keeps what was there, and each copied byte equals the byte
/// `out.len() - start` places before it.
proof fn lemma_lz_copy_content(out: Seq<u8>, start: int, n: nat)
    requires
        0 <= start < out.len(),
    ensures
        lz_copy(out, start, n).len() == out.len() + n,
        forall|j: int| 0 <= j < out.len() ==> #[trigger] lz_copy(out, start, n)[j] == out[j],
        forall|j: int|
            out.len() <= j < out.len() + n ==> #[trigger] lz_copy(out, start, n)[j] == lz_copy(out, start, n)[j
                - (out.len() - start)],
    decreases n,
{
    if n > 0 {
        lemma_lz_copy_content(out, start, (n - 1) as nat);
        let o = lz_copy(out, start, (n - 1) as nat);
        let o2 = lz_copy(out, start, n);
        assert(o2 == o.push(o[start + n - 1]));
        assert forall|j: int| out.len() <= j < out.len() + n implies #[trigger] o2[j] == o2[j - (out.len()
            - start)] by {
            if j < out.len() + n - 1 {
                assert(o2[j] == o[j]);
                assert(o2[j - (out.len() - start)] == o[j - (out.len() - start)]);
            } else {
                assert(o2[j] == o[start + n - 1]);
                assert(o2[start + n - 1] == o[start + n - 1]);
            }
        }
        assert forall|j: int| 0 <= j < out.len() implies #[trigger] o2[j] == out[j] by {
            assert(o2[j] == o[j]);
        }
    }
}

/// The literals of the first group of `lz_one_ref_stream` are appended
/// one by one.
proof fn lemma_one_ref_literals(p: Seq<u8>, b1: u8, b2: u8, tail: Seq<u8>, size: int, b: int)
    requires
        1 <= p.len() <= 7,
        p.len() < size,
        0 <= b <= p.len(),
    ensures
        lz_group(lz_one_ref_stream(p, b1, b2, tail, size), size, 5 + b, p.take(b), 0x80u8 >> (p.len() as u8), b)
            == lz_group(lz_one_ref_stream(p, b1, b2, tail, size), size, 5 + p.len() as int, p, 0x80u8 >> (p.len() as u8), p.len() as int),
    decreases p.len() - b,
{
    if b < p.len() {
        let d = lz_one_ref_stream(p, b1, b2, tail, size);
        let m = p.len() as u8;
        let bb = b as u8;
        assert((0x80u8 >> m) & (0x80u8 >> bb) == 0) by (bit_vector)
            requires
                m < 8,
                bb < 8,
                m != bb,
        ;
        assert(d[5 + b] == p[b]);
        assert(p.take(b).push(p[b]) =~= p.take(b + 1));
        assert(!lz_flag_set(0x80u8 >> (p.len() as u8), b));
        assert(p.take(b).len() == b);
        lemma_one_ref_literals(p, b1, b2, tail, size, b + 1);
        assert(lz_group(d, size, 5 + b, p.take(b), 0x80u8 >> (p.len() as u8), b) == lz_group(
            d,
            size,
            5 + b + 1,
            p.take(b + 1),
            0x80u8 >> (p.len() as u8),
            b + 1,
        ));
    } else {
        assert(p.take(b) =~= p);
    }
}

/// A back-reference appends `b1 / 16 + 3` bytes, or fewer when the
/// declared size is reached first, each equal to the byte
/// `(b1 % 16) * 256 + b2 + 1` places before it: a stream of one to seven
/// literals `p` and one back-reference decodes to `p` followed by such
/// bytes up to any declared size that the reference can fill, whatever
/// bytes follow.
pub proof fn law_lz77_back_reference(p: Seq<u8>, b1: u8, b2: u8, tail: Seq<u8>, size: int)
    requires
        1 <= p.len() <= 7,
        (b1 % 16) * 256 + b2 + 1 <= p.len(),
        p.len() < size <= p.len() + b1 / 16 + 3,
    ensures
        lz77_spec(lz_one_ref_stream(p, b1, b2, tail, size)) matches Ok(out) && out.len() == size && out.take(
            p.len() as int,
        ) == p && forall|k: int|
            p.len() <= k < size ==> #[trigger] out[k] == out[k - ((b1 % 16) * 256 + b2 + 1)],
{
    let d = lz_one_ref_stream(p, b1, b2, tail, size);
    let m = p.len() as int;
    let flags = 0x80u8 >> (m as u8);
    assert(d[1] + d[2] * 0x100 + d[3] * 0x10000 == size) by (nonlinear_arith)
        requires
            d[1] == size % 0x100,
            d[2] == (size / 0x100) % 0x100,
            d[3] == (size / 0x10000) % 0x100,
            0 <= size < 0x100_0000,
    ;
    assert(d[4] == flags);
    assert(Seq::<u8>::empty() =~= p.take(0));
    lemma_one_ref_literals(p, b1, b2, tail, size, 0);
    let mm = m as u8;
    assert((0x80u8 >> mm) & (0x80u8 >> mm) != 0) by (bit_vector)
        requires
            mm < 8,
    ;
    assert(d[5 + m] == b1);
    assert(d[6 + m] == b2);
    let disp = lz_ref_disp(b1, b2);
    let n = (size - m) as nat;
    lemma_lz_copy_content(p, m - disp, n);
    let o = lz_copy(p, m - disp, n);
    assert(o.take(m) =~= p);
    assert(lz_declared_size(d) == size);
    assert(lz77_spec(d) == lz_from(d, size, 4, Seq::empty()));
    assert(lz_from(d, size, 4, Seq::empty()) == lz_group(d, size, 5, Seq::empty(), flags, 0));
    assert(lz_flag_set(flags, m));
    assert(lz_ref_len(b1) == b1 / 16 + 3);
    assert(n == (if lz_ref_len(b1) <= size - m { lz_ref_len(b1) as nat } else { (size - m) as nat }));
    if m + 1 >= 8 {
        assert(lz_from(d, size, 5 + m + 2, o) == Ok::<Seq<u8>, BinError>(o));
    } else {
        assert(lz_group(d, size, 5 + m + 2, o, flags, m + 1) == Ok::<Seq<u8>, BinError>(o));
    }
    assert(lz_group(d, size, 5 + m, p, flags, m) == Ok::<Seq<u8>, BinError>(o));
    assert forall|k: int| m <= k < size implies #[trigger] o[k] == o[k - disp] by {}
}

/// A back-reference copies exactly `b1 / 16 + 3` bytes when more are
/// missing: a literal `x` that follows it in the same group comes right
/// after those bytes, and ends the output.
pub proof fn law_lz77_reference_then_literal(p: Seq<u8>, b1: u8, b2: u8, x: u8)
    requires
        1 <= p.len() <= 6,
        (b1 % 16) * 256 + b2 + 1 <= p.len(),
    ensures
        ({
            let size = p.len() + b1 / 16 + 4;
            lz77_spec(lz_one_ref_stream(p, b1, b2, seq![x], size)) matches Ok(out) && out.len() == size
                && out.take(p.len() as int) == p && out[size - 1] == x && forall|k: int|
                p.len() <= k < size - 1 ==> #[trigger] out[k] == out[k - ((b1 % 16) * 256 + b2 + 1)]
        }),
{
    let size = p.len() + b1 / 16 + 4;
    let tail = seq![x];
    let d = lz_one_ref_stream(p, b1, b2, tail, size);
    let m = p.len() as int;
    let flags = 0x80u8 >> (m as u8);
    assert(d[1] + d[2] * 0x100 + d[3] * 0x10000 == size) by (nonlinear_arith)
        requires
            d[1] == size % 0x100,
            d[2] == (size / 0x100) % 0x100,
            d[3] == (size / 0x10000) % 0x100,
            0 <= size < 0x100_0000,
    ;
    assert(d[4] == flags);
    assert(Seq::<u8>::empty() =~= p.take(0));
    lemma_one_ref_literals(p, b1, b2, tail, size, 0);
    let mm = m as u8;
    let nb = (m + 1) as u8;
    assert((0x80u8 >> mm) & (0x80u8 >> mm) != 0) by (bit_vector)
        requires
            mm < 8,
    ;
    assert((0x80u8 >> mm) & (0x80u8 >> nb) == 0) by (bit_vector)
        requires
            mm < 7,
            nb == mm + 1,
    ;
    assert(d[5 + m] == b1);
    assert(d[6 + m] == b2);
    assert(d[7 + m] == x);
    let disp = lz_ref_disp(b1, b2);
    let n = (b1 / 16 + 3) as nat;
    lemma_lz_copy_content(p, m - disp, n);
    let o = lz_copy(p, m - disp, n);
    let o2 = o.push(x);
    assert(o.take(m) =~= p);
    assert(o2.take(m) =~= p);
    assert(lz_declared_size(d) == size);
    assert(lz77_spec(d) == lz_from(d, size, 4, Seq::empty()));
    assert(lz_from(d, size, 4, Seq::empty()) == lz_group(d, size, 5, Seq::empty(), flags, 0));
    assert(lz_flag_set(flags, m));
    assert(!lz_flag_set(flags, m + 1));
    assert(lz_ref_len(b1) == b1 / 16 + 3);
    assert(n == (if lz_ref_len(b1) <= size - m { lz_ref_len(b1) as nat } else { (size - m) as nat }));
    if m + 2 >= 8 {
        assert(lz_from(d, size, 5 + m + 3, o2) == Ok::<Seq<u8>, BinError>(o2));
    } else {
        assert(lz_group(d, size, 5 + m + 3, o2, flags, m + 2) == Ok::<Seq<u8>, BinError>(o2));
    }
    assert(lz_group(d, size, 5 + m + 2, o, flags, m + 1) == Ok::<Seq<u8>, BinError>(o2));
    assert(lz_group(d, size, 5 + m, p, flags, m) == Ok::<Seq<u8>, BinError>(o2));
    assert forall|k: int| m <= k < size - 1 implies #[trigger] o2[k] == o2[k - disp] by {
        assert(o2[k] == o[k]);
        assert(o2[k - disp] == o[k - disp]);
    }
}

proof fn lemma_lz_from_len(data: Seq<u8>, size: int, pos: int, out: Seq<u8>)
    requires
        out.len() <= size,
    ensures
        lz_from(data, size, pos, out) matches Ok(o) ==> o.len() == size,
    decreases size - out.len(), 1int,
{
    if out.len() < size && 0 <= pos < data.len() {
        lemma_lz_group_len(data, size, pos + 1, out, data[pos], 0);
    }
}

proof fn lemma_lz_group_len(data: Seq<u8>, size: int, pos: int, out: Seq<u8>, flags: u8, bit: int)
    requires
        out.len() <= size,
    ensures
        lz_group(data, size, pos, out, flags, bit) matches Ok(o) ==> o.len() == size,
    decreases size - out.len(), 0int,
{
    if out.len() >= size || bit < 0 || bit >= 8 || pos < 0 {
    } else if !lz_flag_set(flags, bit) {
        if pos < data.len() {
            let o = out.push(data[pos]);
            if bit + 1 >= 8 {
                lemma_lz_from_len(data, size, pos + 1, o);
            } else {
                lemma_lz_group_len(data, size, pos + 1, o, flags, bit + 1);
            }
        }
    } else if pos + 1 < data.len() {
        let b1 = data[pos];
        let b2 = data[pos + 1];
        let disp = lz_ref_disp(b1, b2);
        if disp <= out.len() {
            let n: nat = if lz_ref_len(b1) <= size - out.len() {
                lz_ref_len(b1) as nat
            } else {
                (size - out.len()) as nat
            };
            lemma_lz_copy_len(out, out.len() - disp, n);
            let o = lz_copy(out, out.len() - disp, n);
            if bit + 1 >= 8 {
                lemma_lz_from_len(data, size, pos + 2, o);
            } else {
                lemma_lz_group_len(data, size, pos + 2, o, flags, bit + 1);
            }
        }
    }
}

// ---------------------------------------------------------------------------
// LZ77 container and payload selection.
// ---------------------------------------------------------------------------

/// The stream inside an "LZ77" container: everything after the magic,
/// provided the method byte says type 0x10.
pub open spec fn lz77_container_spec(data: Seq<u8>) -> Result<Seq<u8>, BinError> {
    if data.len() < 8 {
        Err(BinError::ContainerTooSmall)
    } else if be32_at(data, 0) != LZ77_MAGIC {
        Err(BinError::ContainerWrongMagic { found_magic: be32_at(data, 0) as u32 })
    } else if data[4] != 0x10 {
        Err(BinError::ContainerUnsupportedMethod { method: data[4] })
    } else {
        Ok(data.subrange(4, data.len() as int))
    }
}

/// Unwraps an "LZ77" container to the stream it holds.
pub fn unwrap_lz77_container(data: &[u8]) -> (r: Result<&[u8], BinError>)
    ensures
        match lz77_container_spec(data@) {
            Ok(p) => r matches Ok(q) && q@ == p,
            Err(e) => r == Err::<&[u8], BinError>(e),
        },
{
    if data.len() < 8 {
        return Err(BinError::ContainerTooSmall);
    }
    let magic = be_u32_at(data, 0);
    if magic != LZ77_MAGIC {
        return Err(BinError::ContainerWrongMagic { found_magic: magic });
    }
    let info = be_u32_at(data, 4);
    let method: u8 = ((info >> 24) & 0xFF) as u8;
    proof {
        assert((info >> 24) & 0xFF == info / 0x1000000) by (bit_vector);
    }
    if method != 0x10 {
        return Err(BinError::ContainerUnsupportedMethod { method });
    }
    Ok(&data[4..data.len()])
}

/// The first four bytes of `p`, zero where `p` is shorter.
pub open spec fn first_four(p: Seq<u8>) -> [u8; 4] {
    [
        if p.len() > 0 { p[0] } else { 0 },
        if p.len() > 1 { p[1] } else { 0 },
        if p.len() > 2 { p[2] } else { 0 },
        if p.len() > 3 { p[3] } else { 0 },
    ]
}

/// The magic of a payload, taken as zero when it is shorter than four bytes.
pub open spec fn payload_magic(p: Seq<u8>) -> int {
    if p.len() >= 4 { be32_at(p, 0) } else { 0 }
}

/// The U8 archive inside the IMD5 payload: stored as is, in an LZ77
/// container, or as a bare LZ77 stream.
pub open spec fn inner_u8_spec(data: Seq<u8>) -> Result<Seq<u8>, BinError> {
    match imd5_spec(data) {
        Err(e) => Err(e),
        Ok(p) => {
            let inner = if payload_magic(p) == U8_MAGIC {
                Ok(p)
            } else if payload_magic(p) == LZ77_MAGIC {
                match lz77_container_spec(p) {
                    Err(e) => Err(e),
                    Ok(s) => lz77_spec(s),
                }
            } else if p.len() > 0 && p[0] == 0x10 {
                lz77_spec(p)
            } else {
                Err(BinError::UnsupportedPayload { first: first_four(p) })
            };
            match inner {
                Err(e) => Err(e),
                Ok(u) => if u.len() < 4 {
                    Err(BinError::OutOfBoundsU32 { offset: 0 })
                } else if be32_at(u, 0) != U8_MAGIC {
                    Err(BinError::InnerNotU8 { magic: be32_at(u, 0) as u32 })
                } else {
                    Ok(u)
                },
            }
        },
    }
}

/// Copy of a byte slice.
fn bytes_to_vec(s: &[u8]) -> (r: Vec<u8>)
    ensures
        r@ == s@,
{
    let r = crate::text::slice_range(s, 0, s.len());
    assert(s@.subrange(0, s@.len() as int) =~= s@);
    r
}

/// Extracts the U8 archive that a `banner.bin` or `icon.bin` file carries.
pub fn bin_inner_u8(data: &[u8]) -> (r: Result<Vec<u8>, BinError>)
    ensures
        match inner_u8_spec(data@) {
            Ok(v) => r matches Ok(w) && w@ == v,
            Err(e) => r == Err::<Vec<u8>, BinError>(e),
        },
{
    let payload = strip_imd5(data)?;
    let magic = match read_u32_be(payload, 0) {
        Ok(m) => m,
        Err(_) => 0,
    };
    let inner = if magic == U8_MAGIC {
        bytes_to_vec(payload)
    } else if magic == LZ77_MAGIC {
        let stream = unwrap_lz77_container(payload)?;
        decompress_lz77(stream)?
    } else if payload.len() > 0 && payload[0] == 0x10 {
        decompress_lz77(payload)?
    } else {
        let b0 = if payload.len() > 0 { payload[0] } else { 0 };
        let b1 = if payload.len() > 1 { payload[1] } else { 0 };
        let b2 = if payload.len() > 2 { payload[2] } else { 0 };
        let b3 = if payload.len() > 3 { payload[3] } else { 0 };
        let first = [b0, b1, b2, b3];
        assert(first == first_four(payload@));
        return Err(BinError::UnsupportedPayload { first });
    };
    let u8_magic = read_u32_be(inner.as_slice(), 0)?;
    if u8_magic != U8_MAGIC {
        return Err(BinError::InnerNotU8 { magic: u8_magic });
    }
    Ok(inner)
}

// ---------------------------------------------------------------------------
// The archive header.
// ---------------------------------------------------------------------------

/// Layout of a U8 archive that starts at offset 0 of `data`.
pub open spec fn extract_layout_spec(data: Seq<u8>) -> Result<U8Layout, BinError> {
    if data.len() < 0x20 {
        Err(BinError::U8TooSmall)
    } else if be32_at(data, 0) != U8_MAGIC {
        Err(BinError::U8MagicNotFound { found_magic: be32_at(data, 0) as u32 })
    } else {
        let root = be32_at(data, 4);
        let header_size = be32_at(data, 8);
        match u16_at_spec(data, root) {
            Err(e) => Err(e),
            Ok(root_type) => if root_type != 0x0100 {
                Err(BinError::RootNotDirectory { root_type })
            } else {
                match u32_at_spec(data, root + 8) {
                    Err(e) => Err(e),
                    Ok(total) => if total == 0 {
                        Err(BinError::ZeroNodes)
                    } else if root + total * 12 > data.len() || root + header_size > data.len() {
                        Err(BinError::InvalidBounds)
                    } else {
                        Ok(
                            U8Layout {
                                data_base: 0,
                                rootnode_abs: root as u64,
                                total_nodes: total as u64,
                                string_table_abs: (root + total * 12) as u64,
                            },
                        )
                    },
                }
            },
        }
    }
}

/// Checks the header of a U8 archive held in `u8_data` and locates its
/// node table.
pub fn u8_extract_layout(u8_data: &[u8]) -> (r: Result<U8Layout, BinError>)
    ensures
        r == extract_layout_spec(u8_data@),
        r matches Ok(l) ==> l.wf(u8_data@.len() as int) && l.data_base == 0,
{
    if u8_data.len() < 0x20 {
        return Err(BinError::U8TooSmall);
    }
    let magic = be_u32_at(u8_data, 0);
    if magic != U8_MAGIC {
        return Err(BinError::U8MagicNotFound { found_magic: magic });
    }
    let rootnode_offset = be_u32_at(u8_data, 4);
    let header_size = be_u32_at(u8_data, 8);
    let root = rootnode_offset as u64;
    let root_type = read_u16_be64(u8_data, root)?;
    if root_type != 0x0100 {
        return Err(BinError::RootNotDirectory { root_type });
    }
    let total_nodes = read_u32_be64(u8_data, root + 8)?;
    if total_nodes == 0 {
        return Err(BinError::ZeroNodes);
    }
    let string_table_abs: u64 = root + total_nodes as u64 * 12;
    let header_end_abs: u64 = root + header_size as u64;
    let len = u8_data.len() as u64;
    if string_table_abs > len || header_end_abs > len {
        return Err(BinError::InvalidBounds);
    }
    Ok(U8Layout { data_base: 0, rootnode_abs: root, total_nodes: total_nodes as u64, string_table_abs })
}

/// Whether `file_name` names a supported payload (`banner.bin` or
/// `icon.bin`, ignoring ASCII case).
pub fn is_supported_bin_name(file_name: &str) -> (r: bool)
    ensures
        r == (eq_ci(file_name@, "banner.bin"@) || eq_ci(file_name@, "icon.bin"@)),
{
    let name = chars_of(file_name);
    let banner = chars_of("banner.bin");
    let icon = chars_of("icon.bin");
    eq_ignore_case(name.as_slice(), banner.as_slice()) || eq_ignore_case(name.as_slice(), icon.as_slice())
}

/// Whether an extracted file is an image candidate: its extension is
/// `tpl` or `tex0`, ignoring ASCII case.
pub open spec fn is_image_candidate_spec(path: Seq<char>) -> bool {
    match path_extension(path) {
        Some(e) => eq_ci(e, "tpl"@) || eq_ci(e, "tex0"@),
        None => false,
    }
}

/// Whether an extracted file is an image candidate (`.tpl` or `.tex0`,
/// ignoring ASCII case).
pub fn is_image_candidate(path: &str) -> (r: bool)
    ensures
        r == is_image_candidate_spec(path@),
{
    match file_extension(path) {
        Some(e) => {
            let c = chars_of(e.as_str());
            let tpl = chars_of("tpl");
            let tex0 = chars_of("tex0");
            eq_ignore_case(c.as_slice(), tpl.as_slice()) || eq_ignore_case(c.as_slice(), tex0.as_slice())
        },
        None => false,
    }
}

/// Name of the directory the archive is extracted to, next to the payload:
/// its stem ("bin" when it has none) and `_inner_u8`.
pub fn inner_u8_dir_name(bin_path: &str) -> (r: String)
    ensures
        r@ == (match path_file_stem(bin_path@) {
            Some(s) => s,
            None => "bin"@,
        }) + "_inner_u8"@,
{
    let mut name = match file_stem(bin_path) {
        Some(s) => s,
        None => string_from_chars(chars_of("bin").as_slice()),
    };
    push_str(&mut name, "_inner_u8");
    name
}

/// The layers of a `.bin` file: an IMD5 header ("IMD5", then the payload
/// size as a big-endian word at 4) is 0x20 bytes long and the payload
/// follows it; an "LZ77" container holds its stream from byte 4 on, where
/// the type byte 0x10 stands; a payload that starts with the U8 magic
/// 55 AA 38 2D is the archive itself.
pub proof fn law_bin_layers(data: Seq<u8>, s: Seq<u8>)
    requires
        data.len() >= 0x20,
        data[0] == 0x49 && data[1] == 0x4D && data[2] == 0x44 && data[3] == 0x35,
        0x20 + be32_at(data, 4) <= data.len(),
    ensures
        imd5_spec(data) == Ok::<Seq<u8>, BinError>(
            data.subrange(0x20, 0x20 + data[4] * 0x1000000 + data[5] * 0x10000 + data[6] * 0x100 + data[7]),
        ),
        s.len() >= 4 && s[0] == 0x10 ==> lz77_container_spec(seq![0x4Cu8, 0x5Au8, 0x37u8, 0x37u8] + s)
            == Ok::<Seq<u8>, BinError>(s),
        ({
            let p = data.subrange(0x20, 0x20 + be32_at(data, 4));
            p.len() >= 4 && p[0] == 0x55 && p[1] == 0xAA && p[2] == 0x38 && p[3] == 0x2D ==> inner_u8_spec(data)
                == Ok::<Seq<u8>, BinError>(p)
        }),
{
    if s.len() >= 4 && s[0] == 0x10 {
        let c = seq![0x4Cu8, 0x5Au8, 0x37u8, 0x37u8] + s;
        assert(c[0] == 0x4C && c[1] == 0x5A && c[2] == 0x37 && c[3] == 0x37 && c[4] == 0x10);
        assert(c.subrange(4, c.len() as int) =~= s);
    }
}

/// The U8 header: the root node offset is the word at 4; the root node is
/// a directory (type 0x0100) whose word 8 bytes in counts all nodes; nodes
/// are 12 bytes each and the string table follows them.
pub proof fn law_u8_layout(data: Seq<u8>)
    requires
        data.len() >= 0x20,
        data[0] == 0x55 && data[1] == 0xAA && data[2] == 0x38 && data[3] == 0x2D,
    ensures
        extract_layout_spec(data) matches Ok(l) ==> {
            let r = be32_at(data, 4);
            &&& l.rootnode_abs == r
            &&& data[r] == 0x01 && data[r + 1] == 0x00
            &&& l.total_nodes == be32_at(data, r + 8)
            &&& l.total_nodes > 0
            &&& l.string_table_abs == r + 12 * l.total_nodes
            &&& r + 12 * l.total_nodes <= data.len()
        },
{
    let r = be32_at(data, 4);
    if extract_layout_spec(data) is Ok {
        assert(0 <= be16_at(data, r) <= 0xFFFF);
        assert(0 <= be32_at(data, r + 8) <= 0xFFFF_FFFF);
    }
}

} // verus!
