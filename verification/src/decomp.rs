//! Decompression: walks the encoded stream, expands literal and
//! back-reference tokens into the output buffer, and rejects corrupt input
//! with a typed error instead of reading out of bounds.

use vstd::prelude::*;
use crate::codec::{read_token, lemma_read_token_len, LzssCode};
use vstd::slice::slice_subrange;

verus! {

/// Why decompression rejected its input.
#[derive(Debug, Clone, Copy, PartialEq, Eq)]
#[non_exhaustive]
pub enum DecompressError {
    /// The first byte is not the 0x11 magic byte.
    InvalidMagic,
    /// A read or a computed source offset fell outside the available bytes.
    InvalidIndex(usize),
    /// The buffer cannot even hold the size header.
    LibraryError(&'static str),
}

/// Equality on errors stated over the message's characters rather than the
/// `&str` reference itself.
pub open spec fn same_error(a: DecompressError, b: DecompressError) -> bool {
    match (a, b) {
        (DecompressError::InvalidMagic, DecompressError::InvalidMagic) => true,
        (DecompressError::InvalidIndex(i), DecompressError::InvalidIndex(j)) => i == j,
        (DecompressError::LibraryError(m), DecompressError::LibraryError(n)) => m@ == n@,
        _ => false,
    }
}

/// Appends to `out` the `len` bytes found `dist` positions before the current
/// end, one byte at a time, so that a copy overlapping its own destination
/// reads the bytes it has just produced.
pub open spec fn back_copy(out: Seq<u8>, dist: nat, len: nat) -> Seq<u8>
    decreases len,
{
    if len == 0 || dist == 0 || dist > out.len() {
        out
    } else {
        back_copy(out.push(out[out.len() - dist]), dist, (len - 1) as nat)
    }
}

pub proof fn lemma_back_copy_len(out: Seq<u8>, dist: nat, len: nat)
    requires
        1 <= dist <= out.len(),
    ensures
        back_copy(out, dist, len).len() == out.len() + len,
    decreases len,
{
    if len > 0 {
        lemma_back_copy_len(out.push(out[out.len() - dist]), dist, (len - 1) as nat);
    }
}

/// The bytes of the output still owed, used as a termination measure.
pub open spec fn remaining(out_size: nat, produced: nat) -> nat {
    if produced <= out_size {
        (out_size - produced) as nat
    } else {
        0
    }
}

/// The group-header byte after one tag bit has been consumed.
pub open spec fn shl1(h: u8) -> u8 {
    ((h as nat * 2) % 256) as u8
}

/// One step of the decoder per recursive call, mirroring the decoding loop:
/// `pos` is the cursor into `data`, `out` the bytes produced so far, `hdr`
/// the current group header with `rem` tag bits left in it. Decoding stops
/// once exactly `out_size` bytes have been produced; every read is bounds
/// checked, a match that would carry the output past the declared size is
/// rejected, and every failure is a typed error.
pub open spec fn decode_stream(
    data: Seq<u8>,
    pos: nat,
    out: Seq<u8>,
    out_size: nat,
    hdr: u8,
    rem: nat,
) -> Result<Seq<u8>, DecompressError>
    decreases remaining(out_size, out.len()), (if rem == 0 { 1int } else { 0int }),
    via decode_stream_decreases
{
    if out.len() >= out_size {
        Ok(out)
    } else if rem == 0 {
        if pos < data.len() {
            decode_stream(data, pos + 1, out, out_size, data[pos as int], 8)
        } else {
            Err(DecompressError::InvalidIndex(pos as usize))
        }
    } else if hdr < 0x80 {
        if pos < data.len() {
            decode_stream(
                data,
                pos + 1,
                out.push(data[pos as int]),
                out_size,
                shl1(hdr),
                (rem - 1) as nat,
            )
        } else {
            Err(DecompressError::InvalidIndex(pos as usize))
        }
    } else {
        match read_token(data.skip(pos as int)) {
            None => Err(DecompressError::InvalidIndex(data.len() as usize)),
            Some(t) => {
                if t.0 <= out.len() {
                    if out.len() + t.1 <= out_size {
                        decode_stream(
                            data,
                            pos + t.2,
                            back_copy(out, t.0, t.1),
                            out_size,
                            shl1(hdr),
                            (rem - 1) as nat,
                        )
                    } else {
                        Err(DecompressError::InvalidIndex(out_size as usize))
                    }
                } else {
                    Err(DecompressError::InvalidIndex(0))
                }
            },
        }
    }
}

#[via_fn]
proof fn decode_stream_decreases(
    data: Seq<u8>,
    pos: nat,
    out: Seq<u8>,
    out_size: nat,
    hdr: u8,
    rem: nat,
) {
    if out.len() < out_size && rem != 0 && hdr >= 0x80 {
        match read_token(data.skip(pos as int)) {
            Some(t) => {
                lemma_read_token_len(data.skip(pos as int));
                if t.0 <= out.len() {
                    lemma_back_copy_len(out, t.0, t.1);
                }
            },
            None => {},
        }
    }
}

/// The 24-bit little-endian size field.
pub open spec fn le24(b0: u8, b1: u8, b2: u8) -> nat {
    (b0 + b1 * 256 + b2 * 65536) as nat
}

/// The 32-bit little-endian escape size field.
pub open spec fn le32(b0: u8, b1: u8, b2: u8, b3: u8) -> nat {
    (b0 + b1 * 256 + b2 * 65536 + b3 * 16777216) as nat
}

/// The uncompressed length the size header declares: the 24-bit field, or
/// the 32-bit escape field when the 24-bit field is zero.
pub open spec fn declared_len(data: Seq<u8>) -> nat {
    let size24 = le24(data[1], data[2], data[3]);
    if size24 == 0 {
        le32(data[4], data[5], data[6], data[7])
    } else {
        size24
    }
}

/// What `decompress` returns, as a function of the raw encoded bytes: the
/// magic byte and the size header are checked, then the token stream is
/// decoded until the declared number of bytes has been produced.
pub open spec fn decompress_spec(data: Seq<u8>) -> Result<Seq<u8>, DecompressError> {
    if data.len() < 4 {
        Err(DecompressError::LibraryError("Too short"))
    } else if data[0] != 0x11 {
        Err(DecompressError::InvalidMagic)
    } else {
        let size24 = le24(data[1], data[2], data[3]);
        if size24 == 0 {
            if data.len() < 8 {
                Err(DecompressError::LibraryError("Too short"))
            } else {
                decode_stream(
                    data,
                    8,
                    Seq::empty(),
                    le32(data[4], data[5], data[6], data[7]),
                    0,
                    0,
                )
            }
        } else {
            decode_stream(data, 4, Seq::empty(), size24, 0, 0)
        }
    }
}

/// Reads the byte at `pos`, or reports exactly which index was out of range.
pub fn get_or_oob_err(data: &[u8], pos: usize) -> (r: Result<u8, DecompressError>)
    ensures
        match r {
            Ok(b) => pos < data@.len() && b == data@[pos as int],
            Err(e) => pos >= data@.len() && e == DecompressError::InvalidIndex(pos),
        },
{
    if pos < data.len() {
        Ok(data[pos])
    } else {
        Err(DecompressError::InvalidIndex(pos))
    }
}

/// Decompresses an encoded stream, returning exactly what `decompress_spec`
/// says: a buffer of exactly the declared number of bytes, or the error
/// naming the first corrupt read.
pub fn decompress(data: &[u8]) -> (r: Result<Vec<u8>, DecompressError>)
    ensures
        match decompress_spec(data@) {
            Ok(s) => r matches Ok(v) && v@ == s,
            Err(e) => r matches Err(e2) && same_error(e2, e),
        },
        r matches Ok(v) ==> v@.len() == declared_len(data@),
{
    if data.len() < 4 {
        return Err(DecompressError::LibraryError("Too short"));
    }
    if data[0] != 0x11 {
        return Err(DecompressError::InvalidMagic);
    }
    let mut pos: usize = 4;
    let mut out_size: usize = data[1] as usize + data[2] as usize * 256 + data[3] as usize
        * 65536;
    if out_size == 0 {
        if data.len() < 8 {
            return Err(DecompressError::LibraryError("Too short"));
        }
        out_size = data[4] as usize + data[5] as usize * 256 + data[6] as usize * 65536 + data[7]
            as usize * 16777216;
        pos = 8;
    }
    let ghost stream_result = decode_stream(
        data@,
        pos as nat,
        Seq::<u8>::empty(),
        out_size as nat,
        0,
        0,
    );
    proof {
        assert(decompress_spec(data@) == stream_result);
    }

    let n: usize = data.len();
    let mut out_buf: Vec<u8> = Vec::new();
    let mut group_header: u8 = 0;
    let mut remaining_chunks: u8 = 0;
    while out_buf.len() < out_size
        invariant
            n == data@.len(),
            pos <= n,
            remaining_chunks <= 8,
            out_buf@.len() <= out_size,
            out_size as nat == declared_len(data@),
            decompress_spec(data@) == stream_result,
            decode_stream(
                data@,
                pos as nat,
                out_buf@,
                out_size as nat,
                group_header,
                remaining_chunks as nat,
            ) == stream_result,
        decreases remaining(out_size as nat, out_buf@.len()),
    {
        if remaining_chunks == 0 {
            proof {
                assert(decode_stream(
                    data@,
                    pos as nat,
                    out_buf@,
                    out_size as nat,
                    group_header,
                    0,
                ) == if pos < data@.len() {
                    decode_stream(
                        data@,
                        pos as nat + 1,
                        out_buf@,
                        out_size as nat,
                        data@[pos as int],
                        8,
                    )
                } else {
                    Err(DecompressError::InvalidIndex(pos))
                });
            }
            group_header = match get_or_oob_err(data, pos) {
                Ok(b) => b,
                Err(e) => {
                    return Err(e);
                },
            };
            pos = pos + 1;
            remaining_chunks = 8;
        }
        if group_header < 0x80 {
            proof {
                assert(decode_stream(
                    data@,
                    pos as nat,
                    out_buf@,
                    out_size as nat,
                    group_header,
                    remaining_chunks as nat,
                ) == if pos < data@.len() {
                    decode_stream(
                        data@,
                        pos as nat + 1,
                        out_buf@.push(data@[pos as int]),
                        out_size as nat,
                        shl1(group_header),
                        (remaining_chunks - 1) as nat,
                    )
                } else {
                    Err(DecompressError::InvalidIndex(pos))
                });
            }
            let b = match get_or_oob_err(data, pos) {
                Ok(b) => b,
                Err(e) => {
                    return Err(e);
                },
            };
            out_buf.push(b);
            pos = pos + 1;
        } else {
            let rest = slice_subrange(data, pos, data.len());
            proof {
                assert(rest@ == data@.skip(pos as int));
                lemma_read_token_len(data@.skip(pos as int));
            }
            let (code, advance) = match LzssCode::read(rest) {
                Some(ca) => ca,
                None => {
                    proof {
                        assert(decode_stream(
                            data@,
                            pos as nat,
                            out_buf@,
                            out_size as nat,
                            group_header,
                            remaining_chunks as nat,
                        ) == Err::<Seq<u8>, DecompressError>(
                            DecompressError::InvalidIndex(data@.len() as usize),
                        ));
                    }
                    return Err(DecompressError::InvalidIndex(data.len()));
                },
            };
            let ghost tok = (code.distance as nat, code.length as nat, advance as nat);
            proof {
                assert(decode_stream(
                    data@,
                    pos as nat,
                    out_buf@,
                    out_size as nat,
                    group_header,
                    remaining_chunks as nat,
                ) == if tok.0 <= out_buf@.len() {
                    if out_buf@.len() + tok.1 <= out_size as nat {
                        decode_stream(
                            data@,
                            pos as nat + tok.2,
                            back_copy(out_buf@, tok.0, tok.1),
                            out_size as nat,
                            shl1(group_header),
                            (remaining_chunks - 1) as nat,
                        )
                    } else {
                        Err(DecompressError::InvalidIndex(out_size))
                    }
                } else {
                    Err(DecompressError::InvalidIndex(0))
                });
            }
            pos = pos + advance;
            let distance = code.distance as usize;
            let length = code.length as usize;
            if distance > out_buf.len() {
                return Err(DecompressError::InvalidIndex(0));
            }
            if length > out_size - out_buf.len() {
                return Err(DecompressError::InvalidIndex(out_size));
            }
            let ghost target = back_copy(out_buf@, distance as nat, length as nat);
            let ghost len0 = out_buf@.len();
            let mut i: usize = 0;
            while i < length
                invariant
                    i <= length,
                    1 <= distance <= out_buf@.len(),
                    out_buf@.len() == len0 + i,
                    back_copy(out_buf@, distance as nat, (length - i) as nat) == target,
                decreases length - i,
            {
                let b = out_buf[out_buf.len() - distance];
                out_buf.push(b);
                i = i + 1;
            }
        }
        group_header = ((group_header as u32 * 2) % 256) as u8;
        remaining_chunks = remaining_chunks - 1;
    }
    proof {
        assert(stream_result == Ok::<Seq<u8>, DecompressError>(out_buf@));
    }
    Ok(out_buf)
}

} // verus!
