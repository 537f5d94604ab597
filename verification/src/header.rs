//! The LF2 file header: magic `LEAF256\0`, width and height as little-endian
//! 16-bit values at 12 and 14, the palette size at 0x16, and the palette
//! (3 bytes a colour) from 0x18; the payload follows the palette.
use vstd::prelude::*;

verus! {

/// The eight magic bytes `LEAF256\0`.
pub open spec fn lf2_magic() -> Seq<u8> {
    seq![0x4cu8, 0x45u8, 0x41u8, 0x46u8, 0x32u8, 0x35u8, 0x36u8, 0x00u8]
}

/// Whether `data` starts with the LF2 magic.
pub open spec fn has_magic(data: Seq<u8>) -> bool {
    data.len() >= 8 && data.take(8) == lf2_magic()
}

/// The little-endian 16-bit value at `i`.
pub open spec fn le16(data: Seq<u8>, i: int) -> int {
    data[i] + 256 * data[i + 1]
}

/// Where the payload starts: after the header and a palette of `data[0x16]`
/// colours.
pub open spec fn payload_start_of(data: Seq<u8>) -> int {
    0x18 + 3 * data[0x16]
}

/// Checks the magic of a buffer of at least 8 bytes.
pub fn check_magic(data: &[u8]) -> (ok: bool)
    requires
        data@.len() >= 8,
    ensures
        ok == has_magic(data@),
{
    let ok = data[0] == 0x4c && data[1] == 0x45 && data[2] == 0x41 && data[3] == 0x46 && data[4]
        == 0x32 && data[5] == 0x35 && data[6] == 0x36 && data[7] == 0x00;
    proof {
        if ok {
            assert(data@.take(8) =~= lf2_magic());
        } else {
            if data@.take(8) == lf2_magic() {
                assert(data@.take(8)[0] == data@[0]);
                assert(data@.take(8)[1] == data@[1]);
                assert(data@.take(8)[2] == data@[2]);
                assert(data@.take(8)[3] == data@[3]);
                assert(data@.take(8)[4] == data@[4]);
                assert(data@.take(8)[5] == data@[5]);
                assert(data@.take(8)[6] == data@[6]);
                assert(data@.take(8)[7] == data@[7]);
            }
        }
    }
    ok
}

/// Reads the little-endian 16-bit value at `i`.
pub fn read_le16(data: &[u8], i: usize) -> (v: u16)
    requires
        i + 1 < data@.len(),
    ensures
        v as int == le16(data@, i as int),
{
    data[i] as u16 + (data[i + 1] as u16) * 256
}

/// The fields of an LF2 header.
#[derive(Clone, Copy, Debug, PartialEq, Eq, Structural)]
pub struct Header {
    pub width: u16,
    pub height: u16,
    pub color_count: u8,
    pub payload_start: usize,
}

/// Why a buffer is not an LF2 file.
#[derive(Clone, Copy, Debug, PartialEq, Eq, Structural)]
pub enum HeaderError {
    /// Shorter than the 0x18-byte header.
    TooSmall,
    /// The magic is not `LEAF256\0`.
    BadMagic,
    /// The palette runs past the end of the file.
    PayloadPastEof,
    /// Nothing follows the palette.
    NoPayload,
}

/// The header that a well-formed buffer holds.
pub open spec fn header_of(data: Seq<u8>) -> Header {
    Header {
        width: le16(data, 12) as u16,
        height: le16(data, 14) as u16,
        color_count: data[0x16],
        payload_start: payload_start_of(data) as usize,
    }
}

/// The 24 header bytes a writer lays down for an image `w` by `h` with `c`
/// palette colours: the magic, four unused bytes, width and height
/// little-endian, six unused bytes, the colour count and one unused byte.
pub open spec fn header_bytes(w: u16, h: u16, c: u8) -> Seq<u8> {
    lf2_magic() + seq![0u8, 0u8, 0u8, 0u8] + seq![
        (w % 256) as u8,
        (w / 256) as u8,
        (h % 256) as u8,
        (h / 256) as u8,
    ] + seq![0u8, 0u8, 0u8, 0u8, 0u8, 0u8, c, 0u8]
}

/// Reading a written header back gives the width, height and colour count
/// that were written, and the payload starts after the 3-byte palette
/// entries, whatever follows the header.
pub proof fn lemma_header_reads_back(w: u16, h: u16, c: u8, rest: Seq<u8>)
    ensures
        has_magic(header_bytes(w, h, c) + rest),
        header_of(header_bytes(w, h, c) + rest) == (Header {
            width: w,
            height: h,
            color_count: c,
            payload_start: (0x18 + 3 * c) as usize,
        }),
{
    let d = header_bytes(w, h, c) + rest;
    assert(d.take(8) =~= lf2_magic());
    assert(d[12] == (w % 256) as u8 && d[13] == (w / 256) as u8);
    assert(d[14] == (h % 256) as u8 && d[15] == (h / 256) as u8);
    assert(d[0x16] == c);
    assert(le16(d, 12) == w);
    assert(le16(d, 14) == h);
}

/// Reads an LF2 header: errors for a short buffer, a wrong magic, or a
/// palette past the end of the buffer.
pub fn parse_header(data: &[u8]) -> (res: Result<Header, HeaderError>)
    ensures
        res == (if data@.len() < 0x18 {
            Err(HeaderError::TooSmall)
        } else if !has_magic(data@) {
            Err(HeaderError::BadMagic)
        } else if payload_start_of(data@) > data@.len() {
            Err(HeaderError::PayloadPastEof)
        } else {
            Ok(header_of(data@))
        }),
{
    if data.len() < 0x18 {
        return Err(HeaderError::TooSmall);
    }
    if !check_magic(data) {
        return Err(HeaderError::BadMagic);
    }
    let width = read_le16(data, 12);
    let height = read_le16(data, 14);
    let color_count = data[0x16];
    let payload_start = 0x18 + (color_count as usize) * 3;
    if payload_start > data.len() {
        return Err(HeaderError::PayloadPastEof);
    }
    Ok(Header { width, height, color_count, payload_start })
}

/// Reads an LF2 header that must be followed by a payload: as
/// `parse_header`, and an error when nothing follows the palette.
pub fn parse_header_with_payload(data: &[u8]) -> (res: Result<Header, HeaderError>)
    ensures
        res == (if data@.len() < 0x18 {
            Err(HeaderError::TooSmall)
        } else if !has_magic(data@) {
            Err(HeaderError::BadMagic)
        } else if data@.len() <= payload_start_of(data@) {
            Err(HeaderError::NoPayload)
        } else {
            Ok(header_of(data@))
        }),
{
    if data.len() < 0x18 {
        return Err(HeaderError::TooSmall);
    }
    if !check_magic(data) {
        return Err(HeaderError::BadMagic);
    }
    let width = read_le16(data, 12);
    let height = read_le16(data, 14);
    let color_count = data[0x16];
    let payload_start = 0x18 + (color_count as usize) * 3;
    if data.len() <= payload_start {
        return Err(HeaderError::NoPayload);
    }
    Ok(Header { width, height, color_count, payload_start })
}

/// Width, height and payload start of an LF2 buffer; `None` for a short
/// buffer, a wrong magic, or a palette past the end.
pub fn parse_lf2(data: &[u8]) -> (res: Option<(u16, u16, usize)>)
    ensures
        res == (if data@.len() < 0x18 || !has_magic(data@) || payload_start_of(data@)
            > data@.len() {
            None
        } else {
            Some(
                (
                    header_of(data@).width,
                    header_of(data@).height,
                    header_of(data@).payload_start,
                ),
            )
        }),
{
    match parse_header(data) {
        Ok(h) => Some((h.width, h.height, h.payload_start)),
        Err(_) => None,
    }
}

/// Width, height and payload start of an LF2 buffer, without checking that
/// the palette fits in the buffer.
pub fn parse_header_unchecked(data: &[u8]) -> (res: Result<(u16, u16, usize), HeaderError>)
    ensures
        res == (if data@.len() < 0x18 || !has_magic(data@) {
            Err(HeaderError::BadMagic)
        } else {
            Ok(
                (
                    header_of(data@).width,
                    header_of(data@).height,
                    header_of(data@).payload_start,
                ),
            )
        }),
{
    if data.len() < 0x18 || !check_magic(data) {
        return Err(HeaderError::BadMagic);
    }
    let w = read_le16(data, 12);
    let h = read_le16(data, 14);
    let cc = data[0x16] as usize;
    Ok((w, h, 0x18 + cc * 3))
}

} // verus!
