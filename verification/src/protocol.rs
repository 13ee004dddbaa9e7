//! The header of the framed stream.
use crate::bytes;
use crate::checksum;
use crate::util;
use vstd::prelude::*;

verus! {

/// `SLD1`, the first bytes of the header.
pub const STREAM_MAGIC: [u8; 4] = [0x53, 0x4C, 0x44, 0x31];

pub const STREAM_HEADER_LEN: usize = 24;

pub const STREAM_VERSION: u8 = 4;

#[derive(Clone, Copy, Debug, PartialEq, Eq)]
pub struct StreamHeader {
    pub profile: u8,
    pub file_len: u64,
    pub file_crc: u32,
}

/// The header up to its own checksum.
pub open spec fn header_body(h: StreamHeader) -> Seq<u8> {
    seq![0x53u8, 0x4C, 0x44, 0x31, 4, h.profile, 0, 0] + bytes::be_bytes(h.file_len as nat, 8)
        + bytes::be_bytes(h.file_crc as nat, 4)
}

/// The header.
pub open spec fn header_bytes(h: StreamHeader) -> Seq<u8> {
    header_body(h) + bytes::be_bytes(checksum::crc32_of(header_body(h)) as nat, 4)
}

/// What a header says, given the checksum of its first 20 bytes. The two bytes behind the profile
/// are not looked at.
pub open spec fn parsed_header(b: Seq<u8>, crc: u32) -> Option<StreamHeader> {
    if b.len() != 24 || b.subrange(0, 4) != seq![0x53u8, 0x4C, 0x44, 0x31] || b[4] != 4
        || bytes::be_value(b.subrange(20, 24)) != crc {
        None
    } else {
        Some(
            StreamHeader {
                profile: b[5],
                file_len: bytes::be_value(b.subrange(8, 16)) as u64,
                file_crc: bytes::be_value(b.subrange(16, 20)) as u32,
            },
        )
    }
}

/// The header of a file up to its own checksum.
pub fn make_header_body(profile: u8, file_len: u64, file_crc: u32) -> (b: Vec<u8>)
    ensures
        b@ == header_body(StreamHeader { profile, file_len, file_crc }),
        b@.len() == 20,
{
    let ghost h = StreamHeader { profile, file_len, file_crc };
    proof {
        bytes::lemma_be_bytes(file_len as nat, 8);
        bytes::lemma_be_bytes(file_crc as nat, 4);
    }
    let mut b: Vec<u8> = Vec::with_capacity(STREAM_HEADER_LEN);
    b.push(STREAM_MAGIC[0]);
    b.push(STREAM_MAGIC[1]);
    b.push(STREAM_MAGIC[2]);
    b.push(STREAM_MAGIC[3]);
    b.push(STREAM_VERSION);
    b.push(profile);
    b.push(0);
    b.push(0);
    let len_bytes: Vec<u8> = bytes::to_be(file_len, 8);
    util::append_all(&mut b, len_bytes.as_slice());
    let crc_bytes: Vec<u8> = bytes::to_be(file_crc as u64, 4);
    util::append_all(&mut b, crc_bytes.as_slice());
    assert(b@ =~= header_body(h));
    b
}

/// The header of a file.
pub fn make_stream_header(profile: u8, file_len: u64, file_crc: u32) -> (b: Vec<u8>)
    ensures
        b@ == header_bytes(StreamHeader { profile, file_len, file_crc }),
        b@.len() == STREAM_HEADER_LEN,
{
    let body: Vec<u8> = make_header_body(profile, file_len, file_crc);
    let hcrc: u32 = checksum::crc32_bytes(body.as_slice());
    bytes::seal(body, hcrc)
}

/// Reads a header whose first 20 bytes have the checksum `crc`.
pub fn parse_checked_header(b: &[u8], crc: u32) -> (r: Option<StreamHeader>)
    ensures
        r == parsed_header(b@, crc),
{
    if b.len() != STREAM_HEADER_LEN {
        return None;
    }
    if b[0] != STREAM_MAGIC[0] || b[1] != STREAM_MAGIC[1] || b[2] != STREAM_MAGIC[2] || b[3]
        != STREAM_MAGIC[3] || b[4] != STREAM_VERSION {
        proof {
            let s = b@.subrange(0, 4);
            let m = seq![0x53u8, 0x4C, 0x44, 0x31];
            assert(s[0] == b@[0] && s[1] == b@[1] && s[2] == b@[2] && s[3] == b@[3]);
            assert(m[0] == 0x53 && m[1] == 0x4C && m[2] == 0x44 && m[3] == 0x31);
        }
        return None;
    }
    assert(b@.subrange(0, 4) =~= seq![0x53u8, 0x4C, 0x44, 0x31]);
    let got: u64 = bytes::read_be(b, 20, 4);
    if got != crc as u64 {
        return None;
    }
    let file_len: u64 = bytes::read_be(b, 8, 8);
    let file_crc: u64 = bytes::read_be(b, 16, 4);
    proof {
        bytes::lemma_be_value(b@.subrange(16, 20));
        bytes::lemma_spans();
    }
    Some(StreamHeader { profile: b[5], file_len, file_crc: file_crc as u32 })
}

/// Reads a header.
pub fn parse_stream_header(b: &[u8]) -> (r: Option<StreamHeader>)
    ensures
        b@.len() != STREAM_HEADER_LEN ==> r is None,
        b@.len() == STREAM_HEADER_LEN ==> r == parsed_header(b@, checksum::crc32_of(b@.take(20))),
{
    if b.len() != STREAM_HEADER_LEN {
        return None;
    }
    let body: Vec<u8> = util::copy_range(b, 0, 20);
    assert(body@ =~= b@.take(20));
    let crc: u32 = checksum::crc32_bytes(body.as_slice());
    parse_checked_header(b, crc)
}

/// A header that is made is read back.
pub proof fn law_parse_undoes_make(h: StreamHeader)
    ensures
        header_bytes(h).len() == 24,
        parsed_header(header_bytes(h), checksum::crc32_of(header_bytes(h).take(20))) == Some(h),
{
    let crc = checksum::crc32_of(header_body(h));
    let b = header_bytes(h);
    bytes::lemma_be_bytes(h.file_len as nat, 8);
    bytes::lemma_be_bytes(h.file_crc as nat, 4);
    bytes::lemma_be_bytes(crc as nat, 4);
    bytes::lemma_spans();
    assert(b.take(20) =~= header_body(h));
    assert(b.subrange(0, 4) =~= seq![0x53u8, 0x4C, 0x44, 0x31]);
    assert(b.subrange(8, 16) =~= bytes::be_bytes(h.file_len as nat, 8));
    assert(b.subrange(16, 20) =~= bytes::be_bytes(h.file_crc as nat, 4));
    assert(b.subrange(20, 24) =~= bytes::be_bytes(crc as nat, 4));
}

/// A header is 24 bytes: `SLD1`, version 4, the profile, two zeros, the length and the checksum of
/// the file from their highest bytes on, and the checksum of all that.
pub proof fn law_header_fields(h: StreamHeader)
    ensures
        ({
            let b = header_bytes(h);
            &&& b.len() == 24
            &&& b[0] == 'S' as u8 && b[1] == 'L' as u8 && b[2] == 'D' as u8 && b[3] == '1' as u8
            &&& b[4] == 4
            &&& b[5] == h.profile
            &&& b[6] == 0 && b[7] == 0
            &&& bytes::be_value(b.subrange(8, 16)) == h.file_len
            &&& bytes::be_value(b.subrange(16, 20)) == h.file_crc
            &&& bytes::be_value(b.subrange(20, 24)) == checksum::crc32_of(b.take(20))
        }),
{
    let b = header_bytes(h);
    let crc = checksum::crc32_of(header_body(h)) as nat;
    bytes::lemma_be_bytes(h.file_len as nat, 8);
    bytes::lemma_be_bytes(h.file_crc as nat, 4);
    bytes::lemma_be_bytes(crc, 4);
    bytes::lemma_spans();
    assert(b.take(20) =~= header_body(h));
    assert(b.subrange(8, 16) =~= bytes::be_bytes(h.file_len as nat, 8));
    assert(b.subrange(16, 20) =~= bytes::be_bytes(h.file_crc as nat, 4));
    assert(b.subrange(20, 24) =~= bytes::be_bytes(crc, 4));
}

/// Headers with the same bytes say the same.
pub proof fn law_header_bytes_tell_headers_apart(g: StreamHeader, h: StreamHeader)
    requires
        header_bytes(g) == header_bytes(h),
    ensures
        g == h,
{
    law_header_fields(g);
    law_header_fields(h);
}

/// Bytes that are read as a header, with nothing in the two bytes that are not looked at, are the
/// ones that are made of it: no other mark, version or checksum is taken.
pub proof fn law_read_header_was_made(b: Seq<u8>, h: StreamHeader)
    requires
        parsed_header(b, checksum::crc32_of(b.take(20))) == Some(h),
        b[6] == 0,
        b[7] == 0,
    ensures
        b == header_bytes(h),
{
    let made = header_bytes(h);
    law_header_fields(h);
    bytes::lemma_spans();
    bytes::lemma_be_value(b.subrange(8, 16));
    bytes::lemma_be_value(b.subrange(16, 20));
    bytes::lemma_be_value(b.subrange(20, 24));
    bytes::lemma_be_bytes(h.file_len as nat, 8);
    bytes::lemma_be_bytes(h.file_crc as nat, 4);
    let body = header_body(h);
    assert(b.take(20) =~= body) by {
        assert forall|i: int| 0 <= i < 20 implies b[i] == body[i] by {
            if i < 4 {
                assert(b[i] == b.subrange(0, 4)[i]);
            } else if 8 <= i < 16 {
                assert(b[i] == b.subrange(8, 16)[i - 8]);
            } else if 16 <= i {
                assert(b[i] == b.subrange(16, 20)[i - 16]);
            }
        }
    }
    assert(b =~= made) by {
        assert forall|i: int| 0 <= i < 24 implies b[i] == made[i] by {
            if i < 20 {
                assert(b[i] == b.take(20)[i]);
            } else {
                assert(b[i] == b.subrange(20, 24)[i - 20]);
            }
        }
    }
}

} // verus!
