//! The receiving side of the framed link: what each frame is taken for, and how codewords become
//! the file.
use crate::bitstream;
use crate::checksum;
use crate::envelope;
use crate::ldpc::LdpcCode;
use crate::link_layout;
use crate::link_layout::ProfileLayout;
use crate::link_plan;
use crate::link_plan::LinkLayouts;
use crate::link_profile::LinkProfile;
use crate::protocol;
use crate::protocol::{StreamHeader, STREAM_HEADER_LEN};
use crate::util;
use vstd::prelude::*;

verus! {

/// Why no file comes out of a transmission.
#[derive(Clone, Copy, Debug, PartialEq, Eq)]
pub enum LinkDecodeError {
    CodewordLost { codeword: usize },
    BadEnvelope { codeword: usize },
    BadHeader,
    ProfileMismatch { locked: u8, header: u8 },
    FileLenOutOfRange { file_len: u64 },
    StreamTooLong,
    StreamTooShort,
    CrcMismatch { got: u32, expected: u32 },
}

/// The profile that a boot message names, where there is such a profile.
pub fn profile_from_boot(boot: Option<(u8, u32)>, profiles: usize) -> (r: Option<u8>)
    ensures
        r == match boot {
            Some(b) if b.0 < profiles => Some(b.0),
            _ => None::<u8>,
        },
{
    match boot {
        Some(b) => {
            if (b.0 as usize) < profiles {
                Some(b.0)
            } else {
                None
            }
        },
        None => None,
    }
}

/// The profile that reception is locked to once a frame has been read: the first profile that a boot
/// message names, and from then on the same.
pub fn lock_after(locked: Option<u8>, boot: Option<(u8, u32)>, profiles: usize) -> (r: Option<u8>)
    ensures
        r == match (locked, boot) {
            (Some(p), _) => Some(p),
            (None, Some(b)) if b.0 < profiles => Some(b.0),
            _ => None::<u8>,
        },
{
    match locked {
        Some(p) => Some(p),
        None => profile_from_boot(boot, profiles),
    }
}

/// The largest locator of the first `n` profiles.
pub open spec fn largest_locator(profiles: Seq<LinkProfile>, n: nat) -> nat
    decreases n,
{
    if n == 0 {
        0
    } else {
        let before = largest_locator(profiles, (n - 1) as nat);
        let here = profiles[n - 1].locator_size as nat;
        if here > before {
            here
        } else {
            before
        }
    }
}

/// The size that locators are looked for in: that of the profile that reception is locked to, else
/// the largest of any profile.
pub fn boot_locator_size(profiles: &[LinkProfile], locked: Option<u8>) -> (r: usize)
    requires
        locked is Some ==> locked->0 < profiles@.len(),
    ensures
        locked is Some ==> r == profiles@[locked->0 as int].locator_size,
        locked is None && profiles@.len() > 0 ==> r == largest_locator(
            profiles@,
            profiles@.len(),
        ),
        locked is None && profiles@.len() == 0 ==> r == 1,
{
    match locked {
        Some(p) => profiles[p as usize].locator_size,
        None => {
            if profiles.len() == 0 {
                return 1;
            }
            let mut most: usize = 0;
            let mut i: usize = 0;
            while i < profiles.len()
                invariant
                    i <= profiles@.len(),
                    most == largest_locator(profiles@, i as nat),
                decreases profiles@.len() - i,
            {
                if profiles[i].locator_size > most {
                    most = profiles[i].locator_size;
                }
                i = i + 1;
            }
            most
        },
    }
}

/// The longest calibration strip of the first `n` profiles.
pub open spec fn longest_strip(profiles: Seq<LinkProfile>, n: nat) -> int
    decreases n,
{
    if n == 0 {
        0
    } else {
        let before = longest_strip(profiles, (n - 1) as nat);
        let here = link_plan::cal_blocks(&profiles[n - 1]);
        if here > before {
            here
        } else {
            before
        }
    }
}

/// How many blocks the calibration strip takes at most, before a profile is known.
pub fn cal_max_blocks_all_profiles(profiles: &[LinkProfile]) -> (r: usize)
    requires
        forall|i: int|
            0 <= i < profiles@.len() ==> link_plan::cal_blocks(#[trigger] &profiles@[i])
                <= usize::MAX,
    ensures
        r == longest_strip(profiles@, profiles@.len()),
{
    let mut most: usize = 0;
    let mut i: usize = 0;
    while i < profiles.len()
        invariant
            i <= profiles@.len(),
            forall|i: int|
                0 <= i < profiles@.len() ==> link_plan::cal_blocks(#[trigger] &profiles@[i])
                    <= usize::MAX,
            most == longest_strip(profiles@, i as nat),
        decreases profiles@.len() - i,
    {
        assert(link_plan::cal_blocks(&profiles@[i as int]) <= usize::MAX);
        let here: usize = profiles[i].pam_m * profiles[i].cal_repeats;
        if here > most {
            most = here;
        }
        i = i + 1;
    }
    most
}

/// What a frame that has been read is taken for.
#[derive(Clone, Copy, Debug, PartialEq, Eq)]
pub struct FramePlan {
    /// The number of the frame in the transmission.
    pub frame_idx: u32,
    pub is_key: bool,
    /// The frame's own boot message names the profile that reception is locked to.
    pub boot_ok: bool,
}

/// The number of a frame: its boot message tells, else it is the one that is expected, else the
/// count of frames so far.
pub open spec fn frame_number(boot: Option<(u8, u32)>, expected: Option<u32>, count: usize) -> u32 {
    match (boot, expected) {
        (Some(b), _) => b.1,
        (None, Some(e)) => e,
        (None, None) => count as u32,
    }
}

/// Decides what a frame is taken for.
pub fn plan_frame(
    boot: Option<(u8, u32)>,
    expected: Option<u32>,
    count: usize,
    locked: u8,
    profiles: usize,
) -> (r: FramePlan)
    ensures
        r.frame_idx == frame_number(boot, expected, count),
        r.is_key == (r.frame_idx % 8 == 0),
        r.boot_ok == (boot matches Some(b) && b.0 < profiles && b.0 == locked),
{
    let frame_idx: u32 = match boot {
        Some(b) => b.1,
        None => match expected {
            Some(e) => e,
            None => count as u32,
        },
    };
    let boot_ok: bool = match profile_from_boot(boot, profiles) {
        Some(p) => p == locked,
        None => false,
    };
    FramePlan { frame_idx, is_key: link_layout::frame_uses_boot_cal(frame_idx), boot_ok }
}

/// What is done with a frame before its payload is read.
pub struct FrameSteps<'a> {
    pub layout: &'a ProfileLayout,
    /// How many payload bits the frame carries.
    pub bits: usize,
    /// Its calibration strip renews the levels.
    pub renews_levels: bool,
}

/// Decides what is done with a frame: key frames have their own layout and capacity, and renew the
/// levels where their own boot message is good.
pub fn frame_steps<'a>(l: &'a LinkLayouts, plan: FramePlan) -> (r: FrameSteps<'a>)
    ensures
        *r.layout == if plan.is_key {
            l.key
        } else {
            l.tracking
        },
        r.bits == if plan.is_key {
            l.key_bits
        } else {
            l.tracking_bits
        },
        r.renews_levels == (plan.boot_ok && plan.is_key),
{
    if plan.is_key {
        FrameSteps { layout: &l.key, bits: l.key_bits, renews_levels: plan.boot_ok }
    } else {
        FrameSteps { layout: &l.tracking, bits: l.tracking_bits, renews_levels: false }
    }
}

/// How the payload of a frame is read.
#[derive(Clone, Copy, Debug, PartialEq, Eq)]
pub enum FrameSource {
    /// With the geometry that its own boot message was read with.
    OwnGeometry,
    /// With the geometry of an earlier frame.
    TrackedGeometry,
    /// Not at all: its bits count as erased.
    Erased,
}

/// Decides how a frame is read: not without levels to tell its bits by, with its own geometry where
/// its boot message is good, and else with that of an earlier frame. Whether there are levels is
/// asked after the frame's own calibration.
pub fn frame_source(boot_ok: bool, has_geom: bool, has_means: bool) -> (r: FrameSource)
    ensures
        r == (if !has_means {
            FrameSource::Erased
        } else if boot_ok {
            FrameSource::OwnGeometry
        } else if has_geom {
            FrameSource::TrackedGeometry
        } else {
            FrameSource::Erased
        }),
{
    if !has_means {
        FrameSource::Erased
    } else if boot_ok {
        FrameSource::OwnGeometry
    } else if has_geom {
        FrameSource::TrackedGeometry
    } else {
        FrameSource::Erased
    }
}

/// What comes of a codeword.
pub enum Progress {
    /// More codewords are needed.
    More,
    /// The file is complete.
    Done(Vec<u8>),
}

/// The bytes that have come out of codewords so far, and what their header says.
pub struct StreamReceiver {
    profile: u8,
    max_file_len: u64,
    stream: Vec<u8>,
    codewords: usize,
    header: Option<StreamHeader>,
}

/// What a receiver holds.
pub struct Reception {
    pub profile: u8,
    pub max_file_len: u64,
    pub stream: Seq<u8>,
    pub codewords: nat,
    pub header: Option<StreamHeader>,
}

/// What stands against a header, if anything does.
pub open spec fn header_fault(profile: u8, max_file_len: u64, h: Option<StreamHeader>) -> Option<
    LinkDecodeError,
> {
    match h {
        None => Some(LinkDecodeError::BadHeader),
        Some(h) => if h.profile != profile {
            Some(LinkDecodeError::ProfileMismatch { locked: profile, header: h.profile })
        } else if h.file_len == 0 || h.file_len > max_file_len {
            Some(LinkDecodeError::FileLenOutOfRange { file_len: h.file_len })
        } else if h.file_len + 24 > usize::MAX {
            Some(LinkDecodeError::StreamTooLong)
        } else {
            None
        },
    }
}

/// Holds a header against what is expected of it.
pub fn check_header(profile: u8, max_file_len: u64, h: Option<StreamHeader>) -> (r: Result<
    StreamHeader,
    LinkDecodeError,
>)
    ensures
        match r {
            Ok(x) => header_fault(profile, max_file_len, h) is None && h == Some(x),
            Err(e) => header_fault(profile, max_file_len, h) == Some(e),
        },
{
    match h {
        None => Err(LinkDecodeError::BadHeader),
        Some(h) => {
            if h.profile != profile {
                return Err(LinkDecodeError::ProfileMismatch { locked: profile, header: h.profile });
            }
            if h.file_len == 0 || h.file_len > max_file_len {
                return Err(LinkDecodeError::FileLenOutOfRange { file_len: h.file_len });
            }
            if h.file_len > usize::MAX as u64 || h.file_len as usize > usize::MAX
                - STREAM_HEADER_LEN {
                return Err(LinkDecodeError::StreamTooLong);
            }
            Ok(h)
        },
    }
}

/// How many codewords a stream takes.
pub open spec fn codewords_needed(h: StreamHeader, block_bytes: nat) -> nat {
    util::ceil_div((24 + h.file_len) as nat, block_bytes)
}

/// The file in a complete stream.
pub open spec fn file_in(stream: Seq<u8>, h: StreamHeader) -> Seq<u8> {
    stream.subrange(24, 24 + h.file_len)
}

/// What comes of a complete stream whose file has the checksum `got`.
pub fn accept_file(stream: &[u8], h: StreamHeader, got: u32) -> (r: Result<Vec<u8>, LinkDecodeError>)
    ensures
        match r {
            Ok(file) => stream@.len() >= 24 + h.file_len && got == h.file_crc && file@ == file_in(
                stream@,
                h,
            ),
            Err(LinkDecodeError::StreamTooShort) => stream@.len() < 24 + h.file_len,
            Err(e) => stream@.len() >= 24 + h.file_len && got != h.file_crc && e
                == (LinkDecodeError::CrcMismatch { got, expected: h.file_crc }),
        },
{
    if stream.len() < STREAM_HEADER_LEN || h.file_len > (stream.len() - STREAM_HEADER_LEN) as u64 {
        return Err(LinkDecodeError::StreamTooShort);
    }
    if got != h.file_crc {
        return Err(LinkDecodeError::CrcMismatch { got, expected: h.file_crc });
    }
    let file: Vec<u8> = util::copy_range(
        stream,
        STREAM_HEADER_LEN,
        STREAM_HEADER_LEN + h.file_len as usize,
    );
    Ok(file)
}

/// The header that a receiver has after `stream` is complete up to some codeword.
pub open spec fn header_after(
    s: Reception,
    stream: Seq<u8>,
) -> Result<Option<StreamHeader>, LinkDecodeError> {
    if s.header is Some || stream.len() < 24 {
        Ok(s.header)
    } else {
        let h = protocol::parsed_header(
            stream.take(24),
            checksum::crc32_of(stream.take(24).take(20)),
        );
        match header_fault(s.profile, s.max_file_len, h) {
            Some(e) => Err(e),
            None => Ok(h),
        }
    }
}

/// What comes of a codeword whose information bits are `info`.
pub enum Outcome {
    Fails(LinkDecodeError),
    More(Reception),
    Done(Seq<u8>),
}

pub open spec fn outcome(s: Reception, k: usize, info: Option<Seq<u8>>) -> Outcome {
    match info {
        None => Outcome::Fails(
            LinkDecodeError::CodewordLost { codeword: s.codewords as usize },
        ),
        Some(bits) => {
            let block = bitstream::packed(bits);
            let stream = s.stream + block;
            if !envelope::is_block(k, block) {
                Outcome::Fails(LinkDecodeError::BadEnvelope { codeword: s.codewords as usize })
            } else {
                match header_after(s, stream) {
                    Err(e) => Outcome::Fails(e),
                    Ok(None) => Outcome::More(
                        Reception { stream, codewords: s.codewords + 1, ..s },
                    ),
                    Ok(Some(h)) => {
                        let crc = checksum::crc32_of(file_in(stream, h));
                        if s.codewords + 1 < codewords_needed(h, (k / 8) as nat) {
                            Outcome::More(
                                Reception {
                                    stream,
                                    codewords: s.codewords + 1,
                                    header: Some(h),
                                    ..s
                                },
                            )
                        } else if stream.len() < 24 + h.file_len {
                            Outcome::Fails(LinkDecodeError::StreamTooShort)
                        } else if crc != h.file_crc {
                            Outcome::Fails(
                                LinkDecodeError::CrcMismatch { got: crc, expected: h.file_crc },
                            )
                        } else {
                            Outcome::Done(file_in(stream, h))
                        }
                    },
                }
            }
        },
    }
}

/// The information bits of a codeword, where it could be decoded.
pub open spec fn bits_in(info: Option<Vec<u8>>) -> Option<Seq<u8>> {
    match info {
        Some(v) => Some(v@),
        None => None,
    }
}

/// What a receiver holds after a codeword whose information bits are `info`, whatever comes of it: a
/// block that is one is kept, and so is a header that nothing stands against.
pub open spec fn taken_in(s: Reception, k: usize, info: Option<Seq<u8>>) -> Reception {
    match info {
        None => s,
        Some(bits) => {
            let block = bitstream::packed(bits);
            let stream = s.stream + block;
            if !envelope::is_block(k, block) {
                s
            } else {
                Reception {
                    stream,
                    codewords: s.codewords + 1,
                    header: match header_after(s, stream) {
                        Ok(h) => h,
                        Err(_) => s.header,
                    },
                    ..s
                }
            }
        },
    }
}

impl StreamReceiver {
    pub closed spec fn view(&self) -> Reception {
        Reception {
            profile: self.profile,
            max_file_len: self.max_file_len,
            stream: self.stream@,
            codewords: self.codewords as nat,
            header: self.header,
        }
    }

    /// A header that has been taken in is one that nothing stands against.
    pub open spec fn wf(&self) -> bool {
        self@.header is Some ==> header_fault(
            self@.profile,
            self@.max_file_len,
            self@.header,
        ) is None
    }

    /// A receiver that has received nothing yet.
    pub fn new(profile: u8, max_file_len: u64) -> (r: Self)
        ensures
            r.wf(),
            r@ == (Reception {
                profile,
                max_file_len,
                stream: Seq::empty(),
                codewords: 0,
                header: None,
            }),
    {
        let r: StreamReceiver = StreamReceiver {
            profile,
            max_file_len,
            stream: Vec::new(),
            codewords: 0,
            header: None,
        };
        assert(r@.stream =~= Seq::<u8>::empty());
        r
    }

    /// How many codewords have been taken in.
    pub fn codewords_decoded(&self) -> (n: usize)
        ensures
            n == self@.codewords,
    {
        self.codewords
    }

    /// What the header says, once it is there.
    pub fn stream_header(&self) -> (h: Option<StreamHeader>)
        ensures
            h == self@.header,
    {
        self.header
    }

    /// Takes in the information bits of the next codeword, which are not there where the codeword
    /// could not be decoded.
    pub fn accept(&mut self, code: &LdpcCode, info: Option<Vec<u8>>) -> (r: Result<
        Progress,
        LinkDecodeError,
    >)
        requires
            old(self).wf(),
            envelope::payload_capacity(code.k) is Ok,
            old(self)@.codewords < usize::MAX,
        ensures
            final(self).wf(),
            final(self)@ == taken_in(old(self)@, code.k, bits_in(info)),
            match outcome(old(self)@, code.k, bits_in(info)) {
                Outcome::Fails(e) => r == Err::<Progress, LinkDecodeError>(e),
                Outcome::More(s) => r == Ok::<Progress, LinkDecodeError>(Progress::More)
                    && final(self)@ == s,
                Outcome::Done(file) => r is Ok && r->Ok_0 is Done && r->Ok_0->Done_0@ == file,
            },
    {
        let ghost s = self@;
        let bits: Vec<u8> = match info {
            Some(b) => b,
            None => {
                return Err(LinkDecodeError::CodewordLost { codeword: self.codewords });
            },
        };
        let bytes: Vec<u8> = bitstream::bits_to_bytes_msb(bits.as_slice());
        let block: &[u8] = match envelope::unpack_cw_info_block_view(code, bytes.as_slice()) {
            Some(b) => b,
            None => {
                return Err(LinkDecodeError::BadEnvelope { codeword: self.codewords });
            },
        };
        let block_bytes: usize = block.len();
        util::append_all(&mut self.stream, block);
        self.codewords = self.codewords + 1;
        if self.header.is_none() && self.stream.len() >= STREAM_HEADER_LEN {
            let head: Vec<u8> = util::copy_range(self.stream.as_slice(), 0, STREAM_HEADER_LEN);
            assert(head@ =~= self.stream@.take(24));
            let parsed: Option<StreamHeader> = protocol::parse_stream_header(head.as_slice());
            match check_header(self.profile, self.max_file_len, parsed) {
                Ok(h) => {
                    self.header = Some(h);
                },
                Err(e) => {
                    return Err(e);
                },
            }
        }
        match self.header {
            Some(h) => {
                let total: usize = STREAM_HEADER_LEN + h.file_len as usize;
                if self.codewords < util::div_ceil(total, block_bytes) {
                    return Ok(Progress::More);
                }
                if self.stream.len() < total {
                    return Err(LinkDecodeError::StreamTooShort);
                }
                let file: Vec<u8> = util::copy_range(
                    self.stream.as_slice(),
                    STREAM_HEADER_LEN,
                    total,
                );
                let got: u32 = checksum::crc32_bytes(file.as_slice());
                match accept_file(self.stream.as_slice(), h, got) {
                    Ok(file) => Ok(Progress::Done(file)),
                    Err(e) => Err(e),
                }
            },
            None => Ok(Progress::More),
        }
    }
}

/// Whether the extension of a file's name is that of a video container, in whatever case.
pub open spec fn names_container(ext: Seq<char>) -> bool {
    ext.len() == 3 && (ext[0] == 'm' || ext[0] == 'M') && (((ext[1] == 'p' || ext[1] == 'P') && ext[2]
        == '4') || ((ext[1] == 'o' || ext[1] == 'O') && (ext[2] == 'v' || ext[2] == 'V')))
}

pub fn is_mp4_like(ext: Option<&str>) -> (r: bool)
    ensures
        r == (ext is Some && names_container(ext->0@)),
{
    match ext {
        Some(s) => {
            if s.unicode_len() != 3 {
                return false;
            }
            let a: char = s.get_char(0);
            let b: char = s.get_char(1);
            let c: char = s.get_char(2);
            (a == 'm' || a == 'M') && (((b == 'p' || b == 'P') && c == '4') || ((b == 'o' || b
                == 'O') && (c == 'v' || c == 'V')))
        },
        None => false,
    }
}

/// The small letter of a capital one; other characters stay.
pub open spec fn small(c: char) -> char {
    if 'A' <= c <= 'Z' {
        (c as u32 + 32) as char
    } else {
        c
    }
}

/// An extension names a container exactly where it is `mp4` or `mov` in small letters.
pub proof fn law_container_names(ext: Seq<char>)
    ensures
        names_container(ext) <==> ({
            let s = Seq::new(ext.len(), |i: int| small(ext[i]));
            s == seq!['m', 'p', '4'] || s == seq!['m', 'o', 'v']
        }),
{
    let s = Seq::new(ext.len(), |i: int| small(ext[i]));
    let (a, b) = (seq!['m', 'p', '4'], seq!['m', 'o', 'v']);
    if names_container(ext) {
        assert(s =~= a || s =~= b);
    }
    if s == a || s == b {
        assert(s.len() == 3);
        assert(s[0] == 'm');
        assert(small(ext[0]) == 'm' && s[1] == small(ext[1]) && s[2] == small(ext[2]));
        if s == a {
            assert(s[1] == 'p' && s[2] == '4');
        } else {
            assert(s[1] == 'o' && s[2] == 'v');
        }
    }
}

/// A header is taken exactly where it is of the profile that reception is locked to and the file is
/// neither empty nor too long.
pub proof fn law_taken_headers(profile: u8, max_file_len: u64, h: StreamHeader)
    requires
        h.file_len + 24 <= usize::MAX,
    ensures
        header_fault(profile, max_file_len, Some(h)) is None <==> h.profile == profile && 1
            <= h.file_len <= max_file_len,
{
}

} // verus!
