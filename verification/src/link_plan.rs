//! What a transmission over the framed link takes: its layouts, codewords and frames.
use crate::envelope;
use crate::envelope::EnvelopeError;
use crate::ldpc::LdpcCode;
use crate::link_layout;
use crate::link_layout::{BootLayout, LinkLayoutError, ProfileLayout};
use crate::link_profile::{LinkParams, LinkProfile};
use crate::params::Y_BLOCK;
use crate::payload_tiles;
use crate::protocol::STREAM_HEADER_LEN;
use crate::util;
use vstd::prelude::*;

verus! {

/// Why a file is not sent.
#[derive(Clone, Copy, Debug, PartialEq, Eq)]
pub enum LinkEncodeError {
    UnknownProfile { profiles: usize },
    OddSize,
    NotWholeBlocks { width: usize, height: usize },
    FrameTooLarge { width: usize, height: usize },
    FpsTooLarge { fps: u32 },
    Layout(LinkLayoutError),
    NoCapacity { key: usize, tracking: usize },
    EmptyInput,
    InputTooLarge { len: u64, max: u64 },
    StreamTooLong,
    Envelope(EnvelopeError),
    CodedTooLong,
    NotEnoughFrames { need: usize, got: usize },
}

/// The layouts that the frames of a transmission have.
pub struct LinkLayouts {
    pub boot: BootLayout,
    pub key: ProfileLayout,
    pub tracking: ProfileLayout,
    pub key_bits: usize,
    pub tracking_bits: usize,
}

/// How many blocks the calibration strip of a profile has.
pub open spec fn cal_blocks(pcfg: &LinkProfile) -> int {
    pcfg.pam_m * pcfg.cal_repeats
}

/// How many payload bits a key frame carries.
pub open spec fn key_capacity(p: &LinkParams, pcfg: &LinkProfile, width: int, height: int) -> int {
    link_layout::capped_product(
        (width / 32 - 2) * (height / 32 - 2 - p.header_rows),
        pcfg.bits_per_plane as int,
    )
}

/// How many payload bits the other frames carry.
pub open spec fn tracking_capacity(pcfg: &LinkProfile, width: int, height: int) -> int {
    link_layout::capped_product(
        (width / 32 - 2) * (height / 32 - 2),
        pcfg.bits_per_plane as int,
    )
}

/// What stands against the layouts of a transmission, if anything does. A boot message that keeps
/// clear of the calibration strip never overlaps with it, and a frame that has room for a header has
/// room for margins.
pub open spec fn layouts_fault(p: &LinkParams, pcfg: &LinkProfile, width: int, height: int) -> Option<
    LinkEncodeError,
> {
    let usable = width / 32 - 2;
    let cal = cal_blocks(pcfg);
    let (key, tracking) = (
        key_capacity(p, pcfg, width, height),
        tracking_capacity(pcfg, width, height),
    );
    match link_layout::boot_fault(p, width, height, pcfg.boot_copies as int, cal) {
        Some(e) => Some(LinkEncodeError::Layout(e)),
        None => if cal == 0 {
            Some(LinkEncodeError::Layout(LinkLayoutError::NoCalBlocks))
        } else if cal > usable {
            Some(
                LinkEncodeError::Layout(
                    LinkLayoutError::CalTooLong { need: cal as usize, usable: usable as usize },
                ),
            )
        } else if key == 0 || tracking == 0 {
            Some(LinkEncodeError::NoCapacity { key: key as usize, tracking: tracking as usize })
        } else {
            None
        },
    }
}

impl LinkLayouts {
    /// These are the layouts of a profile for frames of a size.
    pub open spec fn are_for(&self, p: &LinkParams, pcfg: &LinkProfile, width: int, height: int) -> bool {
        &&& layouts_fault(p, pcfg, width, height) is None
        &&& link_layout::is_boot_layout(
            self.boot,
            p,
            width / 32,
            pcfg.boot_copies as int,
            cal_blocks(pcfg),
        )
        &&& link_layout::is_key_layout(self.key, p, width, height, pcfg)
        &&& link_layout::is_tracking_layout(self.tracking, width, height)
        &&& self.key_bits == key_capacity(p, pcfg, width, height)
        &&& self.tracking_bits == tracking_capacity(pcfg, width, height)
    }

    /// How many payload bits frame `i` carries.
    pub open spec fn capacity_of(&self, i: int) -> int {
        if i % 8 == 0 {
            self.key_bits as int
        } else {
            self.tracking_bits as int
        }
    }

    /// How many payload bits the first `n` frames carry.
    pub open spec fn capacity_before(&self, n: nat) -> int
        decreases n,
    {
        if n == 0 {
            0
        } else {
            self.capacity_before((n - 1) as nat) + self.capacity_of(n - 1)
        }
    }

    /// How many payload bits frame `i` carries.
    pub fn frame_capacity(&self, i: usize) -> (n: usize)
        ensures
            n == self.capacity_of(i as int),
    {
        if link_layout::frame_uses_boot_cal((i % 8) as u32) {
            self.key_bits
        } else {
            self.tracking_bits
        }
    }
}

/// The sizes that layouts are made of can be counted.
pub open spec fn layout_sizes_fit(p: &LinkParams, pcfg: &LinkProfile, width: int, height: int) -> bool {
    &&& link_layout::boot_sizes_fit(p, cal_blocks(pcfg))
    &&& (width / 32) * (height / 32) <= usize::MAX
}

/// The capacities of layouts follow from the size of the frame.
pub proof fn lemma_capacities(
    p: &LinkParams,
    pcfg: &LinkProfile,
    width: int,
    height: int,
    key: ProfileLayout,
    tracking: ProfileLayout,
)
    requires
        0 <= width <= usize::MAX,
        0 <= height <= usize::MAX,
        width / 32 > 2,
        height / 32 > 2 + p.header_rows,
        (width / 32) * (height / 32) <= usize::MAX,
        link_layout::is_key_layout(key, p, width, height, pcfg),
        link_layout::is_tracking_layout(tracking, width, height),
    ensures
        link_layout::capacity_bits(&key, pcfg) == key_capacity(p, pcfg, width, height),
        link_layout::capacity_bits(&tracking, pcfg) == tracking_capacity(pcfg, width, height),
{
    let (x, y, r) = (width / 32 - 2, height / 32 - 2, p.header_rows as int);
    assert(x * (y - r) <= (x + 2) * (y + 2) && x * y <= (x + 2) * (y + 2)) by (nonlinear_arith)
        requires
            0 < x,
            0 < y,
            0 <= r < y,
    ;
    payload_tiles::law_payload_covers_area(key.bx_n, key.payload_by_start, key.payload_by_end);
    payload_tiles::law_payload_covers_area(tracking.bx_n, 1, tracking.payload_by_end);
}

/// Makes the layouts of a transmission.
pub fn build_layouts(p: &LinkParams, pcfg: &LinkProfile, width: usize, height: usize) -> (r: Result<
    LinkLayouts,
    LinkEncodeError,
>)
    requires
        layout_sizes_fit(p, pcfg, width as int, height as int),
    ensures
        match r {
            Ok(l) => layouts_fault(p, pcfg, width as int, height as int) is None && l.are_for(
                p,
                pcfg,
                width as int,
                height as int,
            ),
            Err(e) => layouts_fault(p, pcfg, width as int, height as int) == Some(e),
        },
{
    let ghost (w, h) = (width as int, height as int);
    let cal: usize = pcfg.pam_m * pcfg.cal_repeats;
    let boot: BootLayout = match link_layout::build_boot_layout(
        p,
        width,
        height,
        pcfg.boot_copies,
        cal,
    ) {
        Ok(l) => l,
        Err(e) => {
            return Err(LinkEncodeError::Layout(e));
        },
    };
    proof {
        if 0 < cal <= w / 32 - 2 {
            link_layout::law_boot_keeps_clear(p, boot, w, h, pcfg.boot_copies as int, cal as int);
        }
    }
    let key: ProfileLayout = match link_layout::build_profile_layout(p, width, height, &boot, pcfg) {
        Ok(l) => l,
        Err(e) => {
            return Err(LinkEncodeError::Layout(e));
        },
    };
    let tracking: ProfileLayout = match link_layout::build_tracking_layout(width, height) {
        Ok(l) => l,
        Err(e) => {
            return Err(LinkEncodeError::Layout(e));
        },
    };
    proof {
        lemma_capacities(p, pcfg, w, h, key, tracking);
    }
    let key_bits: usize = link_layout::payload_capacity_bits(&key, pcfg);
    let tracking_bits: usize = link_layout::payload_capacity_bits(&tracking, pcfg);
    let l: LinkLayouts = LinkLayouts { boot, key, tracking, key_bits, tracking_bits };
    if key_bits == 0 || tracking_bits == 0 {
        return Err(LinkEncodeError::NoCapacity { key: key_bits, tracking: tracking_bits });
    }
    Ok(l)
}

/// What stands against a transmission before its file is looked at, if anything does.
pub open spec fn request_fault(
    p: &LinkParams,
    profiles: Seq<LinkProfile>,
    profile: u8,
    width: int,
    height: int,
    fps: u32,
) -> Option<LinkEncodeError> {
    if profile >= profiles.len() {
        Some(LinkEncodeError::UnknownProfile { profiles: profiles.len() as usize })
    } else if width % 2 != 0 || height % 2 != 0 {
        Some(LinkEncodeError::OddSize)
    } else if width % 32 != 0 || height % 32 != 0 {
        Some(LinkEncodeError::NotWholeBlocks { width: width as usize, height: height as usize })
    } else if width > 0xffff || height > 0xffff {
        Some(LinkEncodeError::FrameTooLarge { width: width as usize, height: height as usize })
    } else if fps > 0xffff {
        Some(LinkEncodeError::FpsTooLarge { fps })
    } else {
        layouts_fault(p, &profiles[profile as int], width, height)
    }
}

/// Checks a transmission before its file is looked at, and makes its layouts.
pub fn plan_layouts(
    p: &LinkParams,
    profiles: &[LinkProfile],
    profile: u8,
    width: usize,
    height: usize,
    fps: u32,
) -> (r: Result<LinkLayouts, LinkEncodeError>)
    requires
        profile < profiles@.len() ==> link_layout::boot_sizes_fit(
            p,
            cal_blocks(&profiles@[profile as int]),
        ),
    ensures
        match r {
            Ok(l) => request_fault(p, profiles@, profile, width as int, height as int, fps) is None
                && l.are_for(p, &profiles@[profile as int], width as int, height as int),
            Err(e) => request_fault(p, profiles@, profile, width as int, height as int, fps) == Some(
                e,
            ),
        },
{
    if profile as usize >= profiles.len() {
        return Err(LinkEncodeError::UnknownProfile { profiles: profiles.len() });
    }
    if width % 2 != 0 || height % 2 != 0 {
        return Err(LinkEncodeError::OddSize);
    }
    if width % Y_BLOCK != 0 || height % Y_BLOCK != 0 {
        return Err(LinkEncodeError::NotWholeBlocks { width, height });
    }
    if width > u16::MAX as usize || height > u16::MAX as usize {
        return Err(LinkEncodeError::FrameTooLarge { width, height });
    }
    if fps > u16::MAX as u32 {
        return Err(LinkEncodeError::FpsTooLarge { fps });
    }
    proof {
        let (a, b) = (width as int / 32, height as int / 32);
        assert(a * b <= 2047 * 2047) by (nonlinear_arith)
            requires
                0 <= a <= 2047,
                0 <= b <= 2047,
        ;
    }
    build_layouts(p, &profiles[profile as usize], width, height)
}

/// How a stream is cut up.
#[derive(Clone, Copy, Debug, PartialEq, Eq)]
pub struct StreamPlan {
    pub stream_bytes: usize,
    /// How many bytes of the stream a codeword carries.
    pub block_bytes: usize,
    pub codewords: usize,
    pub frames: usize,
}

/// `n` frames carry `total` bits, and no fewer do.
pub open spec fn are_frames_needed(l: LinkLayouts, total: int, n: nat) -> bool {
    &&& l.capacity_before(n) >= total
    &&& n > 0 ==> l.capacity_before((n - 1) as nat) < total
}

/// How many bits the codewords of a stream have.
pub open spec fn coded_len(code: &LdpcCode, stream_bytes: nat, block_bytes: nat) -> int {
    util::ceil_div(stream_bytes, block_bytes) * code.n
}

/// What stands against sending a file, if anything but a lack of frames does.
pub open spec fn file_fault(p: &LinkParams, code: &LdpcCode, file_len: u64) -> Option<
    LinkEncodeError,
> {
    if file_len == 0 {
        Some(LinkEncodeError::EmptyInput)
    } else if file_len > p.max_file_len {
        Some(LinkEncodeError::InputTooLarge { len: file_len, max: p.max_file_len })
    } else if file_len + 24 > usize::MAX {
        Some(LinkEncodeError::StreamTooLong)
    } else {
        match envelope::payload_capacity(code.k) {
            Err(e) => Some(LinkEncodeError::Envelope(e)),
            Ok(b) => if coded_len(code, (file_len + 24) as nat, b as nat) > usize::MAX {
                Some(LinkEncodeError::CodedTooLong)
            } else {
                None
            },
        }
    }
}

/// Plans the stream of a file.
pub fn plan_stream(p: &LinkParams, code: &LdpcCode, l: &LinkLayouts, file_len: u64, frames: usize) -> (r:
    Result<StreamPlan, LinkEncodeError>)
    requires
        l.key_bits > 0,
        l.tracking_bits > 0,
    ensures
        match r {
            Ok(s) => {
                &&& file_fault(p, code, file_len) is None
                &&& s.stream_bytes == file_len + 24
                &&& envelope::payload_capacity(code.k) == Ok::<usize, EnvelopeError>(s.block_bytes)
                &&& s.codewords == util::ceil_div(s.stream_bytes as nat, s.block_bytes as nat)
                &&& are_frames_needed(*l, s.codewords * code.n, s.frames as nat)
                &&& s.frames <= frames
            },
            Err(LinkEncodeError::NotEnoughFrames { need, got }) => {
                &&& file_fault(p, code, file_len) is None
                &&& are_frames_needed(
                    *l,
                    coded_len(
                        code,
                        (file_len + 24) as nat,
                        envelope::payload_capacity(code.k)->Ok_0 as nat,
                    ),
                    need as nat,
                )
                &&& got == frames
                &&& frames < need
            },
            Err(e) => file_fault(p, code, file_len) == Some(e),
        },
{
    if file_len == 0 {
        return Err(LinkEncodeError::EmptyInput);
    }
    if file_len > p.max_file_len {
        return Err(LinkEncodeError::InputTooLarge { len: file_len, max: p.max_file_len });
    }
    if file_len > usize::MAX as u64 || file_len as usize > usize::MAX - STREAM_HEADER_LEN {
        return Err(LinkEncodeError::StreamTooLong);
    }
    let stream_bytes: usize = STREAM_HEADER_LEN + file_len as usize;
    let block_bytes: usize = match envelope::ldpc_user_payload_bytes(code) {
        Ok(b) => b,
        Err(e) => {
            return Err(LinkEncodeError::Envelope(e));
        },
    };
    let codewords: usize = util::div_ceil(stream_bytes, block_bytes);
    let total: usize = match codewords.checked_mul(code.n) {
        Some(t) => t,
        None => {
            return Err(LinkEncodeError::CodedTooLong);
        },
    };
    let mut need: usize = 0;
    let mut left: usize = total;
    while left > 0
        invariant
            l.key_bits > 0,
            l.tracking_bits > 0,
            need + left <= total,
            left > 0 ==> left == total - l.capacity_before(need as nat),
            left == 0 ==> are_frames_needed(*l, total as int, need as nat),
        decreases left,
    {
        let cap: usize = l.frame_capacity(need);
        left = if left >= cap {
            left - cap
        } else {
            0
        };
        need = need + 1;
    }
    if frames < need {
        return Err(LinkEncodeError::NotEnoughFrames { need, got: frames });
    }
    Ok(StreamPlan { stream_bytes, block_bytes, codewords, frames: need })
}

} // verus!
