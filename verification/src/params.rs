//! The sizes, marks and profiles of the format.
use crate::float_bits;
use vstd::prelude::*;

verus! {

/// The side of a luma block in pixels.
pub const Y_BLOCK: usize = 32;

/// How many blocks are left free at each border.
pub const MARGIN_BLOCKS: usize = 1;

/// `F2V7`, the first bytes of a metadata record.
pub const META_MAGIC: [u8; 4] = [0x46, 0x32, 0x56, 0x37];

pub const META_VERSION: u8 = 8;

pub const META_VERSION_LEGACY_CRC32: u8 = 7;

/// The settings of one profile. `q_drop_threshold` is the bit pattern of a single-precision
/// number, and is compared as that number.
#[derive(Clone, Copy, Debug, PartialEq, Eq)]
pub struct ProfileCfg {
    pub id: u8,
    pub pam_order: u8,
    pub slots_per_frame: usize,
    pub coded_bits_per_slot: usize,
    pub b_sys: usize,
    pub b_par: usize,
    pub qc_z: usize,
    pub sc_memory: usize,
    pub ra_repeat: u8,
    pub q_drop_threshold: u32,
    pub chunk_bytes: usize,
    pub r_meta: usize,
    pub window_chunks_suggest: usize,
}

/// What is wrong with a profile.
#[derive(Clone, Copy, Debug, PartialEq, Eq)]
pub enum ConfigError {
    UnknownProfile,
    /// `b_sys + b_par` is not `coded_bits_per_slot`.
    SplitMismatch,
    EmptySplit,
    ZeroQcZ,
    ZeroScMemory,
    RaRepeatTooSmall,
    SplitNotMultipleOfQcZ,
    ZeroChunkBytes,
    ZeroRMeta,
    ThresholdOutOfRange,
}

/// The first fault of a profile, if it has any.
pub open spec fn fault(p: ProfileCfg) -> Option<ConfigError> {
    if p.b_sys + p.b_par != p.coded_bits_per_slot {
        Some(ConfigError::SplitMismatch)
    } else if p.b_sys == 0 || p.b_par == 0 {
        Some(ConfigError::EmptySplit)
    } else if p.qc_z == 0 {
        Some(ConfigError::ZeroQcZ)
    } else if p.sc_memory == 0 {
        Some(ConfigError::ZeroScMemory)
    } else if p.ra_repeat < 2 {
        Some(ConfigError::RaRepeatTooSmall)
    } else if p.b_sys % p.qc_z != 0 || p.b_par % p.qc_z != 0 {
        Some(ConfigError::SplitNotMultipleOfQcZ)
    } else if p.chunk_bytes == 0 {
        Some(ConfigError::ZeroChunkBytes)
    } else if p.r_meta == 0 {
        Some(ConfigError::ZeroRMeta)
    } else if !float_bits::in_unit_interval(p.q_drop_threshold) {
        Some(ConfigError::ThresholdOutOfRange)
    } else {
        None
    }
}

/// The settings that all profiles have in common, with their own sizes.
pub open spec fn profile_of_sizes(id: u8, pam_order: u8, b_sys: usize, b_par: usize) -> ProfileCfg {
    ProfileCfg {
        id,
        pam_order,
        slots_per_frame: 384,
        coded_bits_per_slot: (b_sys + b_par) as usize,
        b_sys,
        b_par,
        qc_z: 32,
        sc_memory: 2,
        ra_repeat: 2,
        q_drop_threshold: 0x3EB3_3333,
        chunk_bytes: 16384,
        r_meta: 4,
        window_chunks_suggest: 256,
    }
}

/// The profile of a number.
pub open spec fn profile_numbered(id: u8) -> Option<ProfileCfg> {
    if id == 0 {
        Some(profile_of_sizes(0, 2, 224, 160))
    } else if id == 1 {
        Some(profile_of_sizes(1, 4, 288, 224))
    } else if id == 2 {
        Some(profile_of_sizes(2, 8, 320, 320))
    } else {
        None
    }
}

impl ProfileCfg {
    /// Hands the profile back where it has no fault, and else its first fault.
    pub fn validate(self) -> (r: Result<Self, ConfigError>)
        requires
            self.b_sys + self.b_par <= usize::MAX,
        ensures
            match fault(self) {
                None => r == Ok::<ProfileCfg, ConfigError>(self),
                Some(e) => r == Err::<ProfileCfg, ConfigError>(e),
            },
    {
        if self.b_sys + self.b_par != self.coded_bits_per_slot {
            return Err(ConfigError::SplitMismatch);
        }
        if self.b_sys == 0 || self.b_par == 0 {
            return Err(ConfigError::EmptySplit);
        }
        if self.qc_z == 0 {
            return Err(ConfigError::ZeroQcZ);
        }
        if self.sc_memory == 0 {
            return Err(ConfigError::ZeroScMemory);
        }
        if self.ra_repeat < 2 {
            return Err(ConfigError::RaRepeatTooSmall);
        }
        if self.b_sys % self.qc_z != 0 || self.b_par % self.qc_z != 0 {
            return Err(ConfigError::SplitNotMultipleOfQcZ);
        }
        if self.chunk_bytes == 0 {
            return Err(ConfigError::ZeroChunkBytes);
        }
        if self.r_meta == 0 {
            return Err(ConfigError::ZeroRMeta);
        }
        if !float_bits::is_in_unit_interval(self.q_drop_threshold) {
            return Err(ConfigError::ThresholdOutOfRange);
        }
        Ok(self)
    }
}

/// The profile of a number.
pub fn cfg(profile: u8) -> (r: Result<ProfileCfg, ConfigError>)
    ensures
        match profile_numbered(profile) {
            Some(p) => r == Ok::<ProfileCfg, ConfigError>(p) && fault(p) is None,
            None => r == Err::<ProfileCfg, ConfigError>(ConfigError::UnknownProfile),
        },
{
    let (pam_order, b_sys, b_par): (u8, usize, usize) = if profile == 0 {
        (2, 224, 160)
    } else if profile == 1 {
        (4, 288, 224)
    } else if profile == 2 {
        (8, 320, 320)
    } else {
        return Err(ConfigError::UnknownProfile);
    };
    let p: ProfileCfg = ProfileCfg {
        id: profile,
        pam_order,
        slots_per_frame: 384,
        coded_bits_per_slot: b_sys + b_par,
        b_sys,
        b_par,
        qc_z: 32,
        sc_memory: 2,
        ra_repeat: 2,
        q_drop_threshold: 0x3EB3_3333,
        chunk_bytes: 16 * 1024,
        r_meta: 4,
        window_chunks_suggest: 256,
    };
    p.validate()
}

/// A profile is sound exactly where its split adds up to whole blocks of the code, nothing that has
/// to be there is missing, and its threshold is from 0 to 1.
pub proof fn law_sound_profiles(p: ProfileCfg)
    ensures
        fault(p) is None <==> {
            &&& p.coded_bits_per_slot == p.b_sys + p.b_par
            &&& p.b_sys >= 1 && p.b_par >= 1
            &&& p.qc_z >= 1 && p.b_sys % p.qc_z == 0 && p.b_par % p.qc_z == 0
            &&& p.sc_memory >= 1
            &&& p.ra_repeat >= 2
            &&& p.chunk_bytes >= 1
            &&& p.r_meta >= 1
            &&& p.q_drop_threshold <= 0x3F80_0000 || p.q_drop_threshold == 0x8000_0000
        },
{
    float_bits::law_unit_interval(p.q_drop_threshold);
}

/// There are three profiles. Each is sound and bears its number, the next one has twice as many
/// levels and room for 128 bits more in a slot, and a slot of each fits into a block.
pub proof fn law_profiles_grow(id: u8)
    ensures
        profile_numbered(id) is Some <==> id <= 2,
        profile_numbered(id) matches Some(p) ==> {
            &&& fault(p) is None
            &&& p.id == id
            &&& p.coded_bits_per_slot == 384 + 128 * id
            &&& p.coded_bits_per_slot <= 1024
            &&& profile_numbered((id + 1) as u8) matches Some(q) ==> q.pam_order == 2 * p.pam_order
                && q.b_sys > p.b_sys && q.b_par > p.b_par && q.slots_per_frame == p.slots_per_frame
                && q.r_meta == p.r_meta
        },
{
}

} // verus!
