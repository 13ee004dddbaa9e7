//! The settings of the framed link: what a transmission profile and the boot record fix.
use vstd::prelude::*;

verus! {

/// One transmission profile of the framed link.
pub struct LinkProfile {
    pub profile: u8,
    /// The number of luma levels and how many bits a block carries on its luma plane.
    pub pam_m: usize,
    pub bits_per_plane: usize,
    /// The calibration levels, one for each symbol.
    pub y_levels: Vec<u8>,
    pub u_levels: Vec<u8>,
    pub v_levels: Vec<u8>,
    pub cal_repeats: usize,
    pub boot_copies: usize,
    pub locator_size: usize,
    pub ldpc_n: usize,
    pub ldpc_k: usize,
    pub ldpc_seed: u64,
    pub ldpc_col_w: usize,
    pub ldpc_iters: usize,
}

/// What all profiles of the framed link have in common.
pub struct LinkParams {
    /// The first bytes of a boot message.
    pub magic: [u8; 2],
    pub version: u8,
    /// The lengths of a boot message, of its parity, and how often each bit is sent.
    pub boot_msg_len: usize,
    pub boot_rs_parity: usize,
    pub boot_rs_repeat: usize,
    /// How many bytes of the coded boot message a frame carries.
    pub boot_len: usize,
    pub boot_copies_max: usize,
    pub header_rows: usize,
    /// The colours of locators and boot bits.
    pub loc_y0: u8,
    pub loc_y1: u8,
    pub loc_u0: u8,
    pub loc_u1: u8,
    pub loc_v0: u8,
    pub loc_v1: u8,
    pub max_file_len: u64,
}

impl LinkParams {
    /// How many bytes a coded boot message has.
    pub open spec fn boot_rs_n(&self) -> int {
        self.boot_msg_len + self.boot_rs_parity
    }

    /// How many bits a coded boot message has.
    pub open spec fn boot_code_bits(&self) -> int {
        self.boot_rs_n() * 8 * self.boot_rs_repeat
    }

    /// A boot message holds its fields, its code is one over bytes, and a frame carries no more of
    /// it than there is.
    pub open spec fn wf(&self) -> bool {
        &&& 12 <= self.boot_msg_len
        &&& self.boot_rs_n() <= 255
        &&& self.boot_rs_repeat > 0
        &&& self.boot_code_bits() <= usize::MAX
        &&& self.boot_len <= self.boot_rs_n() * self.boot_rs_repeat
    }
}

impl LinkProfile {
    /// How many parity bits a codeword has.
    pub open spec fn parity_bits(&self) -> int {
        self.ldpc_n - self.ldpc_k
    }

    pub fn ldpc_m(&self) -> (m: usize)
        requires
            self.ldpc_k <= self.ldpc_n,
        ensures
            m == self.parity_bits(),
    {
        self.ldpc_n - self.ldpc_k
    }

    /// How many payload bits a block carries.
    pub fn bits_per_block(&self) -> (b: usize)
        ensures
            b == self.bits_per_plane,
    {
        self.bits_per_plane
    }
}

} // verus!
