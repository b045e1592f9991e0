//! Frame configuration: geometry and capacity derived from the block size,
//! quantization level count and Reed-Solomon parity length.

use vstd::prelude::*;
use crate::error::VstorageError;

verus! {

pub const FRAME_WIDTH: u32 = 3840;

pub const FRAME_HEIGHT: u32 = 2160;

pub const HEADER_ROWS: usize = 2;

pub const HEADER_COPIES: usize = 3;

pub const PROTOCOL_VERSION: u8 = 1;

/// A level count the quantizer supports: a power of two of at least 2 that
/// fits in a byte.
pub open spec fn valid_levels(levels: u8) -> bool {
    levels == 2 || levels == 4 || levels == 8 || levels == 16 || levels == 32 || levels == 64
        || levels == 128
}

/// Bits per channel carried by one logical pixel: the base-2 logarithm of the
/// level count.
pub open spec fn spec_bits_per_channel(levels: u8) -> u8
    recommends
        valid_levels(levels),
{
    if levels == 2 {
        1
    } else if levels == 4 {
        2
    } else if levels == 8 {
        3
    } else if levels == 16 {
        4
    } else if levels == 32 {
        5
    } else if levels == 64 {
        6
    } else {
        7
    }
}

/// The base-2 logarithm of a supported level count.
pub fn bits_per_channel_of(levels: u8) -> (r: u8)
    requires
        valid_levels(levels),
    ensures
        r == spec_bits_per_channel(levels),
        1 <= r <= 7,
{
    if levels == 2 {
        1
    } else if levels == 4 {
        2
    } else if levels == 8 {
        3
    } else if levels == 16 {
        4
    } else if levels == 32 {
        5
    } else if levels == 64 {
        6
    } else {
        7
    }
}

#[derive(Debug, Clone)]
pub struct FrameConfig {
    pub width: u32,
    pub height: u32,
    pub block_size: u8,
    pub levels: u8,
    pub ecc_len: u8,
    pub fps: u32,
    pub crf: u8,
}

impl FrameConfig {
    /// Parameters that the codec accepts: the block size tiles the frame,
    /// the level count is a supported power of two, and the parity length is
    /// one the Reed-Solomon decoder in use can correct safely. (The wire
    /// format would allow up to 254 parity bytes, but the decoder's fixed
    /// 256-byte polynomials overflow, and panic, once `ecc_len` exceeds 170;
    /// such configurations are rejected.)
    pub open spec fn wf(self) -> bool {
        &&& self.width == FRAME_WIDTH
        &&& self.height == FRAME_HEIGHT
        &&& self.block_size > 0
        &&& FRAME_WIDTH as int % self.block_size as int == 0
        &&& FRAME_HEIGHT as int % self.block_size as int == 0
        &&& valid_levels(self.levels)
        &&& 1 <= self.ecc_len <= 170
    }

    pub open spec fn spec_logical_width(self) -> int {
        FRAME_WIDTH as int / self.block_size as int
    }

    pub open spec fn spec_logical_height(self) -> int {
        FRAME_HEIGHT as int / self.block_size as int
    }

    pub open spec fn spec_data_area_pixels(self) -> int {
        self.spec_logical_width() * (self.spec_logical_height() - HEADER_ROWS as int)
    }

    pub open spec fn spec_data_area_bytes(self) -> int {
        self.spec_data_area_pixels() * (3 * spec_bits_per_channel(self.levels) as int) / 8
    }

    pub open spec fn spec_rs_data_len(self) -> int {
        255 - self.ecc_len as int
    }

    pub open spec fn spec_max_rs_blocks_per_frame(self) -> int {
        self.spec_data_area_bytes() / 255
    }

    pub open spec fn spec_max_raw_per_frame(self) -> int {
        self.spec_max_rs_blocks_per_frame() * self.spec_rs_data_len()
    }

    /// Validate the parameters and build the configuration for a 3840 by 2160
    /// frame. Each rejected parameter produces a `Config` error.
    pub fn new(block_size: u8, levels: u8, ecc_len: u8, fps: u32, crf: u8) -> (r: Result<
        Self,
        VstorageError,
    >)
        ensures
            r is Ok <==> (block_size > 0 && valid_levels(levels) && 1 <= ecc_len <= 170
                && FRAME_WIDTH as int % block_size as int == 0 && FRAME_HEIGHT as int
                % block_size as int == 0),
            r matches Ok(c) ==> c == (FrameConfig {
                width: FRAME_WIDTH,
                height: FRAME_HEIGHT,
                block_size,
                levels,
                ecc_len,
                fps,
                crf,
            }) && c.wf(),
    {
        if block_size == 0 {
            return Err(VstorageError::Config("block_size must be > 0"));
        }
        let power_of_two = levels == 2 || levels == 4 || levels == 8 || levels == 16 || levels == 32
            || levels == 64 || levels == 128;
        if !power_of_two {
            return Err(VstorageError::Config("levels must be a power of 2 and >= 2"));
        }
        if ecc_len == 0 || ecc_len > 170 {
            return Err(VstorageError::Config("ecc_len must be in 1..=170"));
        }
        if FRAME_WIDTH % block_size as u32 != 0 || FRAME_HEIGHT % block_size as u32 != 0 {
            return Err(VstorageError::Config("frame dimensions must be divisible by block_size"));
        }
        Ok(
            FrameConfig {
                width: FRAME_WIDTH,
                height: FRAME_HEIGHT,
                block_size,
                levels,
                ecc_len,
                fps,
                crf,
            },
        )
    }

    /// Logical pixels per row.
    pub fn logical_width(&self) -> (r: usize)
        requires
            self.wf(),
        ensures
            r as int == self.spec_logical_width(),
    {
        self.width as usize / self.block_size as usize
    }

    /// Logical rows per frame.
    pub fn logical_height(&self) -> (r: usize)
        requires
            self.wf(),
        ensures
            r as int == self.spec_logical_height(),
    {
        self.height as usize / self.block_size as usize
    }

    pub fn bits_per_channel(&self) -> (r: u8)
        requires
            self.wf(),
        ensures
            r == spec_bits_per_channel(self.levels),
            1 <= r <= 7,
    {
        bits_per_channel_of(self.levels)
    }

    pub fn bits_per_pixel(&self) -> (r: u8)
        requires
            self.wf(),
        ensures
            r as int == 3 * spec_bits_per_channel(self.levels) as int,
    {
        self.bits_per_channel() * 3
    }

    /// Number of logical pixels available for data (excluding header rows).
    pub fn data_area_pixels(&self) -> (r: usize)
        requires
            self.wf(),
        ensures
            r as int == self.spec_data_area_pixels(),
    {
        let lw = self.logical_width();
        let lh = self.logical_height();
        proof {
            self.lemma_geometry_bounds();
        }
        lw * (lh - HEADER_ROWS)
    }

    /// Number of bytes that fit in the data area.
    pub fn data_area_bytes(&self) -> (r: usize)
        requires
            self.wf(),
        ensures
            r as int == self.spec_data_area_bytes(),
    {
        proof {
            self.lemma_geometry_bounds();
        }
        self.data_area_pixels() * self.bits_per_pixel() as usize / 8
    }

    /// RS data length per block (255 - ecc_len).
    pub fn rs_data_len(&self) -> (r: usize)
        requires
            self.wf(),
        ensures
            r as int == self.spec_rs_data_len(),
            85 <= r <= 254,
    {
        255 - self.ecc_len as usize
    }

    /// Maximum number of complete RS blocks per frame.
    pub fn max_rs_blocks_per_frame(&self) -> (r: usize)
        requires
            self.wf(),
        ensures
            r as int == self.spec_max_rs_blocks_per_frame(),
    {
        self.data_area_bytes() / 255
    }

    /// Maximum raw (pre-RS) data bytes per frame.
    pub fn max_raw_per_frame(&self) -> (r: usize)
        requires
            self.wf(),
        ensures
            r as int == self.spec_max_raw_per_frame(),
    {
        proof {
            self.lemma_geometry_bounds();
            vstd::arithmetic::div_mod::lemma_div_is_ordered(
                self.spec_data_area_bytes(),
                3840int * 2160 * 3,
                255,
            );
        }
        self.max_rs_blocks_per_frame() * self.rs_data_len()
    }

    /// The logical grid and the derived capacities all fit comfortably in a
    /// 32-bit usize.
    pub proof fn lemma_geometry_bounds(self)
        requires
            self.wf(),
        ensures
            1 <= self.spec_logical_width() <= 3840,
            2 <= self.spec_logical_height() <= 2160,
            0 <= self.spec_data_area_pixels() <= 3840 * 2160,
            0 <= self.spec_data_area_bytes() <= 3840 * 2160 * 3,
            0 <= self.spec_max_raw_per_frame() <= 3840 * 2160 * 3,
            self.spec_logical_width() * self.block_size as int == FRAME_WIDTH as int,
            self.spec_logical_height() * self.block_size as int == FRAME_HEIGHT as int,
    {
        let b = self.block_size as int;
        let lw = self.spec_logical_width();
        let lh = self.spec_logical_height();
        vstd::arithmetic::div_mod::lemma_fundamental_div_mod(3840, b);
        vstd::arithmetic::div_mod::lemma_fundamental_div_mod(2160, b);
        assert(lw * b == 3840 && lh * b == 2160);
        assert(1 <= lw <= 3840 && 2 <= lh <= 2160) by (nonlinear_arith)
            requires
                lw * b == 3840 && lh * b == 2160 && b >= 1 && lw == 3840int / b && lh == 2160int / b,
        ;
        assert(0 <= lw * (lh - 2) <= 3840 * 2158) by (nonlinear_arith)
            requires
                1 <= lw <= 3840 && 2 <= lh <= 2160,
        ;
        let bpp = 3 * spec_bits_per_channel(self.levels) as int;
        assert(0 <= lw * (lh - 2) * bpp <= 3840 * 2160 * 24) by (nonlinear_arith)
            requires
                0 <= lw * (lh - 2) <= 3840 * 2158,
                3 <= bpp <= 21,
        ;
        vstd::arithmetic::div_mod::lemma_div_pos_is_pos(lw * (lh - 2) * bpp, 8);
        vstd::arithmetic::div_mod::lemma_div_is_ordered(lw * (lh - 2) * bpp, 3840int * 2160 * 24, 8);
        assert((3840int * 2160 * 24) / 8 == 3840int * 2160 * 3);
        let dab = self.spec_data_area_bytes();
        vstd::arithmetic::div_mod::lemma_div_pos_is_pos(dab, 255);
        vstd::arithmetic::div_mod::lemma_fundamental_div_mod(dab, 255);
        assert(0 <= (dab / 255) * (255 - self.ecc_len as int) <= dab) by (nonlinear_arith)
            requires
                dab >= 0,
                dab / 255 >= 0,
                255 * (dab / 255) <= dab,
                1 <= self.ecc_len <= 254,
        ;
    }
}

} // verus!
