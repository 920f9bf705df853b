use vstd::prelude::*;

verus! {

use vstd::arithmetic::power2::pow2;
use vstd::arithmetic::power2::lemma_pow2_strictly_increases;
use vstd::arithmetic::power2::lemma2_to64;
use crate::format::FormatData;
use crate::format::lemma_format_data_ranges;
use crate::math::align;
use crate::math::log2_ceil;
use crate::math::next_pow2;
use crate::math::pow2_u32;
use crate::math::spec_align;
use crate::math::spec_log2_ceil;
use crate::math::spec_next_pow2;
use crate::math::lemma_align_bounds;
use crate::math::lemma_log2_ceil_bounds;

/// The record all address math works on: a configuration with its format
/// descriptor attached and its tile-unit addresses already scaled to bytes.
#[derive(Debug, Copy, Clone)]
pub struct TextureInfo {
    pub width: u32,
    pub height: u32,
    pub depth: u32,
    pub pitch: u32,
    pub tiled: bool,
    pub packed_mips: bool,
    pub format: FormatData,
    pub base_address: u32,
    pub mip_address: u32,
}

/// Tile-aligned size of one mip: pixel pitch and height, block counts after
/// alignment, and the slice count.
#[derive(Debug, Copy, Clone, PartialEq, Eq, Structural)]
pub struct TextureExtent {
    pub pitch: u32,
    pub height: u32,
    pub block_pitch_h: u32,
    pub block_pitch_v: u32,
    pub depth: u32,
}

impl TextureInfo {
    /// Dimensions within the hardware's range, a sane slice count, and a
    /// known format.
    pub open spec fn wf(self) -> bool {
        &&& 1 <= self.width <= 8192
        &&& 1 <= self.height <= 8192
        &&& self.pitch <= 8192
        &&& 1 <= self.depth <= 8
        &&& self.format.wf()
    }
}

/// One if the quotient would be zero, the quotient otherwise.
pub open spec fn spec_max1(x: int) -> int {
    if x < 1 {
        1
    } else {
        x
    }
}

/// Pixel dimensions of a mip: each side halved per level, floored at one.
pub open spec fn spec_mip_size(info: TextureInfo, mip: int) -> (int, int) {
    (
        spec_max1(info.width as int / pow2(mip as nat) as int),
        spec_max1(info.height as int / pow2(mip as nat) as int),
    )
}

/// The extent a pitch/height pair induces: block counts from the block
/// geometry; for guest layouts both counts are rounded up to whole 32-block
/// tiles, and linear (untiled) guest rows are further padded to 256 bytes.
pub open spec fn spec_calculate(
    format: FormatData,
    pitch: int,
    height: int,
    depth: u32,
    is_tiled: bool,
    is_guest: bool,
) -> TextureExtent {
    let bw = format.block_width as int;
    let bh = format.block_height as int;
    let bpb = format.bytes_per_block as int;
    let bp_h0 = spec_align(pitch, bw) / bw;
    let bp_v0 = spec_align(height, bh) / bh;
    if is_guest {
        let bp_v = spec_align(bp_v0, 32);
        let bp_h1 = spec_align(bp_h0, 32);
        let bp_h = if is_tiled {
            bp_h1
        } else {
            spec_align(bp_h1 * bpb, 256) / bpb
        };
        TextureExtent {
            pitch: (bp_h * bw) as u32,
            height: (bp_v * bh) as u32,
            block_pitch_h: bp_h as u32,
            block_pitch_v: bp_v as u32,
            depth,
        }
    } else {
        TextureExtent {
            pitch: (bp_h0 * bw) as u32,
            height: (bp_v0 * bh) as u32,
            block_pitch_h: bp_h0 as u32,
            block_pitch_v: bp_v0 as u32,
            depth,
        }
    }
}

/// Total number of blocks an extent covers.
pub open spec fn spec_all_blocks(e: TextureExtent) -> int {
    e.block_pitch_h * e.block_pitch_v * e.depth
}

/// Guest mips use the power-of-two envelope of the base level; host mips use
/// the true dimensions, floored at one.
pub open spec fn spec_mip_width(info: TextureInfo, mip: int, is_guest: bool) -> int {
    if is_guest {
        spec_next_pow2(info.width as nat) as int / pow2(mip as nat) as int
    } else {
        spec_max1(info.width as int / pow2(mip as nat) as int)
    }
}

/// See `spec_mip_width`.
pub open spec fn spec_mip_height(info: TextureInfo, mip: int, is_guest: bool) -> int {
    if is_guest {
        spec_next_pow2(info.height as nat) as int / pow2(mip as nat) as int
    } else {
        spec_max1(info.height as int / pow2(mip as nat) as int)
    }
}

/// The extent of one mip level. Level zero is measured by the configured
/// pitch and is always a guest extent, as the conversion only ever asks for
/// the guest layout of the base level.
pub open spec fn spec_mip_extent(info: TextureInfo, mip: int, is_guest: bool) -> TextureExtent {
    if mip == 0 {
        spec_calculate(info.format, info.pitch as int, info.height as int, info.depth, info.tiled, true)
    } else {
        spec_calculate(
            info.format,
            spec_mip_width(info, mip, is_guest),
            spec_mip_height(info, mip, is_guest),
            info.depth,
            info.tiled,
            is_guest,
        )
    }
}

/// Bytes one mip's guest-aligned extent occupies.
pub open spec fn spec_extent_bytes(info: TextureInfo, mip: int, is_guest: bool) -> int {
    spec_all_blocks(spec_mip_extent(info, mip, is_guest)) * info.format.bytes_per_block
}

/// Whether level `i` of the power-of-two envelope has reached the size at
/// which the remaining mips share one tile.
pub open spec fn spec_threshold(info: TextureInfo, i: int) -> bool {
    let mw = spec_max1(spec_next_pow2(info.width as nat) as int / pow2(i as nat) as int);
    let mh = spec_max1(spec_next_pow2(info.height as nat) as int / pow2(i as nat) as int);
    (if mw < mh {
        mw
    } else {
        mh
    }) <= 16
}

/// Bytes accumulated by the packed walk: full extents of the levels from `i`
/// up to the first packed level, stopping at `mip`.
pub open spec fn spec_packed_walk_acc(info: TextureInfo, mip: int, i: int, is_guest: bool) -> int
    decreases mip - i,
{
    if i >= mip || spec_threshold(info, i) {
        0
    } else {
        spec_extent_bytes(info, i, is_guest) + spec_packed_walk_acc(info, mip, i + 1, is_guest)
    }
}

/// The level at which the packed walk starting at `i` stops: the first level
/// at or after `i` that meets the packing threshold, capped at `mip`.
pub open spec fn spec_packed_base(info: TextureInfo, mip: int, i: int) -> int
    decreases mip - i,
{
    if i >= mip || spec_threshold(info, i) {
        i
    } else {
        spec_packed_base(info, mip, i + 1)
    }
}

/// Bytes of all extents of the levels in `[i, mip)`, for the unpacked case.
pub open spec fn spec_unpacked_acc(info: TextureInfo, mip: int, i: int, is_guest: bool) -> int
    decreases mip - i,
{
    if i >= mip {
        0
    } else {
        spec_extent_bytes(info, i, is_guest) + spec_unpacked_acc(info, mip, i + 1, is_guest)
    }
}

/// Intra-tile placement of the mip with packing index `packed_tile`, for a
/// packed-tile set whose logical size is `width` by `height` pixels. The
/// first three indices stack along one axis, later ones along the other;
/// pixel offsets are scaled down to block offsets.
pub open spec fn spec_packed_tile_offset0(
    format: FormatData,
    width: int,
    height: int,
    packed_tile: int,
) -> (int, int, bool) {
    let lw = if width == 0 {
        32
    } else {
        spec_log2_ceil(width as nat) as int
    };
    let lh = if height == 0 {
        32
    } else {
        spec_log2_ceil(height as nat) as int
    };
    if (if lw < lh {
        lw
    } else {
        lh
    }) > 4 {
        (0, 0, false)
    } else {
        let p = if packed_tile < 3 {
            if lw > lh {
                (0int, 16int / pow2(packed_tile as nat) as int)
            } else {
                (16int / pow2(packed_tile as nat) as int, 0int)
            }
        } else {
            if lw > lh {
                (16int / pow2((packed_tile - 2) as nat) as int, 0int)
            } else {
                (0int, 16int / pow2((packed_tile - 2) as nat) as int)
            }
        };
        (p.0 / format.block_width as int, p.1 / format.block_height as int, true)
    }
}

/// Intra-tile placement of mip zero's packed tile, if mips are packed at all.
pub open spec fn spec_packed_tile_offset(info: TextureInfo, packed_tile: int) -> (int, int, bool) {
    if !info.packed_mips {
        (0, 0, false)
    } else {
        spec_packed_tile_offset0(
            info.format,
            spec_next_pow2(info.width as nat) as int,
            spec_next_pow2(info.height as nat) as int,
            packed_tile,
        )
    }
}

/// Where a mip lives: its byte offset and its intra-tile block offsets.
///
/// Level zero sits at the base address. Levels at or above one sit in the
/// mip region when there is one, offset by the full extents of the levels
/// before them; once levels are packed, the walk stops at the packing
/// threshold and the position inside the shared tile supplies the block
/// offsets.
pub open spec fn spec_mip_location(info: TextureInfo, mip: int, is_guest: bool) -> (int, int, int) {
    if mip == 0 {
        if info.packed_mips {
            let t = spec_packed_tile_offset(info, 0);
            (info.base_address as int, t.0, t.1)
        } else {
            (info.base_address as int, 0, 0)
        }
    } else if info.mip_address == 0 {
        (0, 0, 0)
    } else if !info.packed_mips {
        (info.mip_address + spec_unpacked_acc(info, mip, 1, is_guest), 0, 0)
    } else {
        let base = spec_packed_base(info, mip, 1);
        let t = spec_packed_tile_offset0(
            info.format,
            spec_next_pow2(info.width as nat) as int / pow2(mip as nat) as int,
            spec_next_pow2(info.height as nat) as int / pow2(mip as nat) as int,
            mip - base,
        );
        (info.mip_address + spec_packed_walk_acc(info, mip, 1, is_guest), t.0, t.1)
    }
}

/// The power-of-two envelope never outgrows a power of two that already
/// holds the dimension.
proof fn lemma_next_pow2_within(y: nat, k: nat)
    requires
        1 <= y <= pow2(k),
    ensures
        1 <= spec_next_pow2(y) <= pow2(k),
{
    lemma_log2_ceil_bounds(y);
    let s = spec_log2_ceil(y);
    vstd::arithmetic::power2::lemma_pow2_pos(s);
    if s > k {
        lemma_pow2_strictly_increases(k, s);
        if y >= 2 {
            if s - 1 > k {
                lemma_pow2_strictly_increases(k, (s - 1) as nat);
            }
            assert(pow2((s - 1) as nat) >= pow2(k));
            assert(false);
        } else {
            assert(s == 0);
            assert(false);
        }
    }
    if s < k {
        lemma_pow2_strictly_increases(s, k);
    }
}

/// Field bounds of a calculated extent, from bounds on its inputs.
pub proof fn lemma_calculate_bounds(
    format: FormatData,
    pitch: int,
    height: int,
    depth: u32,
    is_tiled: bool,
    is_guest: bool,
)
    requires
        format.wf(),
        0 <= pitch,
        0 <= height,
    ensures
        ({
            let e = spec_calculate(format, pitch, height, depth, is_tiled, is_guest);
            0 <= e.block_pitch_h <= pitch + 97 && 0 <= e.block_pitch_v <= height + 34 && e.depth
                == depth && e.block_pitch_h == (e.block_pitch_h as u32) && e.block_pitch_v == (
            e.block_pitch_v as u32)
        }),
{
    lemma_format_data_ranges(format);
    let bw = format.block_width as int;
    let bh = format.block_height as int;
    let bpb = format.bytes_per_block as int;
    lemma_align_bounds(pitch, bw);
    lemma_align_bounds(height, bh);
    let bp_h0 = spec_align(pitch, bw) / bw;
    let bp_v0 = spec_align(height, bh) / bh;
    assert(0 <= bp_h0 <= pitch + 3) by (nonlinear_arith)
        requires
            bp_h0 == spec_align(pitch, bw) / bw,
            0 <= spec_align(pitch, bw) <= pitch + 3,
            1 <= bw,
    ;
    assert(0 <= bp_v0 <= height + 3) by (nonlinear_arith)
        requires
            bp_v0 == spec_align(height, bh) / bh,
            0 <= spec_align(height, bh) <= height + 3,
            1 <= bh,
    ;
    if is_guest {
        lemma_align_bounds(bp_v0, 32);
        lemma_align_bounds(bp_h0, 32);
        let bp_v = spec_align(bp_v0, 32);
        let bp_h1 = spec_align(bp_h0, 32);
        assert(bp_h1 <= pitch + 34);
        assert(bp_v <= height + 34);
        if !is_tiled {
            lemma_align_bounds(bp_h1 * bpb, 256);
            let byte_pitch = spec_align(bp_h1 * bpb, 256);
            assert(0 <= bp_h1 * bpb && byte_pitch / bpb <= bp_h1 + 63) by (nonlinear_arith)
                requires
                    0 <= bp_h1,
                    4 <= bpb,
                    0 <= byte_pitch <= bp_h1 * bpb + 255,
            ;
            assert(0 <= byte_pitch / bpb) by (nonlinear_arith)
                requires
                    0 <= byte_pitch,
                    4 <= bpb,
            ;
        }
    }
}

/// Byte-size bound for the extent of any level past the base, from the
/// dimension bounds in `wf`.
pub proof fn lemma_extent_bytes_bounds(info: TextureInfo, mip: int, is_guest: bool)
    requires
        info.wf(),
        1 <= mip <= 31,
    ensures
        ({
            let e = spec_mip_extent(info, mip, is_guest);
            0 <= e.block_pitch_h <= 4200 && 0 <= e.block_pitch_v <= 4200 && e.depth == info.depth
                && e.block_pitch_h * e.block_pitch_v <= 0x120_0000 && e.block_pitch_h
                * e.block_pitch_v * e.depth <= 0x900_0000 && 0 <= spec_extent_bytes(
                info,
                mip,
                is_guest,
            ) <= 0x9000_0000
        }),
{
    lemma_format_data_ranges(info.format);
    lemma2_to64();
    lemma_next_pow2_within(info.width as nat, 13);
    lemma_next_pow2_within(info.height as nat, 13);
    let p = pow2(mip as nat) as int;
    assert(p >= 2) by {
        if mip > 1 {
            lemma_pow2_strictly_increases(1, mip as nat);
        }
    }
    let mw = spec_mip_width(info, mip, is_guest);
    let mh = spec_mip_height(info, mip, is_guest);
    assert(0 <= spec_next_pow2(info.width as nat) as int / p <= 4096) by (nonlinear_arith)
        requires
            2 <= p,
            1 <= spec_next_pow2(info.width as nat) <= 8192,
    ;
    assert(0 <= spec_next_pow2(info.height as nat) as int / p <= 4096) by (nonlinear_arith)
        requires
            2 <= p,
            1 <= spec_next_pow2(info.height as nat) <= 8192,
    ;
    assert(0 <= info.width as int / p <= 4096) by (nonlinear_arith)
        requires
            2 <= p,
            1 <= info.width <= 8192,
    ;
    assert(0 <= info.height as int / p <= 4096) by (nonlinear_arith)
        requires
            2 <= p,
            1 <= info.height <= 8192,
    ;
    assert(0 <= mw <= 4096 && 0 <= mh <= 4096);
    lemma_calculate_bounds(info.format, mw, mh, info.depth, info.tiled, is_guest);
    let e = spec_mip_extent(info, mip, is_guest);
    assert(e.block_pitch_h * e.block_pitch_v <= 0x120_0000) by (nonlinear_arith)
        requires
            0 <= e.block_pitch_h <= 4200,
            0 <= e.block_pitch_v <= 4200,
    ;
    assert(e.block_pitch_h * e.block_pitch_v * e.depth <= 0x900_0000) by (nonlinear_arith)
        requires
            0 <= e.block_pitch_h * e.block_pitch_v <= 0x120_0000,
            1 <= e.depth <= 8,
    ;
    assert(spec_all_blocks(e) * info.format.bytes_per_block <= 0x9000_0000) by (
    nonlinear_arith)
        requires
            0 <= spec_all_blocks(e) <= 0x900_0000,
            info.format.bytes_per_block <= 16,
    ;
    assert(0 <= spec_all_blocks(e) * info.format.bytes_per_block) by (nonlinear_arith)
        requires
            0 <= spec_all_blocks(e),
            0 <= info.format.bytes_per_block,
    ;
}

/// Every partial sum of extents is non-negative.
pub proof fn lemma_unpacked_acc_nonneg(info: TextureInfo, mip: int, i: int, is_guest: bool)
    requires
        info.wf(),
        1 <= i,
        mip <= 32,
    ensures
        spec_unpacked_acc(info, mip, i, is_guest) >= 0,
    decreases mip - i,
{
    if i < mip {
        lemma_extent_bytes_bounds(info, i, is_guest);
        lemma_unpacked_acc_nonneg(info, mip, i + 1, is_guest);
    }
}

/// The packed walk accumulates no more than the unpacked walk, and never a
/// negative amount.
pub proof fn lemma_packed_walk_acc_nonneg(info: TextureInfo, mip: int, i: int, is_guest: bool)
    requires
        info.wf(),
        1 <= i,
        mip <= 32,
    ensures
        0 <= spec_packed_walk_acc(info, mip, i, is_guest) <= spec_unpacked_acc(
            info,
            mip,
            i,
            is_guest,
        ),
    decreases mip - i,
{
    lemma_unpacked_acc_nonneg(info, mip, i, is_guest);
    if i < mip && !spec_threshold(info, i) {
        lemma_extent_bytes_bounds(info, i, is_guest);
        lemma_packed_walk_acc_nonneg(info, mip, i + 1, is_guest);
    } else if i < mip {
        lemma_unpacked_acc_nonneg(info, mip, i, is_guest);
    }
}

impl TextureExtent {
    /// Total number of blocks this extent covers.
    pub fn all_blocks(&self) -> (r: u32)
        requires
            self.block_pitch_h * self.block_pitch_v <= u32::MAX,
            self.block_pitch_h * self.block_pitch_v * self.depth <= u32::MAX,
        ensures
            r == spec_all_blocks(*self),
    {
        proof {
            assert(self.block_pitch_h * self.block_pitch_v * self.depth >= self.block_pitch_h
                * self.block_pitch_v * 0 == 0) by (nonlinear_arith);
        }
        let a = self.block_pitch_h * self.block_pitch_v;
        a * self.depth
    }

    /// Compute the extent a pitch/height pair induces; see `spec_calculate`.
    pub fn calculate(
        format: &FormatData,
        pitch: u32,
        height: u32,
        depth: u32,
        is_tiled: bool,
        is_guest: bool,
    ) -> (r: TextureExtent)
        requires
            format.wf(),
            pitch <= 8192,
            height <= 8192,
        ensures
            r == spec_calculate(*format, pitch as int, height as int, depth, is_tiled, is_guest),
    {
        proof {
            lemma_format_data_ranges(*format);
            lemma_calculate_bounds(*format, pitch as int, height as int, depth, is_tiled, is_guest);
        }
        let block_pitch_h0 = align(pitch, format.block_width) / format.block_width;
        let block_pitch_v0 = align(height, format.block_height) / format.block_height;
        proof {
            assert(block_pitch_h0 <= pitch + 3) by (nonlinear_arith)
                requires
                    block_pitch_h0 == spec_align(pitch as int, format.block_width as int)
                        / (format.block_width as int),
                    0 <= spec_align(pitch as int, format.block_width as int) <= pitch + 3,
                    1 <= format.block_width,
            ;
            assert(block_pitch_v0 <= height + 3) by (nonlinear_arith)
                requires
                    block_pitch_v0 == spec_align(height as int, format.block_height as int)
                        / (format.block_height as int),
                    0 <= spec_align(height as int, format.block_height as int) <= height + 3,
                    1 <= format.block_height,
            ;
        }
        if is_guest {
            let block_pitch_v = align(block_pitch_v0, 32);
            let block_pitch_h1 = align(block_pitch_h0, 32);
            let block_pitch_h = if is_tiled {
                block_pitch_h1
            } else {
                proof {
                    assert(block_pitch_h1 * format.bytes_per_block <= 8229 * 16) by (
                    nonlinear_arith)
                        requires
                            0 <= block_pitch_h1 <= 8229,
                            format.bytes_per_block <= 16,
                    ;
                }
                let byte_pitch = align(block_pitch_h1 * format.bytes_per_block, 256);
                byte_pitch / format.bytes_per_block
            };
            proof {
                assert(block_pitch_h * format.block_width as int <= 8292 * 4 && block_pitch_v
                    * format.block_height as int <= 8229 * 4) by (nonlinear_arith)
                    requires
                        0 <= block_pitch_h <= pitch + 97,
                        0 <= block_pitch_v <= height + 34,
                        pitch <= 8192,
                        height <= 8192,
                        format.block_width <= 4,
                        format.block_height <= 4,
                ;
            }
            TextureExtent {
                pitch: block_pitch_h * format.block_width,
                height: block_pitch_v * format.block_height,
                block_pitch_h,
                block_pitch_v,
                depth,
            }
        } else {
            proof {
                assert(block_pitch_h0 * format.block_width as int <= 8195 * 4 && block_pitch_v0
                    * format.block_height as int <= 8195 * 4) by (nonlinear_arith)
                    requires
                        0 <= block_pitch_h0 <= 8195,
                        0 <= block_pitch_v0 <= 8195,
                        format.block_width <= 4,
                        format.block_height <= 4,
                ;
            }
            TextureExtent {
                pitch: block_pitch_h0 * format.block_width,
                height: block_pitch_v0 * format.block_height,
                block_pitch_h: block_pitch_h0,
                block_pitch_v: block_pitch_v0,
                depth,
            }
        }
    }
}

impl TextureInfo {
    /// Pixel dimensions of a mip level, floored at one.
    pub fn get_mip_size(&self, mip: u32) -> (r: (u32, u32))
        requires
            self.wf(),
            mip <= 31,
        ensures
            r.0 == spec_mip_size(*self, mip as int).0,
            r.1 == spec_mip_size(*self, mip as int).1,
    {
        let d = pow2_u32(mip);
        let w = self.width / d;
        let h = self.height / d;
        (
            if w == 0 {
                1
            } else {
                w
            },
            if h == 0 {
                1
            } else {
                h
            },
        )
    }

    /// The tile-aligned extent of one mip level; see `spec_mip_extent`.
    pub fn get_mip_extent(&self, mip: u32, is_guest: bool) -> (r: TextureExtent)
        requires
            self.wf(),
            mip <= 31,
        ensures
            r == spec_mip_extent(*self, mip as int, is_guest),
    {
        if mip == 0 {
            return TextureExtent::calculate(
                &self.format,
                self.pitch,
                self.height,
                self.depth,
                self.tiled,
                true,
            );
        }
        proof {
            lemma2_to64();
            lemma_next_pow2_within(self.width as nat, 13);
            lemma_next_pow2_within(self.height as nat, 13);
        }
        let mip_width: u32;
        let mip_height: u32;
        if is_guest {
            let wp2 = next_pow2(self.width);
            let hp2 = next_pow2(self.height);
            let d = pow2_u32(mip);
            mip_width = wp2 / d;
            mip_height = hp2 / d;
            proof {
                assert(wp2 / d <= wp2 && hp2 / d <= hp2) by (nonlinear_arith)
                    requires
                        1 <= d,
                        0 <= wp2,
                        0 <= hp2,
                ;
            }
        } else {
            let d = pow2_u32(mip);
            let w = self.width / d;
            let h = self.height / d;
            proof {
                assert(self.width as int / d as int <= self.width && self.height as int / d as int
                    <= self.height) by (nonlinear_arith)
                    requires
                        1 <= d,
                        0 <= self.width,
                        0 <= self.height,
                ;
            }
            mip_width = if w == 0 {
                1
            } else {
                w
            };
            mip_height = if h == 0 {
                1
            } else {
                h
            };
        }
        TextureExtent::calculate(
            &self.format,
            mip_width,
            mip_height,
            self.depth,
            self.tiled,
            is_guest,
        )
    }

    /// Intra-tile placement for a packed-tile set of the given logical size;
    /// see `spec_packed_tile_offset0`.
    pub fn get_packed_tile_offset0(&self, width: u32, height: u32, packed_tile: u32) -> (r: (
        u32,
        u32,
        bool,
    ))
        requires
            self.format.wf(),
            packed_tile <= 31,
        ensures
            r.0 == spec_packed_tile_offset0(
                self.format,
                width as int,
                height as int,
                packed_tile as int,
            ).0,
            r.1 == spec_packed_tile_offset0(
                self.format,
                width as int,
                height as int,
                packed_tile as int,
            ).1,
            r.2 == spec_packed_tile_offset0(
                self.format,
                width as int,
                height as int,
                packed_tile as int,
            ).2,
    {
        proof {
            lemma_format_data_ranges(self.format);
        }
        let log2_width = log2_ceil(width);
        let log2_height = log2_ceil(height);
        let smaller = if log2_width < log2_height {
            log2_width
        } else {
            log2_height
        };
        if smaller > 4 {
            // Too big; not packed.
            return (0, 0, false);
        }
        let offset_x: u32;
        let offset_y: u32;
        if packed_tile < 3 {
            if log2_width > log2_height {
                // Wider than tall: laid out vertically.
                offset_x = 0;
                offset_y = 16 / pow2_u32(packed_tile);
            } else {
                // Taller than wide: laid out horizontally.
                offset_x = 16 / pow2_u32(packed_tile);
                offset_y = 0;
            }
        } else {
            if log2_width > log2_height {
                offset_x = 16 / pow2_u32(packed_tile - 2);
                offset_y = 0;
            } else {
                offset_x = 0;
                offset_y = 16 / pow2_u32(packed_tile - 2);
            }
        }
        (offset_x / self.format.block_width, offset_y / self.format.block_height, true)
    }

    /// Intra-tile placement for this texture's own packed-tile set; see
    /// `spec_packed_tile_offset`.
    pub fn get_packed_tile_offset(&self, packed_tile: u32) -> (r: (u32, u32, bool))
        requires
            self.wf(),
            packed_tile <= 31,
        ensures
            r.0 == spec_packed_tile_offset(*self, packed_tile as int).0,
            r.1 == spec_packed_tile_offset(*self, packed_tile as int).1,
            r.2 == spec_packed_tile_offset(*self, packed_tile as int).2,
    {
        if !self.packed_mips {
            return (0, 0, false);
        }
        let wp2 = next_pow2(self.width);
        let hp2 = next_pow2(self.height);
        self.get_packed_tile_offset0(wp2, hp2, packed_tile)
    }

    /// Where a mip lives: `(byte offset, block offset x, block offset y)`;
    /// see `spec_mip_location`.
    #[verifier::loop_isolation(false)]
    pub fn get_mip_location(&self, mip: u32, is_guest: bool) -> (r: (u32, u32, u32))
        requires
            self.wf(),
            mip <= 31,
            spec_mip_location(*self, mip as int, is_guest).0 <= u32::MAX,
        ensures
            r.0 == spec_mip_location(*self, mip as int, is_guest).0,
            r.1 == spec_mip_location(*self, mip as int, is_guest).1,
            r.2 == spec_mip_location(*self, mip as int, is_guest).2,
    {
        if mip == 0 {
            // Mip zero always lives at the base address.
            if !self.packed_mips {
                return (self.base_address, 0, 0);
            }
            let t = self.get_packed_tile_offset(0);
            return (self.base_address, t.0, t.1);
        }
        if self.mip_address == 0 {
            // There is no mip data.
            return (0, 0, 0);
        }
        let bytes_per_block = self.format.bytes_per_block;
        if !self.packed_mips {
            let mut address_offset: u32 = 0;
            let mut i: u32 = 1;
            while i < mip
                invariant
                    1 <= i <= mip,
                    spec_unpacked_acc(*self, mip as int, 1, is_guest) == address_offset
                        + spec_unpacked_acc(*self, mip as int, i as int, is_guest),
                decreases mip - i,
            {
                proof {
                    lemma_extent_bytes_bounds(*self, i as int, is_guest);
                    lemma_unpacked_acc_nonneg(*self, mip as int, i as int + 1, is_guest);
                }
                let extent = self.get_mip_extent(i, is_guest);
                let blocks = extent.all_blocks();
                address_offset = address_offset + blocks * bytes_per_block;
                i = i + 1;
            }
            return (self.mip_address + address_offset, 0, 0);
        }
        let width_pow2 = next_pow2(self.width);
        let height_pow2 = next_pow2(self.height);
        // Walk forward to the level where the mips pack into a single tile.
        let mut address_offset: u32 = 0;
        let mut i: u32 = 1;
        let mut walking: u32 = 1;
        while i < mip && walking == 1
            invariant
                1 <= i <= mip,
                walking <= 1,
                walking == 1 ==> spec_packed_walk_acc(*self, mip as int, 1, is_guest)
                    == address_offset + spec_packed_walk_acc(*self, mip as int, i as int, is_guest),
                walking == 1 ==> spec_packed_base(*self, mip as int, 1) == spec_packed_base(
                    *self,
                    mip as int,
                    i as int,
                ),
                walking == 0 ==> address_offset == spec_packed_walk_acc(
                    *self,
                    mip as int,
                    1,
                    is_guest,
                ),
                walking == 0 ==> i == spec_packed_base(*self, mip as int, 1),
            decreases mip - i, walking,
        {
            let d = pow2_u32(i);
            let mw0 = width_pow2 / d;
            let mh0 = height_pow2 / d;
            let mip_width = if mw0 == 0 {
                1
            } else {
                mw0
            };
            let mip_height = if mh0 == 0 {
                1
            } else {
                mh0
            };
            let smaller = if mip_width < mip_height {
                mip_width
            } else {
                mip_height
            };
            if smaller <= 16 {
                // The remaining mips share a single tile.
                walking = 0;
                continue;
            }
            proof {
                assert(!spec_threshold(*self, i as int));
                lemma_extent_bytes_bounds(*self, i as int, is_guest);
                lemma_packed_walk_acc_nonneg(*self, mip as int, i as int + 1, is_guest);
            }
            let extent = self.get_mip_extent(i, is_guest);
            let blocks = extent.all_blocks();
            address_offset = address_offset + blocks * bytes_per_block;
            i = i + 1;
        }
        proof {
            if walking == 1 {
                assert(spec_packed_walk_acc(*self, mip as int, i as int, is_guest) == 0);
            }
        }
        // Check whether the mip sits at an offset inside the shared tile.
        let d = pow2_u32(mip);
        let t = self.get_packed_tile_offset0(width_pow2 / d, height_pow2 / d, mip - i);
        (self.mip_address + address_offset, t.0, t.1)
    }
}


} // verus!
