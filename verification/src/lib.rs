use vstd::prelude::*;

pub mod format;
pub mod math;
pub mod mip_map;
pub mod tile;

verus! {

use vstd::arithmetic::power2::pow2;
use crate::format::Format;
use crate::format::FormatData;
use crate::format::spec_format_data;
use crate::format::lemma_format_data_ranges;
use crate::math::spec_log2_ceil;
use crate::math::spec_next_pow2;
use crate::mip_map::TextureInfo;
use crate::mip_map::spec_max1;
use crate::mip_map::spec_mip_size;
use crate::mip_map::spec_mip_location;
use crate::mip_map::spec_packed_base;
use crate::mip_map::spec_packed_walk_acc;
use crate::mip_map::spec_unpacked_acc;
use vstd::arithmetic::div_mod::lemma_mod_multiples_basic;
use vstd::arithmetic::div_mod::lemma_add_mod_noop;
use crate::mip_map::spec_packed_tile_offset0;
use crate::format::get_format_data;
use crate::tile::spec_block_addr;
use crate::tile::spec_blocks_fit;
use crate::tile::spec_linear;
use crate::tile::spec_swap;
use crate::tile::untile;
use crate::tile::tile;

/// Everything a conversion needs to know about a texture.
///
/// `base_address` and `mip_address` are GPU addresses in tile units; the
/// converter multiplies each by 4096 to recover a byte offset. A
/// `mip_address` of zero means there is no separate mip region.
#[derive(Debug, Copy, Clone)]
pub struct Config {
    pub width: u32,
    pub height: u32,
    pub depth: Option<u32>,
    pub pitch: u32,
    pub tiled: bool,
    pub packed_mips: bool,
    pub format: Format,
    pub mipmap_levels: Option<u32>,
    pub base_address: u32,
    pub mip_address: u32,
}

/// The ways a conversion can fail.
#[derive(Debug, Copy, Clone, PartialEq, Eq, Structural)]
pub enum Error {
    /// The provided image is not DXT1 or DXT5 encoded.
    UnsupportedFormat,
    /// The provided image's width disagrees with the configuration.
    WidthMismatch,
    /// The provided image's height disagrees with the configuration.
    HeightMismatch,
    /// The provided image's depth disagrees with the configuration.
    DepthMismatch,
    /// The provided image's mip level count disagrees with the configuration.
    MipCountMismatch,
    /// The provided payload does not hold exactly the expected number of bytes.
    SizeMismatch,
    /// A read of guest data would fall outside the source buffer.
    SourceTooSmall,
    /// A write of guest data would fall outside the destination buffer.
    GuestBufferTooSmall,
    /// A block write landed on bytes that were already written.
    Overwrite,
}

/// A parsed image: the plain fields of a DDS container together with its
/// payload, the concatenation of the mips in row-major block order.
#[derive(Debug, Clone)]
pub struct DdsImage {
    pub format: Option<Format>,
    pub width: u32,
    pub height: u32,
    pub depth: u32,
    pub mipmap_levels: u32,
    pub data: Vec<u8>,
}

impl Config {
    /// Dimensions in range, addresses within their 20 bits, and a mip count
    /// small enough that every shift in the address math stays in a word.
    pub open spec fn wf(self) -> bool {
        &&& 1 <= self.width <= 8192
        &&& 1 <= self.height <= 8192
        &&& self.pitch <= 8192
        &&& match self.depth {
            Some(d) => 1 <= d <= 8,
            None => true,
        }
        &&& match self.mipmap_levels {
            Some(m) => 1 <= m <= 32,
            None => true,
        }
        &&& self.base_address < 0x100000
        &&& self.mip_address < 0x100000
    }

    /// The mip count a conversion walks: the configured one, or one.
    pub open spec fn spec_levels(self) -> int {
        match self.mipmap_levels {
            Some(m) => m as int,
            None => 1,
        }
    }
}

/// The `TextureInfo` that a configuration and its format descriptor induce.
pub open spec fn spec_texture_info(config: Config, format_data: FormatData) -> TextureInfo {
    TextureInfo {
        width: config.width,
        height: config.height,
        depth: match config.depth {
            Some(d) => d,
            None => 1,
        },
        pitch: config.pitch,
        tiled: config.tiled,
        packed_mips: config.packed_mips,
        format: format_data,
        base_address: (config.base_address * 4096) as u32,
        mip_address: (config.mip_address * 4096) as u32,
    }
}

/// Project a configuration onto the record the address math works with,
/// turning the tile-unit addresses into byte offsets.
pub fn build_texture_info(config: &Config, format_data: &FormatData) -> (r: TextureInfo)
    requires
        config.wf(),
        format_data.wf(),
    ensures
        r == spec_texture_info(*config, *format_data),
        r.wf(),
{
    TextureInfo {
        width: config.width,
        height: config.height,
        depth: match config.depth {
            Some(d) => d,
            None => 1,
        },
        pitch: config.pitch,
        tiled: config.tiled,
        packed_mips: config.packed_mips,
        format: *format_data,
        base_address: config.base_address * 4096,
        mip_address: config.mip_address * 4096,
    }
}

/// What validation of a provided image against the configuration returns:
/// the first mismatch, in the order the checks are made.
pub open spec fn spec_validate(dds: DdsImage, info: TextureInfo, mipmap_levels: u32) -> Result<
    (),
    Error,
> {
    if dds.format != Some(Format::Dxt1) && dds.format != Some(Format::Dxt5) {
        Err(Error::UnsupportedFormat)
    } else if dds.width != info.width {
        Err(Error::WidthMismatch)
    } else if dds.height != info.height {
        Err(Error::HeightMismatch)
    } else if dds.depth != info.depth {
        Err(Error::DepthMismatch)
    } else if dds.mipmap_levels != mipmap_levels {
        Err(Error::MipCountMismatch)
    } else {
        Ok(())
    }
}

/// Check that a provided image matches the configuration: DXT1 or DXT5 only,
/// and width, height, depth and mip count all as configured.
pub fn validate_provided_dds(dds: &DdsImage, info: &TextureInfo, mipmap_levels: u32) -> (r: Result<
    (),
    Error,
>)
    ensures
        r == spec_validate(*dds, *info, mipmap_levels),
{
    let format_ok = match dds.format {
        Some(Format::Dxt1) => true,
        Some(Format::Dxt5) => true,
        _ => false,
    };
    if !format_ok {
        return Err(Error::UnsupportedFormat);
    }
    if dds.width != info.width {
        return Err(Error::WidthMismatch);
    }
    if dds.height != info.height {
        return Err(Error::HeightMismatch);
    }
    if dds.depth != info.depth {
        return Err(Error::DepthMismatch);
    }
    if dds.mipmap_levels != mipmap_levels {
        return Err(Error::MipCountMismatch);
    }
    Ok(())
}


/// The record the conversion works on, as induced by a configuration.
pub open spec fn spec_info(config: Config) -> TextureInfo {
    spec_texture_info(config, spec_format_data(config.format))
}

/// Every mip's byte offset stays within a machine word.
pub open spec fn spec_locations_fit(info: TextureInfo, levels: int) -> bool {
    forall|m: int| 0 <= m < levels ==> (#[trigger] spec_mip_location(info, m, true)).0 <= u32::MAX
}

/// Blocks across one row of a mip, as the host payload stores it.
pub open spec fn spec_mip_blocks_x(info: TextureInfo, mip: int) -> int {
    spec_max1(spec_mip_size(info, mip).0 / info.format.block_width as int)
}

/// Block rows of a mip, as the host payload stores it.
pub open spec fn spec_mip_blocks_y(info: TextureInfo, mip: int) -> int {
    spec_max1(spec_mip_size(info, mip).1 / info.format.block_height as int)
}

/// Bytes of one mip in the host payload.
pub open spec fn spec_mip_linear_bytes(info: TextureInfo, mip: int) -> int {
    spec_mip_blocks_x(info, mip) * spec_mip_blocks_y(info, mip) * info.format.bytes_per_block
}

/// Bytes of the first `levels` mips in the host payload: the sum of each
/// mip's row-major block run.
pub open spec fn spec_payload_size(info: TextureInfo, levels: int) -> int
    decreases levels,
{
    if levels <= 0 {
        0
    } else {
        spec_payload_size(info, levels - 1) + spec_mip_linear_bytes(info, levels - 1)
    }
}

/// The guest byte address of block `(x, y)` of a mip: the mip's base plus
/// the tiled offset from the mip's intra-tile origin.
pub open spec fn spec_abs_addr(info: TextureInfo, mip: int, x: int, y: int) -> int {
    spec_mip_location(info, mip, true).0 + spec_block_addr(
        info.format,
        spec_mip_blocks_x(info, mip),
        spec_mip_location(info, mip, true).1,
        spec_mip_location(info, mip, true).2,
        x,
        y,
    )
}

/// Every block of every mip lies inside a guest buffer of length `len`.
pub open spec fn spec_guest_fits(info: TextureInfo, levels: int, len: int) -> bool {
    forall|m: int, x: int, y: int|
        0 <= m < levels && 0 <= x < spec_mip_blocks_x(info, m) && 0 <= y < spec_mip_blocks_y(
            info,
            m,
        ) ==> #[trigger] spec_abs_addr(info, m, x, y) + info.format.bytes_per_block <= len
}

/// No two blocks of any mips share a guest address.
pub open spec fn spec_guest_distinct(info: TextureInfo, levels: int) -> bool {
    forall|m1: int, x1: int, y1: int, m2: int, x2: int, y2: int|
        0 <= m1 < levels && 0 <= x1 < spec_mip_blocks_x(info, m1) && 0 <= y1 < spec_mip_blocks_y(
            info,
            m1,
        ) && 0 <= m2 < levels && 0 <= x2 < spec_mip_blocks_x(info, m2) && 0 <= y2
            < spec_mip_blocks_y(info, m2) && (m1 != m2 || x1 != x2 || y1 != y2)
            ==> #[trigger] spec_abs_addr(info, m1, x1, y1) != #[trigger] spec_abs_addr(
            info,
            m2,
            x2,
            y2,
        )
}

/// A guest layout is lossless when every block fits in the guest buffer and
/// no two blocks collide.
pub open spec fn spec_guest_lossless(info: TextureInfo, levels: int, len: int) -> bool {
    spec_guest_fits(info, levels, len) && spec_guest_distinct(info, levels)
}

/// The host payload `p` and the guest buffer `g` hold the same texture:
/// byte `j` of each block of each mip of `p` is byte `swap(j)` of the block
/// at the guest address, and vice versa.
pub open spec fn spec_payload_matches(
    info: TextureInfo,
    levels: int,
    p: Seq<u8>,
    g: Seq<u8>,
) -> bool {
    forall|m: int, x: int, y: int, j: int|
        0 <= m < levels && 0 <= x < spec_mip_blocks_x(info, m) && 0 <= y < spec_mip_blocks_y(
            info,
            m,
        ) && 0 <= j < info.format.bytes_per_block ==> p[spec_payload_size(info, m)
            + #[trigger] spec_linear(
            spec_mip_blocks_x(info, m),
            info.format.bytes_per_block as int,
            x,
            y,
            j,
        )] == g[spec_abs_addr(info, m, x, y) + spec_swap(j)]
}

/// Block-count and byte-size bounds for one mip of the host payload.
pub proof fn lemma_mip_geometry(info: TextureInfo, mip: int)
    requires
        info.wf(),
        0 <= mip <= 31,
    ensures
        1 <= spec_mip_blocks_x(info, mip) <= 8192,
        1 <= spec_mip_blocks_y(info, mip) <= 8192,
        spec_mip_blocks_x(info, mip) * spec_mip_blocks_y(info, mip)
            * info.format.bytes_per_block == spec_mip_linear_bytes(info, mip),
        0 < spec_mip_linear_bytes(info, mip) <= 0x1000_0000,
        mip >= 1 ==> spec_mip_linear_bytes(info, mip) <= 0x400_0000,
        spec_mip_blocks_x(info, mip) * spec_mip_blocks_y(info, mip) <= 0x400_0000,
{
    lemma_format_data_ranges(info.format);
    vstd::arithmetic::power2::lemma_pow2_pos(mip as nat);
    let p = pow2(mip as nat) as int;
    assert(p >= 1);
    assert(mip >= 1 ==> p >= 2) by {
        if mip > 1 {
            vstd::arithmetic::power2::lemma_pow2_strictly_increases(1, mip as nat);
        }
        vstd::arithmetic::power2::lemma2_to64();
    }
    let w = spec_mip_size(info, mip).0;
    let h = spec_mip_size(info, mip).1;
    assert(0 <= info.width as int / p <= 8192 && (p >= 2 ==> info.width as int / p <= 4096)) by (
    nonlinear_arith)
        requires
            1 <= p,
            1 <= info.width <= 8192,
    ;
    assert(0 <= info.height as int / p <= 8192 && (p >= 2 ==> info.height as int / p <= 4096)) by (
    nonlinear_arith)
        requires
            1 <= p,
            1 <= info.height <= 8192,
    ;
    assert(1 <= w <= 8192 && 1 <= h <= 8192);
    let bw = info.format.block_width as int;
    let bh = info.format.block_height as int;
    let bpb = info.format.bytes_per_block as int;
    let bxs = spec_mip_blocks_x(info, mip);
    let bys = spec_mip_blocks_y(info, mip);
    assert(0 <= w / bw <= w && 0 <= h / bh <= h) by (nonlinear_arith)
        requires
            1 <= bw,
            1 <= bh,
            0 <= w,
            0 <= h,
    ;
    assert(1 <= bxs <= w && 1 <= bys <= h);
    if bw == 1 {
        assert(bpb == 4);
        assert(bxs * bys * bpb <= 8192 * 8192 * 4 && bxs * bys <= 8192 * 8192 && 0 < bxs * bys
            * bpb && (mip >= 1 ==> bxs * bys * bpb <= 4096 * 4096 * 4)) by (nonlinear_arith)
            requires
                1 <= bxs <= w,
                1 <= bys <= h,
                w <= 8192,
                h <= 8192,
                bpb == 4,
                mip >= 1 ==> w <= 4096 && h <= 4096,
        ;
    } else {
        assert(bw == 4);
        assert(bxs <= 2048 && bys <= 2048) by (nonlinear_arith)
            requires
                bxs == spec_max1(w / 4),
                bys == spec_max1(h / 4),
                1 <= w <= 8192,
                1 <= h <= 8192,
        ;
        assert(mip >= 1 ==> bxs <= 1024 && bys <= 1024) by (nonlinear_arith)
            requires
                bxs == spec_max1(w / 4),
                bys == spec_max1(h / 4),
                1 <= w,
                1 <= h,
                mip >= 1 ==> w <= 4096 && h <= 4096,
        ;
        assert(bxs * bys * bpb <= 2048 * 2048 * 16 && bxs * bys <= 2048 * 2048 && 0 < bxs * bys
            * bpb && (mip >= 1 ==> bxs * bys * bpb <= 1024 * 1024 * 16)) by (nonlinear_arith)
            requires
                1 <= bxs <= 2048,
                1 <= bys <= 2048,
                4 <= bpb <= 16,
                mip >= 1 ==> bxs <= 1024 && bys <= 1024,
        ;
    }
}

/// The host payload of up to 32 mips always fits comfortably in memory.
pub proof fn lemma_payload_bounds(info: TextureInfo, levels: int)
    requires
        info.wf(),
        0 <= levels <= 32,
    ensures
        0 <= spec_payload_size(info, levels),
        levels == 0 ==> spec_payload_size(info, levels) == 0,
        levels >= 1 ==> spec_payload_size(info, levels) <= 0x1000_0000 + (levels - 1) * 0x400_0000,
        spec_payload_size(info, levels) <= 0x9000_0000,
    decreases levels,
{
    if levels > 0 {
        lemma_payload_bounds(info, levels - 1);
        lemma_mip_geometry(info, levels - 1);
    }
}

/// A shorter prefix of the mip chain never holds more bytes.
pub proof fn lemma_payload_monotone(info: TextureInfo, a: int, b: int)
    requires
        info.wf(),
        0 <= a <= b <= 32,
    ensures
        spec_payload_size(info, a) <= spec_payload_size(info, b),
    decreases b - a,
{
    if a < b {
        lemma_payload_monotone(info, a, b - 1);
        lemma_mip_geometry(info, b - 1);
    }
}

/// The intra-tile pixel offsets are at most sixteen, so the block offsets
/// are too.
pub proof fn lemma_packed_offset_bounds(format: FormatData, width: int, height: int, t: int)
    requires
        format.wf(),
    ensures
        0 <= spec_packed_tile_offset0(format, width, height, t).0 <= 16,
        0 <= spec_packed_tile_offset0(format, width, height, t).1 <= 16,
{
    lemma_format_data_ranges(format);
    let r = spec_packed_tile_offset0(format, width, height, t);
    let bw = format.block_width as int;
    let bh = format.block_height as int;
    let q1 = pow2(t as nat) as int;
    let q2 = pow2((t - 2) as nat) as int;
    vstd::arithmetic::power2::lemma_pow2_pos(t as nat);
    vstd::arithmetic::power2::lemma_pow2_pos((t - 2) as nat);
    assert(0 <= 16int / q1 <= 16 && 0 <= 16int / q2 <= 16) by (nonlinear_arith)
        requires
            1 <= q1,
            1 <= q2,
    ;
    if r.2 {
        let p = if t < 3 {
            if (if width == 0 {
                32int
            } else {
                spec_log2_ceil(width as nat) as int
            }) > (if height == 0 {
                32int
            } else {
                spec_log2_ceil(height as nat) as int
            }) {
                (0int, 16int / q1)
            } else {
                (16int / q1, 0int)
            }
        } else {
            if (if width == 0 {
                32int
            } else {
                spec_log2_ceil(width as nat) as int
            }) > (if height == 0 {
                32int
            } else {
                spec_log2_ceil(height as nat) as int
            }) {
                (16int / q2, 0int)
            } else {
                (0int, 16int / q2)
            }
        };
        assert(r.0 == p.0 / bw && r.1 == p.1 / bh);
        assert(0 <= p.0 / bw <= 16 && 0 <= p.1 / bh <= 16) by (nonlinear_arith)
            requires
                0 <= p.0 <= 16,
                0 <= p.1 <= 16,
                1 <= bw,
                1 <= bh,
        ;
    }
}

/// A mip's intra-tile block offsets are small and never negative.
pub proof fn lemma_location_offset_bounds(info: TextureInfo, mip: int, is_guest: bool)
    requires
        info.wf(),
        0 <= mip <= 31,
    ensures
        0 <= spec_mip_location(info, mip, is_guest).1 <= 16,
        0 <= spec_mip_location(info, mip, is_guest).2 <= 16,
{
    if mip == 0 {
        if info.packed_mips {
            lemma_packed_offset_bounds(
                info.format,
                spec_next_pow2(info.width as nat) as int,
                spec_next_pow2(info.height as nat) as int,
                0,
            );
        }
    } else if info.mip_address != 0 && info.packed_mips {
        let base = spec_packed_base(info, mip, 1);
        lemma_packed_offset_bounds(
            info.format,
            spec_next_pow2(info.width as nat) as int / pow2(mip as nat) as int,
            spec_next_pow2(info.height as nat) as int / pow2(mip as nat) as int,
            mip - base,
        );
    }
}


/// If every block of every mip fits, so does every block of one mip.
proof fn lemma_guest_fits_mip(info: TextureInfo, levels: int, mip: int, len: int)
    requires
        spec_guest_fits(info, levels, len),
        0 <= mip < levels,
    ensures
        spec_blocks_fit(
            info.format,
            spec_mip_blocks_x(info, mip),
            spec_mip_blocks_y(info, mip),
            spec_mip_location(info, mip, true).1,
            spec_mip_location(info, mip, true).2,
            spec_mip_location(info, mip, true).0,
            len,
        ),
{
    let loc = spec_mip_location(info, mip, true);
    let bxs = spec_mip_blocks_x(info, mip);
    let bys = spec_mip_blocks_y(info, mip);
    assert forall|x: int, y: int| 0 <= x < bxs && 0 <= y < bys implies loc.0
        + #[trigger] spec_block_addr(info.format, bxs, loc.1, loc.2, x, y)
        + info.format.bytes_per_block <= len by {
        assert(spec_abs_addr(info, mip, x, y) + info.format.bytes_per_block <= len);
    }
}

/// The other direction: if one mip's blocks fit, the mips seen so far fit.
proof fn lemma_guest_fits_extend(info: TextureInfo, mip: int, len: int)
    requires
        spec_guest_fits(info, mip, len),
        spec_blocks_fit(
            info.format,
            spec_mip_blocks_x(info, mip),
            spec_mip_blocks_y(info, mip),
            spec_mip_location(info, mip, true).1,
            spec_mip_location(info, mip, true).2,
            spec_mip_location(info, mip, true).0,
            len,
        ),
    ensures
        spec_guest_fits(info, mip + 1, len),
{
    let loc = spec_mip_location(info, mip, true);
    assert forall|mm: int, x: int, y: int|
        0 <= mm < mip + 1 && 0 <= x < spec_mip_blocks_x(info, mm) && 0 <= y < spec_mip_blocks_y(
            info,
            mm,
        ) implies #[trigger] spec_abs_addr(info, mm, x, y) + info.format.bytes_per_block <= len by {
        if mm == mip {
            assert(loc.0 + spec_block_addr(
                info.format,
                spec_mip_blocks_x(info, mip),
                loc.1,
                loc.2,
                x,
                y,
            ) + info.format.bytes_per_block <= len);
        }
    }
}

/// Reading one more mip out of the guest buffer extends the match to that
/// mip and keeps the rest of the payload unwritten.
#[verifier::rlimit(100)]
proof fn to_dds_step(
    info: TextureInfo,
    mip: int,
    before: Seq<u8>,
    after: Seq<u8>,
    src: Seq<u8>,
    output_offset: int,
    expected: int,
)
    requires
        info.wf(),
        0 <= mip <= 31,
        output_offset == spec_payload_size(info, mip),
        output_offset + spec_mip_linear_bytes(info, mip) <= expected,
        expected <= after.len(),
        after.len() == before.len(),
        spec_payload_matches(info, mip, before, src),
        forall|k: int| output_offset <= k < expected ==> before[k] == 0,
        crate::tile::spec_untiled(
            after,
            src,
            output_offset,
            spec_mip_location(info, mip, true).0,
            info.format,
            spec_mip_blocks_x(info, mip),
            spec_mip_blocks_y(info, mip),
            spec_mip_location(info, mip, true).1,
            spec_mip_location(info, mip, true).2,
        ),
        forall|k: int|
            0 <= k < after.len() && !(output_offset <= k < output_offset + spec_mip_linear_bytes(
                info,
                mip,
            )) ==> after[k] == before[k],
    ensures
        spec_payload_matches(info, mip + 1, after, src),
        forall|k: int|
            output_offset + spec_mip_linear_bytes(info, mip) <= k < expected ==> after[k] == 0,
{
    let loc = spec_mip_location(info, mip, true);
    let bpb = info.format.bytes_per_block as int;
    lemma_mip_geometry(info, mip);
    lemma_payload_bounds(info, mip);
    assert forall|mm: int, x: int, y: int, j: int|
        0 <= mm < mip + 1 && 0 <= x < spec_mip_blocks_x(info, mm) && 0 <= y < spec_mip_blocks_y(
            info,
            mm,
        ) && 0 <= j < info.format.bytes_per_block implies after[spec_payload_size(info, mm)
        + #[trigger] spec_linear(
        spec_mip_blocks_x(info, mm),
        info.format.bytes_per_block as int,
        x,
        y,
        j,
    )] == src[spec_abs_addr(info, mm, x, y) + spec_swap(j)] by {
        if mm < mip {
            lemma_mip_geometry(info, mm);
            crate::tile::lemma_linear_bound(
                spec_mip_blocks_x(info, mm),
                spec_mip_blocks_y(info, mm),
                bpb,
                x,
                y,
                j,
            );
            lemma_payload_bounds(info, mm);
            lemma_payload_monotone(info, mm + 1, mip);
            let pos = spec_payload_size(info, mm) + spec_linear(
                spec_mip_blocks_x(info, mm),
                bpb,
                x,
                y,
                j,
            );
            assert(pos < spec_payload_size(info, mm + 1));
            assert(pos < output_offset);
            assert(after[pos] == before[pos]);
        } else {
            assert(after[output_offset + spec_linear(
                spec_mip_blocks_x(info, mip),
                bpb,
                x,
                y,
                j,
            )] == src[loc.0 + spec_block_addr(
                info.format,
                spec_mip_blocks_x(info, mip),
                loc.1,
                loc.2,
                x,
                y,
            ) + spec_swap(j)]);
        }
    }
    assert forall|k: int|
        output_offset + spec_mip_linear_bytes(info, mip) <= k < expected implies after[k] == 0 by {
        assert(after[k] == before[k]);
    }
}

/// Sums of whole extents are multiples of the block byte width.
#[verifier::rlimit(100)]
proof fn lemma_unpacked_acc_aligned(info: TextureInfo, mip: int, i: int, is_guest: bool)
    requires
        info.wf(),
        1 <= i,
        mip <= 32,
    ensures
        spec_unpacked_acc(info, mip, i, is_guest) % (info.format.bytes_per_block as int) == 0,
    decreases mip - i,
{
    let bpb = info.format.bytes_per_block as int;
    lemma_format_data_ranges(info.format);
    if i < mip {
        lemma_unpacked_acc_aligned(info, mip, i + 1, is_guest);
        let blocks = crate::mip_map::spec_all_blocks(crate::mip_map::spec_mip_extent(info, i, is_guest));
        let rest = spec_unpacked_acc(info, mip, i + 1, is_guest);
        lemma_mod_multiples_basic(blocks, bpb);
        lemma_add_mod_noop(blocks * bpb, rest, bpb);
    }
}

/// See `lemma_unpacked_acc_aligned`; the packed walk stops early but sums
/// the same kind of terms.
#[verifier::rlimit(100)]
proof fn lemma_walk_acc_aligned(info: TextureInfo, mip: int, i: int, is_guest: bool)
    requires
        info.wf(),
        1 <= i,
        mip <= 32,
    ensures
        spec_packed_walk_acc(info, mip, i, is_guest) % (info.format.bytes_per_block as int) == 0,
    decreases mip - i,
{
    let bpb = info.format.bytes_per_block as int;
    lemma_format_data_ranges(info.format);
    if i < mip && !crate::mip_map::spec_threshold(info, i) {
        lemma_walk_acc_aligned(info, mip, i + 1, is_guest);
        let blocks = crate::mip_map::spec_all_blocks(crate::mip_map::spec_mip_extent(info, i, is_guest));
        let rest = spec_packed_walk_acc(info, mip, i + 1, is_guest);
        lemma_mod_multiples_basic(blocks, bpb);
        lemma_add_mod_noop(blocks * bpb, rest, bpb);
    }
}

/// Every mip's byte offset is a whole number of blocks, as the region bases
/// are multiples of 4096.
proof fn lemma_location_aligned(info: TextureInfo, mip: int, is_guest: bool)
    requires
        info.wf(),
        0 <= mip <= 31,
        info.base_address % 16 == 0,
        info.mip_address % 16 == 0,
    ensures
        spec_mip_location(info, mip, is_guest).0 % (info.format.bytes_per_block as int) == 0,
{
    let bpb = info.format.bytes_per_block as int;
    lemma_format_data_ranges(info.format);
    let ba = info.base_address as int;
    let ma = info.mip_address as int;
    assert(ba % bpb == 0 && ma % bpb == 0) by {
        lemma_mod_multiples_basic(ba / 16, bpb);
        lemma_mod_multiples_basic(ma / 16, bpb);
        assert(ba == 16 * (ba / 16) && ma == 16 * (ma / 16)) by (nonlinear_arith)
            requires
                ba % 16 == 0,
                ma % 16 == 0,
                0 <= ba,
                0 <= ma,
        ;
        assert(bpb == 4 || bpb == 8 || bpb == 16);
        let qa = ba / 16;
        let qb = ma / 16;
        assert(16 * qa == (4 * qa) * 4 && 16 * qa == (2 * qa) * 8 && 16 * qa == qa * 16 && 16 * qb
            == (4 * qb) * 4 && 16 * qb == (2 * qb) * 8 && 16 * qb == qb * 16) by (nonlinear_arith);
        if bpb == 4 {
            lemma_mod_multiples_basic(4 * qa, 4);
            lemma_mod_multiples_basic(4 * qb, 4);
        } else if bpb == 8 {
            lemma_mod_multiples_basic(2 * qa, 8);
            lemma_mod_multiples_basic(2 * qb, 8);
        } else {
            lemma_mod_multiples_basic(qa, 16);
            lemma_mod_multiples_basic(qb, 16);
        }
    }
    if mip == 0 {
    } else if info.mip_address == 0 {
    } else if !info.packed_mips {
        lemma_unpacked_acc_aligned(info, mip, 1, is_guest);
        let acc = spec_unpacked_acc(info, mip, 1, is_guest);
        lemma_add_mod_noop(ma, acc, bpb);
    } else {
        lemma_walk_acc_aligned(info, mip, 1, is_guest);
        let acc = spec_packed_walk_acc(info, mip, 1, is_guest);
        lemma_add_mod_noop(ma, acc, bpb);
    }
}

/// A guest block address is a whole number of blocks into the buffer.
proof fn lemma_abs_addr_aligned(info: TextureInfo, mip: int, x: int, y: int)
    requires
        info.wf(),
        0 <= mip <= 31,
        info.base_address % 16 == 0,
        info.mip_address % 16 == 0,
    ensures
        spec_abs_addr(info, mip, x, y) % (info.format.bytes_per_block as int) == 0,
{
    let bpb = info.format.bytes_per_block as int;
    let loc = spec_mip_location(info, mip, true);
    lemma_location_aligned(info, mip, true);
    crate::tile::lemma_block_addr_aligned(
        info.format,
        spec_mip_blocks_x(info, mip),
        loc.1,
        loc.2,
        x,
        y,
    );
    let ad = spec_block_addr(info.format, spec_mip_blocks_x(info, mip), loc.1, loc.2, x, y);
    lemma_add_mod_noop(loc.0, ad, bpb);
}

/// A guest block address is never negative.
proof fn lemma_abs_addr_nonneg(info: TextureInfo, mip: int, x: int, y: int)
    requires
        info.wf(),
        0 <= mip <= 31,
        0 <= x,
        0 <= y,
    ensures
        0 <= spec_abs_addr(info, mip, x, y),
{
    let loc = spec_mip_location(info, mip, true);
    lemma_location_offset_bounds(info, mip, true);
    lemma_mip_geometry(info, mip);
    crate::tile::lemma_block_addr_nonneg(
        info.format,
        spec_mip_blocks_x(info, mip),
        loc.1,
        loc.2,
        x,
        y,
    );
    if mip == 0 {
    } else if info.mip_address == 0 {
    } else if !info.packed_mips {
        crate::mip_map::lemma_unpacked_acc_nonneg(info, mip, 1, true);
    } else {
        crate::mip_map::lemma_packed_walk_acc_nonneg(info, mip, 1, true);
    }
}

/// A byte of one mip's block is outside the footprint of any other mip,
/// and outside the footprint of any other block of its own mip.
proof fn lemma_pos_outside_footprint(
    info: TextureInfo,
    levels: int,
    mip: int,
    m2: int,
    x2: int,
    y2: int,
    j2: int,
)
    requires
        info.wf(),
        0 <= mip < levels <= 32,
        0 <= m2 < levels,
        m2 != mip,
        0 <= x2 < spec_mip_blocks_x(info, m2),
        0 <= y2 < spec_mip_blocks_y(info, m2),
        0 <= j2 < info.format.bytes_per_block,
        info.base_address % 16 == 0,
        info.mip_address % 16 == 0,
        spec_guest_distinct(info, levels),
    ensures
        !crate::tile::spec_in_footprint(
            info.format,
            spec_mip_blocks_x(info, mip),
            spec_mip_blocks_y(info, mip),
            spec_mip_location(info, mip, true).1,
            spec_mip_location(info, mip, true).2,
            spec_mip_location(info, mip, true).0,
            spec_abs_addr(info, m2, x2, y2) + j2,
        ),
{
    reveal(crate::tile::spec_in_footprint);
    let bpb = info.format.bytes_per_block as int;
    let loc = spec_mip_location(info, mip, true);
    let bxs = spec_mip_blocks_x(info, mip);
    let bys = spec_mip_blocks_y(info, mip);
    let pos = spec_abs_addr(info, m2, x2, y2) + j2;
    lemma_format_data_ranges(info.format);
    if crate::tile::spec_in_footprint(info.format, bxs, bys, loc.1, loc.2, loc.0, pos) {
        let (x, y): (int, int) = choose|x: int, y: int|
            0 <= x < bxs && 0 <= y < bys && loc.0 + #[trigger] spec_block_addr(
                info.format,
                bxs,
                loc.1,
                loc.2,
                x,
                y,
            ) <= pos < loc.0 + spec_block_addr(info.format, bxs, loc.1, loc.2, x, y) + bpb;
        let a = spec_abs_addr(info, mip, x, y);
        let b = spec_abs_addr(info, m2, x2, y2);
        lemma_abs_addr_aligned(info, mip, x, y);
        lemma_abs_addr_aligned(info, m2, x2, y2);
        assert(a != b);
        crate::tile::lemma_aligned_disjoint(a, b, bpb);
        assert(false);
    }
}

/// Writing one more mip into the guest buffer extends the match to that mip
/// and keeps the other mips' blocks as they were.
#[verifier::rlimit(100)]
proof fn from_dds_step(
    info: TextureInfo,
    levels: int,
    mip: int,
    p: Seq<u8>,
    before: Seq<u8>,
    after: Seq<u8>,
    input_offset: int,
)
    requires
        info.wf(),
        0 <= mip < levels <= 32,
        info.base_address % 16 == 0,
        info.mip_address % 16 == 0,
        spec_guest_distinct(info, levels),
        input_offset == spec_payload_size(info, mip),
        after.len() == before.len(),
        spec_payload_matches(info, mip, p, before),
        forall|m2: int, x: int, y: int, j: int|
            mip <= m2 < levels && 0 <= x < spec_mip_blocks_x(info, m2) && 0 <= y
                < spec_mip_blocks_y(info, m2) && 0 <= j < info.format.bytes_per_block
                ==> #[trigger] before[spec_abs_addr(info, m2, x, y) + j] == 0,
        crate::tile::spec_tiled(
            after,
            p,
            spec_mip_location(info, mip, true).0,
            input_offset,
            info.format,
            spec_mip_blocks_x(info, mip),
            spec_mip_blocks_y(info, mip),
            spec_mip_location(info, mip, true).1,
            spec_mip_location(info, mip, true).2,
        ),
        forall|k: int|
            0 <= k < after.len() && !crate::tile::spec_in_footprint(
                info.format,
                spec_mip_blocks_x(info, mip),
                spec_mip_blocks_y(info, mip),
                spec_mip_location(info, mip, true).1,
                spec_mip_location(info, mip, true).2,
                spec_mip_location(info, mip, true).0,
                k,
            ) ==> #[trigger] after[k] == before[k],
        spec_guest_fits(info, levels, after.len() as int),
    ensures
        spec_payload_matches(info, mip + 1, p, after),
        forall|m2: int, x: int, y: int, j: int|
            mip + 1 <= m2 < levels && 0 <= x < spec_mip_blocks_x(info, m2) && 0 <= y
                < spec_mip_blocks_y(info, m2) && 0 <= j < info.format.bytes_per_block
                ==> #[trigger] after[spec_abs_addr(info, m2, x, y) + j] == 0,
{
    let bpb = info.format.bytes_per_block as int;
    let loc = spec_mip_location(info, mip, true);
    let bxs = spec_mip_blocks_x(info, mip);
    let bys = spec_mip_blocks_y(info, mip);
    lemma_format_data_ranges(info.format);
    lemma_mip_geometry(info, mip);
    assert forall|mm: int, x: int, y: int, j: int|
        0 <= mm < mip + 1 && 0 <= x < spec_mip_blocks_x(info, mm) && 0 <= y < spec_mip_blocks_y(
            info,
            mm,
        ) && 0 <= j < info.format.bytes_per_block implies p[spec_payload_size(info, mm)
        + #[trigger] spec_linear(
        spec_mip_blocks_x(info, mm),
        info.format.bytes_per_block as int,
        x,
        y,
        j,
    )] == after[spec_abs_addr(info, mm, x, y) + spec_swap(j)] by {
        if mm < mip {
            assert(0 <= spec_swap(j) < info.format.bytes_per_block);
            lemma_abs_addr_nonneg(info, mm, x, y);
            lemma_pos_outside_footprint(info, levels, mip, mm, x, y, spec_swap(j));
            assert(after[spec_abs_addr(info, mm, x, y) + spec_swap(j)] == before[spec_abs_addr(
                info,
                mm,
                x,
                y,
            ) + spec_swap(j)]);
        } else {
            assert(after[loc.0 + spec_block_addr(info.format, bxs, loc.1, loc.2, x, y)
                + spec_swap(j)] == p[input_offset + spec_linear(
                bxs,
                bpb,
                x,
                y,
                spec_swap(spec_swap(j)),
            )]);
            assert(spec_swap(spec_swap(j)) == j);
        }
    }
    assert forall|m2: int, x: int, y: int, j: int|
        mip + 1 <= m2 < levels && 0 <= x < spec_mip_blocks_x(info, m2) && 0 <= y
            < spec_mip_blocks_y(info, m2) && 0 <= j < info.format.bytes_per_block
        implies #[trigger] after[spec_abs_addr(info, m2, x, y) + j] == 0 by {
        lemma_abs_addr_nonneg(info, m2, x, y);
        lemma_pos_outside_footprint(info, levels, mip, m2, x, y, j);
        assert(after[spec_abs_addr(info, m2, x, y) + j] == before[spec_abs_addr(info, m2, x, y)
            + j]);
    }
}

/// A buffer of `n` unwritten (zero) bytes.
fn zero_vec(n: usize) -> (v: Vec<u8>)
    ensures
        v.len() == n,
        forall|i: int| 0 <= i < n ==> v@[i] == 0,
{
    let mut v: Vec<u8> = Vec::new();
    while v.len() < n
        invariant
            v.len() <= n,
            forall|i: int| 0 <= i < v.len() ==> v@[i] == 0,
        decreases n - v.len(),
    {
        v.push(0);
    }
    v
}

/// Read a guest texture into a DDS image: one linear, row-major run of
/// blocks per mip, byte pairs swapped back to little-endian order.
///
/// Succeeds exactly when every tiled block of every mip lies inside `src`;
/// the payload then holds, for each mip and block, the swapped bytes of the
/// block at its guest address. The payload's length is always the sum of
/// the mips' linear sizes.
#[verifier::loop_isolation(false)]
#[verifier::rlimit(100)]
pub fn convert_to_dds(config: &Config, src: &Vec<u8>) -> (r: Result<DdsImage, Error>)
    requires
        config.wf(),
        spec_locations_fit(spec_info(*config), config.spec_levels()),
    ensures
        r is Ok <==> spec_guest_fits(spec_info(*config), config.spec_levels(), src.len() as int),
        r is Err ==> r == Err::<DdsImage, Error>(Error::SourceTooSmall),
        r matches Ok(img) ==> img.format == Some(config.format) && img.width == config.width
            && img.height == config.height && img.depth == spec_info(*config).depth
            && img.mipmap_levels == config.spec_levels() && img.data.len() == spec_payload_size(
            spec_info(*config),
            config.spec_levels(),
        ) && spec_payload_matches(spec_info(*config), config.spec_levels(), img.data@, src@),
{
    let format_data = get_format_data(&config.format);
    let info = build_texture_info(config, &format_data);
    let levels: u32 = match config.mipmap_levels {
        Some(v) => v,
        None => 1,
    };
    proof {
        assert(info == spec_info(*config));
        assert(levels as int == config.spec_levels());
        lemma_payload_bounds(info, levels as int);
        lemma_format_data_ranges(info.format);
    }
    let mut expected: usize = 0;
    let mut m: u32 = 0;
    while m < levels
        invariant
            m <= levels,
            expected == spec_payload_size(info, m as int),
        decreases levels - m,
    {
        proof {
            lemma_mip_geometry(info, m as int);
            lemma_payload_bounds(info, m as int);
            lemma_payload_bounds(info, m as int + 1);
        }
        let (width, height) = info.get_mip_size(m);
        let bx0 = width / format_data.block_width;
        let blocks_x = if bx0 == 0 {
            1
        } else {
            bx0
        };
        let by0 = height / format_data.block_height;
        let blocks_y = if by0 == 0 {
            1
        } else {
            by0
        };
        expected = expected + (blocks_x * blocks_y * format_data.bytes_per_block) as usize;
        m = m + 1;
    }
    let mut data = zero_vec(expected);
    let mut output_offset: usize = 0;
    let mut mip: u32 = 0;
    while mip < levels
        invariant
            mip <= levels,
            output_offset == spec_payload_size(info, mip as int),
            data.len() == expected,
            spec_guest_fits(info, mip as int, src.len() as int),
            spec_payload_matches(info, mip as int, data@, src@),
            forall|k: int| output_offset <= k < expected ==> data@[k] == 0,
        decreases levels - mip,
    {
        proof {
            lemma_mip_geometry(info, mip as int);
            lemma_payload_bounds(info, mip as int);
            lemma_payload_bounds(info, mip as int + 1);
            lemma_payload_monotone(info, mip as int + 1, levels as int);
            lemma_location_offset_bounds(info, mip as int, true);
        }
        let loc = info.get_mip_location(mip, true);
        let (width, height) = info.get_mip_size(mip);
        let bx0 = width / format_data.block_width;
        let blocks_x = if bx0 == 0 {
            1
        } else {
            bx0
        };
        let by0 = height / format_data.block_height;
        let blocks_y = if by0 == 0 {
            1
        } else {
            by0
        };
        proof {
            assert(blocks_x == spec_mip_blocks_x(info, mip as int));
            assert(blocks_y == spec_mip_blocks_y(info, mip as int));
        }
        if src.len() < loc.0 as usize {
            proof {
                crate::tile::lemma_block_addr_nonneg(
                    info.format,
                    blocks_x as int,
                    loc.1 as int,
                    loc.2 as int,
                    0,
                    0,
                );
                assert(spec_abs_addr(info, mip as int, 0, 0) + info.format.bytes_per_block
                    > src.len());
                assert(!spec_guest_fits(info, levels as int, src.len() as int));
            }
            return Err(Error::SourceTooSmall);
        }
        let ghost before = data@;
        let res = untile(
            &mut data,
            output_offset,
            src,
            loc.0 as usize,
            &format_data,
            blocks_x,
            blocks_y,
            loc.1,
            loc.2,
        );
        match res {
            Err(_) => {
                proof {
                    if spec_guest_fits(info, levels as int, src.len() as int) {
                        lemma_guest_fits_mip(info, levels as int, mip as int, src.len() as int);
                        assert(false);
                    }
                }
                return Err(Error::SourceTooSmall);
            },
            Ok(n) => {
                proof {
                    lemma_guest_fits_extend(info, mip as int, src.len() as int);
                    to_dds_step(
                        info,
                        mip as int,
                        before,
                        data@,
                        src@,
                        output_offset as int,
                        expected as int,
                    );
                }
                output_offset = output_offset + n as usize;
                mip = mip + 1;
            },
        }
    }
    Ok(
        DdsImage {
            format: Some(config.format),
            width: config.width,
            height: config.height,
            depth: info.depth,
            mipmap_levels: levels,
            data,
        },
    )
}


/// If no two blocks of any mip collide, no two blocks of one mip collide.
proof fn lemma_guest_distinct_mip(info: TextureInfo, levels: int, mip: int)
    requires
        spec_guest_distinct(info, levels),
        0 <= mip < levels,
    ensures
        crate::tile::spec_addrs_distinct(
            info.format,
            spec_mip_blocks_x(info, mip),
            spec_mip_blocks_y(info, mip),
            spec_mip_location(info, mip, true).1,
            spec_mip_location(info, mip, true).2,
        ),
{
    reveal(crate::tile::spec_addrs_distinct);
    let loc = spec_mip_location(info, mip, true);
    let bxs = spec_mip_blocks_x(info, mip);
    let bys = spec_mip_blocks_y(info, mip);
    assert forall|x1: int, y1: int, x2: int, y2: int|
        0 <= x1 < bxs && 0 <= y1 < bys && 0 <= x2 < bxs && 0 <= y2 < bys && (x1 != x2 || y1
            != y2) implies #[trigger] spec_block_addr(info.format, bxs, loc.1, loc.2, x1, y1)
        != #[trigger] spec_block_addr(info.format, bxs, loc.1, loc.2, x2, y2) by {
        if spec_block_addr(info.format, bxs, loc.1, loc.2, x1, y1) == spec_block_addr(
            info.format,
            bxs,
            loc.1,
            loc.2,
            x2,
            y2,
        ) {
            assert(spec_abs_addr(info, mip, x1, y1) == spec_abs_addr(info, mip, x2, y2));
            assert(false);
        }
    }
}

/// Write a DDS image into a guest texture: each mip's linear, row-major run
/// of blocks is scattered to its tiled guest addresses, byte pairs swapped
/// into big-endian order.
///
/// The image must validate against the configuration and hold exactly the
/// expected payload; each mismatch reports its own error. For a lossless
/// guest layout the conversion succeeds and the guest buffer holds, for
/// each mip and block, the swapped bytes of the block's payload run.
#[verifier::loop_isolation(false)]
#[verifier::rlimit(100)]
pub fn convert_from_dds(config: &Config, dds: &DdsImage) -> (r: Result<Vec<u8>, Error>)
    requires
        config.wf(),
        spec_locations_fit(spec_info(*config), config.spec_levels()),
    ensures
        spec_validate(*dds, spec_info(*config), config.spec_levels() as u32) matches Err(e) ==> r
            == Err::<Vec<u8>, Error>(e),
        spec_validate(*dds, spec_info(*config), config.spec_levels() as u32) is Ok
            && dds.data.len() != spec_payload_size(spec_info(*config), config.spec_levels()) ==> r
            == Err::<Vec<u8>, Error>(Error::SizeMismatch),
        r matches Ok(g) ==> g.len() == spec_payload_size(spec_info(*config), config.spec_levels()),
        (spec_validate(*dds, spec_info(*config), config.spec_levels() as u32) is Ok
            && dds.data.len() == spec_payload_size(spec_info(*config), config.spec_levels())
            && spec_guest_lossless(
            spec_info(*config),
            config.spec_levels(),
            spec_payload_size(spec_info(*config), config.spec_levels()),
        )) ==> (r matches Ok(g) && spec_payload_matches(
            spec_info(*config),
            config.spec_levels(),
            dds.data@,
            g@,
        )),
{
    let format_data = get_format_data(&config.format);
    let info = build_texture_info(config, &format_data);
    let levels: u32 = match config.mipmap_levels {
        Some(v) => v,
        None => 1,
    };
    proof {
        assert(info == spec_info(*config));
        assert(levels as int == config.spec_levels());
        lemma_payload_bounds(info, levels as int);
        lemma_format_data_ranges(info.format);
    }
    match validate_provided_dds(dds, &info, levels) {
        Err(e) => {
            return Err(e);
        },
        Ok(_) => {},
    }
    let mut expected: usize = 0;
    let mut m: u32 = 0;
    while m < levels
        invariant
            m <= levels,
            expected == spec_payload_size(info, m as int),
        decreases levels - m,
    {
        proof {
            lemma_mip_geometry(info, m as int);
            lemma_payload_bounds(info, m as int);
            lemma_payload_bounds(info, m as int + 1);
        }
        let (width, height) = info.get_mip_size(m);
        let bx0 = width / format_data.block_width;
        let blocks_x = if bx0 == 0 {
            1
        } else {
            bx0
        };
        let by0 = height / format_data.block_height;
        let blocks_y = if by0 == 0 {
            1
        } else {
            by0
        };
        expected = expected + (blocks_x * blocks_y * format_data.bytes_per_block) as usize;
        m = m + 1;
    }
    if dds.data.len() != expected {
        return Err(Error::SizeMismatch);
    }
    let mut output = zero_vec(expected);
    let ghost lossless = spec_guest_lossless(info, levels as int, expected as int);
    proof {
        if lossless {
            assert forall|m2: int, x: int, y: int, j: int|
                0 <= m2 < levels && 0 <= x < spec_mip_blocks_x(info, m2) && 0 <= y
                    < spec_mip_blocks_y(info, m2) && 0 <= j < info.format.bytes_per_block
                implies #[trigger] output@[spec_abs_addr(info, m2, x, y) + j] == 0 by {
                lemma_abs_addr_nonneg(info, m2, x, y);
                assert(spec_abs_addr(info, m2, x, y) + info.format.bytes_per_block <= expected);
            }
        }
    }
    let mut input_offset: usize = 0;
    let mut mip: u32 = 0;
    while mip < levels
        invariant
            mip <= levels,
            input_offset == spec_payload_size(info, mip as int),
            output.len() == expected,
            lossless ==> spec_payload_matches(info, mip as int, dds.data@, output@),
            lossless ==> (forall|m2: int, x: int, y: int, j: int|
                mip <= m2 < levels && 0 <= x < spec_mip_blocks_x(info, m2) && 0 <= y
                    < spec_mip_blocks_y(info, m2) && 0 <= j < info.format.bytes_per_block
                    ==> #[trigger] output@[spec_abs_addr(info, m2, x, y) + j] == 0),
        decreases levels - mip,
    {
        proof {
            lemma_mip_geometry(info, mip as int);
            lemma_payload_bounds(info, mip as int);
            lemma_payload_bounds(info, mip as int + 1);
            lemma_payload_monotone(info, mip as int + 1, levels as int);
            lemma_location_offset_bounds(info, mip as int, true);
        }
        let loc = info.get_mip_location(mip, true);
        let (width, height) = info.get_mip_size(mip);
        let bx0 = width / format_data.block_width;
        let blocks_x = if bx0 == 0 {
            1
        } else {
            bx0
        };
        let by0 = height / format_data.block_height;
        let blocks_y = if by0 == 0 {
            1
        } else {
            by0
        };
        proof {
            assert(blocks_x == spec_mip_blocks_x(info, mip as int));
            assert(blocks_y == spec_mip_blocks_y(info, mip as int));
        }
        if output.len() < loc.0 as usize {
            proof {
                if lossless {
                    crate::tile::lemma_block_addr_nonneg(
                        info.format,
                        blocks_x as int,
                        loc.1 as int,
                        loc.2 as int,
                        0,
                        0,
                    );
                    assert(spec_abs_addr(info, mip as int, 0, 0) + info.format.bytes_per_block
                        <= expected);
                    assert(false);
                }
            }
            return Err(Error::GuestBufferTooSmall);
        }
        let ghost before = output@;
        let res = tile(
            &mut output,
            loc.0 as usize,
            &dds.data,
            input_offset,
            &format_data,
            blocks_x,
            blocks_y,
            loc.1,
            loc.2,
        );
        proof {
            if lossless {
                lemma_guest_fits_mip(info, levels as int, mip as int, expected as int);
                lemma_guest_distinct_mip(info, levels as int, mip as int);
                assert(crate::tile::spec_footprint_zero(
                    before,
                    info.format,
                    blocks_x as int,
                    blocks_y as int,
                    loc.1 as int,
                    loc.2 as int,
                    loc.0 as int,
                )) by {
                    reveal(crate::tile::spec_footprint_zero);
                    assert forall|x: int, y: int, j: int|
                        0 <= x < blocks_x && 0 <= y < blocks_y && 0 <= j
                            < info.format.bytes_per_block implies #[trigger] before[(loc.0 as int)
                        + spec_block_addr(
                        info.format,
                        blocks_x as int,
                        loc.1 as int,
                        loc.2 as int,
                        x,
                        y,
                    ) + j] == 0 by {
                        assert(before[spec_abs_addr(info, mip as int, x, y) + j] == 0);
                    }
                }
                assert(res is Ok);
            }
        }
        match res {
            Err(e) => {
                return Err(e);
            },
            Ok(n) => {
                proof {
                    if lossless {
                        from_dds_step(
                            info,
                            levels as int,
                            mip as int,
                            dds.data@,
                            before,
                            output@,
                            input_offset as int,
                        );
                    }
                }
                input_offset = input_offset + n as usize;
                mip = mip + 1;
            },
        }
    }
    Ok(output)
}


/// Every payload position is some byte of some block of some mip.
proof fn lemma_payload_decompose(info: TextureInfo, levels: int, idx: int)
    requires
        info.wf(),
        0 <= levels <= 32,
        0 <= idx < spec_payload_size(info, levels),
    ensures
        exists|m: int, x: int, y: int, j: int|
            0 <= m < levels && 0 <= x < spec_mip_blocks_x(info, m) && 0 <= y < spec_mip_blocks_y(
                info,
                m,
            ) && 0 <= j < info.format.bytes_per_block && idx == spec_payload_size(info, m)
                + #[trigger] spec_linear(
                spec_mip_blocks_x(info, m),
                info.format.bytes_per_block as int,
                x,
                y,
                j,
            ),
    decreases levels,
{
    lemma_payload_bounds(info, levels - 1);
    if idx < spec_payload_size(info, levels - 1) {
        lemma_payload_decompose(info, levels - 1, idx);
        let (m, x, y, j): (int, int, int, int) = choose|m: int, x: int, y: int, j: int|
            0 <= m < levels - 1 && 0 <= x < spec_mip_blocks_x(info, m) && 0 <= y
                < spec_mip_blocks_y(info, m) && 0 <= j < info.format.bytes_per_block && idx
                == spec_payload_size(info, m) + #[trigger] spec_linear(
                spec_mip_blocks_x(info, m),
                info.format.bytes_per_block as int,
                x,
                y,
                j,
            );
        assert(idx == spec_payload_size(info, m) + spec_linear(
            spec_mip_blocks_x(info, m),
            info.format.bytes_per_block as int,
            x,
            y,
            j,
        ));
    } else {
        let m = levels - 1;
        lemma_mip_geometry(info, m);
        let bpb = info.format.bytes_per_block as int;
        let bxs = spec_mip_blocks_x(info, m);
        let bys = spec_mip_blocks_y(info, m);
        let rem = idx - spec_payload_size(info, m);
        let row_bytes = bxs * bpb;
        assert(0 < row_bytes && row_bytes * bys == bxs * bys * bpb) by (nonlinear_arith)
            requires
                row_bytes == bxs * bpb,
                1 <= bxs,
                1 <= bys,
                1 <= bpb,
        ;
        assert(0 <= rem < bxs * bys * bpb);
        let y = rem / row_bytes;
        let r2 = rem % row_bytes;
        let x = r2 / bpb;
        let j = r2 % bpb;
        assert(0 <= y < bys && 0 <= r2 < row_bytes && rem == y * row_bytes + r2) by (
        nonlinear_arith)
            requires
                row_bytes == bxs * bpb,
                0 < row_bytes,
                0 <= rem < row_bytes * bys,
                y == rem / row_bytes,
                r2 == rem % row_bytes,
        ;
        assert(0 <= x < bxs && 0 <= j < bpb && r2 == x * bpb + j) by (nonlinear_arith)
            requires
                0 < bpb,
                0 <= r2 < bxs * bpb,
                x == r2 / bpb,
                j == r2 % bpb,
        ;
        assert(rem == (y * bxs + x) * bpb + j) by (nonlinear_arith)
            requires
                rem == y * row_bytes + r2,
                row_bytes == bxs * bpb,
                r2 == x * bpb + j,
        ;
        assert(idx == spec_payload_size(info, m) + spec_linear(bxs, bpb, x, y, j));
    }
}

/// The round-trip law: two payloads that both match the same guest buffer,
/// mip for mip and block for block, are equal byte for byte. Converting a
/// payload to a lossless guest layout and reading it back returns the
/// original payload.
pub proof fn lemma_round_trip(info: TextureInfo, levels: int, p: Seq<u8>, q: Seq<u8>, g: Seq<u8>)
    requires
        info.wf(),
        0 <= levels <= 32,
        p.len() == spec_payload_size(info, levels),
        q.len() == spec_payload_size(info, levels),
        spec_payload_matches(info, levels, p, g),
        spec_payload_matches(info, levels, q, g),
    ensures
        q == p,
{
    assert forall|idx: int| 0 <= idx < p.len() implies p[idx] == q[idx] by {
        lemma_payload_decompose(info, levels, idx);
        let (m, x, y, j): (int, int, int, int) = choose|m: int, x: int, y: int, j: int|
            0 <= m < levels && 0 <= x < spec_mip_blocks_x(info, m) && 0 <= y < spec_mip_blocks_y(
                info,
                m,
            ) && 0 <= j < info.format.bytes_per_block && idx == spec_payload_size(info, m)
                + #[trigger] spec_linear(
                spec_mip_blocks_x(info, m),
                info.format.bytes_per_block as int,
                x,
                y,
                j,
            );
        assert(p[spec_payload_size(info, m) + spec_linear(
            spec_mip_blocks_x(info, m),
            info.format.bytes_per_block as int,
            x,
            y,
            j,
        )] == g[spec_abs_addr(info, m, x, y) + spec_swap(j)]);
        assert(q[spec_payload_size(info, m) + spec_linear(
            spec_mip_blocks_x(info, m),
            info.format.bytes_per_block as int,
            x,
            y,
            j,
        )] == g[spec_abs_addr(info, m, x, y) + spec_swap(j)]);
    }
    assert(q =~= p);
}


impl Config {
    /// Whether the configuration is within the converter's limits; see `wf`.
    pub fn is_valid(&self) -> (r: bool)
        ensures
            r == self.wf(),
    {
        let depth_ok = match self.depth {
            Some(d) => 1 <= d && d <= 8,
            None => true,
        };
        let levels_ok = match self.mipmap_levels {
            Some(m) => 1 <= m && m <= 32,
            None => true,
        };
        1 <= self.width && self.width <= 8192 && 1 <= self.height && self.height <= 8192
            && self.pitch <= 8192 && depth_ok && levels_ok && self.base_address < 0x100000
            && self.mip_address < 0x100000
    }
}

} // verus!
