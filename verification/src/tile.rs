use vstd::prelude::*;

verus! {

use vstd::arithmetic::power2::pow2;
use vstd::arithmetic::power2::lemma2_to64;
use crate::format::FormatData;
use crate::format::lemma_format_data_ranges;
use crate::math::pow2_u32;

/// The shift that turns a byte offset into a block index: the base-two
/// logarithm of the bytes per block.
pub open spec fn spec_log2_bpp(bytes_per_block: int) -> int {
    if bytes_per_block == 4 {
        2
    } else if bytes_per_block == 8 {
        3
    } else {
        4
    }
}

/// Row component of the tiled address of block row `y`, for a mip `width`
/// blocks wide, in bytes.
pub open spec fn spec_row_offset(y: int, width: int, l: int) -> int {
    let macro0 = (y / 32) * (width / 32) * pow2((l + 7) as nat);
    let micro = ((y % 8) / 2) * 8 * pow2(l as nat);
    macro0 + (micro / 16) * 32 + micro % 16 + (if (y / 8) % 2 == 1 {
        pow2((l + 6) as nat) as int
    } else {
        0
    }) + (y % 2) * 16
}

/// Column component: the full tiled byte offset of block `(x, y)` given the
/// row component as `base`.
pub open spec fn spec_col_offset(x: int, y: int, l: int, base: int) -> int {
    let macro0 = (x / 32) * pow2((l + 7) as nat);
    let micro = (x % 8) * pow2(l as nat);
    let offset = base + macro0 + (micro / 16) * 32 + micro % 16;
    (offset / 512) * 4096 + ((offset / 64) % 8) * 256 + offset % 64 + ((y / 16) % 2) * 2048 + ((((y
        / 8) % 2) * 2 + x / 8) % 4) * 64
}

/// The tiled byte offset of the start of block `(x, y)`: the column offset
/// snapped down to a whole block.
pub open spec fn spec_block_byte_offset(x: int, y: int, width: int, l: int) -> int {
    (spec_col_offset(x, y, l, spec_row_offset(y, width, l)) / pow2(l as nat) as int) * pow2(
        l as nat,
    ) as int
}

/// Where the bytes of block `(x, y)` of a mip start, relative to the mip's
/// base, with the mip's intra-tile origin applied.
pub open spec fn spec_block_addr(
    format: FormatData,
    blocks_x: int,
    offset_x: int,
    offset_y: int,
    x: int,
    y: int,
) -> int {
    spec_block_byte_offset(
        x + offset_x,
        y + offset_y,
        blocks_x,
        spec_log2_bpp(format.bytes_per_block as int),
    )
}

/// The index a byte moves to when adjacent byte pairs are swapped.
pub open spec fn spec_swap(i: int) -> int {
    if i % 2 == 0 {
        i + 1
    } else {
        i - 1
    }
}

/// Row component of the tiled address; see `spec_row_offset`.
pub fn tiled_offset_2d_row(y: u32, width: u32, log2_bpp: u32) -> (r: u32)
    requires
        2 <= log2_bpp <= 4,
        y <= 8208,
        width <= 8208,
    ensures
        r == spec_row_offset(y as int, width as int, log2_bpp as int),
        r <= 0x800_0800,
{
    proof {
        lemma2_to64();
    }
    let pl7 = pow2_u32(log2_bpp + 7);
    let pl = pow2_u32(log2_bpp);
    let pl6 = pow2_u32(log2_bpp + 6);
    proof {
        assert((y / 32) * (width / 32) <= 256 * 256) by (nonlinear_arith)
            requires
                0 <= y / 32 <= 256,
                0 <= width / 32 <= 256,
        ;
        assert((y / 32) * (width / 32) * pl7 <= 256 * 256 * 2048 && 0 <= (y / 32) * (width / 32)
            * pl7) by (nonlinear_arith)
            requires
                0 <= (y / 32) * (width / 32) <= 256 * 256,
                0 < pl7 <= 2048,
        ;
        assert(((y % 8) / 2) * 8 * pl <= 24 * 16 && 0 <= ((y % 8) / 2) * 8 * pl) by (
        nonlinear_arith)
            requires
                0 <= (y % 8) / 2 <= 3,
                0 < pl <= 16,
        ;
    }
    let macro0 = (y / 32) * (width / 32) * pl7;
    let micro = ((y % 8) / 2) * 8 * pl;
    let bit3 = if (y / 8) % 2 == 1 {
        pl6
    } else {
        0
    };
    macro0 + (micro / 16) * 32 + micro % 16 + bit3 + (y % 2) * 16
}

/// Column component of the tiled address; see `spec_col_offset`.
pub fn tiled_offset_2d_column(x: u32, y: u32, log2_bpp: u32, base_offset: u32) -> (r: u32)
    requires
        2 <= log2_bpp <= 4,
        x <= 8208,
        y <= 8208,
        base_offset <= 0x800_0800,
    ensures
        r == spec_col_offset(x as int, y as int, log2_bpp as int, base_offset as int),
        r <= 0x4100_0000,
{
    proof {
        lemma2_to64();
    }
    let pl7 = pow2_u32(log2_bpp + 7);
    let pl = pow2_u32(log2_bpp);
    proof {
        assert((x / 32) * pl7 <= 256 * 2048 && 0 <= (x / 32) * pl7) by (nonlinear_arith)
            requires
                0 <= x / 32 <= 256,
                0 < pl7 <= 2048,
        ;
        assert((x % 8) * pl <= 7 * 16 && 0 <= (x % 8) * pl) by (nonlinear_arith)
            requires
                0 <= x % 8 <= 7,
                0 < pl <= 16,
        ;
    }
    let macro0 = (x / 32) * pl7;
    let micro = (x % 8) * pl;
    let offset = base_offset + macro0 + (micro / 16) * 32 + micro % 16;
    (offset / 512) * 4096 + ((offset / 64) % 8) * 256 + offset % 64 + ((y / 16) % 2) * 2048 + (((y
        / 8) % 2) * 2 + x / 8) % 4 * 64
}

/// Move `count` bytes while swapping adjacent byte pairs, after checking
/// that the destination is still unwritten (all zero). Returns whether the
/// destination was clean; nothing is written when it is not.
pub fn copy(
    output_buffer: &mut Vec<u8>,
    output_offset: usize,
    input_buffer: &Vec<u8>,
    input_offset: usize,
    count: usize,
) -> (ok: bool)
    requires
        count % 2 == 0,
        output_offset + count <= old(output_buffer).len(),
        input_offset + count <= input_buffer.len(),
    ensures
        final(output_buffer).len() == old(output_buffer).len(),
        ok == (forall|k: int|
            output_offset <= k < output_offset + count ==> old(output_buffer)@[k] == 0),
        ok ==> (forall|k: int|
            0 <= k < count ==> final(output_buffer)@[output_offset + k] == input_buffer@[
                input_offset + spec_swap(k)]),
        ok ==> (forall|k: int|
            0 <= k < final(output_buffer).len() && !(output_offset <= k < output_offset + count)
                ==> final(output_buffer)@[k] == old(output_buffer)@[k]),
        !ok ==> final(output_buffer)@ == old(output_buffer)@,
{
    let mut i: usize = 0;
    while i < count
        invariant
            i <= count,
            output_offset + count <= output_buffer.len(),
            output_buffer@ == old(output_buffer)@,
            forall|k: int| output_offset <= k < output_offset + i ==> old(output_buffer)@[k] == 0,
        decreases count - i,
    {
        if output_buffer[output_offset + i] != 0 {
            return false;
        }
        i = i + 1;
    }
    let mut j: usize = 0;
    while j < count
        invariant
            j <= count,
            j % 2 == 0,
            count % 2 == 0,
            output_buffer.len() == old(output_buffer).len(),
            output_offset + count <= output_buffer.len(),
            input_offset + count <= input_buffer.len(),
            forall|k: int|
                0 <= k < j ==> output_buffer@[output_offset + k] == input_buffer@[input_offset
                    + spec_swap(k)],
            forall|k: int|
                0 <= k < output_buffer.len() && !(output_offset <= k < output_offset + j)
                    ==> output_buffer@[k] == old(output_buffer)@[k],
        decreases count - j,
    {
        let a = input_buffer[input_offset + j + 1];
        let b = input_buffer[input_offset + j];
        output_buffer[output_offset + j] = a;
        output_buffer[output_offset + j + 1] = b;
        j = j + 2;
    }
    true
}


/// Every block's tiled bytes lie inside the buffer of the given length.
pub open spec fn spec_blocks_fit(
    format: FormatData,
    blocks_x: int,
    blocks_y: int,
    offset_x: int,
    offset_y: int,
    base: int,
    len: int,
) -> bool {
    forall|x: int, y: int|
        0 <= x < blocks_x && 0 <= y < blocks_y ==> base + #[trigger] spec_block_addr(
            format,
            blocks_x,
            offset_x,
            offset_y,
            x,
            y,
        ) + format.bytes_per_block <= len
}

/// Byte `j` of the block at grid position `(x, y)`, in row-major order.
pub open spec fn spec_linear(blocks_x: int, bytes_per_block: int, x: int, y: int, j: int) -> int {
    (y * blocks_x + x) * bytes_per_block + j
}

/// The linear buffer at `output_base` holds, byte-pair swapped, each block
/// of the tiled buffer at `input_base`.
pub open spec fn spec_untiled(
    out: Seq<u8>,
    inp: Seq<u8>,
    output_base: int,
    input_base: int,
    format: FormatData,
    blocks_x: int,
    blocks_y: int,
    offset_x: int,
    offset_y: int,
) -> bool {
    forall|x: int, y: int, j: int|
        0 <= x < blocks_x && 0 <= y < blocks_y && 0 <= j < format.bytes_per_block ==> out[
            output_base + #[trigger] spec_linear(blocks_x, format.bytes_per_block as int, x, y, j)]
            == inp[input_base + spec_block_addr(format, blocks_x, offset_x, offset_y, x, y)
            + spec_swap(j)]
}

/// A block's bytes lie inside its mip's row-major run.
pub proof fn lemma_linear_bound(bx: int, by: int, bpb: int, x: int, y: int, j: int)
    requires
        0 <= x < bx,
        0 <= y < by,
        0 <= j < bpb,
    ensures
        0 <= spec_linear(bx, bpb, x, y, j) < bx * by * bpb,
{
    assert(0 <= (y * bx + x) * bpb + j < bx * by * bpb) by (nonlinear_arith)
        requires
            0 <= x < bx,
            0 <= y < by,
            0 <= j < bpb,
    ;
}

/// A block earlier in row-major order lies wholly before a later block.
pub proof fn lemma_linear_lt(bx: int, bpb: int, x: int, y: int, xx: int, yy: int, j: int)
    requires
        0 <= xx < bx,
        0 <= yy,
        0 <= j < bpb,
        yy < y || (yy == y && xx < x),
        0 <= x,
        0 <= y,
    ensures
        0 <= spec_linear(bx, bpb, xx, yy, j) < (y * bx + x) * bpb,
{
    assert(0 <= (yy * bx + xx) * bpb + j && (yy * bx + xx) * bpb + j < (y * bx + x) * bpb) by (
    nonlinear_arith)
        requires
            0 <= xx < bx,
            0 <= yy,
            0 <= j < bpb,
            yy < y || (yy == y && xx < x),
            0 <= x,
            0 <= y,
    ;
}

/// Facts about the byte width of a block of a well-formed format.
pub proof fn lemma_log2_bpp(format: FormatData)
    requires
        format.wf(),
    ensures
        2 <= spec_log2_bpp(format.bytes_per_block as int) <= 4,
        pow2(spec_log2_bpp(format.bytes_per_block as int) as nat) == format.bytes_per_block,
        format.bytes_per_block % 2 == 0,
{
    lemma_format_data_ranges(format);
    lemma2_to64();
}

/// Read a tiled mip at `input_base` into a linear, row-major run of blocks
/// at `output_base`, swapping byte pairs on the way. The destination must be
/// unwritten (zero); a source read out of bounds reports `SourceTooSmall`,
/// in which case the blocks before the failing one have already been moved.
/// Returns the number of bytes written.
#[verifier::loop_isolation(false)]
#[verifier::rlimit(100)]
pub fn untile(
    output_buffer: &mut Vec<u8>,
    output_base: usize,
    input_buffer: &Vec<u8>,
    input_base: usize,
    format: &FormatData,
    blocks_x: u32,
    blocks_y: u32,
    offset_x: u32,
    offset_y: u32,
) -> (r: Result<u32, crate::Error>)
    requires
        format.wf(),
        1 <= blocks_x,
        1 <= blocks_y,
        blocks_x + offset_x <= 8208,
        blocks_y + offset_y <= 8208,
        blocks_x * blocks_y * format.bytes_per_block <= u32::MAX,
        output_base + blocks_x * blocks_y * format.bytes_per_block <= old(output_buffer).len(),
        input_base <= input_buffer.len(),
        forall|k: int|
            output_base <= k < output_base + blocks_x * blocks_y * format.bytes_per_block ==> old(
                output_buffer,
            )@[k] == 0,
    ensures
        final(output_buffer).len() == old(output_buffer).len(),
        r is Ok <==> spec_blocks_fit(
            *format,
            blocks_x as int,
            blocks_y as int,
            offset_x as int,
            offset_y as int,
            input_base as int,
            input_buffer.len() as int,
        ),
        r is Err ==> r == Err::<u32, crate::Error>(crate::Error::SourceTooSmall),
        r is Ok ==> r == Ok::<u32, crate::Error>(
            (blocks_x * blocks_y * format.bytes_per_block) as u32,
        ),
        r is Ok ==> spec_untiled(
            final(output_buffer)@,
            input_buffer@,
            output_base as int,
            input_base as int,
            *format,
            blocks_x as int,
            blocks_y as int,
            offset_x as int,
            offset_y as int,
        ),
        r is Ok ==> (forall|k: int|
            0 <= k < final(output_buffer).len() && !(output_base <= k < output_base + blocks_x
                * blocks_y * format.bytes_per_block) ==> final(output_buffer)@[k] == old(
                output_buffer,
            )@[k]),
{
    proof {
        lemma_log2_bpp(*format);
        lemma_format_data_ranges(*format);
    }
    let bytes_per_block = format.bytes_per_block;
    let log2_bpp = if bytes_per_block == 4 {
        2
    } else if bytes_per_block == 8 {
        3
    } else {
        4
    };
    proof {
        lemma2_to64();
        assert(log2_bpp == spec_log2_bpp(bytes_per_block as int));
        assert(blocks_x * blocks_y >= 1 * 1 && blocks_x * blocks_y * format.bytes_per_block
            >= blocks_x * blocks_y * 1) by (nonlinear_arith)
            requires
                1 <= blocks_x,
                1 <= blocks_y,
                1 <= format.bytes_per_block,
        ;
    }
    let total = blocks_x * blocks_y * bytes_per_block;
    let ghost bx = blocks_x as int;
    let ghost bpb = format.bytes_per_block as int;
    let ghost by = blocks_y as int;
    let mut output_offset: u32 = 0;
    let mut y: u32 = 0;
    while y < blocks_y
        invariant
            y <= blocks_y,
            output_offset == y * bx * bpb,
            output_buffer.len() == old(output_buffer).len(),
            forall|xx: int, yy: int|
                0 <= xx < bx && 0 <= yy < y ==> input_base + #[trigger] spec_block_addr(
                    *format,
                    bx,
                    offset_x as int,
                    offset_y as int,
                    xx,
                    yy,
                ) + bpb <= input_buffer.len(),
            forall|xx: int, yy: int, j: int|
                0 <= xx < bx && 0 <= yy < y && 0 <= j < bpb ==> output_buffer@[output_base
                    + #[trigger] spec_linear(bx, bpb, xx, yy, j)] == input_buffer@[input_base
                    + spec_block_addr(*format, bx, offset_x as int, offset_y as int, xx, yy)
                    + spec_swap(j)],
            forall|k: int|
                output_base + output_offset <= k < output_base + total ==> output_buffer@[k] == 0,
            forall|k: int|
                0 <= k < output_buffer.len() && !(output_base <= k < output_base + total)
                    ==> output_buffer@[k] == old(output_buffer)@[k],
        decreases blocks_y - y,
    {
        proof {
            assert(y * bx * bpb + bx * bpb <= by * bx * bpb && (y * bx + bx) * bpb == y * bx * bpb
                + bx * bpb && by * bx * bpb == bx * by * bpb && (y + 1) * bx * bpb == y * bx * bpb
                + bx * bpb) by (nonlinear_arith)
                requires
                    0 <= y < by,
                    0 <= bx,
                    0 <= bpb,
            ;
        }
        let input_row_offset = tiled_offset_2d_row(y + offset_y, blocks_x, log2_bpp);
        let mut x: u32 = 0;
        while x < blocks_x
            invariant
                x <= blocks_x,
                output_offset == (y * bx + x) * bpb,
                output_buffer.len() == old(output_buffer).len(),
                forall|xx: int, yy: int|
                    0 <= xx < bx && 0 <= yy < by && (yy < y || (yy == y && xx < x)) ==> input_base
                        + #[trigger] spec_block_addr(
                        *format,
                        bx,
                        offset_x as int,
                        offset_y as int,
                        xx,
                        yy,
                    ) + bpb <= input_buffer.len(),
                forall|xx: int, yy: int, j: int|
                    0 <= xx < bx && 0 <= yy < by && (yy < y || (yy == y && xx < x)) && 0 <= j < bpb
                        ==> output_buffer@[output_base + #[trigger] spec_linear(bx, bpb, xx, yy, j)]
                        == input_buffer@[input_base + spec_block_addr(
                        *format,
                        bx,
                        offset_x as int,
                        offset_y as int,
                        xx,
                        yy,
                    ) + spec_swap(j)],
                forall|k: int|
                    output_base + output_offset <= k < output_base + total ==> output_buffer@[k]
                        == 0,
                forall|k: int|
                    0 <= k < output_buffer.len() && !(output_base <= k < output_base + total)
                        ==> output_buffer@[k] == old(output_buffer)@[k],
            decreases blocks_x - x,
        {
            proof {
                assert((y * bx + x) * bpb + bpb == (y * bx + x + 1) * bpb && (y * bx + x + 1) * bpb
                    <= bx * by * bpb && 0 <= (y * bx + x) * bpb) by (nonlinear_arith)
                    requires
                        0 <= x < bx,
                        0 <= y < by,
                        0 <= bpb,
                ;
            }
            let col = tiled_offset_2d_column(
                x + offset_x,
                y + offset_y,
                log2_bpp,
                input_row_offset,
            );
            let block_start = (col / bytes_per_block) * bytes_per_block;
            proof {
                assert(block_start == spec_block_addr(
                    *format,
                    bx,
                    offset_x as int,
                    offset_y as int,
                    x as int,
                    y as int,
                ));
            }
            let remaining = input_buffer.len() - input_base;
            if remaining < (block_start + bytes_per_block) as usize {
                proof {
                    assert(!spec_blocks_fit(
                        *format,
                        bx,
                        by,
                        offset_x as int,
                        offset_y as int,
                        input_base as int,
                        input_buffer.len() as int,
                    ));
                }
                return Err(crate::Error::SourceTooSmall);
            }
            let ghost before = output_buffer@;
            let ghost oo = output_offset as int;
            let ok = copy(
                output_buffer,
                output_base + output_offset as usize,
                input_buffer,
                input_base + block_start as usize,
                bytes_per_block as usize,
            );
            proof {
                assert(ok);
                assert forall|xx: int, yy: int, j: int|
                    0 <= xx < bx && 0 <= yy < by && (yy < y || (yy == y && xx < x + 1)) && 0 <= j
                        < bpb implies output_buffer@[output_base + #[trigger] spec_linear(
                    bx,
                    bpb,
                    xx,
                    yy,
                    j,
                )] == input_buffer@[input_base + spec_block_addr(
                    *format,
                    bx,
                    offset_x as int,
                    offset_y as int,
                    xx,
                    yy,
                ) + spec_swap(j)] by {
                    if yy < y || (yy == y && xx < x) {
                        lemma_linear_lt(bx, bpb, x as int, y as int, xx, yy, j);
                        assert(output_buffer@[output_base + spec_linear(bx, bpb, xx, yy, j)]
                            == before[output_base + spec_linear(bx, bpb, xx, yy, j)]);
                    } else {
                        assert(xx == x && yy == y);
                        assert(spec_linear(bx, bpb, xx, yy, j) == oo + j);
                        assert(output_buffer@[output_base + oo + j] == input_buffer@[input_base
                            + block_start + spec_swap(j)]);
                    }
                }
                assert forall|k: int|
                    output_base + (oo + bpb) <= k < output_base + total implies output_buffer@[k]
                    == 0 by {
                    assert(output_buffer@[k] == before[k]);
                }
                assert forall|k: int|
                    0 <= k < output_buffer.len() && !(output_base <= k < output_base + total)
                        implies output_buffer@[k] == old(output_buffer)@[k] by {
                    assert(output_buffer@[k] == before[k]);
                }
            }
            output_offset = output_offset + bytes_per_block;
            x = x + 1;
        }
        y = y + 1;
    }
    proof {
        assert(spec_blocks_fit(
            *format,
            bx,
            by,
            offset_x as int,
            offset_y as int,
            input_base as int,
            input_buffer.len() as int,
        ));
    }
    Ok(total)
}



/// No two blocks of the grid share a tiled address.
#[verifier::opaque]
pub open spec fn spec_addrs_distinct(
    format: FormatData,
    blocks_x: int,
    blocks_y: int,
    offset_x: int,
    offset_y: int,
) -> bool {
    forall|x1: int, y1: int, x2: int, y2: int|
        0 <= x1 < blocks_x && 0 <= y1 < blocks_y && 0 <= x2 < blocks_x && 0 <= y2 < blocks_y && (x1
            != x2 || y1 != y2) ==> #[trigger] spec_block_addr(
            format,
            blocks_x,
            offset_x,
            offset_y,
            x1,
            y1,
        ) != #[trigger] spec_block_addr(format, blocks_x, offset_x, offset_y, x2, y2)
}

/// Whether byte position `k` belongs to some block's tiled bytes.
#[verifier::opaque]
pub open spec fn spec_in_footprint(
    format: FormatData,
    blocks_x: int,
    blocks_y: int,
    offset_x: int,
    offset_y: int,
    base: int,
    k: int,
) -> bool {
    exists|x: int, y: int|
        0 <= x < blocks_x && 0 <= y < blocks_y && base + #[trigger] spec_block_addr(
            format,
            blocks_x,
            offset_x,
            offset_y,
            x,
            y,
        ) <= k < base + spec_block_addr(format, blocks_x, offset_x, offset_y, x, y)
            + format.bytes_per_block
}

/// The grid's tiled bytes in `s` are all zero: nothing has been written yet.
#[verifier::opaque]
pub open spec fn spec_footprint_zero(
    s: Seq<u8>,
    format: FormatData,
    blocks_x: int,
    blocks_y: int,
    offset_x: int,
    offset_y: int,
    base: int,
) -> bool {
    forall|x: int, y: int, j: int|
        0 <= x < blocks_x && 0 <= y < blocks_y && 0 <= j < format.bytes_per_block ==> #[trigger] s[
            base + spec_block_addr(format, blocks_x, offset_x, offset_y, x, y) + j] == 0
}

/// A layout is lossless for this grid when every tiled block fits in the
/// buffer and no two blocks collide.
pub open spec fn spec_lossless(
    format: FormatData,
    blocks_x: int,
    blocks_y: int,
    offset_x: int,
    offset_y: int,
    base: int,
    len: int,
) -> bool {
    &&& spec_blocks_fit(format, blocks_x, blocks_y, offset_x, offset_y, base, len)
    &&& spec_addrs_distinct(format, blocks_x, blocks_y, offset_x, offset_y)
}

/// The tiled buffer at `output_base` holds, byte-pair swapped, each block of
/// the linear row-major buffer at `input_base`.
pub open spec fn spec_tiled(
    out: Seq<u8>,
    inp: Seq<u8>,
    output_base: int,
    input_base: int,
    format: FormatData,
    blocks_x: int,
    blocks_y: int,
    offset_x: int,
    offset_y: int,
) -> bool {
    forall|x: int, y: int, j: int|
        0 <= x < blocks_x && 0 <= y < blocks_y && 0 <= j < format.bytes_per_block
            ==> #[trigger] out[output_base + spec_block_addr(
            format,
            blocks_x,
            offset_x,
            offset_y,
            x,
            y,
        ) + j] == inp[input_base + spec_linear(
            blocks_x,
            format.bytes_per_block as int,
            x,
            y,
            spec_swap(j),
        )]
}

/// A tiled block address is a whole number of blocks from the mip's base.
pub proof fn lemma_block_addr_aligned(
    format: FormatData,
    blocks_x: int,
    offset_x: int,
    offset_y: int,
    x: int,
    y: int,
)
    requires
        format.wf(),
    ensures
        spec_block_addr(format, blocks_x, offset_x, offset_y, x, y) % (
        format.bytes_per_block as int) == 0,
{
    lemma_log2_bpp(format);
    let l = spec_log2_bpp(format.bytes_per_block as int);
    let p = pow2(l as nat) as int;
    let c = spec_col_offset(
        x + offset_x,
        y + offset_y,
        l,
        spec_row_offset(y + offset_y, blocks_x, l),
    );
    assert(((c / p) * p) % p == 0) by (nonlinear_arith)
        requires
            0 < p,
    ;
}

/// Distinct block-aligned addresses give disjoint byte ranges.
pub proof fn lemma_aligned_disjoint(a1: int, a2: int, b: int)
    requires
        a1 % b == 0,
        a2 % b == 0,
        a1 != a2,
        0 < b,
    ensures
        a1 + b <= a2 || a2 + b <= a1,
{
    assert(a1 + b <= a2 || a2 + b <= a1) by (nonlinear_arith)
        requires
            a1 % b == 0,
            a2 % b == 0,
            a1 != a2,
            0 < b,
    ;
}



/// Blocks before `(x, y)` in row-major order have been moved, byte-pair
/// swapped, to their tiled addresses.
#[verifier::opaque]
pub open spec fn spec_written_upto(
    cur: Seq<u8>,
    inp: Seq<u8>,
    format: FormatData,
    bx: int,
    by: int,
    ox: int,
    oy: int,
    ob: int,
    ib: int,
    x: int,
    y: int,
) -> bool {
    forall|xx: int, yy: int, j: int|
        0 <= xx < bx && 0 <= yy < by && (yy < y || (yy == y && xx < x)) && 0 <= j
            < format.bytes_per_block ==> #[trigger] cur[ob + spec_block_addr(
            format,
            bx,
            ox,
            oy,
            xx,
            yy,
        ) + j] == inp[ib + spec_linear(bx, format.bytes_per_block as int, xx, yy, spec_swap(j))]
}

/// Blocks from `(x, y)` on in row-major order are still unwritten (zero).
#[verifier::opaque]
pub open spec fn spec_zero_from(
    cur: Seq<u8>,
    format: FormatData,
    bx: int,
    by: int,
    ox: int,
    oy: int,
    ob: int,
    x: int,
    y: int,
) -> bool {
    forall|xx: int, yy: int, j: int|
        0 <= xx < bx && 0 <= yy < by && !(yy < y || (yy == y && xx < x)) && 0 <= j
            < format.bytes_per_block ==> #[trigger] cur[ob + spec_block_addr(
            format,
            bx,
            ox,
            oy,
            xx,
            yy,
        ) + j] == 0
}

/// Bytes outside the grid's footprint are as they began.
#[verifier::opaque]
pub open spec fn spec_same_outside(
    orig: Seq<u8>,
    cur: Seq<u8>,
    format: FormatData,
    bx: int,
    by: int,
    ox: int,
    oy: int,
    ob: int,
) -> bool {
    forall|k: int|
        0 <= k < cur.len() && !spec_in_footprint(format, bx, by, ox, oy, ob, k) ==> cur[k]
            == orig[k]
}

/// Progress of `tile` in row-major order.
#[verifier::opaque]
pub open spec fn spec_tile_partial(
    orig: Seq<u8>,
    cur: Seq<u8>,
    inp: Seq<u8>,
    format: FormatData,
    bx: int,
    by: int,
    ox: int,
    oy: int,
    ob: int,
    ib: int,
    x: int,
    y: int,
) -> bool {
    &&& cur.len() == orig.len()
    &&& spec_written_upto(cur, inp, format, bx, by, ox, oy, ob, ib, x, y)
    &&& spec_zero_from(cur, format, bx, by, ox, oy, ob, x, y)
    &&& spec_same_outside(orig, cur, format, bx, by, ox, oy, ob)
}

/// Before any block has moved, a zeroed footprint satisfies the progress
/// predicate at the first block.
pub proof fn tile_partial_init(
    orig: Seq<u8>,
    inp: Seq<u8>,
    format: FormatData,
    bx: int,
    by: int,
    ox: int,
    oy: int,
    ob: int,
    ib: int,
)
    requires
        spec_footprint_zero(orig, format, bx, by, ox, oy, ob),
    ensures
        spec_tile_partial(orig, orig, inp, format, bx, by, ox, oy, ob, ib, 0, 0),
{
    reveal(spec_tile_partial);
    reveal(spec_written_upto);
    reveal(spec_zero_from);
    reveal(spec_same_outside);
    reveal(spec_footprint_zero);
}

/// The bytes of a block not yet moved are still zero.
pub proof fn tile_partial_block_zero(
    orig: Seq<u8>,
    cur: Seq<u8>,
    inp: Seq<u8>,
    format: FormatData,
    bx: int,
    by: int,
    ox: int,
    oy: int,
    ob: int,
    ib: int,
    x: int,
    y: int,
)
    requires
        spec_tile_partial(orig, cur, inp, format, bx, by, ox, oy, ob, ib, x, y),
        0 <= x < bx,
        0 <= y < by,
    ensures
        forall|k: int|
            ob + spec_block_addr(format, bx, ox, oy, x, y) <= k < ob + spec_block_addr(
                format,
                bx,
                ox,
                oy,
                x,
                y,
            ) + format.bytes_per_block ==> cur[k] == 0,
{
    reveal(spec_tile_partial);
    reveal(spec_zero_from);
    let addr = spec_block_addr(format, bx, ox, oy, x, y);
    assert forall|k: int| ob + addr <= k < ob + addr + format.bytes_per_block implies cur[k]
        == 0 by {
        let j = k - (ob + addr);
        assert(cur[ob + spec_block_addr(format, bx, ox, oy, x, y) + j] == 0);
    }
}

/// Moving block `(x, y)` extends the moved region by that block.
#[verifier::rlimit(100)]
proof fn step_written(
    before: Seq<u8>,
    after: Seq<u8>,
    inp: Seq<u8>,
    format: FormatData,
    bx: int,
    by: int,
    ox: int,
    oy: int,
    ob: int,
    ib: int,
    x: int,
    y: int,
)
    requires
        format.wf(),
        0 <= x < bx,
        0 <= y < by,
        0 <= ox,
        0 <= oy,
        0 <= ob,
        spec_addrs_distinct(format, bx, by, ox, oy),
        spec_blocks_fit(format, bx, by, ox, oy, ob, after.len() as int),
        after.len() == before.len(),
        spec_written_upto(before, inp, format, bx, by, ox, oy, ob, ib, x, y),
        forall|k: int|
            0 <= k < format.bytes_per_block ==> #[trigger] after[ob + spec_block_addr(
                format,
                bx,
                ox,
                oy,
                x,
                y,
            ) + k] == inp[ib + spec_linear(
                bx,
                format.bytes_per_block as int,
                x,
                y,
                spec_swap(k),
            )],
        forall|k: int|
            0 <= k < after.len() && !(ob + spec_block_addr(format, bx, ox, oy, x, y) <= k < ob
                + spec_block_addr(format, bx, ox, oy, x, y) + format.bytes_per_block)
                ==> #[trigger] after[k] == before[k],
    ensures
        spec_written_upto(after, inp, format, bx, by, ox, oy, ob, ib, x + 1, y),
{
    reveal(spec_written_upto);
    reveal(spec_addrs_distinct);
    let bpb = format.bytes_per_block as int;
    let addr = spec_block_addr(format, bx, ox, oy, x, y);
    lemma_block_addr_aligned(format, bx, ox, oy, x, y);
    assert forall|xx: int, yy: int, j: int|
        0 <= xx < bx && 0 <= yy < by && (yy < y || (yy == y && xx < x + 1)) && 0 <= j
            < bpb implies #[trigger] after[ob + spec_block_addr(format, bx, ox, oy, xx, yy) + j]
        == inp[ib + spec_linear(bx, bpb, xx, yy, spec_swap(j))] by {
        if yy < y || (yy == y && xx < x) {
            lemma_block_addr_aligned(format, bx, ox, oy, xx, yy);
            lemma_block_addr_nonneg(format, bx, ox, oy, xx, yy);
            lemma_aligned_disjoint(spec_block_addr(format, bx, ox, oy, xx, yy), addr, bpb);
            assert(after[ob + spec_block_addr(format, bx, ox, oy, xx, yy) + j] == before[ob
                + spec_block_addr(format, bx, ox, oy, xx, yy) + j]);
        } else {
            assert(xx == x && yy == y);
        }
    }
}

/// Moving block `(x, y)` leaves every later block untouched and zero.
#[verifier::rlimit(100)]
proof fn step_zero(
    before: Seq<u8>,
    after: Seq<u8>,
    format: FormatData,
    bx: int,
    by: int,
    ox: int,
    oy: int,
    ob: int,
    x: int,
    y: int,
)
    requires
        format.wf(),
        0 <= x < bx,
        0 <= y < by,
        0 <= ox,
        0 <= oy,
        0 <= ob,
        spec_addrs_distinct(format, bx, by, ox, oy),
        spec_blocks_fit(format, bx, by, ox, oy, ob, after.len() as int),
        after.len() == before.len(),
        spec_zero_from(before, format, bx, by, ox, oy, ob, x, y),
        forall|k: int|
            0 <= k < after.len() && !(ob + spec_block_addr(format, bx, ox, oy, x, y) <= k < ob
                + spec_block_addr(format, bx, ox, oy, x, y) + format.bytes_per_block)
                ==> #[trigger] after[k] == before[k],
    ensures
        spec_zero_from(after, format, bx, by, ox, oy, ob, x + 1, y),
{
    reveal(spec_zero_from);
    reveal(spec_addrs_distinct);
    let bpb = format.bytes_per_block as int;
    let addr = spec_block_addr(format, bx, ox, oy, x, y);
    lemma_block_addr_aligned(format, bx, ox, oy, x, y);
    assert forall|xx: int, yy: int, j: int|
        0 <= xx < bx && 0 <= yy < by && !(yy < y || (yy == y && xx < x + 1)) && 0 <= j
            < bpb implies #[trigger] after[ob + spec_block_addr(format, bx, ox, oy, xx, yy) + j]
        == 0 by {
        lemma_block_addr_aligned(format, bx, ox, oy, xx, yy);
        lemma_block_addr_nonneg(format, bx, ox, oy, xx, yy);
        lemma_aligned_disjoint(spec_block_addr(format, bx, ox, oy, xx, yy), addr, bpb);
        assert(after[ob + spec_block_addr(format, bx, ox, oy, xx, yy) + j] == before[ob
            + spec_block_addr(format, bx, ox, oy, xx, yy) + j]);
    }
}

/// Moving block `(x, y)` does not touch bytes outside the footprint.
#[verifier::rlimit(100)]
proof fn step_outside(
    orig: Seq<u8>,
    before: Seq<u8>,
    after: Seq<u8>,
    format: FormatData,
    bx: int,
    by: int,
    ox: int,
    oy: int,
    ob: int,
    x: int,
    y: int,
)
    requires
        0 <= x < bx,
        0 <= y < by,
        after.len() == before.len(),
        before.len() == orig.len(),
        spec_same_outside(orig, before, format, bx, by, ox, oy, ob),
        forall|k: int|
            0 <= k < after.len() && !(ob + spec_block_addr(format, bx, ox, oy, x, y) <= k < ob
                + spec_block_addr(format, bx, ox, oy, x, y) + format.bytes_per_block)
                ==> #[trigger] after[k] == before[k],
    ensures
        spec_same_outside(orig, after, format, bx, by, ox, oy, ob),
{
    reveal(spec_same_outside);
    reveal(spec_in_footprint);
    let bpb = format.bytes_per_block as int;
    let addr = spec_block_addr(format, bx, ox, oy, x, y);
    assert forall|k: int|
        0 <= k < after.len() && !spec_in_footprint(format, bx, by, ox, oy, ob, k) implies after[k]
        == orig[k] by {
        assert(!(ob + addr <= k < ob + addr + bpb)) by {
            if ob + addr <= k < ob + addr + bpb {
                assert(spec_in_footprint(format, bx, by, ox, oy, ob, k));
            }
        }
        assert(after[k] == before[k]);
    }
}

/// One step of `tile`: moving block `(x, y)` onto its clean destination
/// advances the progress predicate by one block.
pub proof fn tile_step_proof(
    orig: Seq<u8>,
    before: Seq<u8>,
    after: Seq<u8>,
    inp: Seq<u8>,
    format: FormatData,
    bx: int,
    by: int,
    ox: int,
    oy: int,
    ob: int,
    ib: int,
    x: int,
    y: int,
)
    requires
        format.wf(),
        0 <= x < bx,
        0 <= y < by,
        0 <= ox,
        0 <= oy,
        0 <= ob,
        spec_addrs_distinct(format, bx, by, ox, oy),
        spec_blocks_fit(format, bx, by, ox, oy, ob, after.len() as int),
        spec_tile_partial(orig, before, inp, format, bx, by, ox, oy, ob, ib, x, y),
        after.len() == before.len(),
        forall|k: int|
            0 <= k < format.bytes_per_block ==> #[trigger] after[ob + spec_block_addr(
                format,
                bx,
                ox,
                oy,
                x,
                y,
            ) + k] == inp[ib + spec_linear(
                bx,
                format.bytes_per_block as int,
                x,
                y,
                spec_swap(k),
            )],
        forall|k: int|
            0 <= k < after.len() && !(ob + spec_block_addr(format, bx, ox, oy, x, y) <= k < ob
                + spec_block_addr(format, bx, ox, oy, x, y) + format.bytes_per_block)
                ==> #[trigger] after[k] == before[k],
    ensures
        spec_tile_partial(orig, after, inp, format, bx, by, ox, oy, ob, ib, x + 1, y),
{
    reveal(spec_tile_partial);
    step_written(before, after, inp, format, bx, by, ox, oy, ob, ib, x, y);
    step_zero(before, after, format, bx, by, ox, oy, ob, x, y);
    step_outside(orig, before, after, format, bx, by, ox, oy, ob, x, y);
}

/// Finishing a row of blocks is the same as standing at the start of the
/// next row.
pub proof fn tile_partial_row_end(
    orig: Seq<u8>,
    cur: Seq<u8>,
    inp: Seq<u8>,
    format: FormatData,
    bx: int,
    by: int,
    ox: int,
    oy: int,
    ob: int,
    ib: int,
    y: int,
)
    requires
        spec_tile_partial(orig, cur, inp, format, bx, by, ox, oy, ob, ib, bx, y),
    ensures
        spec_tile_partial(orig, cur, inp, format, bx, by, ox, oy, ob, ib, 0, y + 1),
{
    reveal(spec_tile_partial);
    reveal(spec_written_upto);
    reveal(spec_zero_from);
}

/// Past the last row the progress predicate says the whole grid is tiled.
pub proof fn tile_partial_complete(
    orig: Seq<u8>,
    cur: Seq<u8>,
    inp: Seq<u8>,
    format: FormatData,
    bx: int,
    by: int,
    ox: int,
    oy: int,
    ob: int,
    ib: int,
)
    requires
        spec_tile_partial(orig, cur, inp, format, bx, by, ox, oy, ob, ib, 0, by),
    ensures
        spec_tiled(cur, inp, ob, ib, format, bx, by, ox, oy),
        forall|k: int|
            0 <= k < cur.len() && !spec_in_footprint(format, bx, by, ox, oy, ob, k) ==> cur[k]
                == orig[k],
{
    reveal(spec_tile_partial);
    reveal(spec_written_upto);
    reveal(spec_same_outside);
}

/// A tiled block address is never negative.
pub proof fn lemma_block_addr_nonneg(
    format: FormatData,
    blocks_x: int,
    ox: int,
    oy: int,
    x: int,
    y: int,
)
    requires
        format.wf(),
        0 <= x + ox,
        0 <= y + oy,
        0 <= blocks_x,
    ensures
        0 <= spec_block_addr(format, blocks_x, ox, oy, x, y),
{
    lemma_log2_bpp(format);
    let l = spec_log2_bpp(format.bytes_per_block as int);
    let xx = x + ox;
    let yy = y + oy;
    let p7 = pow2((l + 7) as nat) as int;
    let p6 = pow2((l + 6) as nat) as int;
    let p = pow2(l as nat) as int;
    vstd::arithmetic::power2::lemma_pow2_pos((l + 7) as nat);
    vstd::arithmetic::power2::lemma_pow2_pos((l + 6) as nat);
    vstd::arithmetic::power2::lemma_pow2_pos(l as nat);
    assert(0 <= (yy / 32) * (blocks_x / 32) * p7 && 0 <= ((yy % 8) / 2) * 8 * p) by (
    nonlinear_arith)
        requires
            0 <= yy,
            0 <= blocks_x,
            0 < p7,
            0 < p,
    ;
    let row = spec_row_offset(yy, blocks_x, l);
    assert(0 <= row);
    assert(0 <= (xx / 32) * p7 && 0 <= (xx % 8) * p) by (nonlinear_arith)
        requires
            0 <= xx,
            0 < p7,
            0 < p,
    ;
    let col = spec_col_offset(xx, yy, l, row);
    assert(0 <= col);
    assert(0 <= (col / p) * p) by (nonlinear_arith)
        requires
            0 <= col,
            0 < p,
    ;
}

/// Write a linear, row-major run of blocks at `input_base` into a tiled mip
/// at `output_base`, swapping byte pairs on the way. A write out of bounds
/// reports `GuestBufferTooSmall`; a write onto bytes already holding data
/// reports `Overwrite`. For a lossless layout over a zeroed destination the
/// call succeeds and moves every block; it returns the number of bytes read.
#[verifier::loop_isolation(false)]
#[verifier::rlimit(100)]
pub fn tile(
    output_buffer: &mut Vec<u8>,
    output_base: usize,
    input_buffer: &Vec<u8>,
    input_base: usize,
    format: &FormatData,
    blocks_x: u32,
    blocks_y: u32,
    offset_x: u32,
    offset_y: u32,
) -> (r: Result<u32, crate::Error>)
    requires
        format.wf(),
        1 <= blocks_x,
        1 <= blocks_y,
        blocks_x + offset_x <= 8208,
        blocks_y + offset_y <= 8208,
        blocks_x * blocks_y * format.bytes_per_block <= u32::MAX,
        input_base + blocks_x * blocks_y * format.bytes_per_block <= input_buffer.len(),
        output_base <= old(output_buffer).len(),
    ensures
        final(output_buffer).len() == old(output_buffer).len(),
        r is Ok ==> r == Ok::<u32, crate::Error>(
            (blocks_x * blocks_y * format.bytes_per_block) as u32,
        ),
        r == Err::<u32, crate::Error>(crate::Error::GuestBufferTooSmall) ==> !spec_blocks_fit(
            *format,
            blocks_x as int,
            blocks_y as int,
            offset_x as int,
            offset_y as int,
            output_base as int,
            old(output_buffer).len() as int,
        ),
        r is Err ==> r == Err::<u32, crate::Error>(crate::Error::GuestBufferTooSmall) || r
            == Err::<u32, crate::Error>(crate::Error::Overwrite),
        (spec_lossless(
            *format,
            blocks_x as int,
            blocks_y as int,
            offset_x as int,
            offset_y as int,
            output_base as int,
            old(output_buffer).len() as int,
        ) && spec_footprint_zero(
            old(output_buffer)@,
            *format,
            blocks_x as int,
            blocks_y as int,
            offset_x as int,
            offset_y as int,
            output_base as int,
        )) ==> (r is Ok && spec_tiled(
            final(output_buffer)@,
            input_buffer@,
            output_base as int,
            input_base as int,
            *format,
            blocks_x as int,
            blocks_y as int,
            offset_x as int,
            offset_y as int,
        ) && (forall|k: int|
            0 <= k < final(output_buffer).len() && !spec_in_footprint(
                *format,
                blocks_x as int,
                blocks_y as int,
                offset_x as int,
                offset_y as int,
                output_base as int,
                k,
            ) ==> final(output_buffer)@[k] == old(output_buffer)@[k])),
{
    proof {
        lemma_log2_bpp(*format);
        lemma_format_data_ranges(*format);
    }
    let bytes_per_block = format.bytes_per_block;
    let log2_bpp = if bytes_per_block == 4 {
        2
    } else if bytes_per_block == 8 {
        3
    } else {
        4
    };
    proof {
        lemma2_to64();
        assert(log2_bpp == spec_log2_bpp(bytes_per_block as int));
        assert(blocks_x * blocks_y >= 1 * 1 && blocks_x * blocks_y * format.bytes_per_block
            >= blocks_x * blocks_y * 1) by (nonlinear_arith)
            requires
                1 <= blocks_x,
                1 <= blocks_y,
                1 <= format.bytes_per_block,
        ;
    }
    let total = blocks_x * blocks_y * bytes_per_block;
    let ghost bx = blocks_x as int;
    let ghost by = blocks_y as int;
    let ghost bpb = format.bytes_per_block as int;
    let ghost ox = offset_x as int;
    let ghost oy = offset_y as int;
    let ghost ob = output_base as int;
    let ghost ib = input_base as int;
    let ghost orig = old(output_buffer)@;
    let ghost lossless = spec_lossless(*format, bx, by, ox, oy, ob, orig.len() as int)
        && spec_footprint_zero(orig, *format, bx, by, ox, oy, ob);
    proof {
        if lossless {
            tile_partial_init(orig, input_buffer@, *format, bx, by, ox, oy, ob, ib);
        }
    }
    let mut input_offset: u32 = 0;
    let mut y: u32 = 0;
    while y < blocks_y
        invariant
            y <= blocks_y,
            input_offset == y * bx * bpb,
            output_buffer.len() == old(output_buffer).len(),
            lossless ==> spec_tile_partial(
                orig,
                output_buffer@,
                input_buffer@,
                *format,
                bx,
                by,
                ox,
                oy,
                ob,
                ib,
                0,
                y as int,
            ),
        decreases blocks_y - y,
    {
        proof {
            assert(y * bx * bpb + bx * bpb <= by * bx * bpb && (y * bx + bx) * bpb == y * bx * bpb
                + bx * bpb && by * bx * bpb == bx * by * bpb && (y + 1) * bx * bpb == y * bx * bpb
                + bx * bpb && (y * bx + 0) * bpb == y * bx * bpb) by (nonlinear_arith)
                requires
                    0 <= y < by,
                    0 <= bx,
                    0 <= bpb,
            ;
        }
        let input_row_offset = tiled_offset_2d_row(y + offset_y, blocks_x, log2_bpp);
        let mut x: u32 = 0;
        while x < blocks_x
            invariant
                x <= blocks_x,
                input_offset == (y * bx + x) * bpb,
                output_buffer.len() == old(output_buffer).len(),
                lossless ==> spec_tile_partial(
                    orig,
                    output_buffer@,
                    input_buffer@,
                    *format,
                    bx,
                    by,
                    ox,
                    oy,
                    ob,
                    ib,
                    x as int,
                    y as int,
                ),
            decreases blocks_x - x,
        {
            proof {
                assert((y * bx + x) * bpb + bpb == (y * bx + x + 1) * bpb && (y * bx + x + 1) * bpb
                    <= bx * by * bpb && 0 <= (y * bx + x) * bpb) by (nonlinear_arith)
                    requires
                        0 <= x < bx,
                        0 <= y < by,
                        0 <= bpb,
                ;
            }
            let col = tiled_offset_2d_column(
                x + offset_x,
                y + offset_y,
                log2_bpp,
                input_row_offset,
            );
            let block_start = (col / bytes_per_block) * bytes_per_block;
            proof {
                assert(block_start == spec_block_addr(*format, bx, ox, oy, x as int, y as int));
            }
            let remaining = output_buffer.len() - output_base;
            if remaining < (block_start + bytes_per_block) as usize {
                proof {
                    assert(!spec_blocks_fit(*format, bx, by, ox, oy, ob, orig.len() as int));
                }
                return Err(crate::Error::GuestBufferTooSmall);
            }
            let ghost before = output_buffer@;
            let ghost addr = block_start as int;
            let ok = copy(
                output_buffer,
                output_base + block_start as usize,
                input_buffer,
                input_base + input_offset as usize,
                bytes_per_block as usize,
            );
            if !ok {
                proof {
                    if lossless {
                        tile_partial_block_zero(
                            orig,
                            before,
                            input_buffer@,
                            *format,
                            bx,
                            by,
                            ox,
                            oy,
                            ob,
                            ib,
                            x as int,
                            y as int,
                        );
                        assert(false);
                    }
                }
                return Err(crate::Error::Overwrite);
            }
            proof {
                if lossless {
                    assert forall|k: int| 0 <= k < bpb implies #[trigger] output_buffer@[ob + addr
                        + k] == input_buffer@[ib + spec_linear(
                        bx,
                        bpb,
                        x as int,
                        y as int,
                        spec_swap(k),
                    )] by {
                        assert(output_buffer@[(output_base + block_start as usize) as int + k]
                            == input_buffer@[(input_base + input_offset as usize) as int
                            + spec_swap(k)]);
                    }
                    tile_step_proof(
                        orig,
                        before,
                        output_buffer@,
                        input_buffer@,
                        *format,
                        bx,
                        by,
                        ox,
                        oy,
                        ob,
                        ib,
                        x as int,
                        y as int,
                    );
                }
            }
            input_offset = input_offset + bytes_per_block;
            x = x + 1;
        }
        proof {
            if lossless {
                tile_partial_row_end(
                    orig,
                    output_buffer@,
                    input_buffer@,
                    *format,
                    bx,
                    by,
                    ox,
                    oy,
                    ob,
                    ib,
                    y as int,
                );
            }
        }
        y = y + 1;
    }
    proof {
        if lossless {
            tile_partial_complete(orig, output_buffer@, input_buffer@, *format, bx, by, ox, oy, ob, ib);
        }
    }
    Ok(total)
}


} // verus!
