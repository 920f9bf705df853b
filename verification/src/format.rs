use vstd::prelude::*;

verus! {

/// The texel encodings the converter understands.
#[derive(Debug, Copy, Clone, PartialEq, Eq, Structural)]
pub enum Format {
    Dxt1,
    Dxt3,
    Dxt5,
    RGBA8,
}

/// Block geometry of a format: block dimensions in pixels and the byte width
/// of one block.
#[derive(Debug, Copy, Clone, PartialEq, Eq, Structural)]
pub struct FormatData {
    pub block_width: u32,
    pub block_height: u32,
    pub bytes_per_block: u32,
}

/// The block geometry belonging to each format tag.
pub open spec fn spec_format_data(format: Format) -> FormatData {
    match format {
        Format::Dxt1 => FormatData { block_width: 4, block_height: 4, bytes_per_block: 8 },
        Format::Dxt3 => FormatData { block_width: 4, block_height: 4, bytes_per_block: 16 },
        Format::Dxt5 => FormatData { block_width: 4, block_height: 4, bytes_per_block: 16 },
        Format::RGBA8 => FormatData { block_width: 1, block_height: 1, bytes_per_block: 4 },
    }
}

impl FormatData {
    /// A descriptor is one of the four known block geometries.
    pub open spec fn wf(self) -> bool {
        exists|f: Format| self == spec_format_data(f)
    }
}

pub fn get_format_data(format: &Format) -> (r: FormatData)
    ensures
        r == spec_format_data(*format),
        r.wf(),
{
    let r = match format {
        Format::Dxt1 => FormatData { block_width: 4, block_height: 4, bytes_per_block: 8 },
        Format::Dxt3 => FormatData { block_width: 4, block_height: 4, bytes_per_block: 16 },
        Format::Dxt5 => FormatData { block_width: 4, block_height: 4, bytes_per_block: 16 },
        Format::RGBA8 => FormatData { block_width: 1, block_height: 1, bytes_per_block: 4 },
    };
    proof {
        assert(r == spec_format_data(*format));
    }
    r
}

/// Every well-formed descriptor keeps its fields in the ranges the address
/// math relies on.
pub proof fn lemma_format_data_ranges(d: FormatData)
    requires
        d.wf(),
    ensures
        1 <= d.block_width <= 4,
        1 <= d.block_height <= 4,
        d.bytes_per_block == 4 || d.bytes_per_block == 8 || d.bytes_per_block == 16,
        d.bytes_per_block % 2 == 0,
        (d.block_width == 1 && d.block_height == 1 && d.bytes_per_block == 4) || (d.block_width
            == 4 && d.block_height == 4),
{
    let f = choose|f: Format| d == spec_format_data(f);
    assert(d == spec_format_data(f));
}

} // verus!
