use xenotile::build_texture_info;
use xenotile::format::{get_format_data, Format};
use xenotile::Config;

fn test_config() -> Config {
    Config {
        width: 128,
        height: 128,
        depth: Some(1),
        pitch: 4,
        tiled: true,
        packed_mips: true,
        format: Format::Dxt5,
        mipmap_levels: Some(8),
        base_address: 0,
        mip_address: 4,
    }
}

#[test]
fn get_mip_location() {
    let config = test_config();
    let format_data = get_format_data(&config.format);
    let info = build_texture_info(&config, &format_data);

    let (mip_offset, offset_x, offset_y) = info.get_mip_location(1, true);
    assert_eq!(offset_x, 0);
    assert_eq!(offset_y, 0);
    assert_eq!(mip_offset, 16384);

    let (mip_offset, offset_x, offset_y) = info.get_mip_location(3, true);
    assert_eq!(offset_x, 4);
    assert_eq!(offset_y, 0);
    assert_eq!(mip_offset, 49152);

    let (mip_offset, offset_x, offset_y) = info.get_mip_location(0, true);
    assert_eq!(offset_x, 0);
    assert_eq!(offset_y, 0);
    assert_eq!(mip_offset, 0);

    let (mip_offset, offset_x, offset_y) = info.get_mip_location(8, true);
    assert_eq!(offset_x, 0);
    assert_eq!(offset_y, 0);
    assert_eq!(mip_offset, 49152);

    let (mip_offset, offset_x, offset_y) = info.get_mip_location(7, true);
    assert_eq!(offset_x, 0);
    assert_eq!(offset_y, 1);
    assert_eq!(mip_offset, 49152);

    let (width, height) = info.get_mip_size(4);
    assert_eq!(width, 8);
    assert_eq!(height, 8);

    let (offset_x, offset_y, _) = info.get_packed_tile_offset(8);
    assert_eq!(offset_x, 0);
    assert_eq!(offset_y, 0);

    let (offset_x, offset_y, _) = info.get_packed_tile_offset(0);
    assert_eq!(offset_x, 0);
    assert_eq!(offset_y, 0);

    let (offset_x, offset_y, _) = info.get_packed_tile_offset(7);
    assert_eq!(offset_x, 0);
    assert_eq!(offset_y, 0);

    let (offset_x, offset_y, _) = info.get_packed_tile_offset0(2, 2, 16);
    assert_eq!(offset_x, 0);
    assert_eq!(offset_y, 0);

    let (offset_x, offset_y, packed) = info.get_packed_tile_offset0(16, 16, 3);
    assert_eq!(offset_x, 0);
    assert_eq!(offset_y, 2);
    assert!(packed);
}

#[test]
fn mip_extent_aligns_to_tiles() {
    let config = test_config();
    let format_data = get_format_data(&config.format);
    let info = build_texture_info(&config, &format_data);
    let extent = info.get_mip_extent(1, true);
    assert_eq!(extent.block_pitch_h, 32);
    assert_eq!(extent.block_pitch_v, 32);
    assert_eq!(extent.pitch, 128);
    assert_eq!(extent.height, 128);
    assert_eq!(extent.all_blocks(), 1024);
}

#[test]
fn format_table() {
    let d = get_format_data(&Format::Dxt1);
    assert_eq!((d.block_width, d.block_height, d.bytes_per_block), (4, 4, 8));
    let d = get_format_data(&Format::Dxt3);
    assert_eq!((d.block_width, d.block_height, d.bytes_per_block), (4, 4, 16));
    let d = get_format_data(&Format::Dxt5);
    assert_eq!((d.block_width, d.block_height, d.bytes_per_block), (4, 4, 16));
    let d = get_format_data(&Format::RGBA8);
    assert_eq!((d.block_width, d.block_height, d.bytes_per_block), (1, 1, 4));
}
