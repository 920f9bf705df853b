use xenotile::format::Format;
use xenotile::tile::tile;
use xenotile::format::get_format_data;
use xenotile::{convert_from_dds, convert_to_dds, Config, DdsImage, Error};

fn flat_config() -> Config {
    Config {
        width: 128,
        height: 128,
        depth: Some(1),
        pitch: 128,
        tiled: true,
        packed_mips: false,
        format: Format::Dxt1,
        mipmap_levels: Some(1),
        base_address: 0,
        mip_address: 0,
    }
}

fn payload(len: usize) -> Vec<u8> {
    let mut p = Vec::with_capacity(len);
    let mut i: usize = 0;
    while i < len {
        p.push(((i * 7 + 13) % 251) as u8 + 1);
        i += 1;
    }
    p
}

#[test]
fn round_trip_single_mip() {
    let config = flat_config();
    // 128x128 DXT1: 32x32 blocks of 8 bytes, one mip.
    let p = payload(32 * 32 * 8);
    let image = DdsImage {
        format: Some(Format::Dxt1),
        width: 128,
        height: 128,
        depth: 1,
        mipmap_levels: 1,
        data: p.clone(),
    };
    let guest = convert_from_dds(&config, &image).expect("host to guest");
    assert_eq!(guest.len(), 32 * 32 * 8);
    let back = convert_to_dds(&config, &guest).expect("guest to host");
    assert_eq!(back.data, p);
    assert_eq!(back.width, 128);
    assert_eq!(back.height, 128);
    assert_eq!(back.mipmap_levels, 1);
    assert_eq!(back.format, Some(Format::Dxt1));
}

#[test]
fn total_size_matches_mip_chain() {
    let config = Config {
        width: 128,
        height: 128,
        depth: Some(1),
        pitch: 4,
        tiled: true,
        packed_mips: true,
        format: Format::Dxt5,
        mipmap_levels: Some(8),
        base_address: 0,
        mip_address: 4,
    };
    // The guest image of the test texture: mips 0..2 in whole tiles, the
    // rest packed into one tile at 49152.
    let guest = vec![0u8; 65536];
    let image = convert_to_dds(&config, &guest).expect("guest to host");
    // Sum over mips of max(1, w/4) * max(1, h/4) * 16 bytes.
    let mut expected: usize = 0;
    for mip in 0..8u32 {
        let w = std::cmp::max(1, 128 >> mip) as usize;
        let h = std::cmp::max(1, 128 >> mip) as usize;
        expected += std::cmp::max(1, w / 4) * std::cmp::max(1, h / 4) * 16;
    }
    assert_eq!(image.data.len(), expected);
    assert_eq!(image.data.len(), 21872);
}

#[test]
fn validation_errors() {
    let config = flat_config();
    let good = DdsImage {
        format: Some(Format::Dxt1),
        width: 128,
        height: 128,
        depth: 1,
        mipmap_levels: 1,
        data: payload(32 * 32 * 8),
    };

    let mut image = good.clone();
    image.format = Some(Format::RGBA8);
    assert_eq!(convert_from_dds(&config, &image), Err(Error::UnsupportedFormat));

    let mut image = good.clone();
    image.format = None;
    assert_eq!(convert_from_dds(&config, &image), Err(Error::UnsupportedFormat));

    let mut image = good.clone();
    image.width = 64;
    assert_eq!(convert_from_dds(&config, &image), Err(Error::WidthMismatch));

    let mut image = good.clone();
    image.height = 64;
    assert_eq!(convert_from_dds(&config, &image), Err(Error::HeightMismatch));

    let mut image = good.clone();
    image.depth = 2;
    assert_eq!(convert_from_dds(&config, &image), Err(Error::DepthMismatch));

    let mut image = good.clone();
    image.mipmap_levels = 2;
    assert_eq!(convert_from_dds(&config, &image), Err(Error::MipCountMismatch));

    let mut image = good.clone();
    image.data.pop();
    assert_eq!(convert_from_dds(&config, &image), Err(Error::SizeMismatch));
}

#[test]
fn source_too_small() {
    let config = flat_config();
    let tiny = vec![0u8; 16];
    assert_eq!(convert_to_dds(&config, &tiny).err(), Some(Error::SourceTooSmall));
}

#[test]
fn overwrite_detected() {
    // A destination that already holds data trips the overwrite check.
    let format = get_format_data(&Format::Dxt1);
    let mut output = vec![0xFFu8; 8192];
    let input = vec![1u8; 8192];
    let r = tile(&mut output, 0, &input, 0, &format, 32, 32, 0, 0);
    assert_eq!(r, Err(Error::Overwrite));
}

#[test]
fn guest_buffer_too_small() {
    let format = get_format_data(&Format::Dxt1);
    let mut output = vec![0u8; 16];
    let input = vec![1u8; 8192];
    let r = tile(&mut output, 0, &input, 0, &format, 32, 32, 0, 0);
    assert_eq!(r, Err(Error::GuestBufferTooSmall));
}

#[test]
fn untile_reverses_tile() {
    // Move one full tile out and back at the raw block level.
    let config = flat_config();
    let p = payload(8192);
    let image = DdsImage {
        format: Some(Format::Dxt1),
        width: 128,
        height: 128,
        depth: 1,
        mipmap_levels: 1,
        data: p.clone(),
    };
    let guest = convert_from_dds(&config, &image).expect("host to guest");
    assert_ne!(guest, p);
    let back = convert_to_dds(&config, &guest).expect("guest to host");
    assert_eq!(back.data, p);
}
