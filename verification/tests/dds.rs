use pointman::assets::dds::{
    declared_sizes_fit, mip_bytes, mip_chain_bytes, DdsCubemap, DdsFormat, DdsImage, CUBEMAP_FACES,
    DDPF_ALPHAPIXELS, DDPF_RGB, DDSCAPS2_CUBEMAP, DDSCAPS2_CUBEMAP_ALL_FACES, DDS_MAGIC, DXT1, DXT5,
    HEADER_SIZE, MASK_A, MASK_B, MASK_G, MASK_R,
};
use pointman::assets::error::AssetError;

fn dxt1_header(len: usize, caps2: u32) -> Vec<u8> {
    let mut bytes = vec![0u8; len];
    bytes[0..4].copy_from_slice(&DDS_MAGIC.to_le_bytes());
    bytes[4..8].copy_from_slice(&124u32.to_le_bytes());
    bytes[12..16].copy_from_slice(&4u32.to_le_bytes());
    bytes[16..20].copy_from_slice(&4u32.to_le_bytes());
    bytes[28..32].copy_from_slice(&1u32.to_le_bytes());
    bytes[84..88].copy_from_slice(&DXT1.to_le_bytes());
    bytes[112..116].copy_from_slice(&caps2.to_le_bytes());
    bytes
}

#[test]
fn parse_dxt1_4x4() {
    let mut bytes = vec![0u8; HEADER_SIZE + 8];
    bytes[0..4].copy_from_slice(&DDS_MAGIC.to_le_bytes());
    bytes[4..8].copy_from_slice(&124u32.to_le_bytes());
    bytes[12..16].copy_from_slice(&4u32.to_le_bytes());
    bytes[16..20].copy_from_slice(&4u32.to_le_bytes());
    bytes[28..32].copy_from_slice(&1u32.to_le_bytes());
    bytes[84..88].copy_from_slice(&DXT1.to_le_bytes());
    let img = DdsImage::parse(&bytes).unwrap();
    assert_eq!(img.width, 4);
    assert_eq!(img.height, 4);
    assert_eq!(img.format, DdsFormat::Bc1);
    assert_eq!(img.bytes.len(), 8);
}

#[test]
fn parse_bgra8_1x1_normal() {
    let mut bytes = vec![0u8; HEADER_SIZE + 4];
    bytes[0..4].copy_from_slice(&DDS_MAGIC.to_le_bytes());
    bytes[4..8].copy_from_slice(&124u32.to_le_bytes());
    bytes[12..16].copy_from_slice(&1u32.to_le_bytes());
    bytes[16..20].copy_from_slice(&1u32.to_le_bytes());
    bytes[28..32].copy_from_slice(&0u32.to_le_bytes());
    bytes[80..84].copy_from_slice(&(DDPF_RGB | DDPF_ALPHAPIXELS).to_le_bytes());
    bytes[88..92].copy_from_slice(&32u32.to_le_bytes());
    bytes[92..96].copy_from_slice(&MASK_R.to_le_bytes());
    bytes[96..100].copy_from_slice(&MASK_G.to_le_bytes());
    bytes[100..104].copy_from_slice(&MASK_B.to_le_bytes());
    bytes[104..108].copy_from_slice(&MASK_A.to_le_bytes());
    bytes[128..132].copy_from_slice(&[254, 127, 127, 30]);
    let img = DdsImage::parse(&bytes).unwrap();
    assert_eq!(img.format, DdsFormat::Bgra8);
    assert_eq!(img.mip_count, 1);
    assert_eq!(img.bytes, [254, 127, 127, 30]);
}

#[test]
fn rejects_cubemap_as_2d() {
    let bytes = dxt1_header(HEADER_SIZE + 8, DDSCAPS2_CUBEMAP);
    let err = DdsImage::parse(&bytes).unwrap_err();
    assert!(matches!(err, AssetError::Invalid("DDS cubemap")), "got {err:?}");
}

#[test]
fn parse_cubemap_six_dxt1_faces() {
    let face = mip_chain_bytes(4, 4, 1, DdsFormat::Bc1);
    let mut bytes = dxt1_header(
        HEADER_SIZE + face * CUBEMAP_FACES,
        DDSCAPS2_CUBEMAP | DDSCAPS2_CUBEMAP_ALL_FACES,
    );
    bytes[HEADER_SIZE + face * 5] = 0xAB;
    let cube = DdsCubemap::parse(&bytes).unwrap();
    assert_eq!(cube.width, 4);
    assert_eq!(cube.height, 4);
    assert_eq!(cube.format, DdsFormat::Bc1);
    assert_eq!(cube.bytes.len(), face * CUBEMAP_FACES);
    assert_eq!(cube.bytes[face * 5], 0xAB);
    assert!(DdsImage::parse(&bytes).is_err());
}

#[test]
fn cubemap_without_all_faces_is_rejected() {
    let bytes = dxt1_header(HEADER_SIZE + 8, DDSCAPS2_CUBEMAP);
    let err = DdsCubemap::parse(&bytes).unwrap_err();
    assert!(matches!(err, AssetError::Invalid("DDS cubemap faces")), "got {err:?}");
}

#[test]
fn dds_errors_come_in_field_order() {
    assert!(matches!(DdsImage::parse(&[0u8; 10]), Err(AssetError::Truncated("DDS header"))));
    let mut bytes = dxt1_header(HEADER_SIZE + 8, 0);
    bytes[0] = 0;
    assert!(matches!(DdsImage::parse(&bytes), Err(AssetError::Invalid("DDS magic"))));
    let mut bytes = dxt1_header(HEADER_SIZE + 8, 0);
    bytes[4] = 100;
    assert!(matches!(DdsImage::parse(&bytes), Err(AssetError::Invalid("DDS header size"))));
    let mut bytes = dxt1_header(HEADER_SIZE + 8, 0);
    bytes[84..88].copy_from_slice(&0x1234u32.to_le_bytes());
    assert!(matches!(DdsImage::parse(&bytes), Err(AssetError::UnsupportedDds(0x1234))));
    let mut bytes = dxt1_header(HEADER_SIZE + 8, 0);
    bytes[16..20].copy_from_slice(&0u32.to_le_bytes());
    assert!(matches!(DdsImage::parse(&bytes), Err(AssetError::Invalid("DDS dimensions"))));
    let bytes = dxt1_header(HEADER_SIZE + 7, 0);
    assert!(matches!(DdsImage::parse(&bytes), Err(AssetError::Truncated("DDS payload"))));
    let bytes = dxt1_header(HEADER_SIZE + 8, DDSCAPS2_CUBEMAP | DDSCAPS2_CUBEMAP_ALL_FACES);
    assert!(matches!(DdsCubemap::parse(&bytes), Err(AssetError::Truncated("DDS cubemap"))));
    let bytes = dxt1_header(HEADER_SIZE + 8, 0);
    assert!(matches!(DdsCubemap::parse(&bytes), Err(AssetError::Invalid("DDS not cubemap"))));
}

#[test]
fn mip_sizes_round_up_to_blocks() {
    assert_eq!(mip_bytes(1, 1, DdsFormat::Bc1), 8);
    assert_eq!(mip_bytes(5, 3, DdsFormat::Bc1), 16);
    assert_eq!(mip_bytes(8, 8, DdsFormat::Bc3), 64);
    assert_eq!(mip_bytes(3, 2, DdsFormat::Bgra8), 24);
    assert_eq!(mip_chain_bytes(4, 4, 3, DdsFormat::Bc1), 24);
    assert_eq!(mip_chain_bytes(256, 256, 9, DdsFormat::Bgra8), 349524);
    assert_eq!(mip_chain_bytes(8, 2, 4, DdsFormat::Bgra8), 92);
    assert_eq!(
        mip_chain_bytes(8, 2, 4, DdsFormat::Bgra8),
        mip_bytes(8, 2, DdsFormat::Bgra8) + mip_chain_bytes(4, 1, 3, DdsFormat::Bgra8)
    );
}

#[test]
fn whole_chain_of_dxt5_is_kept() {
    let mut bytes = vec![0u8; HEADER_SIZE + 48];
    bytes[0..4].copy_from_slice(&DDS_MAGIC.to_le_bytes());
    bytes[4..8].copy_from_slice(&124u32.to_le_bytes());
    bytes[12..16].copy_from_slice(&8u32.to_le_bytes());
    bytes[16..20].copy_from_slice(&4u32.to_le_bytes());
    bytes[28..32].copy_from_slice(&2u32.to_le_bytes());
    bytes[84..88].copy_from_slice(&DXT5.to_le_bytes());
    let img = DdsImage::parse(&bytes).unwrap();
    assert_eq!(img.format, DdsFormat::Bc3);
    assert_eq!(img.height, 8);
    assert_eq!(img.bytes.len(), 48);
    assert_eq!(img.block_bytes(), 16);
}

#[test]
fn huge_declared_sizes_do_not_fit() {
    let mut bytes = dxt1_header(HEADER_SIZE, 0);
    assert!(declared_sizes_fit(&bytes, 1));
    bytes[12..16].copy_from_slice(&u32::MAX.to_le_bytes());
    assert!(!declared_sizes_fit(&bytes, 1));
    assert!(declared_sizes_fit(&[0u8; 4], 6));
}

#[test]
fn cubemap_bytes_are_six_faces_after_the_header() {
    let face = mip_chain_bytes(4, 4, 1, DdsFormat::Bc1);
    let mut bytes = dxt1_header(
        HEADER_SIZE + face * CUBEMAP_FACES + 3,
        DDSCAPS2_CUBEMAP | DDSCAPS2_CUBEMAP_ALL_FACES,
    );
    for (i, b) in bytes.iter_mut().enumerate().skip(HEADER_SIZE) {
        *b = i as u8;
    }
    let cube = DdsCubemap::parse(&bytes).unwrap();
    assert_eq!(cube.face_bytes(), face);
    assert_eq!(cube.bytes.len(), CUBEMAP_FACES * cube.face_bytes());
    assert_eq!(&cube.bytes[..], &bytes[HEADER_SIZE..HEADER_SIZE + CUBEMAP_FACES * face]);
}
