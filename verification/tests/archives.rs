use std::io::Write;

use pointman::assets::arch00::{Arch00, ArchHeader, Compression, COMP_RAW, COMP_ZLIB, LTAR_MAGIC};
use pointman::assets::archive::GameArchive;
use pointman::assets::error::AssetError;
use pointman::assets::extensions::{kind_from_path, ResourceKind};
use pointman::assets::inflate::{decompress_fear_blocks, decompress_payload, try_zlib};
use pointman::assets::keys::{archive_key, material_key};
use pointman::assets::rez::{parse_dir, RezArchive};

fn build_archive(folder: &str, name: &str, payload: &[u8], method: u32, raw_size: u32) -> Vec<u8> {
    let mut names = Vec::new();
    let folder_off = 0u32;
    names.extend_from_slice(folder.as_bytes());
    names.push(0);
    let file_off = names.len() as u32;
    names.extend_from_slice(name.as_bytes());
    names.push(0);

    let mut header = [0u8; 48];
    header[0..4].copy_from_slice(&LTAR_MAGIC);
    header[4..8].copy_from_slice(&1u32.to_le_bytes());
    header[8..12].copy_from_slice(&(names.len() as u32).to_le_bytes());
    header[12..16].copy_from_slice(&1u32.to_le_bytes());
    header[16..20].copy_from_slice(&1u32.to_le_bytes());

    let data_offset = 48 + names.len() + 32 + 16;
    let mut file_entry = [0u8; 32];
    file_entry[0..4].copy_from_slice(&file_off.to_le_bytes());
    file_entry[4..8].copy_from_slice(&(data_offset as u32).to_le_bytes());
    file_entry[12..16].copy_from_slice(&(payload.len() as u32).to_le_bytes());
    file_entry[20..24].copy_from_slice(&raw_size.to_le_bytes());
    file_entry[28..32].copy_from_slice(&method.to_le_bytes());

    let mut folder_entry = [0u8; 16];
    folder_entry[0..4].copy_from_slice(&folder_off.to_le_bytes());
    folder_entry[12..16].copy_from_slice(&1u32.to_le_bytes());

    let mut out = Vec::new();
    out.extend_from_slice(&header);
    out.extend_from_slice(&names);
    out.extend_from_slice(&file_entry);
    out.extend_from_slice(&folder_entry);
    out.extend_from_slice(payload);
    out
}

fn build_raw_archive(folder: &str, name: &str, payload: &[u8]) -> Vec<u8> {
    build_archive(folder, name, payload, COMP_RAW, payload.len() as u32)
}

fn zlib(data: &[u8]) -> Vec<u8> {
    let mut e = flate2::write::ZlibEncoder::new(Vec::new(), flate2::Compression::default());
    e.write_all(data).unwrap();
    e.finish().unwrap()
}

fn deflate(data: &[u8]) -> Vec<u8> {
    let mut e = flate2::write::DeflateEncoder::new(Vec::new(), flate2::Compression::default());
    e.write_all(data).unwrap();
    e.finish().unwrap()
}

#[test]
fn roundtrip_raw() {
    let bytes = build_raw_archive("Worlds", "Intro.World00p", b"world-bytes");
    let arch = Arch00::from_reader(bytes).unwrap();
    let files: Vec<_> = arch.files().iter().map(|f| f.path.clone()).collect();
    assert_eq!(files, ["Worlds/Intro.World00p"]);
    assert_eq!(arch.read("Worlds/Intro.World00p").unwrap(), b"world-bytes");
}

#[test]
fn read_ignores_case_and_backslashes() {
    let bytes = build_raw_archive("Worlds", "Intro.World00p", b"world-bytes");
    let arch = Arch00::from_reader(bytes).unwrap();
    assert_eq!(arch.read("WORLDS\\intro.world00p").unwrap(), b"world-bytes");
    match arch.read("Worlds/Missing.World00p") {
        Err(AssetError::NotFound(p)) => assert_eq!(p, "Worlds/Missing.World00p"),
        other => panic!("got {other:?}"),
    }
}

#[test]
fn zlib_entry_decompresses() {
    let data = b"compressed payload, compressed payload, compressed payload";
    let packed = zlib(data);
    let bytes = build_archive("", "a.txt", &packed, COMP_ZLIB, data.len() as u32);
    let arch = Arch00::from_reader(bytes).unwrap();
    assert_eq!(arch.files()[0].path, "a.txt");
    assert_eq!(arch.files()[0].compression, Compression::Zlib);
    assert_eq!(arch.read("a.txt").unwrap(), data.to_vec());
}

#[test]
fn arch_errors() {
    assert!(matches!(Arch00::from_reader(vec![0u8; 10]), Err(AssetError::UnexpectedEof)));
    let mut bytes = build_raw_archive("Worlds", "Intro.World00p", b"x");
    bytes[0] = b'X';
    assert!(matches!(Arch00::from_reader(bytes), Err(AssetError::Invalid("LTAR magic"))));
    let bytes = build_archive("Worlds", "Intro.World00p", b"x", 5, 1);
    assert!(matches!(Arch00::from_reader(bytes), Err(AssetError::Compression(5))));
    let bytes = build_raw_archive("Worlds", "Intro.World00p", b"x");
    let short = bytes[..60].to_vec();
    assert!(matches!(Arch00::from_reader(short), Err(AssetError::UnexpectedEof)));
}

#[test]
fn header_fields() {
    let bytes = build_raw_archive("W", "a", b"x");
    let h = ArchHeader::parse(&bytes).unwrap();
    assert_eq!(h.version, 1);
    assert_eq!(h.folder_count, 1);
    assert_eq!(h.file_count, 1);
    assert_eq!(h.name_table_size, 4);
    assert!(matches!(ArchHeader::parse(&bytes[..47]), Err(AssetError::Truncated("Arch00 header"))));
}

#[test]
fn whole_zlib_stream_must_fill_raw_size() {
    let data = b"hello hello hello hello";
    let packed = zlib(data);
    assert_eq!(try_zlib(&packed, data.len() as u32).unwrap(), data.to_vec());
    assert!(matches!(try_zlib(&packed, data.len() as u32 + 5), Err(AssetError::Invalid("zlib size"))));
    assert!(matches!(try_zlib(b"not zlib at all", 4), Err(AssetError::Zlib)));
}

#[test]
fn fear_blocks_mix_stored_and_deflated() {
    let first = b"stored!";
    let second = b"deflated deflated deflated deflated";
    let packed = deflate(second);
    let mut blob = Vec::new();
    blob.extend_from_slice(&(first.len() as u32).to_le_bytes());
    blob.extend_from_slice(&(first.len() as u32).to_le_bytes());
    blob.extend_from_slice(first);
    blob.push(0);
    blob.extend_from_slice(&(packed.len() as u32).to_le_bytes());
    blob.extend_from_slice(&(second.len() as u32).to_le_bytes());
    blob.extend_from_slice(&packed);
    let total = (first.len() + second.len()) as u32;
    let mut want = first.to_vec();
    want.extend_from_slice(second);
    assert_eq!(decompress_fear_blocks(&blob, total).unwrap(), want);
    assert_eq!(decompress_payload(&blob, total).unwrap(), want);
    assert!(matches!(decompress_fear_blocks(&blob, total + 1), Err(AssetError::Invalid("block zlib size"))));
    let mut cut = blob.clone();
    cut[0] = 200;
    assert!(matches!(decompress_fear_blocks(&cut, 0), Err(AssetError::Truncated("zlib block"))));
}

#[test]
fn aliases_intro_mirror_typo() {
    assert_eq!(
        material_key(r"Materials\Tech\Research\Tile_MIrrow02.Mat00"),
        "Materials/Tech/Research/Tile_Mirror02.Mat00"
    );
}

#[test]
fn archive_keys_use_forward_slashes() {
    let k = archive_key(r"Worlds\Release\Intro.World00p");
    assert_eq!(k, "Worlds/Release/Intro.World00p");
    assert_eq!(archive_key(&k), k);
    assert!(!k.contains('\\'));
    assert_eq!(material_key(r"A\b.Mat00"), "A/b.Mat00");
}

#[test]
fn kinds_by_extension() {
    assert_eq!(kind_from_path("Worlds/Intro.World00p"), ResourceKind::WorldPacked);
    assert_eq!(kind_from_path("FEAR_1.ARCH00"), ResourceKind::ArchiveArch00);
    assert_eq!(kind_from_path("x.arch01"), ResourceKind::ArchiveArch00);
    assert_eq!(kind_from_path("old.rez"), ResourceKind::ArchiveRez);
    assert_eq!(kind_from_path(r"Tex\Floor.DDS"), ResourceKind::TextureDds);
    assert_eq!(kind_from_path("Sky.Mat00"), ResourceKind::Material);
    assert_eq!(kind_from_path("dir.dds/readme"), ResourceKind::Other);
    assert_eq!(kind_from_path("wav"), ResourceKind::SoundWav);
    assert_eq!(kind_from_path(""), ResourceKind::Other);
}

fn pad60(s: &str) -> [u8; 60] {
    let mut b = [0u8; 60];
    b[..s.len()].copy_from_slice(s.as_bytes());
    b
}

fn build_rez(payload: &[u8]) -> Vec<u8> {
    let mut dir = Vec::new();
    dir.extend_from_slice(&0u32.to_le_bytes());
    dir.extend_from_slice(&171u32.to_le_bytes());
    dir.extend_from_slice(&(payload.len() as u32).to_le_bytes());
    dir.extend_from_slice(&0u32.to_le_bytes());
    dir.extend_from_slice(&1u32.to_le_bytes());
    dir.extend_from_slice(b"xtd\0");
    dir.extend_from_slice(&0u32.to_le_bytes());
    dir.extend_from_slice(b"sample\0\0");

    let header_len = 127 + 11 * 4;
    let payload_off = header_len as u32;
    let dir_off = payload_off + payload.len() as u32;
    dir[4..8].copy_from_slice(&payload_off.to_le_bytes());

    let mut file = Vec::new();
    file.push(13);
    file.push(10);
    file.extend_from_slice(&pad60("RezMgr Version 1 Copyright (C) 1995 MONOLITH INC."));
    file.push(13);
    file.push(10);
    file.extend_from_slice(&pad60("LithTech Resource File"));
    file.push(13);
    file.push(10);
    file.push(26);
    file.extend_from_slice(&1u32.to_le_bytes());
    file.extend_from_slice(&dir_off.to_le_bytes());
    file.extend_from_slice(&(dir.len() as u32).to_le_bytes());
    file.extend_from_slice(&[0u8; 32]);
    assert_eq!(file.len(), header_len);
    file.extend_from_slice(payload);
    file.extend_from_slice(&dir);
    file
}

#[test]
fn roundtrip_file() {
    let file = build_rez(b"hello-rez");
    assert!(RezArchive::in_bounds(&file));
    let rez = RezArchive::from_reader(file).unwrap();
    let names: Vec<_> = rez.entries().iter().map(|e| e.path.clone()).collect();
    assert_eq!(names, ["sample.dtx"]);
    assert_eq!(rez.entries()[0].kind, "dtx");
    assert_eq!(rez.read("sample.dtx").unwrap(), b"hello-rez");
}

#[test]
fn rez_errors() {
    let mut file = build_rez(b"hello-rez");
    file[3] = b'X';
    assert!(matches!(RezArchive::from_reader(file), Err(AssetError::Invalid("REZ signature"))));
    let mut file = build_rez(b"hello-rez");
    file[127] = 2;
    assert!(matches!(RezArchive::from_reader(file), Err(AssetError::Invalid("REZ version"))));
    assert!(matches!(RezArchive::from_reader(vec![13, 10]), Err(AssetError::UnexpectedEof)));
}

#[test]
fn rez_dir_records() {
    let mut dir = Vec::new();
    dir.extend_from_slice(&1u32.to_le_bytes());
    dir.extend_from_slice(&[0u8; 12]);
    dir.extend_from_slice(b"sub\0");
    dir.extend_from_slice(&0u32.to_le_bytes());
    dir.extend_from_slice(&[0u8; 16]);
    dir.extend_from_slice(b"\0\0\0\0");
    dir.extend_from_slice(&0u32.to_le_bytes());
    dir.extend_from_slice(b"noext\0\0");
    let entries = parse_dir(&dir, "pre").unwrap();
    assert_eq!(entries.len(), 1);
    assert_eq!(entries[0].path, "pre/noext");
    let mut bad = Vec::new();
    bad.extend_from_slice(&7u32.to_le_bytes());
    assert!(matches!(parse_dir(&bad, ""), Err(AssetError::Invalid("REZ entry type"))));
}

#[test]
fn game_archive_by_magic() {
    let bytes = build_raw_archive("Worlds", "Intro.World00p", b"world-bytes");
    let arch = GameArchive::from_bytes("a.Arch00", bytes).unwrap();
    assert_eq!(arch.list(), ["Worlds/Intro.World00p"]);
    assert_eq!(arch.read("worlds/intro.world00p").unwrap(), b"world-bytes");
    let rez = GameArchive::from_bytes("b.rez", build_rez(b"hi")).unwrap();
    assert_eq!(rez.list(), ["sample.dtx"]);
    match GameArchive::from_bytes("c.bin", b"ABCDEFG".to_vec()) {
        Err(AssetError::UnknownArchive(p, m)) => {
            assert_eq!(p, "c.bin");
            assert_eq!(&m, b"ABCD");
        }
        _ => panic!("expected an unknown archive"),
    }
    assert!(matches!(GameArchive::from_bytes("d", vec![1, 2]), Err(AssetError::UnexpectedEof)));
}

#[test]
fn every_listed_path_reads_back() {
    let bytes = build_raw_archive("Worlds\\Release", "Sub\\Intro.World00p", b"world-bytes");
    let arch = Arch00::from_reader(bytes).unwrap();
    let files: Vec<_> = arch.files().iter().map(|f| f.path.clone()).collect();
    assert_eq!(files, ["Worlds/Release/Sub/Intro.World00p"]);
    for path in &files {
        assert_eq!(arch.read(path).unwrap(), b"world-bytes");
    }
}

fn mat_bytes(shader: &str) -> Vec<u8> {
    let mut b = Vec::new();
    b.extend_from_slice(b"LTMI");
    b.extend_from_slice(&1u32.to_le_bytes());
    b.extend_from_slice(&(shader.len() as u16).to_le_bytes());
    b.extend_from_slice(shader.as_bytes());
    b.extend_from_slice(&0u32.to_le_bytes());
    b
}

#[test]
fn sky_material_is_read_from_the_archive() {
    let bytes = build_raw_archive("Office", "Dome.Mat00", &mat_bytes(r"shaders\rigid\Solid\skybox.fx"));
    let pack = GameArchive::from_bytes("a.Arch00", bytes).unwrap();
    assert!(pointman::sky::is_skybox_in(&pack, r"Office\Dome.Mat00"));
    assert!(pointman::sky::is_skybox_in(&pack, r"Missing\Sky_Day.Mat00"));
    assert!(!pointman::sky::is_skybox_in(&pack, r"Missing\Floor.Mat00"));
    let wall = build_raw_archive("Office", "Wall.Mat00", &mat_bytes(r"shaders\model.fx"));
    let pack = GameArchive::from_bytes("b.Arch00", wall).unwrap();
    assert!(!pointman::sky::is_skybox_in(&pack, r"Office\Wall.Mat00"));
}
