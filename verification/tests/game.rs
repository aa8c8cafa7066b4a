use pointman::assets::world_model_draw::{looks_like_shadow_catcher, BakedOverlapIndex};
use pointman::game::{
    archcfg_lines, archcfg_paths, detect_game_root, fear_root_markers, join_path_str,
    looks_like_fear_root, scan_archives, steam_candidates, ArchiveProbe, Config, GameMount,
};
use pointman::player::{jump_allowed, stand_raise_cm, WALK_SPEED_CM};
use pointman::render::{
    black_spec_upload, copy_regions, dummy_upload, flat_normal_upload, mip_bytes, texture_format,
    white_upload, TextureFormat,
};
use pointman::assets::dds::DdsFormat;
use pointman::sky::{is_skybox_material, looks_like_sky_surface, INTRO_SKY_MAT};

#[test]
fn walk_speed_exists_for_pc_later() {
    assert_eq!(WALK_SPEED_CM as f32, 280.0);
}

#[test]
fn jump_only_from_the_ground_standing() {
    assert!(jump_allowed(true, false, true));
    assert!(!jump_allowed(false, false, true));
    assert!(!jump_allowed(true, true, true));
    assert!(!jump_allowed(true, false, false));
    assert_eq!(stand_raise_cm(), 55);
}

#[test]
fn archcfg_order() {
    let list = archcfg_paths("/games/fear", "b.Arch00\na.Arch00\n");
    assert_eq!(list, ["/games/fear/b.Arch00", "/games/fear/a.Arch00"]);
}

#[test]
fn archcfg_skips_blanks_and_comments() {
    let lines = archcfg_lines("  FEAR.Arch00 \r\n; old\n# also old\n\n\tFEAR_1.Arch00");
    assert_eq!(lines, ["FEAR.Arch00", "FEAR_1.Arch00"]);
    assert!(archcfg_lines("").is_empty());
    assert_eq!(archcfg_paths("/r/", "/abs/x.Arch00\ny.Arch00"), ["/abs/x.Arch00", "/r/y.Arch00"]);
}

#[test]
fn joins_like_path_join() {
    assert_eq!(join_path_str("/a", "b"), "/a/b");
    assert_eq!(join_path_str("/a/", "b"), "/a/b");
    assert_eq!(join_path_str("", "b"), "b");
    assert_eq!(join_path_str("/a", "/b"), "/b");
}

#[test]
fn install_candidates_in_order() {
    let c = steam_candidates(Some("/custom"), Some("/home/u"), Some("/work"));
    assert_eq!(c.len(), 6);
    assert_eq!(c[0], "/custom");
    assert_eq!(c[1], "/home/u/.local/share/Steam/steamapps/common/FEAR Ultimate Shooter Edition");
    assert_eq!(c[4], "/home/u/.steam/debian-installation/steamapps/common/FEAR Ultimate Shooter Edition");
    assert_eq!(c[5], "/work/game-data");
    assert!(steam_candidates(None, None, None).is_empty());
}

#[test]
fn root_detection_takes_the_first_install() {
    let (exe, cfg) = fear_root_markers("/g");
    assert_eq!(exe, "/g/FEAR.exe");
    assert_eq!(cfg, "/g/Default.archcfg");
    assert!(looks_like_fear_root(true, true));
    assert!(!looks_like_fear_root(true, false));
    let c = vec!["a".to_string(), "b".to_string(), "c".to_string()];
    assert_eq!(detect_game_root(&c, &vec![false, true, true]), Some("b".to_string()));
    assert_eq!(detect_game_root(&c, &vec![false, false, false]), None);
    assert_eq!(GameMount::archcfg_of("/g"), "/g/Default.archcfg");
}

#[test]
fn configured_root_wins_when_it_is_a_directory() {
    let mut cfg = Config::default();
    assert_eq!(cfg.game_root(true, Some("/d".to_string())), Some("/d".to_string()));
    cfg.game.root = Some("/mine".to_string());
    assert_eq!(cfg.game_root(true, None), Some("/mine".to_string()));
    assert_eq!(cfg.game_root(false, Some("/d".to_string())), Some("/d".to_string()));
    assert_eq!(Config::default().game.archcfg, "");
}

#[test]
fn scan_keeps_sorted_archives() {
    let entries = vec![
        "/g/FEAR_2.Arch00".to_string(),
        "/g/readme.txt".to_string(),
        "/g/FEAR.Arch00".to_string(),
        "/g/old.REZ".to_string(),
        "/g/FEAR_1.arch01".to_string(),
    ];
    assert_eq!(
        scan_archives(&entries),
        ["/g/FEAR.Arch00", "/g/FEAR_1.arch01", "/g/FEAR_2.Arch00", "/g/old.REZ"]
    );
}

#[test]
fn inventory_adds_successful_probes() {
    let probes = vec![
        Ok(ArchiveProbe { path: "a".to_string(), bytes: 100, files: 3, folders: 1 }),
        Err("b: broken".to_string()),
        Ok(ArchiveProbe { path: "c".to_string(), bytes: 50, files: 2, folders: 1 }),
    ];
    assert_eq!(GameMount::inventory_totals(&probes), (5, 150));
}

#[test]
fn sky_by_name_or_shader() {
    assert!(looks_like_sky_surface("Sky_Day.Mat00"));
    assert!(looks_like_sky_surface(r"Prefabs\CLOUDPLANE01.Mat00"));
    assert!(!looks_like_sky_surface("Walls/Brick.Mat00"));
    assert!(is_skybox_material(INTRO_SKY_MAT, None));
    assert!(!is_skybox_material("Walls/Brick.Mat00", None));
    assert!(!is_skybox_material("Walls/Brick.Mat00", Some(b"garbage")));
    let mut mat = Vec::new();
    mat.extend_from_slice(b"LTMI");
    mat.extend_from_slice(&1u32.to_le_bytes());
    let shader = b"shaders/SkyBox.fx";
    mat.extend_from_slice(&(shader.len() as u16).to_le_bytes());
    mat.extend_from_slice(shader);
    mat.extend_from_slice(&0u32.to_le_bytes());
    assert!(is_skybox_material("Walls/Odd.Mat00", Some(&mat)));
}

#[test]
fn shadow_planes_are_not_props() {
    assert!(looks_like_shadow_catcher("Car_Shadows"));
    assert!(!looks_like_shadow_catcher("Crate00"));
}

#[test]
fn baked_cells_index() {
    let idx = BakedOverlapIndex::from_cells(&[(0, 0, 0), (2, 0, 0), (0, 0, 0)]);
    assert!(idx.contains((2, 0, 0)));
    assert!(!idx.contains((1, 0, 0)));
    assert_eq!(idx.hits(&[(0, 0, 0), (1, 0, 0), (2, 0, 0), (0, 0, 0)]), 3);
}

#[test]
fn builtin_uploads() {
    assert_eq!(white_upload().bytes, [255, 255, 255, 255]);
    assert_eq!(flat_normal_upload().bytes, [128, 128, 255, 255]);
    assert_eq!(black_spec_upload().bytes, [0, 0, 0, 255]);
    let d = dummy_upload();
    assert_eq!(d.bytes.len(), 24);
    assert_eq!(&d.bytes[0..4], &[40, 40, 45, 255]);
    assert_eq!(texture_format(DdsFormat::Bc2), TextureFormat::Bc2);
}

#[test]
fn mip_layout_of_uploads() {
    assert_eq!(mip_bytes(4, 4, TextureFormat::Rgba8), 64);
    assert_eq!(mip_bytes(0, 0, TextureFormat::Bc1), 8);
    let r = copy_regions(8, 4, 3, TextureFormat::Rgba8, 1);
    assert_eq!(r.len(), 3);
    assert_eq!((r[0].offset, r[0].width, r[0].height), (0, 8, 4));
    assert_eq!((r[1].offset, r[1].width, r[1].height, r[1].mip_level), (128, 4, 2, 1));
    assert_eq!((r[2].offset, r[2].width, r[2].height), (160, 2, 1));
    let cube = copy_regions(4, 4, 0, TextureFormat::Bc1, 6);
    assert_eq!(cube.len(), 6);
    assert_eq!((cube[5].offset, cube[5].layer, cube[5].mip_level), (40, 5, 0));
}
