use pointman::assets::error::AssetError;
use pointman::assets::mat00::{Material, DEFAULT_SPECULAR_POWER_BITS};
use pointman::assets::world00p::{
    decode_vertex, material_hash, VertexProp, WorldHeader, WorldRender, FEAR_WORLD_MAGIC,
    FEAR_WORLD_VERSION,
};
use pointman::assets::world_models::{Vec3Bits, WorldBsp, WorldModels};
use pointman::assets::world_model_draw::frame_candidate;
use pointman::assets::world_objects::{PropValue, QuatBits, RawWorldObjects, WorldModelPlacement, WorldObjects};

fn bits3(v: [u32; 3]) -> [f32; 3] {
    [f32::from_bits(v[0]), f32::from_bits(v[1]), f32::from_bits(v[2])]
}

#[test]
fn parse_header() {
    let mut bytes = vec![0u8; 56];
    bytes[0..4].copy_from_slice(&113u32.to_le_bytes());
    bytes[4..8].copy_from_slice(&100u32.to_le_bytes());
    let h = WorldHeader::parse(&bytes).unwrap();
    assert_eq!(h.render_section_offset, 100);
    assert_eq!(WorldHeader::decode_count(399 ^ 12), 12);
}

#[test]
fn world_header_errors() {
    assert!(matches!(WorldHeader::parse(&[0u8; 55]), Err(AssetError::Truncated("World00p header"))));
    let mut bytes = vec![0u8; 56];
    bytes[0..4].copy_from_slice(&112u32.to_le_bytes());
    assert!(matches!(WorldHeader::parse(&bytes), Err(AssetError::WorldVersion(112))));
}

#[test]
fn decode_count_twice_is_identity() {
    for raw in [0u32, 1, 399, 12345, u32::MAX] {
        assert_eq!(WorldHeader::decode_count(WorldHeader::decode_count(raw)), raw);
    }
}

#[test]
fn decode_uv_by_offset() {
    let def = [
        VertexProp { offset: 0, format: 2, location: 0, id: 0 },
        VertexProp { offset: 12, format: 1, location: 5, id: 0 },
    ];
    let mut bytes = vec![0u8; 20];
    bytes[0..4].copy_from_slice(&1.0f32.to_le_bytes());
    bytes[4..8].copy_from_slice(&2.0f32.to_le_bytes());
    bytes[8..12].copy_from_slice(&3.0f32.to_le_bytes());
    bytes[12..16].copy_from_slice(&0.25f32.to_le_bytes());
    bytes[16..20].copy_from_slice(&0.75f32.to_le_bytes());
    let v = decode_vertex(&bytes, &def).unwrap();
    assert_eq!(bits3(v.position), [1.0, 2.0, 3.0]);
    assert_eq!([f32::from_bits(v.uv[0]), f32::from_bits(v.uv[1])], [0.25, 0.75]);
}

fn write3(buf: &mut [u8], off: usize, v: [f32; 3]) {
    buf[off..off + 4].copy_from_slice(&v[0].to_le_bytes());
    buf[off + 4..off + 8].copy_from_slice(&v[1].to_le_bytes());
    buf[off + 8..off + 12].copy_from_slice(&v[2].to_le_bytes());
}

#[test]
fn decode_tangent_binormal_no_blender_swap() {
    let def = [
        VertexProp { offset: 0, format: 2, location: 0, id: 0 },
        VertexProp { offset: 12, format: 2, location: 3, id: 0 },
        VertexProp { offset: 24, format: 2, location: 6, id: 0 },
        VertexProp { offset: 36, format: 2, location: 7, id: 0 },
    ];
    let mut bytes = vec![0u8; 48];
    write3(&mut bytes, 0, [0.0, 0.0, 0.0]);
    write3(&mut bytes, 12, [0.0, 1.0, 0.0]);
    write3(&mut bytes, 24, [1.0, 0.0, 0.0]);
    write3(&mut bytes, 36, [0.0, 0.0, -1.0]);
    let v = decode_vertex(&bytes, &def).unwrap();
    assert_eq!(bits3(v.normal), [0.0, 1.0, 0.0]);
    assert_eq!(bits3(v.tangent), [1.0, 0.0, 0.0]);
    assert_eq!(bits3(v.binormal), [0.0, 0.0, -1.0]);
}

#[test]
fn vertex_needs_position_and_known_formats() {
    let def = [VertexProp { offset: 0, format: 1, location: 5, id: 0 }];
    assert!(matches!(decode_vertex(&[0u8; 8], &def), Err(AssetError::Invalid("vertex missing position"))));
    let def = [VertexProp { offset: 0, format: 9, location: 0, id: 0 }];
    assert!(matches!(decode_vertex(&[0u8; 8], &def), Err(AssetError::Invalid("vertex format"))));
    let def = [
        VertexProp { offset: 0, format: 2, location: 0, id: 0 },
        VertexProp { offset: 12, format: 2, location: 3, id: 0 },
    ];
    let v = decode_vertex(&[0u8; 12], &def).unwrap();
    assert_eq!(bits3(v.normal), [0.0, 1.0, 0.0]);
}

fn lt(buf: &mut Vec<u8>, s: &str) {
    buf.extend_from_slice(&(s.len() as u16).to_le_bytes());
    buf.extend_from_slice(s.as_bytes());
}

fn u32s(buf: &mut Vec<u8>, vals: &[u32]) {
    for v in vals {
        buf.extend_from_slice(&v.to_le_bytes());
    }
}

/// A world with one triangle surface, one shadow volume surface and two materials.
fn tiny_world() -> Vec<u8> {
    let mut bytes = vec![0u8; 56];
    bytes[0..4].copy_from_slice(&FEAR_WORLD_VERSION.to_le_bytes());
    bytes[4..8].copy_from_slice(&56u32.to_le_bytes());
    let mut body = Vec::new();
    u32s(&mut body, &[0, 0, 0, 1, 0, 0, 0, 0, 0, 0]);
    u32s(&mut body, &[0]);
    let mut verts = Vec::new();
    for p in [[0.0f32, 0.0, 0.0], [1.0, 0.0, 0.0], [0.0, 1.0, 0.0]] {
        for c in p {
            verts.extend_from_slice(&c.to_le_bytes());
        }
    }
    let mut idx = Vec::new();
    for i in [0u16, 1, 2] {
        idx.extend_from_slice(&i.to_le_bytes());
    }
    u32s(&mut body, &[2, 2, verts.len() as u32, idx.len() as u32]);
    body.extend_from_slice(&verts);
    body.extend_from_slice(&idx);
    u32s(&mut body, &[1, 16]);
    body.extend_from_slice(&0u16.to_le_bytes());
    body.extend_from_slice(&0u16.to_le_bytes());
    body.extend_from_slice(&[2, 0, 0, 0]);
    body.extend_from_slice(&255u16.to_le_bytes());
    body.extend_from_slice(&[0u8; 6]);
    u32s(&mut body, &[2]);
    u32s(&mut body, &[0, 3, 12, 0, 0, 1, 0, 0, 0]);
    u32s(&mut body, &[0, 3, 12, 0, 0, 1, 1, 0, 0]);
    lt(&mut body, "Tex/Wall.Mat00");
    lt(&mut body, "ShadowVolume.Mat00");
    bytes.extend_from_slice(&body);
    bytes
}

#[test]
fn render_section_keeps_drawable_surfaces() {
    let w = WorldRender::parse(&tiny_world()).unwrap();
    assert_eq!(w.surfaces.len(), 1);
    assert_eq!(w.surfaces[0].material, "Tex/Wall.Mat00");
    assert_eq!(w.surfaces[0].vertices.len(), 3);
    assert_eq!(w.surfaces[0].indices, [0, 2, 1]);
    let (verts, indices, draws) = w.flatten();
    assert_eq!(verts.len(), 3);
    assert_eq!(indices, [0, 2, 1]);
    assert_eq!(draws.len(), 1);
    assert_eq!(draws[0].first_index, 0);
    assert_eq!(draws[0].index_count, 3);
    assert_eq!(draws[0].color_hash, material_hash("Tex/Wall.Mat00"));
}

#[test]
fn render_section_errors() {
    let mut bytes = tiny_world();
    bytes[56 + 12] = 2;
    assert!(matches!(WorldRender::parse(&bytes), Err(AssetError::Invalid("render_mesh_count"))));
    let mut bytes = tiny_world();
    bytes[56 + 40] = 1;
    assert!(matches!(WorldRender::parse(&bytes), Err(AssetError::Invalid("render mesh id"))));
    let bytes = tiny_world();
    assert!(matches!(WorldRender::parse(&bytes[..100]), Err(AssetError::UnexpectedEof)));
}

#[test]
fn material_hash_is_fnv_style() {
    assert_eq!(material_hash(""), 2166136261);
    assert_eq!(material_hash("a"), 2166136261u32.wrapping_mul(16777619) ^ 97);
}

fn write_vec3(buf: &mut Vec<u8>, v: [f32; 3]) {
    for c in v {
        buf.extend_from_slice(&c.to_le_bytes());
    }
}

#[test]
fn parse_physics_floor() {
    let mut bytes = vec![0u8; 56];
    bytes[0..4].copy_from_slice(&FEAR_WORLD_VERSION.to_le_bytes());
    bytes[4..8].copy_from_slice(&2000u32.to_le_bytes());

    let mut body = Vec::new();
    body.extend_from_slice(&[0u8; 24]);
    body.extend_from_slice(&1u32.to_le_bytes());
    body.extend_from_slice(&0u32.to_le_bytes());
    body.push(0);
    let counts = [1u32, 11, 0, 1, 0, 1, 3, 3];
    for c in counts {
        body.extend_from_slice(&(c ^ FEAR_WORLD_MAGIC).to_le_bytes());
    }
    body.extend_from_slice(b"PhysicsBSP\0");
    body.extend_from_slice(&0u32.to_le_bytes());
    body.extend_from_slice(&0u32.to_le_bytes());
    body.extend_from_slice(&1u32.to_le_bytes());
    body.extend_from_slice(&3u32.to_le_bytes());
    body.extend_from_slice(&1u32.to_le_bytes());
    body.extend_from_slice(&0u32.to_le_bytes());
    body.extend_from_slice(&0u32.to_le_bytes());
    body.extend_from_slice(&[0u8; 24]);
    body.extend_from_slice(&0u32.to_le_bytes());
    body.push(3);
    body.extend_from_slice(&[0u8; 2]);
    body.extend_from_slice(&0u16.to_le_bytes());
    body.extend_from_slice(&0u32.to_le_bytes());
    body.extend_from_slice(&0f32.to_le_bytes());
    for i in 0u32..3 {
        body.extend_from_slice(&i.to_le_bytes());
    }
    write_vec3(&mut body, [0.0, 0.0, 0.0]);
    write_vec3(&mut body, [10.0, 0.0, 0.0]);
    write_vec3(&mut body, [0.0, 0.0, 10.0]);
    body.extend_from_slice(&1u32.to_le_bytes());
    body.extend_from_slice(&3u32.to_le_bytes());
    write_vec3(&mut body, [0.0, 1.0, 0.0]);
    body.extend_from_slice(&0f32.to_le_bytes());
    body.extend_from_slice(&3u32.to_le_bytes());
    write_vec3(&mut body, [20.0, -10.0, 20.0]);
    write_vec3(&mut body, [30.0, -10.0, 20.0]);
    write_vec3(&mut body, [20.0, -10.0, 30.0]);

    bytes.extend_from_slice(&body);
    let models = WorldModels::parse(&bytes).unwrap();
    assert_eq!(models.physics().unwrap().names, ["PhysicsBSP"]);
    assert_eq!(models.models.len(), 1);
    assert_eq!(models.blockers.len(), 1);
    assert_eq!(models.triangles().len(), 2);
}

fn write_tri_bsp(body: &mut Vec<u8>) {
    body.extend_from_slice(&1u32.to_le_bytes());
    body.extend_from_slice(&3u32.to_le_bytes());
    body.extend_from_slice(&1u32.to_le_bytes());
    body.extend_from_slice(&0u32.to_le_bytes());
    body.extend_from_slice(&0u32.to_le_bytes());
    body.extend_from_slice(&[0u8; 24]);
    body.extend_from_slice(&0u32.to_le_bytes());
    body.push(3);
    body.extend_from_slice(&[0u8; 2]);
    body.extend_from_slice(&0u16.to_le_bytes());
    body.extend_from_slice(&0u32.to_le_bytes());
    body.extend_from_slice(&0f32.to_le_bytes());
    for i in 0u32..3 {
        body.extend_from_slice(&i.to_le_bytes());
    }
    write_vec3(body, [0.0, 0.0, 0.0]);
    write_vec3(body, [10.0, 0.0, 0.0]);
    write_vec3(body, [0.0, 0.0, 10.0]);
}

#[test]
fn keeps_named_worldmodel_bsp() {
    let mut bytes = vec![0u8; 56];
    bytes[0..4].copy_from_slice(&FEAR_WORLD_VERSION.to_le_bytes());
    bytes[4..8].copy_from_slice(&2000u32.to_le_bytes());

    let mut body = Vec::new();
    body.extend_from_slice(&[0u8; 24]);
    body.extend_from_slice(&1u32.to_le_bytes());
    body.extend_from_slice(&0u32.to_le_bytes());
    body.push(0);
    let crate_name = b"Crate00\0";
    let phys_name = b"PhysicsBSP\0";
    let names_len = (phys_name.len() + crate_name.len()) as u32;
    let counts = [2u32, names_len, 0, 2, 0, 1, 3, 3];
    for c in counts {
        body.extend_from_slice(&(c ^ FEAR_WORLD_MAGIC).to_le_bytes());
    }
    body.extend_from_slice(phys_name);
    body.extend_from_slice(crate_name);
    body.extend_from_slice(&0u32.to_le_bytes());
    body.extend_from_slice(&0u32.to_le_bytes());
    body.extend_from_slice(&(phys_name.len() as u32).to_le_bytes());
    body.extend_from_slice(&1u32.to_le_bytes());
    write_tri_bsp(&mut body);
    write_tri_bsp(&mut body);
    body.extend_from_slice(&0u32.to_le_bytes());
    body.extend_from_slice(&0u32.to_le_bytes());

    bytes.extend_from_slice(&body);
    let models = WorldModels::parse(&bytes).unwrap();
    assert_eq!(models.models.len(), 2);
    assert!(models.physics().unwrap().is_physics());
    let crate_bsp = models.mesh_named("Crate00").expect("named BSP dropped");
    assert_eq!(crate_bsp.triangles().len(), 1);
    assert_eq!(models.triangles().len(), 1, "clip must stay PhysicsBSP-only");
}

#[test]
fn models_without_blockers_still_parse() {
    let mut bytes = vec![0u8; 56];
    bytes[0..4].copy_from_slice(&FEAR_WORLD_VERSION.to_le_bytes());
    let mut body = Vec::new();
    body.extend_from_slice(&[0u8; 24]);
    body.extend_from_slice(&0u32.to_le_bytes());
    body.extend_from_slice(&0u32.to_le_bytes());
    for c in [0u32, 0, 1, 0, 0, 0, 0, 0] {
        body.extend_from_slice(&(c ^ FEAR_WORLD_MAGIC).to_le_bytes());
    }
    write_vec3(&mut body, [0.0, 1.0, 0.0]);
    bytes.extend_from_slice(&body);
    let models = WorldModels::parse(&bytes).unwrap();
    assert_eq!(models.planes.len(), 1);
    assert!(models.blockers.is_empty());
    assert!(models.physics().is_none());
    assert!(models.triangles().is_empty());
}

fn show(v: &PropValue) -> String {
    match v {
        PropValue::String(s) => s.clone(),
        PropValue::Vector(p) | PropValue::Colour(p) => format!(
            "{},{},{}",
            f32::from_bits(p.x),
            f32::from_bits(p.y),
            f32::from_bits(p.z)
        ),
        PropValue::Float(b) => format!("{}", f32::from_bits(*b)),
        PropValue::Int(i) => format!("{i}"),
        PropValue::Quat(q) => format!(
            "{},{},{},{}",
            f32::from_bits(q.x),
            f32::from_bits(q.y),
            f32::from_bits(q.z),
            f32::from_bits(q.w)
        ),
    }
}

const PROP_STRING: u32 = 0;
const PROP_FLOAT: u32 = 3;

fn push_cstr(heap: &mut Vec<u8>, s: &str) -> u32 {
    let off = heap.len() as u32;
    heap.extend_from_slice(s.as_bytes());
    heap.push(0);
    off
}

fn write_prop(buf: &mut Vec<u8>, name_off: u32, kind: u32, data: u32) {
    buf.extend_from_slice(&name_off.to_le_bytes());
    buf.extend_from_slice(&kind.to_le_bytes());
    buf.extend_from_slice(&data.to_le_bytes());
}

fn write_spot(buf: &mut Vec<u8>, radius: f32, fov_x: f32) {
    lt(buf, "LightSpot");
    let mut heap = Vec::new();
    let name_key = push_cstr(&mut heap, "Name");
    let name_val = push_cstr(&mut heap, "spot00");
    let radius_key = push_cstr(&mut heap, "LightRadius");
    let fov_key = push_cstr(&mut heap, "FovX");
    buf.extend_from_slice(&3u32.to_le_bytes());
    buf.extend_from_slice(&(heap.len() as u32).to_le_bytes());
    buf.extend_from_slice(&heap);
    write_prop(buf, name_key, PROP_STRING, name_val);
    write_prop(buf, radius_key, PROP_FLOAT, radius.to_bits());
    write_prop(buf, fov_key, PROP_FLOAT, fov_x.to_bits());
}

fn write_world_properties(buf: &mut Vec<u8>, far_z: f32) {
    lt(buf, "WorldProperties");
    let mut heap = Vec::new();
    let name_key = push_cstr(&mut heap, "Name");
    let name_val = push_cstr(&mut heap, "WorldProperties00");
    let far_key = push_cstr(&mut heap, "FarZ");
    buf.extend_from_slice(&2u32.to_le_bytes());
    buf.extend_from_slice(&(heap.len() as u32).to_le_bytes());
    buf.extend_from_slice(&heap);
    write_prop(buf, name_key, PROP_STRING, name_val);
    write_prop(buf, far_key, PROP_FLOAT, far_z.to_bits());
}

fn world_with(section: &[u8]) -> Vec<u8> {
    let mut world = vec![0u8; 56];
    world[0..4].copy_from_slice(&FEAR_WORLD_VERSION.to_le_bytes());
    world[12..16].copy_from_slice(&56u32.to_le_bytes());
    world.extend_from_slice(section);
    world
}

#[test]
fn dump_keeps_light_spot_that_render_parse_drops() {
    let mut section = Vec::new();
    section.extend_from_slice(&1u32.to_le_bytes());
    write_spot(&mut section, 400.0, 45.0);
    let world = world_with(&section);

    let raw = RawWorldObjects::parse(&world).unwrap();
    assert_eq!(raw.of_type("LightSpot").len(), 1);
    let spot = raw.of_type("LightSpot")[0];
    assert_eq!(spot.prop("LightRadius").map(show).as_deref(), Some("400"));
    assert_eq!(spot.prop("FovX").map(show).as_deref(), Some("45"));
    let hist = raw.type_histogram();
    assert_eq!(hist.iter().find(|(t, _)| t == "LightSpot").map(|(_, n)| *n), Some(1));
    let filtered = WorldObjects::parse(&world).unwrap();
    assert!(filtered.lights.is_empty());
}

#[test]
fn dump_keeps_worldproperties_farz() {
    let mut section = Vec::new();
    section.extend_from_slice(&1u32.to_le_bytes());
    write_world_properties(&mut section, 100000.0);
    let world = world_with(&section);

    let raw = RawWorldObjects::parse(&world).unwrap();
    let props = raw.of_type("WorldProperties")[0];
    assert_eq!(props.prop("FarZ").map(show).as_deref(), Some("100000"));
    assert!(WorldObjects::parse(&world).unwrap().lights.is_empty());
}

#[test]
fn histogram_counts_each_type_once() {
    let mut section = Vec::new();
    section.extend_from_slice(&3u32.to_le_bytes());
    write_world_properties(&mut section, 3.0);
    write_spot(&mut section, 1.0, 2.0);
    write_spot(&mut section, 4.0, 5.0);
    let raw = RawWorldObjects::parse(&world_with(&section)).unwrap();
    let hist = raw.type_histogram();
    assert_eq!(hist, [("LightSpot".to_string(), 2), ("WorldProperties".to_string(), 1)]);
    assert_eq!(raw.of_type("lightspot").len(), 2);
    assert!(raw.objects[0].prop("name").is_some());
    assert!(raw.objects[0].prop("Missing").is_none());
}

#[test]
fn object_section_errors() {
    let mut world = vec![0u8; 56];
    world[0..4].copy_from_slice(&FEAR_WORLD_VERSION.to_le_bytes());
    world[12..16].copy_from_slice(&56u32.to_le_bytes());
    assert!(matches!(RawWorldObjects::parse(&world), Err(AssetError::Truncated("object section"))));
    let world = world_with(&[1, 0, 0, 0, 5, 0, b'a']);
    assert!(matches!(RawWorldObjects::parse(&world), Err(AssetError::UnexpectedEof)));
    let world = world_with(&[1, 0, 0, 0, 1, 0, 0xFF]);
    assert!(matches!(RawWorldObjects::parse(&world), Err(AssetError::Utf8)));
}

fn write_mat(bytes: &mut Vec<u8>, shader: &str, defs: &[(u32, &str, &[u8])]) {
    bytes.extend_from_slice(b"LTMI");
    bytes.extend_from_slice(&1u32.to_le_bytes());
    lt(bytes, shader);
    bytes.extend_from_slice(&(defs.len() as u32).to_le_bytes());
    for (kind, name, value) in defs {
        bytes.extend_from_slice(&kind.to_le_bytes());
        lt(bytes, name);
        bytes.extend_from_slice(value);
    }
}

fn lt_bytes(s: &str) -> Vec<u8> {
    let mut v = Vec::new();
    lt(&mut v, s);
    v
}

#[test]
fn parse_diffuse_slot() {
    let mut bytes = Vec::new();
    let val = lt_bytes(r"Textures\Office\Floor.dds");
    write_mat(&mut bytes, "shaders/model.fx", &[(1, "tDiffuseMap", &val)]);
    let mat = Material::parse(&bytes).unwrap();
    assert_eq!(mat.diffuse_map(), Some(r"Textures\Office\Floor.dds"));
    assert_eq!(mat.string_def("TDIFFUSEMAP"), Some(r"Textures\Office\Floor.dds"));
}

#[test]
fn parse_spec_normal_and_power() {
    let mut bytes = Vec::new();
    let d = lt_bytes(r"Tex\Office\Floor_D.dds");
    let n = lt_bytes(r"Tex\Office\Floor_N.dds");
    let s = lt_bytes(r"Tex\Office\Floor_S.dds");
    let p = 64f32.to_le_bytes();
    write_mat(
        &mut bytes,
        "shaders/rigid/Solid/specular.fx",
        &[
            (1, "tDiffuseMap", &d),
            (1, "tNormalMap", &n),
            (1, "tSpecularMap", &s),
            (5, "fMaxSpecularPower", &p),
        ],
    );
    let mat = Material::parse(&bytes).unwrap();
    assert_eq!(mat.normal_map(), Some(r"Tex\Office\Floor_N.dds"));
    assert_eq!(mat.specular_map(), Some(r"Tex\Office\Floor_S.dds"));
    assert_eq!(f32::from_bits(mat.max_specular_power()), 64.0);
    assert!(!mat.is_skybox());
}

#[test]
fn skybox_shader_is_not_a_wall() {
    let mut bytes = Vec::new();
    let val = lt_bytes(r"Prefabs\Systemic\Sky\Sky_Day_C.dds");
    write_mat(&mut bytes, r"shaders\rigid\Solid\skybox.fx", &[(1, "tDiffuseMap", &val)]);
    let mat = Material::parse(&bytes).unwrap();
    assert!(mat.is_skybox());
    assert_eq!(mat.diffuse_map(), Some(r"Prefabs\Systemic\Sky\Sky_Day_C.dds"));
}

#[test]
fn material_defaults_and_errors() {
    let mut bytes = Vec::new();
    let f = 2.5f32.to_le_bytes();
    write_mat(&mut bytes, "x.fx", &[(5, "tDiffuseMap", &f)]);
    let mat = Material::parse(&bytes).unwrap();
    assert_eq!(mat.diffuse_map(), None);
    assert_eq!(mat.float_def("TDIFFUSEMAP").map(f32::from_bits), Some(2.5));
    assert_eq!(mat.max_specular_power(), DEFAULT_SPECULAR_POWER_BITS);
    assert_eq!(mat.shader(), Some("x.fx"));
    assert!(matches!(Material::parse(b"LTMI"), Err(AssetError::Truncated("Mat00 header"))));
    assert!(matches!(Material::parse(b"LTMX\0\0\0\0"), Err(AssetError::Invalid("Mat00 magic"))));
    let mut bad = Vec::new();
    write_mat(&mut bad, "x.fx", &[(9, "weird", &[])]);
    assert!(matches!(Material::parse(&bad), Err(AssetError::Invalid("Mat00 def type"))));
}

const PROP_VECTOR: u32 = 1;
const PROP_COLOUR: u32 = 2;
const PROP_INT: u32 = 4;
const PROP_QUAT: u32 = 6;

fn write_f32s(buf: &mut Vec<u8>, vals: &[f32]) {
    for v in vals {
        buf.extend_from_slice(&v.to_le_bytes());
    }
}

fn write_start(buf: &mut Vec<u8>) {
    lt(buf, "GameStartPoint");
    let mut heap = Vec::new();
    let name_key = push_cstr(&mut heap, "Name");
    let name_val = push_cstr(&mut heap, "GameStartPoint00");
    let pos_key = push_cstr(&mut heap, "Pos");
    let pos_val = heap.len();
    write_f32s(&mut heap, &[-1100.0, -1436.0, -370.0]);
    let rot_key = push_cstr(&mut heap, "Rotation");
    let rot_val = heap.len();
    write_f32s(&mut heap, &[0.0, -0.07846, 0.0, 0.99692]);
    buf.extend_from_slice(&3u32.to_le_bytes());
    buf.extend_from_slice(&(heap.len() as u32).to_le_bytes());
    buf.extend_from_slice(&heap);
    write_prop(buf, name_key, PROP_STRING, name_val);
    write_prop(buf, pos_key, PROP_VECTOR, pos_val as u32);
    write_prop(buf, rot_key, PROP_QUAT, rot_val as u32);
}

fn write_fill(buf: &mut Vec<u8>) {
    write_light(buf, 0.5, 500.0);
}

fn write_light(buf: &mut Vec<u8>, scale: f32, radius: f32) {
    lt(buf, "LightPointFill");
    let mut heap = Vec::new();
    let name_key = push_cstr(&mut heap, "Name");
    let name_val = push_cstr(&mut heap, "fluo");
    let pos_key = push_cstr(&mut heap, "Pos");
    let pos_val = heap.len();
    write_f32s(&mut heap, &[-1567.0, -1386.0, 483.0]);
    let col_key = push_cstr(&mut heap, "LightColor");
    let col_val = heap.len();
    write_f32s(&mut heap, &[126.0, 145.0, 154.0]);
    let radius_key = push_cstr(&mut heap, "LightRadius");
    let scale_key = push_cstr(&mut heap, "IntensityScale");
    buf.extend_from_slice(&5u32.to_le_bytes());
    buf.extend_from_slice(&(heap.len() as u32).to_le_bytes());
    buf.extend_from_slice(&heap);
    write_prop(buf, name_key, PROP_STRING, name_val);
    write_prop(buf, pos_key, PROP_VECTOR, pos_val as u32);
    write_prop(buf, col_key, PROP_COLOUR, col_val as u32);
    write_prop(buf, radius_key, PROP_FLOAT, radius.to_bits());
    write_prop(buf, scale_key, PROP_FLOAT, scale.to_bits());
}

fn write_world_model(buf: &mut Vec<u8>, name: &str, hidden: bool) {
    lt(buf, "WorldModel");
    let mut heap = Vec::new();
    let name_key = push_cstr(&mut heap, "Name");
    let name_val = push_cstr(&mut heap, name);
    let pos_key = push_cstr(&mut heap, "Pos");
    let pos_val = heap.len();
    write_f32s(&mut heap, &[10.0, 20.0, 30.0]);
    let rot_key = push_cstr(&mut heap, "Rotation");
    let rot_val = heap.len();
    write_f32s(&mut heap, &[0.0, 0.0, 0.0, 1.0]);
    let hide_key = push_cstr(&mut heap, "StartHidden");
    buf.extend_from_slice(&4u32.to_le_bytes());
    buf.extend_from_slice(&(heap.len() as u32).to_le_bytes());
    buf.extend_from_slice(&heap);
    write_prop(buf, name_key, PROP_STRING, name_val);
    write_prop(buf, pos_key, PROP_VECTOR, pos_val as u32);
    write_prop(buf, rot_key, PROP_QUAT, rot_val as u32);
    write_prop(buf, hide_key, PROP_INT, if hidden { 1 } else { 0 });
}

/// Heading about +Y of the rotated forward axis, as the renderer takes it.
fn yaw_of(q: QuatBits) -> f32 {
    let rot = glam::Quat::from_xyzw(
        f32::from_bits(q.x),
        f32::from_bits(q.y),
        f32::from_bits(q.z),
        f32::from_bits(q.w),
    );
    let fwd = rot * glam::Vec3::Z;
    fwd.x.atan2(fwd.z)
}

#[test]
fn parse_start_and_fill_light() {
    let mut section = Vec::new();
    section.extend_from_slice(&3u32.to_le_bytes());
    write_start(&mut section);
    write_fill(&mut section);
    write_world_model(&mut section, "Crate00", false);
    let world = world_with(&section);

    let objects = WorldObjects::parse(&world).unwrap();
    let spawn = objects.spawn().unwrap();
    assert_eq!(spawn.name, "GameStartPoint00");
    assert_eq!(bits3([spawn.pos.x, spawn.pos.y, spawn.pos.z]), [-1100.0, -1436.0, -370.0]);
    let yaw = yaw_of(spawn.rotation);
    assert!(yaw.abs() < 0.2, "yaw {}", yaw);
    assert_eq!(objects.lights.len(), 1);
    let light = &objects.lights[0];
    let color_x = f32::from_bits(light.colour.x) / 255.0 * f32::from_bits(light.scale);
    assert!((color_x - (126.0 / 255.0) * 0.5).abs() < 0.01);
    assert_eq!(f32::from_bits(light.radius), 500.0);
    assert_eq!(objects.models.len(), 1);
    assert_eq!(objects.models[0].name, "Crate00");
    let m = &objects.models[0];
    assert_eq!(bits3([m.pos.x, m.pos.y, m.pos.z]), [10.0, 20.0, 30.0]);
    assert!(!objects.models[0].hidden);
}

#[test]
fn hidden_worldmodel_is_marked() {
    let mut section = Vec::new();
    section.extend_from_slice(&1u32.to_le_bytes());
    write_world_model(&mut section, "HiddenDoor", true);
    let objects = WorldObjects::parse(&world_with(&section)).unwrap();
    assert!(objects.models[0].hidden);
}

#[test]
fn skips_disabled_light() {
    let mut section = Vec::new();
    section.extend_from_slice(&1u32.to_le_bytes());
    write_light(&mut section, 0.0, 500.0);
    let objects = WorldObjects::parse(&world_with(&section)).unwrap();
    assert!(objects.lights.is_empty());
}

#[test]
fn light_needs_radius_above_one_and_positive_scale() {
    for (scale, radius, kept) in [
        (1.0f32, 1.0f32, false),
        (1.0, 1.0001, true),
        (-0.0, 500.0, false),
        (f32::MIN_POSITIVE / 2.0, 500.0, true),
        (-1.0, 500.0, false),
        (1.0, f32::NAN, true),
        (1.0, -f32::NAN, true),
        (1.0, f32::NEG_INFINITY, false),
        (f32::INFINITY, f32::INFINITY, true),
    ] {
        let mut section = Vec::new();
        section.extend_from_slice(&1u32.to_le_bytes());
        write_light(&mut section, scale, radius);
        let objects = WorldObjects::parse(&world_with(&section)).unwrap();
        assert_eq!(!objects.lights.is_empty(), !(radius <= 1.0 || scale <= 0.0));
        assert_eq!(!objects.lights.is_empty(), kept, "scale {scale} radius {radius}");
    }
}

#[test]
fn spawn_prefers_named_start_and_ambient_takes_last() {
    let objects = WorldObjects::parse(&world_with(&[0, 0, 0, 0])).unwrap();
    assert!(objects.spawn().is_none());
    assert_eq!(bits3([objects.ambient.x, objects.ambient.y, objects.ambient.z]), [25.0; 3]);

    let mut section = Vec::new();
    section.extend_from_slice(&2u32.to_le_bytes());
    lt(&mut section, "GameStartPoint");
    let mut heap = Vec::new();
    let name_key = push_cstr(&mut heap, "name");
    let name_val = push_cstr(&mut heap, "Other");
    let pos_key = push_cstr(&mut heap, "POS");
    let pos_val = heap.len();
    write_f32s(&mut heap, &[1.0, 2.0, 3.0]);
    section.extend_from_slice(&2u32.to_le_bytes());
    section.extend_from_slice(&(heap.len() as u32).to_le_bytes());
    section.extend_from_slice(&heap);
    write_prop(&mut section, name_key, PROP_STRING, name_val);
    write_prop(&mut section, pos_key, PROP_VECTOR, pos_val as u32);
    write_start(&mut section);
    let objects = WorldObjects::parse(&world_with(&section)).unwrap();
    assert_eq!(objects.starts.len(), 2);
    assert_eq!(objects.starts[0].name, "Other");
    assert_eq!(objects.starts[0].rotation, QuatBits { x: 0, y: 0, z: 0, w: 1f32.to_bits() });
    assert_eq!(objects.spawn().unwrap().name, "GameStartPoint00");
}

fn write_ambient(buf: &mut Vec<u8>, rgb: [f32; 3]) {
    lt(buf, "WorldProperties");
    let mut heap = Vec::new();
    let key = push_cstr(&mut heap, "AmbientLight");
    let val = heap.len();
    write_f32s(&mut heap, &rgb);
    buf.extend_from_slice(&1u32.to_le_bytes());
    buf.extend_from_slice(&(heap.len() as u32).to_le_bytes());
    buf.extend_from_slice(&heap);
    write_prop(buf, key, PROP_COLOUR, val as u32);
}

#[test]
fn ambient_comes_from_the_last_world_properties() {
    let mut section = Vec::new();
    section.extend_from_slice(&3u32.to_le_bytes());
    write_ambient(&mut section, [10.0, 20.0, 30.0]);
    write_world_properties(&mut section, 5.0);
    write_ambient(&mut section, [40.0, 50.0, 60.0]);
    let objects = WorldObjects::parse(&world_with(&section)).unwrap();
    assert_eq!(bits3([objects.ambient.x, objects.ambient.y, objects.ambient.z]), [40.0, 50.0, 60.0]);
}

fn placement(name: &str, pos: [f32; 3]) -> WorldModelPlacement {
    WorldModelPlacement {
        name: name.to_string(),
        pos: Vec3Bits { x: pos[0].to_bits(), y: pos[1].to_bits(), z: pos[2].to_bits() },
        rotation: QuatBits { x: 0, y: 0, z: 0, w: 1f32.to_bits() },
        hidden: false,
    }
}

fn bsp_with_points(name: &str, points: &[[f32; 3]]) -> WorldBsp {
    let bits = |p: &[f32; 3]| Vec3Bits { x: p[0].to_bits(), y: p[1].to_bits(), z: p[2].to_bits() };
    WorldBsp {
        names: vec![name.to_string()],
        center: bits(&[0.0, 0.0, 0.0]),
        half_extents: bits(&[1.0, 1.0, 1.0]),
        points: points.iter().map(bits).collect(),
        polygons: Vec::new(),
    }
}

#[test]
fn hidden_placement_is_not_drawn() {
    let mut prop = placement("HiddenDoor", [0.0; 3]);
    prop.hidden = true;
    let bsp = bsp_with_points("HiddenDoor", &[[0.0; 3]]);
    assert!(!frame_candidate(&prop, Some(&bsp)));
}

#[test]
fn car_shadow_catcher_is_not_a_prop() {
    let shadow = placement("Car_Shadows", [-50.0, -1500.0, -4000.0]);
    let bsp = bsp_with_points("Car_Shadows", &[[0.0; 3], [100.0, 0.0, 0.0]]);
    assert!(!frame_candidate(&shadow, Some(&bsp)));
}

#[test]
fn physics_bsp_is_never_drawn() {
    let prop = placement("PhysicsBSP", [0.0; 3]);
    let bsp = bsp_with_points("PhysicsBSP", &[[0.0; 3], [1.0, 0.0, 0.0], [0.0, 1.0, 0.0]]);
    assert!(bsp.is_physics());
    assert!(!frame_candidate(&prop, Some(&bsp)));
}

#[test]
fn missing_bsp_is_not_drawn() {
    let prop = placement("Orphan", [0.0; 3]);
    assert!(!frame_candidate(&prop, None));
}

#[test]
fn shown_prop_with_its_own_bsp_is_a_candidate() {
    let prop = placement("Crate00", [400.0, 0.0, 0.0]);
    let bsp = bsp_with_points("Crate00", &[[0.0; 3], [10.0, 0.0, 0.0], [0.0, 10.0, 0.0]]);
    assert!(frame_candidate(&prop, Some(&bsp)));
}
