use banner_formats::brlan::{
    c_string_at, f32_at, fixed_string_at, parse_brlan, parse_pai1, parse_target, property_name, safe_stem, u16_at,
    u32_at, u8_at, BrlanError, KeyValue, Keyframe,
};

fn put_u16(v: &mut Vec<u8>, at: usize, x: u16) {
    v[at..at + 2].copy_from_slice(&x.to_be_bytes());
}

fn put_u32(v: &mut Vec<u8>, at: usize, x: u32) {
    v[at..at + 4].copy_from_slice(&x.to_be_bytes());
}

fn put_bytes(v: &mut Vec<u8>, at: usize, b: &[u8]) {
    v[at..at + b.len()].copy_from_slice(b);
}

/// A pai1 chunk: 60 frames, looping, texture "tex_a.tpl", one pane entry
/// "N_Pane" with an RLPA tag whose single target (trans_x) has two Hermite
/// keyframes.
fn sample_pai1(frame_count: u16, data_type: u8) -> Vec<u8> {
    let mut c = vec![0u8; 0x74];
    put_bytes(&mut c, 0, b"pai1");
    put_u32(&mut c, 4, 0x74);
    put_u16(&mut c, 0x08, frame_count);
    c[0x0A] = 1;
    put_u16(&mut c, 0x0C, 1);
    put_u16(&mut c, 0x0E, 1);
    put_u32(&mut c, 0x10, 0x24);
    put_u32(&mut c, 0x14, 4);
    put_bytes(&mut c, 0x18, b"tex_a.tpl\0");
    put_u32(&mut c, 0x24, 0x28);
    put_bytes(&mut c, 0x28, b"N_Pane");
    c[0x3C] = 1;
    c[0x3D] = 0;
    put_u32(&mut c, 0x40, 0x1C);
    put_bytes(&mut c, 0x44, b"RLPA");
    c[0x48] = 1;
    put_u32(&mut c, 0x4C, 0x0C);
    c[0x50] = 0;
    c[0x51] = 0;
    c[0x52] = data_type;
    put_u16(&mut c, 0x54, 2);
    put_u32(&mut c, 0x58, 0x0C);
    put_u32(&mut c, 0x5C, 0.0f32.to_bits());
    put_u32(&mut c, 0x60, 1.0f32.to_bits());
    put_u32(&mut c, 0x64, 0.0f32.to_bits());
    put_u32(&mut c, 0x68, 30.0f32.to_bits());
    put_u32(&mut c, 0x6C, 2.5f32.to_bits());
    put_u32(&mut c, 0x70, 0.0f32.to_bits());
    c
}

fn brlan_file(chunks: &[Vec<u8>]) -> Vec<u8> {
    let mut f = vec![0u8; 0x10];
    put_bytes(&mut f, 0, b"RLAN");
    put_u16(&mut f, 0x0C, 0x10);
    put_u16(&mut f, 0x0E, chunks.len() as u16);
    for c in chunks {
        f.extend_from_slice(c);
    }
    f
}

fn other_chunk() -> Vec<u8> {
    let mut c = vec![0u8; 0x10];
    put_bytes(&mut c, 0, b"pat1");
    put_u32(&mut c, 4, 0x10);
    c
}

#[test]
fn brlan_field_readers_check_bounds() {
    let data = [0x12u8, 0x34, 0x56, 0x78, 0x9A];
    assert_eq!(u8_at(&data, 4), Ok(0x9A));
    assert_eq!(u8_at(&data, 5), Err(BrlanError::OutOfBoundsU8 { offset: 5 }));
    assert_eq!(u16_at(&data, 3), Ok(0x789A));
    assert_eq!(u16_at(&data, 4), Err(BrlanError::OutOfBoundsU16 { offset: 4 }));
    assert_eq!(u32_at(&data, 1), Ok(0x3456789A));
    assert_eq!(u32_at(&data, 2), Err(BrlanError::OutOfBoundsU32 { offset: 2 }));
    assert_eq!(f32_at(&data, 0), Ok(0x12345678));
    assert_eq!(f32_at(&data, 3), Err(BrlanError::OutOfBoundsF32 { offset: 3 }));
}

#[test]
fn brlan_strings() {
    let data = b"  ab \0zzzz";
    assert_eq!(fixed_string_at(data, 0, 8).unwrap(), "ab");
    assert_eq!(fixed_string_at(data, 8, 4), Err(BrlanError::OutOfBoundsString { offset: 8 }));
    assert_eq!(c_string_at(b"xy\0z", 0).unwrap(), "xy");
    assert_eq!(c_string_at(b"xyz", 1).unwrap(), "yz");
    assert_eq!(c_string_at(b"xyz", 3), None);
}

#[test]
fn brlan_safe_stem() {
    assert_eq!(safe_stem("/banner/arc/anim/My Banner (v2).brlan"), "My_Banner__v2_");
    assert_eq!(safe_stem(""), "anim");
}

#[test]
fn brlan_property_names() {
    assert_eq!(property_name("RLPA", 0), "trans_x");
    assert_eq!(property_name("RLPA", 9), "size_h");
    assert_eq!(property_name("RLPA", 10), "rlpa_10");
    assert_eq!(property_name("RLVI", 0), "visible");
    assert_eq!(property_name("RLVI", 1), "rlvi_1");
    assert_eq!(property_name("RLVC", 16), "alpha");
    assert_eq!(property_name("RLVC", 5), "vtx_rt_g");
    assert_eq!(property_name("RLVC", 15), "vtx_rb_a");
    assert_eq!(property_name("RLMC", 3), "mat_a");
    assert_eq!(property_name("RLTS", 2), "uv_rot");
    assert_eq!(property_name("RLTP", 0), "tex_pattern");
    assert_eq!(property_name("RLIM", 200), "rlim_200");
}

#[test]
fn brlan_parses_one_animation() {
    let file = brlan_file(&[sample_pai1(60, 2)]);
    let anim = parse_brlan(&file).unwrap();
    assert_eq!(anim.frame_count, 60);
    assert!(anim.loops);
    assert_eq!(anim.textures, vec!["tex_a.tpl".to_string()]);
    assert_eq!(anim.entries.len(), 1);
    let entry = &anim.entries[0];
    assert_eq!(entry.name, "N_Pane");
    assert!(!entry.is_material);
    assert_eq!(entry.tags.len(), 1);
    assert_eq!(entry.tags[0].kind, "RLPA");
    let target = &entry.tags[0].targets[0];
    assert_eq!(target.property, "trans_x");
    assert_eq!(target.data_type, 2);
    assert_eq!(
        target.keyframes,
        vec![
            Keyframe { frame: 0.0f32.to_bits(), value: KeyValue::Float(1.0f32.to_bits()), slope: 0 },
            Keyframe { frame: 30.0f32.to_bits(), value: KeyValue::Float(2.5f32.to_bits()), slope: 0 },
        ]
    );
}

#[test]
fn brlan_last_pai1_wins() {
    let file = brlan_file(&[sample_pai1(60, 2), other_chunk(), sample_pai1(90, 2)]);
    let anim = parse_brlan(&file).unwrap();
    assert_eq!(anim.frame_count, 90);
}

#[test]
fn brlan_rejects_non_brlan() {
    assert!(matches!(parse_brlan(b"RLAN"), Err(BrlanError::NotBrlan)));
    let mut file = brlan_file(&[sample_pai1(60, 2)]);
    file[0] = b'X';
    assert!(matches!(parse_brlan(&file), Err(BrlanError::NotBrlan)));
}

#[test]
fn brlan_without_pai1() {
    let file = brlan_file(&[other_chunk()]);
    assert!(matches!(parse_brlan(&file), Err(BrlanError::NoPai1)));
}

#[test]
fn brlan_chunk_past_end_stops_the_scan() {
    let mut file = brlan_file(&[sample_pai1(60, 2)]);
    put_u32(&mut file, 0x14, 0x1000);
    assert!(matches!(parse_brlan(&file), Err(BrlanError::NoPai1)));
}

#[test]
fn brlan_unknown_data_type() {
    let file = brlan_file(&[sample_pai1(60, 3)]);
    assert!(matches!(parse_brlan(&file), Err(BrlanError::UnknownDataType { data_type: 3 })));
}

#[test]
fn brlan_step_keyframes_have_integer_values_and_no_slope() {
    let mut chunk = sample_pai1(60, 1);
    put_u16(&mut chunk, 0x60, 7);
    put_u32(&mut chunk, 0x64, 5.0f32.to_bits());
    put_u16(&mut chunk, 0x68, 9);
    let target = parse_target(&chunk, 0x50, "RLTP").unwrap();
    assert_eq!(target.property, "tex_pattern");
    assert_eq!(target.keyframes.len(), 2);
    assert_eq!(target.keyframes[0], Keyframe { frame: 0.0f32.to_bits(), value: KeyValue::Integer(7), slope: 0 });
    assert_eq!(target.keyframes[1], Keyframe { frame: 5.0f32.to_bits(), value: KeyValue::Integer(9), slope: 0 });
}

#[test]
fn brlan_truncated_chunk_reports_the_read() {
    let chunk = sample_pai1(60, 2);
    let cut = &chunk[..0x6C];
    assert!(matches!(parse_pai1(cut), Err(BrlanError::OutOfBoundsF32 { offset: 0x6C })));
}

#[test]
fn brlan_target_far_out_of_range() {
    let chunk = sample_pai1(60, 2);
    assert!(matches!(
        parse_target(&chunk, u64::MAX, "RLPA"),
        Err(BrlanError::OutOfBoundsU8 { offset: u64::MAX })
    ));
    assert!(matches!(
        parse_target(&chunk, 0x73, "RLPA"),
        Err(BrlanError::OutOfBoundsU8 { offset: 0x74 })
    ));
}
