use banner_formats::brlyt::{
    ascii_preview, hex_preview, parse_brlyt, parse_mat1, parse_mat1_debug, parse_pane_base, parse_pic1,
    parse_txl1, read_c_string_at, read_fixed_string, read_i16x4_be, read_u32_be_at, read_u8x4, read_uv_set,
    safe_stem, texture_to_png_candidate, BrlytError,
};

fn put(v: &mut Vec<u8>, at: usize, b: &[u8]) {
    if v.len() < at + b.len() {
        v.resize(at + b.len(), 0);
    }
    v[at..at + b.len()].copy_from_slice(b);
}

fn chunk(tag: &[u8; 4], body_len: usize) -> Vec<u8> {
    let mut c = vec![0u8; 8 + body_len];
    put(&mut c, 0, tag);
    let size = c.len() as u32;
    put(&mut c, 4, &size.to_be_bytes());
    c
}

fn txl1(names: &[&str]) -> Vec<u8> {
    let mut c = chunk(b"txl1", 4 + 8 * names.len());
    put(&mut c, 8, &(names.len() as u16).to_be_bytes());
    let mut strings = Vec::new();
    for (i, n) in names.iter().enumerate() {
        let off = (8 * names.len() + strings.len()) as u32;
        put(&mut c, 0x0C + 8 * i, &off.to_be_bytes());
        strings.extend_from_slice(n.as_bytes());
        strings.push(0);
    }
    c.extend_from_slice(&strings);
    let size = c.len() as u32;
    put(&mut c, 4, &size.to_be_bytes());
    c
}

/// A mat1 chunk with one material "M_Logo" that maps texture `tex`.
fn mat1(tex: u16) -> Vec<u8> {
    let mut c = chunk(b"mat1", 0x4C);
    put(&mut c, 8, &1u16.to_be_bytes());
    put(&mut c, 0x0C, &0x10u32.to_be_bytes());
    put(&mut c, 0x10, b"M_Logo");
    put(&mut c, 0x10 + 0x14, &[0, 1, 0, 2, 0xFF, 0xFF, 0, 4]);
    put(&mut c, 0x10 + 0x2C, &[1, 2, 3, 4]);
    // material color, one TEV stage, one texture map
    let flags: u32 = (1 << 30) | (1 << 19) | 1;
    put(&mut c, 0x10 + 0x3C, &flags.to_be_bytes());
    put(&mut c, 0x10 + 0x40, &tex.to_be_bytes());
    put(&mut c, 0x10 + 0x42, &0x0101u16.to_be_bytes());
    c
}

fn pane_body(c: &mut Vec<u8>, name: &str, alpha: u8, width: f32) {
    c[8] = 1;
    c[10] = alpha;
    put(c, 12, name.as_bytes());
    put(c, 0x24, &10.0f32.to_bits().to_be_bytes());
    put(c, 0x44, &width.to_bits().to_be_bytes());
    put(c, 0x48, &32.0f32.to_bits().to_be_bytes());
}

fn pan1(name: &str) -> Vec<u8> {
    let mut c = chunk(b"pan1", 0x44);
    pane_body(&mut c, name, 255, 640.0);
    c
}

fn pic1(name: &str, material: u16) -> Vec<u8> {
    let mut c = chunk(b"pic1", 0x68);
    pane_body(&mut c, name, 200, 64.0);
    put(&mut c, 0x4C, &[1, 2, 3, 4]);
    put(&mut c, 0x5C, &material.to_be_bytes());
    c[0x5E] = 1;
    put(&mut c, 0x60, &1.0f32.to_bits().to_be_bytes());
    c
}

fn layout_file(chunks: &[Vec<u8>]) -> Vec<u8> {
    let mut f = vec![0u8; 0x10];
    put(&mut f, 0, b"RLYT");
    put(&mut f, 12, &0x10u16.to_be_bytes());
    put(&mut f, 14, &(chunks.len() as u16).to_be_bytes());
    for c in chunks {
        f.extend_from_slice(c);
    }
    f
}

fn lyt1() -> Vec<u8> {
    let mut c = chunk(b"lyt1", 12);
    put(&mut c, 12, &608.0f32.to_bits().to_be_bytes());
    put(&mut c, 16, &456.0f32.to_bits().to_be_bytes());
    c
}

#[test]
fn small_readers() {
    let d = [0x00u8, 0x01, 0xFF, 0xFE, 0x80, 0x00, 0x7F, 0xFF, 9];
    assert_eq!(read_i16x4_be(&d, 0), Some([1, -2, -32768, 32767]));
    assert_eq!(read_i16x4_be(&d, 2), None);
    assert_eq!(read_u8x4(&d, 5), Some([0x00, 0x7F, 0xFF, 9]));
    assert_eq!(read_u8x4(&d, 6), None);
    assert_eq!(read_u32_be_at(&d, 0), Some(0x0001FFFE));
    assert_eq!(read_u32_be_at(&d, 6), None);
    assert_eq!(read_fixed_string(b" name \0junk"), "name");
    assert_eq!(read_c_string_at(b"ab\0c", 3), Some("c".to_string()));
    assert_eq!(read_c_string_at(b"ab\0c", 4), None);
    assert_eq!(read_uv_set(&[0u8; 16], 0), Ok([0, 0, 0, 0]));
    assert_eq!(read_uv_set(&[0u8; 15], 0), Err(BrlytError::UnexpectedEof));
}

#[test]
fn previews() {
    let d = b"Hi\x00\x7F~ x";
    assert_eq!(hex_preview(d, 0, 3), "48 69 00");
    assert_eq!(hex_preview(d, 5, 64), "20 78");
    assert_eq!(hex_preview(d, 7, 4), "");
    assert_eq!(ascii_preview(d, 0, 32), "Hi..~ x");
    assert_eq!(ascii_preview(d, 7, 1), "");
}

#[test]
fn png_candidates() {
    assert_eq!(texture_to_png_candidate("logo.tpl"), "logo.png");
    assert_eq!(texture_to_png_candidate("Logo.TEX0"), "Logo.png");
    assert_eq!(texture_to_png_candidate("logo"), "logo.png");
    assert_eq!(texture_to_png_candidate("logo.bmp"), "logo.bmp.png");
    assert_eq!(safe_stem("arc/blyt/banner.brlyt"), "banner");
    assert_eq!(safe_stem(""), "layout");
}

#[test]
fn txl1_names_in_order() {
    let c = txl1(&["a.tpl", "", "b.tpl"]);
    let t = parse_txl1(&c);
    assert_eq!(t.len(), 2);
    assert_eq!((t[0].index, t[0].name.as_str(), t[0].png_candidate.as_str()), (0, "a.tpl", "a.png"));
    assert_eq!((t[1].index, t[1].name.as_str()), (2, "b.tpl"));
    assert!(parse_txl1(&c[..9]).is_empty());
}

#[test]
fn mat1_material_fields() {
    let textures = parse_txl1(&txl1(&["logo.tpl"]));
    let m = parse_mat1(&mat1(0), &textures);
    assert_eq!(m.len(), 1);
    let mat = &m[0];
    assert_eq!(mat.name, "M_Logo");
    assert_eq!(mat.offset_in_mat1, 0x10);
    assert_eq!(mat.fore_color, [1, 2, -1, 4]);
    assert_eq!(mat.tev_colors[0], [1, 2, 3, 4]);
    assert!(mat.has_material_color);
    assert!(!mat.has_blend_mode);
    assert_eq!(mat.tev_stage_count, 1);
    assert_eq!(mat.texture_map_count, 1);
    assert_eq!(mat.texture_maps.len(), 1);
    assert_eq!(mat.texture_maps[0].settings, 0x0101);
    assert_eq!(mat.texture_maps[0].texture_name.as_deref(), Some("logo.tpl"));
    assert_eq!(mat.texture_maps[0].png_candidate.as_deref(), Some("logo.png"));
    assert_eq!(mat.texture_indices, vec![0]);
    assert_eq!(mat.texture_names, vec!["logo.tpl".to_string()]);
}

#[test]
fn mat1_unknown_texture_and_short_material() {
    let m = parse_mat1(&mat1(7), &[]);
    assert_eq!(m[0].texture_indices, vec![7]);
    assert_eq!(m[0].texture_maps[0].texture_name, None);
    assert!(m[0].texture_names.is_empty());
    let short = &mat1(0)[..0x40];
    assert!(parse_mat1(short, &[]).is_empty());
}

#[test]
fn mat1_debug_candidates() {
    let c = mat1(0);
    let d = parse_mat1_debug(&c);
    assert_eq!(d.chunk_size, c.len());
    assert_eq!(d.count, 1);
    assert_eq!(d.offsets_table_start, 0x0C);
    assert_eq!(d.offsets, vec![0x10]);
    let e = &d.entries[0];
    assert_eq!((e.candidate_abs_a, e.candidate_abs_b, e.candidate_abs_c), (0x10, 0x1C, 0x20));
    assert_eq!(e.ascii_a, format!("M_Logo{}", ".".repeat(26)));
    assert_eq!(e.flags_a_3c, Some((1 << 30) | (1 << 19) | 1));
    assert_eq!(e.flags_c_3c, None);
}

#[test]
fn pane_fields() {
    let c = pan1("RootPane");
    let p = parse_pane_base(&c, 8, b"pan1").unwrap();
    assert_eq!(p.name, "RootPane");
    assert_eq!(p.kind, "pan1");
    assert!(p.visible);
    assert_eq!(p.alpha, 255);
    assert_eq!(p.x, 10.0f32.to_bits());
    assert_eq!(p.width, 640.0f32.to_bits());
    assert_eq!(p.height, 32.0f32.to_bits());
    assert!(p.children.is_empty());
    assert_eq!(parse_pane_base(&c[..0x40], 8, b"pan1").unwrap_err(), BrlytError::UnexpectedEof);
}

#[test]
fn picture_pane_fields() {
    let c = pic1("P_Logo", 0);
    let p = parse_pic1(&c).unwrap();
    assert_eq!(p.kind, "pic1");
    assert_eq!(p.material_index, Some(0));
    assert_eq!(p.top_left_color, Some([1, 2, 3, 4]));
    assert_eq!(p.bottom_right_color, Some([0, 0, 0, 0]));
    assert_eq!(p.uv_sets, vec![[1.0f32.to_bits(), 0, 0, 0]]);
    assert_eq!(parse_pic1(&c[..0x53]).unwrap_err(), BrlytError::Pic1TooSmall);
    assert_eq!(parse_pic1(&c[..0x6F]).unwrap_err(), BrlytError::UnexpectedEof);
}

#[test]
fn layout_tree_and_bindings() {
    let mut pas1 = chunk(b"pas1", 0);
    put(&mut pas1, 0, b"pas1");
    let pae1 = chunk(b"pae1", 0);
    let file = layout_file(&[
        lyt1(),
        txl1(&["logo.tpl"]),
        mat1(0),
        pan1("RootPane"),
        pas1,
        pic1("P_Logo", 0),
        pae1.clone(),
        pic1("P_Other", 5),
        pae1,
    ]);
    let layout = parse_brlyt(&file).unwrap();
    assert_eq!(layout.version, 0);
    assert_eq!(layout.width, 608.0f32.to_bits());
    assert_eq!(layout.height, 456.0f32.to_bits());
    assert_eq!(layout.textures.len(), 1);
    assert_eq!(layout.materials.len(), 1);
    assert!(layout.mat1_debug.is_some());
    assert_eq!(layout.root.len(), 1);
    let root = &layout.root[0];
    assert_eq!(root.name, "RootPane");
    assert_eq!(root.children.len(), 2);
    assert_eq!(root.children[0].material_name.as_deref(), Some("M_Logo"));
    assert_eq!(root.children[0].texture_name.as_deref(), Some("logo.tpl"));
    assert_eq!(root.children[0].png_candidate.as_deref(), Some("logo.png"));
    assert_eq!(root.children[1].material_name, None);
    assert_eq!(layout.pictures.len(), 2);
    assert_eq!(layout.pictures[0].pane_name, "P_Logo");
    assert_eq!(layout.pictures[0].png_candidate.as_deref(), Some("logo.png"));
    assert_eq!(layout.pictures[0].alpha, 200);
    assert_eq!(layout.pictures[1].pane_name, "P_Other");
    assert_eq!(layout.pictures[1].material_index, Some(5));
    assert_eq!(layout.pictures[1].texture_name, None);
}

#[test]
fn unclosed_panes_are_closed_at_the_end() {
    let file = layout_file(&[pan1("A"), pan1("B")]);
    let layout = parse_brlyt(&file).unwrap();
    assert_eq!(layout.root.len(), 1);
    assert_eq!(layout.root[0].name, "A");
    assert_eq!(layout.root[0].children[0].name, "B");
    assert!(layout.mat1_debug.is_none());
    assert!(layout.materials.is_empty());
}

#[test]
fn layout_errors() {
    assert_eq!(parse_brlyt(b"RLYT").unwrap_err(), BrlytError::NotBrlyt);
    let mut bad = layout_file(&[]);
    bad[1] = b'X';
    assert_eq!(parse_brlyt(&bad).unwrap_err(), BrlytError::NotBrlyt);
    let short_lyt1 = chunk(b"lyt1", 4);
    assert_eq!(parse_brlyt(&layout_file(&[short_lyt1])).unwrap_err(), BrlytError::UnexpectedEof);
    let mut tiny_pic = chunk(b"pic1", 0x40);
    put(&mut tiny_pic, 0, b"pic1");
    assert_eq!(parse_brlyt(&layout_file(&[tiny_pic])).unwrap_err(), BrlytError::Pic1TooSmall);
}
