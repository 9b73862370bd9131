use banner_formats::tpl::{
    intensity_bits, intensity_rgba, is_sliver, is_tpl_path, png_dimensions, png_file_name, restore_intensity_alpha,
    safe_stem, tpl_format,
};

fn tpl_with_format(fmt: u32) -> Vec<u8> {
    let mut t = vec![0u8; 0x40];
    t[0..4].copy_from_slice(&0x0020AF30u32.to_be_bytes());
    t[4..8].copy_from_slice(&1u32.to_be_bytes());
    t[8..12].copy_from_slice(&0x0Cu32.to_be_bytes());
    t[0x0C..0x10].copy_from_slice(&0x14u32.to_be_bytes());
    t[0x18..0x1C].copy_from_slice(&fmt.to_be_bytes());
    t
}

fn encode(width: u32, height: u32, color: png::ColorType, data: &[u8]) -> Vec<u8> {
    let mut out = Vec::new();
    {
        let mut enc = png::Encoder::new(&mut out, width, height);
        enc.set_color(color);
        enc.set_depth(png::BitDepth::Eight);
        let mut w = enc.write_header().unwrap();
        w.write_image_data(data).unwrap();
        w.finish().unwrap();
    }
    out
}

fn decode(bytes: &[u8]) -> (u32, u32, png::ColorType, Vec<u8>) {
    let dec = png::Decoder::new(bytes);
    let mut reader = dec.read_info().unwrap();
    let mut buf = vec![0u8; reader.output_buffer_size()];
    let info = reader.next_frame(&mut buf).unwrap();
    buf.truncate(info.buffer_size());
    (info.width, info.height, info.color_type, buf)
}

#[test]
fn tpl_format_of_first_image() {
    assert_eq!(tpl_format(&tpl_with_format(1)), Some(1));
    assert_eq!(tpl_format(&tpl_with_format(14)), Some(14));
}

#[test]
fn tpl_format_rejects_bad_files() {
    assert_eq!(tpl_format(&[0u8; 8]), None);
    let mut bad_magic = tpl_with_format(0);
    bad_magic[1] = 0;
    assert_eq!(tpl_format(&bad_magic), None);
    let mut bad_table = tpl_with_format(0);
    bad_table[8..12].copy_from_slice(&0x3Eu32.to_be_bytes());
    assert_eq!(tpl_format(&bad_table), None);
    let mut bad_header = tpl_with_format(0);
    bad_header[0x0C..0x10].copy_from_slice(&0x39u32.to_be_bytes());
    assert_eq!(tpl_format(&bad_header), None);
}

#[test]
fn intensity_formats() {
    assert_eq!(intensity_bits(Some(0)), Some(4));
    assert_eq!(intensity_bits(Some(1)), Some(8));
    assert_eq!(intensity_bits(Some(2)), None);
    assert_eq!(intensity_bits(None), None);
}

#[test]
fn tpl_paths() {
    assert!(is_tpl_path("banner/arc/timg/Logo.TPL"));
    assert!(!is_tpl_path("banner/arc/timg/Logo.png"));
    assert!(!is_tpl_path("tpl"));
    assert_eq!(safe_stem("a/b/my tex.tpl"), "my_tex");
    assert_eq!(png_file_name("a/b/my tex.tpl"), "my_tex.png");
    assert_eq!(png_file_name(""), "image.png");
}

#[test]
fn sliver_textures() {
    assert!(is_sliver(Some((2, 96))));
    assert!(is_sliver(Some((96, 7))));
    assert!(!is_sliver(Some((8, 8))));
    assert!(!is_sliver(None));
}

#[test]
fn intensity_pixels_for_each_color_type() {
    assert_eq!(intensity_rgba(0, &[10, 200]), Some(vec![10, 10, 10, 10, 200, 200, 200, 200]));
    assert_eq!(intensity_rgba(4, &[200, 128, 255, 255, 9]), Some(vec![200, 200, 200, 100, 255, 255, 255, 255]));
    assert_eq!(intensity_rgba(2, &[1, 2, 3, 4, 5]), Some(vec![1, 2, 3, 1]));
    assert_eq!(intensity_rgba(6, &[1, 2, 3, 4]), Some(vec![1, 2, 3, 1]));
    assert_eq!(intensity_rgba(3, &[1, 2, 3]), None);
    assert_eq!(intensity_rgba(0, &[]), Some(vec![]));
}

#[test]
fn restore_alpha_of_grayscale_png() {
    let input = encode(2, 1, png::ColorType::Grayscale, &[10, 200]);
    assert_eq!(png_dimensions(&input), Some((2, 1)));
    let out = restore_intensity_alpha(&input).unwrap().unwrap();
    let (w, h, color, pixels) = decode(&out);
    assert_eq!((w, h), (2, 1));
    assert_eq!(color, png::ColorType::Rgba);
    assert_eq!(pixels, vec![10, 10, 10, 10, 200, 200, 200, 200]);
}

#[test]
fn restore_alpha_fails_on_garbage() {
    assert!(restore_intensity_alpha(b"not a png").is_err());
    assert_eq!(png_dimensions(b"not a png"), None);
}
