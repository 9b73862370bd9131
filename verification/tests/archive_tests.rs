use banner_formats::u8_archive::{walk_u8, U8NodeKind, U8WalkError};
use banner_formats::unwrap_bin::{
    bin_inner_u8, cstring_at, decompress_lz77, inner_u8_dir_name, is_image_candidate, is_supported_bin_name,
    read_u16_be, read_u32_be, strip_imd5, u8_extract_layout, unwrap_lz77_container, BinError,
};
use banner_formats::unwrap_bnr::{bnr_layout, is_banner_part, plan_opening_bnr, BnrError};

/// A U8 archive: root, directory "arc", files "banner.bin" (4 bytes) and
/// "icon.bin" (3 bytes). File offsets count from `base`.
fn sample_u8(base: u32) -> Vec<u8> {
    let mut a = vec![0u8; 0x20];
    a[0..4].copy_from_slice(&0x55AA382Du32.to_be_bytes());
    a[4..8].copy_from_slice(&0x20u32.to_be_bytes());
    a[8..12].copy_from_slice(&(48u32 + 25).to_be_bytes());
    a[12..16].copy_from_slice(&0x70u32.to_be_bytes());
    let nodes: [(u8, u32, u32, u32); 4] =
        [(1, 0, 0, 4), (1, 1, 0, 4), (0, 5, base + 0x70, 4), (0, 16, base + 0x74, 3)];
    for (ty, name, off, size) in nodes {
        a.extend_from_slice(&(((ty as u32) << 24) | name).to_be_bytes());
        a.extend_from_slice(&off.to_be_bytes());
        a.extend_from_slice(&size.to_be_bytes());
    }
    a.extend_from_slice(b"\0arc\0banner.bin\0icon.bin\0");
    while a.len() < 0x70 {
        a.push(0);
    }
    a.extend_from_slice(b"DATAICO");
    a
}

/// LZ77 type 0x10 stream of `data` made of literals only.
fn lz77_literals(data: &[u8]) -> Vec<u8> {
    let n = data.len() as u32;
    let mut out = vec![0x10, (n & 0xFF) as u8, ((n >> 8) & 0xFF) as u8, ((n >> 16) & 0xFF) as u8];
    for chunk in data.chunks(8) {
        out.push(0);
        out.extend_from_slice(chunk);
    }
    out
}

fn imd5(payload: &[u8]) -> Vec<u8> {
    let mut f = vec![0u8; 0x20];
    f[0..4].copy_from_slice(b"IMD5");
    f[4..8].copy_from_slice(&(payload.len() as u32).to_be_bytes());
    f.extend_from_slice(payload);
    f
}

#[test]
fn bin_field_readers() {
    let d = [0xDEu8, 0xAD, 0xBE, 0xEF];
    assert_eq!(read_u32_be(&d, 0), Ok(0xDEADBEEF));
    assert_eq!(read_u32_be(&d, 1), Err(BinError::OutOfBoundsU32 { offset: 1 }));
    assert_eq!(read_u16_be(&d, 2), Ok(0xBEEF));
    assert_eq!(read_u16_be(&d, 3), Err(BinError::OutOfBoundsU16 { offset: 3 }));
}

#[test]
fn bin_c_strings() {
    assert_eq!(cstring_at(b"ab\0", 0), Ok("ab".to_string()));
    assert_eq!(cstring_at(b"ab\0", 4), Err(BinError::StringOffsetOutOfBounds { offset: 4 }));
    assert_eq!(cstring_at(b"ab", 0), Err(BinError::MissingNulTerminator { offset: 0 }));
    assert!(matches!(cstring_at(b"\xFF\0", 0), Err(BinError::InvalidUtf8 { offset: 0, .. })));
}

#[test]
fn imd5_wrapper() {
    let file = imd5(b"payload!");
    assert_eq!(strip_imd5(&file).unwrap(), b"payload!");
    assert_eq!(strip_imd5(&file[..0x1F]), Err(BinError::Imd5TooSmall));
    let mut bad = file.clone();
    bad[0] = b'X';
    assert_eq!(strip_imd5(&bad), Err(BinError::Imd5HeaderNotFound));
    let mut long = file.clone();
    long[4..8].copy_from_slice(&100u32.to_be_bytes());
    assert_eq!(strip_imd5(&long), Err(BinError::Imd5PayloadBeyondFile));
}

#[test]
fn lz77_back_reference_repeats_output() {
    let stream = [0x10, 9, 0, 0, 0x10, b'a', b'b', b'c', 0x50, 0x02];
    assert_eq!(decompress_lz77(&stream).unwrap(), b"abcabcabc".to_vec());
}

#[test]
fn lz77_output_has_declared_size() {
    let data: Vec<u8> = (0u8..20).collect();
    let stream = lz77_literals(&data);
    assert_eq!(decompress_lz77(&stream).unwrap(), data);
    assert_eq!(decompress_lz77(&[0x10, 0, 0, 0]).unwrap(), Vec::<u8>::new());
}

#[test]
fn lz77_errors() {
    assert_eq!(decompress_lz77(&[0x10, 1, 0]), Err(BinError::Lz77TooSmall));
    assert_eq!(decompress_lz77(&[0x11, 1, 0, 0, 0]), Err(BinError::Lz77WrongType { found_type: 0x11 }));
    assert_eq!(decompress_lz77(&[0x10, 1, 0, 0]), Err(BinError::Lz77EofFlags));
    assert_eq!(decompress_lz77(&[0x10, 1, 0, 0, 0]), Err(BinError::Lz77EofLiteral));
    assert_eq!(decompress_lz77(&[0x10, 3, 0, 0, 0x80]), Err(BinError::Lz77EofBackref1));
    assert_eq!(decompress_lz77(&[0x10, 3, 0, 0, 0x80, 0x00]), Err(BinError::Lz77EofBackref2));
    assert_eq!(decompress_lz77(&[0x10, 3, 0, 0, 0x80, 0x00, 0x00]), Err(BinError::Lz77InvalidBackref));
}

#[test]
fn lz77_container() {
    let mut c = b"LZ77".to_vec();
    c.extend_from_slice(&[0x10, 2, 0, 0, 0, b'h', b'i']);
    assert_eq!(unwrap_lz77_container(&c).unwrap(), &c[4..]);
    assert_eq!(unwrap_lz77_container(b"LZ77"), Err(BinError::ContainerTooSmall));
    assert_eq!(
        unwrap_lz77_container(b"LZ88\x10\0\0\0"),
        Err(BinError::ContainerWrongMagic { found_magic: 0x4C5A3838 })
    );
    assert_eq!(
        unwrap_lz77_container(b"LZ77\x11\0\0\0"),
        Err(BinError::ContainerUnsupportedMethod { method: 0x11 })
    );
}

#[test]
fn inner_u8_from_each_payload_kind() {
    let archive = sample_u8(0);
    assert_eq!(bin_inner_u8(&imd5(&archive)).unwrap(), archive);
    assert_eq!(bin_inner_u8(&imd5(&lz77_literals(&archive))).unwrap(), archive);
    let mut container = b"LZ77".to_vec();
    container.extend_from_slice(&lz77_literals(&archive));
    assert_eq!(bin_inner_u8(&imd5(&container)).unwrap(), archive);
}

#[test]
fn inner_u8_errors() {
    assert_eq!(
        bin_inner_u8(&imd5(b"\x01\x02\x03\x04")),
        Err(BinError::UnsupportedPayload { first: [1, 2, 3, 4] })
    );
    assert_eq!(bin_inner_u8(&imd5(b"")), Err(BinError::UnsupportedPayload { first: [0, 0, 0, 0] }));
    assert_eq!(
        bin_inner_u8(&imd5(&lz77_literals(b"ABCDEFG"))),
        Err(BinError::InnerNotU8 { magic: 0x41424344 })
    );
}

#[test]
fn u8_layout_and_walk() {
    let archive = sample_u8(0);
    let lay = u8_extract_layout(&archive).unwrap();
    assert_eq!((lay.data_base, lay.rootnode_abs, lay.total_nodes, lay.string_table_abs), (0, 0x20, 4, 0x50));
    let walk = walk_u8(&archive, &lay);
    assert!(walk.error.is_none());
    assert_eq!(walk.nodes.len(), 3);
    assert_eq!(walk.nodes[0].index, 1);
    assert_eq!(walk.nodes[0].name, "arc");
    assert!(walk.nodes[0].dir.is_empty());
    assert!(matches!(walk.nodes[0].kind, U8NodeKind::Dir { end_index: 4 }));
    assert_eq!(walk.nodes[1].name, "banner.bin");
    assert_eq!(walk.nodes[1].dir, vec!["arc".to_string()]);
    assert!(matches!(walk.nodes[1].kind, U8NodeKind::File { start: 0x70, end: 0x74 }));
    assert!(matches!(walk.nodes[2].kind, U8NodeKind::File { start: 0x74, end: 0x77 }));
    assert_eq!(&archive[0x70..0x74], b"DATA");
}

#[test]
fn u8_layout_errors() {
    assert_eq!(u8_extract_layout(&[0u8; 0x10]).unwrap_err(), (BinError::U8TooSmall));
    let mut bad = sample_u8(0);
    bad[0] = 0;
    assert_eq!(u8_extract_layout(&bad).unwrap_err(), (BinError::U8MagicNotFound { found_magic: 0x00AA382D }));
    let mut not_dir = sample_u8(0);
    not_dir[0x20] = 0;
    assert_eq!(u8_extract_layout(&not_dir).unwrap_err(), (BinError::RootNotDirectory { root_type: 0 }));
    let mut zero = sample_u8(0);
    zero[0x28..0x2C].copy_from_slice(&0u32.to_be_bytes());
    assert_eq!(u8_extract_layout(&zero).unwrap_err(), (BinError::ZeroNodes));
    let mut huge = sample_u8(0);
    huge[0x28..0x2C].copy_from_slice(&1000u32.to_be_bytes());
    assert_eq!(u8_extract_layout(&huge).unwrap_err(), (BinError::InvalidBounds));
}

#[test]
fn u8_walk_stops_at_bad_file() {
    let mut archive = sample_u8(0);
    // icon.bin grows past the end of the buffer
    archive[0x20 + 36 + 8..0x20 + 36 + 12].copy_from_slice(&100u32.to_be_bytes());
    let lay = u8_extract_layout(&archive).unwrap();
    let walk = walk_u8(&archive, &lay);
    assert_eq!(walk.nodes.len(), 2);
    assert!(matches!(&walk.error, Some(U8WalkError::FileOutOfBounds { name }) if name == "icon.bin"));
}

#[test]
fn bin_names() {
    assert!(is_supported_bin_name("Banner.BIN"));
    assert!(is_supported_bin_name("icon.bin"));
    assert!(!is_supported_bin_name("sound.bin"));
    assert!(is_image_candidate("x/y/logo.TPL"));
    assert!(is_image_candidate("x/y/logo.tex0"));
    assert!(!is_image_candidate("x/y/logo.brlyt"));
    assert_eq!(inner_u8_dir_name("/tmp/banner.bin"), "banner_inner_u8");
    assert_eq!(inner_u8_dir_name(""), "bin_inner_u8");
}

fn sample_bnr() -> Vec<u8> {
    let mut f = vec![0u8; 0x600];
    f[0x40..0x44].copy_from_slice(b"IMET");
    f.extend_from_slice(&sample_u8(0));
    f
}

#[test]
fn opening_bnr_plan() {
    let file = sample_bnr();
    let plan = plan_opening_bnr(&file).unwrap();
    assert!(plan.walk.error.is_none());
    assert_eq!(plan.walk.nodes.len(), 3);
    assert_eq!(plan.located, vec![1, 2]);
    assert!(matches!(plan.walk.nodes[1].kind, U8NodeKind::File { start: 0x670, end: 0x674 }));
    assert_eq!(&file[0x670..0x674], b"DATA");
}

#[test]
fn opening_bnr_errors() {
    assert_eq!(bnr_layout(&[0u8; 0x603]).unwrap_err(), BnrError::FileTooSmall);
    let mut no_imet = sample_bnr();
    no_imet[0x40] = 0;
    assert_eq!(bnr_layout(&no_imet).unwrap_err(), BnrError::ImetNotFound);
    let mut no_u8 = sample_bnr();
    no_u8[0x600] = 0;
    assert_eq!(bnr_layout(&no_u8).unwrap_err(), BnrError::U8MagicMismatch { found_magic: 0x00AA382D });
}

#[test]
fn banner_parts() {
    assert!(is_banner_part("SOUND.bin"));
    assert!(is_banner_part("icon.bin"));
    assert!(!is_banner_part("banner.arc"));
}

#[test]
fn invalid_utf8_name_carries_decoder_message() {
    let expected = String::from_utf8(vec![0xFF]).unwrap_err().to_string();
    assert_eq!(
        cstring_at(b"\xFF\0", 0),
        Err(BinError::InvalidUtf8 { offset: 0, detail: expected })
    );
}

#[test]
fn lz77_literal_stream_round_trip() {
    for n in [0usize, 1, 7, 8, 9, 16, 17, 300] {
        let data: Vec<u8> = (0..n).map(|i| (i * 7 % 251) as u8).collect();
        assert_eq!(decompress_lz77(&lz77_literals(&data)).unwrap(), data);
    }
}
