use banner_formats::disc::{
    check_fst, fst_image_offset, fst_pointer_offset, is_iso_path, is_opening_bnr, opening_bnr_entries,
    read_be_u32, read_c_string, safe_stem, scan_start, scan_step, Blob, ScanAction, ScanState,
};

fn pair(a: u32, b: u32) -> [u8; 8] {
    let mut out = [0u8; 8];
    out[..4].copy_from_slice(&a.to_be_bytes());
    out[4..].copy_from_slice(&b.to_be_bytes());
    out
}

/// Runs the scan over a disc image held in memory.
fn run_scan(image: &[u8]) -> ScanAction {
    let (mut state, mut action) = scan_start();
    loop {
        match action {
            ScanAction::Read { offset } => {
                let at = offset as usize;
                let mut b = [0u8; 8];
                b.copy_from_slice(&image[at..at + 8]);
                let (s, a) = scan_step(state, b);
                state = s;
                action = a;
            }
            done => return done,
        }
    }
}

#[test]
fn be_u32_from_bytes() {
    assert_eq!(read_be_u32([0x12, 0x34, 0x56, 0x78]), 0x12345678);
    assert_eq!(read_be_u32([0xFF, 0, 0, 1]), 0xFF000001);
}

#[test]
fn c_strings() {
    assert_eq!(read_c_string(b"ab\0cd", 0), "ab");
    assert_eq!(read_c_string(b"ab\0cd", 3), "cd");
    assert_eq!(read_c_string(b"ab", 2), "");
}

#[test]
fn scan_starts_at_partition_info() {
    assert_eq!(scan_start(), (ScanState::Header, ScanAction::Read { offset: 0x40000 }));
}

#[test]
fn scan_finds_first_data_partition() {
    let mut image = vec![0u8; 0x40100];
    image[0x40000..0x40008].copy_from_slice(&pair(3, 0x10010));
    image[0x40040..0x40048].copy_from_slice(&pair(0x4000, 1));
    image[0x40048..0x40050].copy_from_slice(&pair(0x5000, 0));
    image[0x40050..0x40058].copy_from_slice(&pair(0x6000, 0));
    assert_eq!(run_scan(&image), ScanAction::Found { data_offset: 0x5000 * 4 + 0x20000 });
}

#[test]
fn scan_without_data_partition() {
    let mut image = vec![0u8; 0x40100];
    image[0x40000..0x40008].copy_from_slice(&pair(2, 0x10010));
    image[0x40040..0x40048].copy_from_slice(&pair(0x4000, 1));
    image[0x40048..0x40050].copy_from_slice(&pair(0x5000, 2));
    assert_eq!(run_scan(&image), ScanAction::NotFound);
    let mut empty = vec![0u8; 0x40100];
    empty[0x40000..0x40008].copy_from_slice(&pair(0, 0x10010));
    assert_eq!(run_scan(&empty), ScanAction::NotFound);
}

#[test]
fn fst_offsets() {
    assert_eq!(fst_pointer_offset(0x50000), 0x50424);
    assert_eq!(fst_image_offset(0x50000, 0x100), 0x50400);
}

/// An FST with a root, `a.bin` and `opening.bnr`.
fn sample_fst() -> Vec<u8> {
    let mut f = vec![0u8; 36];
    f[0] = 1;
    f[8..12].copy_from_slice(&3u32.to_be_bytes());
    // entry 1: file "a.bin" at name offset 0
    f[12] = 0;
    f[20..24].copy_from_slice(&5u32.to_be_bytes());
    // entry 2: file "opening.bnr" at name offset 6
    f[24] = 0;
    f[27] = 6;
    f[28..32].copy_from_slice(&0x1234u32.to_be_bytes());
    f[32..36].copy_from_slice(&0x600u32.to_be_bytes());
    f.extend_from_slice(b"a.bin\0opening.bnr\0");
    f
}

#[test]
fn fst_opening_bnr_entries() {
    let fst = sample_fst();
    assert!(check_fst(&fst));
    let found = opening_bnr_entries(&fst);
    assert_eq!(found.len(), 1);
    assert_eq!(found[0].index, 2);
    assert_eq!(found[0].name, "opening.bnr");
    assert_eq!(found[0].name_offset, 6);
    assert_eq!(found[0].data_offset, 0x1234);
    assert_eq!(found[0].size, 0x600);
}

#[test]
fn fst_unreadable() {
    assert!(!check_fst(&[0u8; 16]));
    let mut fst = sample_fst();
    fst[8..12].copy_from_slice(&100u32.to_be_bytes());
    assert!(!check_fst(&fst));
    let mut far_name = sample_fst();
    far_name[27] = 0xF0;
    assert!(!check_fst(&far_name));
}

#[test]
fn image_names() {
    assert!(is_iso_path("games/Wii Sports.ISO"));
    assert!(!is_iso_path("games/Wii Sports.wbfs"));
    assert!(is_opening_bnr("OPENING.bnr"));
    assert!(!is_opening_bnr("opening.bnr.bak"));
    assert_eq!(safe_stem("games/Wii Sports (EU).iso"), "Wii_Sports__EU_");
    assert_eq!(safe_stem(""), "unknown_iso");
}

#[test]
fn empty_blob() {
    let b = Blob::empty();
    assert!(b.data.is_empty());
    assert_eq!(b.size, 0);
}

#[test]
fn safe_stems_hold_only_safe_characters() {
    let s = safe_stem("dir/Ünïcødé name.v2+final.iso");
    assert_eq!(s.chars().count(), "Ünïcødé name.v2+final".chars().count());
    assert!(s.chars().all(|c| c.is_ascii_alphanumeric() || c == '-' || c == '_'));
    assert_eq!(s, "_n_c_d__name_v2_final");
}
