use banner_formats::game_info::{
    extract_tag_text, find_chars, get_id, get_title_from_id, normalize_game_id, replace_chars, xml_unescape,
    TitleError,
};

fn chars(s: &str) -> Vec<char> {
    s.chars().collect()
}

fn text(v: &[char]) -> String {
    v.iter().collect()
}

const DB: &str = "<datafile>\n<game name=\"a\">\n  <id>RMCE01</id>\n  <title>Mario Kart Wii</title>\n</game>\n<game name=\"b\">\n  <id> rspe01 </id>\n  <title>  Wii Sports &amp; Resort &lt;3 </title>\n</game>\n</datafile>";

#[test]
fn title_found_for_trimmed_lowercase_id() {
    assert_eq!(get_title_from_id(DB, "  rspe01\n").unwrap(), "Wii Sports & Resort <3");
    assert_eq!(get_title_from_id(DB, "RMCE01").unwrap(), "Mario Kart Wii");
}

#[test]
fn title_bad_id_length() {
    assert_eq!(get_title_from_id(DB, "RMCE0"), Err(TitleError::BadIdLength));
    assert_eq!(get_title_from_id(DB, "RMCE011"), Err(TitleError::BadIdLength));
    assert_eq!(normalize_game_id(" ab "), Err(TitleError::BadIdLength));
    // "é" takes two bytes: five characters, six bytes.
    assert_eq!(normalize_game_id("ABCDé").unwrap(), chars("ABCDé"));
}

#[test]
fn title_not_found() {
    assert_eq!(get_title_from_id(DB, "ZZZZ99"), Err(TitleError::NotFound));
    assert_eq!(get_title_from_id("", "ZZZZ99"), Err(TitleError::NotFound));
}

#[test]
fn title_missing_title_tag() {
    let db = "<game><id>ABCDEF</id></game>";
    assert_eq!(get_title_from_id(db, "abcdef"), Err(TitleError::NoTitle));
}

#[test]
fn title_malformed_entries() {
    assert_eq!(get_title_from_id("<game", "ABCDEF"), Err(TitleError::UnclosedGameTag));
    assert_eq!(get_title_from_id("<game><id>ABCDEF</id>", "ABCDEF"), Err(TitleError::MissingGameEnd));
}

#[test]
fn normalize_uppercases_ascii() {
    assert_eq!(normalize_game_id(" sb4p01\t").unwrap(), chars("SB4P01"));
}

#[test]
fn tag_text_extraction() {
    let block = chars("x<id>AB</id><id>CD</id>");
    assert_eq!(text(&extract_tag_text(&block, &chars("id")).unwrap()), "AB");
    assert_eq!(extract_tag_text(&block, &chars("title")), None);
    let open_only = chars("<id>AB");
    assert_eq!(extract_tag_text(&open_only, &chars("id")), None);
}

#[test]
fn substring_search() {
    let hay = chars("abcabc");
    assert_eq!(find_chars(&hay, &chars("bc"), 0), Some(1));
    assert_eq!(find_chars(&hay, &chars("bc"), 2), Some(4));
    assert_eq!(find_chars(&hay, &chars("bc"), 5), None);
    assert_eq!(find_chars(&hay, &chars("x"), 0), None);
}

#[test]
fn unescape_decodes_in_sequence() {
    assert_eq!(text(&xml_unescape(&chars("a &amp; b"))), "a & b");
    assert_eq!(text(&xml_unescape(&chars("&quot;x&quot; &apos;y&apos; &gt;"))), "\"x\" 'y' >");
    // "&amp;" is decoded first, so "&amp;lt;" ends up as "<".
    assert_eq!(text(&xml_unescape(&chars("&amp;lt;"))), "<");
}

#[test]
fn unescape_leaves_plain_text_alone() {
    let s = "No entities <here> at all";
    assert_eq!(text(&xml_unescape(&chars(s))), s);
}

#[test]
fn replace_is_left_to_right_without_overlap() {
    assert_eq!(text(&replace_chars(&chars("aaa"), &chars("aa"), &chars("b"))), "ba");
    assert_eq!(text(&replace_chars(&chars("xyz"), &chars("q"), &chars("r"))), "xyz");
}

#[test]
fn game_id_from_header() {
    let mut header = [0u8; 0x60];
    header[..6].copy_from_slice(b"RSPE01");
    assert_eq!(get_id(&header), "RSPE01");
    let mut short = [0u8; 0x60];
    short[..6].copy_from_slice(b"\0 AB\0\0");
    assert_eq!(get_id(&short), "AB");
}

#[test]
fn unicode_whitespace_is_trimmed() {
    assert_eq!(normalize_game_id("\u{3000}rspe01\u{85}\u{2028}").unwrap(), chars("RSPE01"));
    assert_eq!(normalize_game_id("\u{200B}RSPE01"), Err(TitleError::BadIdLength));
}
