use fontmatch::attrs::FontMatchAttrs;
use fontmatch::attrs::Style;
use fontmatch::db::FontDatabase;
use fontmatch::fallback::Fallback;
use fontmatch::fallback::Fallbacks;
use fontmatch::fallback::PlatformFallback;
use fontmatch::system::FontSystem;
use fontmatch::text::char_at;
use fontmatch::text::contains_substr;

fn be16(v: &mut Vec<u8>, x: u16) {
    v.extend_from_slice(&x.to_be_bytes());
}

fn be32(v: &mut Vec<u8>, x: u32) {
    v.extend_from_slice(&x.to_be_bytes());
}

fn utf16be(s: &str) -> Vec<u8> {
    let mut out = Vec::new();
    for unit in s.encode_utf16() {
        out.extend_from_slice(&unit.to_be_bytes());
    }
    out
}

/// A name table with a family name and a PostScript name, as the face
/// scanner requires.
fn name_table(family: &str, post_script: &str) -> Vec<u8> {
    let fam = utf16be(family);
    let ps = utf16be(post_script);
    let mut t = Vec::new();
    be16(&mut t, 0); // format
    be16(&mut t, 2); // count
    be16(&mut t, 6 + 2 * 12); // string data offset
    // family name record: windows platform, unicode BMP encoding
    be16(&mut t, 3);
    be16(&mut t, 1);
    be16(&mut t, 0x409);
    be16(&mut t, 1);
    be16(&mut t, fam.len() as u16);
    be16(&mut t, 0);
    // postscript name record
    be16(&mut t, 3);
    be16(&mut t, 1);
    be16(&mut t, 0x409);
    be16(&mut t, 6);
    be16(&mut t, ps.len() as u16);
    be16(&mut t, fam.len() as u16);
    t.extend_from_slice(&fam);
    t.extend_from_slice(&ps);
    t
}

fn named_font(family: &str, post_script: &str) -> Vec<u8> {
    let mut head = Vec::new();
    be32(&mut head, 0x00010000);
    be32(&mut head, 0);
    be32(&mut head, 0);
    be32(&mut head, 0x5F0F3CF5);
    be16(&mut head, 0);
    be16(&mut head, 1000);
    head.extend_from_slice(&[0u8; 16]);
    head.extend_from_slice(&[0u8; 8]);
    be16(&mut head, 0);
    be16(&mut head, 8);
    be16(&mut head, 0);
    be16(&mut head, 0);
    be16(&mut head, 0);
    let mut hhea = vec![0u8; 36];
    hhea[0..4].copy_from_slice(&0x00010000u32.to_be_bytes());
    let mut maxp = Vec::new();
    be32(&mut maxp, 0x00005000);
    be16(&mut maxp, 2);
    let mut tables: Vec<([u8; 4], Vec<u8>)> = vec![
        (*b"head", head),
        (*b"hhea", hhea),
        (*b"maxp", maxp),
        (*b"name", name_table(family, post_script)),
    ];
    tables.sort_by(|a, b| a.0.cmp(&b.0));
    let mut font = Vec::new();
    be32(&mut font, 0x00010000);
    be16(&mut font, tables.len() as u16);
    be16(&mut font, 0);
    be16(&mut font, 0);
    be16(&mut font, 0);
    let mut offset = 12 + 16 * tables.len();
    let mut body = Vec::new();
    for (tag, data) in &tables {
        font.extend_from_slice(tag);
        be32(&mut font, 0);
        be32(&mut font, offset as u32);
        be32(&mut font, data.len() as u32);
        offset += data.len();
        body.extend_from_slice(data);
    }
    font.extend_from_slice(&body);
    font
}

#[test]
fn scanning_font_bytes_records_the_face() {
    let mut db = FontDatabase::new();
    let ids = db.load_font_data(&named_font("Tiny", "Tiny-Regular"));
    assert_eq!(ids, vec![0]);
    assert_eq!(db.len(), 1);
    let face = db.face(0).expect("face must exist");
    assert_eq!(face.families, vec!["Tiny".to_string()]);
    assert_eq!(face.post_script_name, "Tiny-Regular");
    assert_eq!(face.weight, 400);
    assert_eq!(face.style, Style::Normal);
    assert!(db.face(1).is_none());
}

#[test]
fn scanning_garbage_records_nothing() {
    let mut db = FontDatabase::new();
    let ids = db.load_font_data(b"definitely not a font");
    assert!(ids.is_empty());
    assert_eq!(db.len(), 0);
}

#[test]
fn engine_level_load_invalidates_matches() {
    let mut sys = FontSystem::new_with_locale_and_db("en-US".to_string(), FontDatabase::new());
    let attrs = FontMatchAttrs {
        family: vec!["Tiny".to_string()],
        weight: 400,
        style: Style::Normal,
        stretch: 5,
    };
    assert!(sys.get_font_matches(&attrs).is_empty());
    let ids = sys.load_font_data(&named_font("Tiny", "Tiny-Regular"));
    assert_eq!(ids.len(), 1);
    let after = sys.get_font_matches(&attrs);
    assert_eq!(after.len(), 1);
    assert_eq!(after[0].id, ids[0]);
}

#[test]
fn char_at_decodes_byte_offsets() {
    assert_eq!(char_at("abc", 0), Some('a'));
    assert_eq!(char_at("abc", 2), Some('c'));
    assert_eq!(char_at("abc", 3), None);
    assert_eq!(char_at("aé", 1), Some('é'));
    assert_eq!(char_at("aé", 2), None);
}

#[test]
fn substring_search() {
    assert!(contains_substr("NotoEmojiMono", "Emoji"));
    assert!(!contains_substr("NotoSansMono", "Emoji"));
    assert!(contains_substr("anything", ""));
    assert!(!contains_substr("ab", "abc"));
}

#[test]
fn platform_fallback_chain() {
    let chain = Fallbacks::new(&PlatformFallback, &[1u32, 2u32], "en-US");
    assert_eq!(chain.script.len(), 2);
    assert_eq!(chain.script[0].0, 1);
    let common = PlatformFallback.common_fallback();
    assert!(!common.is_empty());
    assert_eq!(chain.common, common);
    assert!(chain.families_for_script(1).is_some());
    assert!(chain.families_for_script(9).is_none());
}
