use fontmatch::attrs::Style;
use fontmatch::db::FaceRecord;
use fontmatch::db::FontDatabase;
use fontmatch::system::FontSystem;

fn be16(v: &mut Vec<u8>, x: u16) {
    v.extend_from_slice(&x.to_be_bytes());
}

fn be32(v: &mut Vec<u8>, x: u32) {
    v.extend_from_slice(&x.to_be_bytes());
}

fn head_table() -> Vec<u8> {
    let mut t = Vec::new();
    be32(&mut t, 0x00010000); // version
    be32(&mut t, 0); // font revision
    be32(&mut t, 0); // checksum adjustment
    be32(&mut t, 0x5F0F3CF5); // magic number
    be16(&mut t, 0); // flags
    be16(&mut t, 1000); // units per em
    t.extend_from_slice(&[0u8; 16]); // created + modified
    t.extend_from_slice(&[0u8; 8]); // bounding box
    be16(&mut t, 0); // mac style
    be16(&mut t, 8); // lowest rec ppem
    be16(&mut t, 0); // font direction hint
    be16(&mut t, 0); // index to loc format
    be16(&mut t, 0); // glyph data format
    t
}

fn hhea_table() -> Vec<u8> {
    let mut t = vec![0u8; 36];
    t[0..4].copy_from_slice(&0x00010000u32.to_be_bytes());
    t
}

fn maxp_table() -> Vec<u8> {
    let mut t = Vec::new();
    be32(&mut t, 0x00005000);
    be16(&mut t, 2); // number of glyphs
    t
}

/// A cmap with one format 12 Unicode subtable covering an inclusive
/// codepoint range.
fn cmap_table(start: u32, end: u32) -> Vec<u8> {
    let groups = 1u32;
    let mut sub = Vec::new();
    be16(&mut sub, 12); // format
    be16(&mut sub, 0); // reserved
    be32(&mut sub, 16 + 12 * groups); // length
    be32(&mut sub, 0); // language
    be32(&mut sub, groups);
    be32(&mut sub, start);
    be32(&mut sub, end);
    be32(&mut sub, 1); // start glyph id
    let mut t = Vec::new();
    be16(&mut t, 0); // version
    be16(&mut t, 1); // subtable count
    be16(&mut t, 0); // platform: Unicode
    be16(&mut t, 4); // encoding
    be32(&mut t, 12); // subtable offset
    t.extend_from_slice(&sub);
    t
}

/// A GSUB with one script record and empty feature and lookup lists.
fn gsub_table(tag: &[u8; 4]) -> Vec<u8> {
    let mut t = Vec::new();
    be16(&mut t, 1); // major version
    be16(&mut t, 0); // minor version
    be16(&mut t, 10); // script list offset
    be16(&mut t, 22); // feature list offset
    be16(&mut t, 24); // lookup list offset
    // script list at 10: one record, script table right after the records
    be16(&mut t, 1);
    t.extend_from_slice(tag);
    be16(&mut t, 8); // script table offset from script list start
    // script table: no default language system, no records
    be16(&mut t, 0);
    be16(&mut t, 0);
    // feature list at 22
    be16(&mut t, 0);
    // lookup list at 24
    be16(&mut t, 0);
    t
}

fn build_font(extra: Vec<([u8; 4], Vec<u8>)>) -> Vec<u8> {
    let mut tables: Vec<([u8; 4], Vec<u8>)> =
        vec![(*b"head", head_table()), (*b"hhea", hhea_table()), (*b"maxp", maxp_table())];
    tables.extend(extra);
    tables.sort_by(|a, b| a.0.cmp(&b.0));
    let mut font = Vec::new();
    be32(&mut font, 0x00010000);
    be16(&mut font, tables.len() as u16);
    be16(&mut font, 0);
    be16(&mut font, 0);
    be16(&mut font, 0);
    let mut offset = 12 + 16 * tables.len();
    let mut body = Vec::new();
    for (tag, data) in &tables {
        font.extend_from_slice(tag);
        be32(&mut font, 0); // checksum, unchecked
        be32(&mut font, offset as u32);
        be32(&mut font, data.len() as u32);
        offset += data.len();
        body.extend_from_slice(data);
    }
    font.extend_from_slice(&body);
    font
}

fn record(name: &str, data: Vec<u8>, monospaced: bool) -> FaceRecord {
    FaceRecord {
        families: vec![name.to_string()],
        post_script_name: name.to_string(),
        weight: 400,
        style: Style::Normal,
        stretch: 5,
        monospaced,
        data,
        index: 0,
    }
}

#[test]
fn failed_parse_is_cached_and_never_retried() {
    let mut db = FontDatabase::new();
    let bad = db.push_face(record("Bad", b"not a font".to_vec(), false));
    let mut sys = FontSystem::new_with_locale_and_db("en-US".to_string(), db);
    assert_eq!(sys.load_attempts, 0);
    assert!(sys.get_font(bad).is_none());
    assert_eq!(sys.load_attempts, 1);
    assert!(sys.get_font(bad).is_none());
    assert!(sys.get_font(bad).is_none());
    assert_eq!(sys.load_attempts, 1);
}

#[test]
fn unknown_id_is_absent_without_a_parse() {
    let mut sys = FontSystem::new_with_locale_and_db("en-US".to_string(), FontDatabase::new());
    assert!(sys.get_font(7).is_none());
    assert!(sys.get_font(7).is_none());
    assert_eq!(sys.load_attempts, 0);
}

#[test]
fn an_id_unknown_at_first_loads_once_the_face_exists() {
    // An absent id is answered without being cached, so the same id
    // loads normally after a face appears under it.
    let mut sys = FontSystem::new_with_locale_and_db("en-US".to_string(), FontDatabase::new());
    assert!(sys.get_font(0).is_none());
    assert_eq!(sys.load_attempts, 0);
    let id = sys.db_mut().push_face(record("Good", build_font(Vec::new()), false));
    assert_eq!(id, 0);
    assert!(sys.get_font(0).is_some());
    assert_eq!(sys.load_attempts, 1);
}

#[test]
fn successful_load_is_memoized() {
    let mut db = FontDatabase::new();
    let good = db.push_face(record("Good", build_font(Vec::new()), false));
    let mut sys = FontSystem::new_with_locale_and_db("en-US".to_string(), db);
    let f1 = sys.get_font(good).expect("font should load");
    assert_eq!(f1.id, good);
    let f2 = sys.get_font(good).expect("font should stay loaded");
    assert_eq!(f2.id, good);
    assert_eq!(sys.load_attempts, 1);
}

#[test]
fn codepoints_come_from_the_cmap() {
    let mut db = FontDatabase::new();
    let id = db.push_face(record(
        "Latin",
        build_font(vec![(*b"cmap", cmap_table('a' as u32, 'c' as u32))]),
        false,
    ));
    let mut sys = FontSystem::new_with_locale_and_db("en-US".to_string(), db);
    let font = sys.get_font(id).expect("font should load");
    assert_eq!(font.codepoints, vec!['a' as u32, 'b' as u32, 'c' as u32]);
    assert_eq!(font.unicode_codepoints(), &font.codepoints);
    assert!(font.supports_codepoint('b' as u32));
    assert!(!font.supports_codepoint('z' as u32));
    assert_eq!(font.duplicate().codepoints, font.codepoints);
    assert_eq!(sys.get_font_supported_codepoints_in_word(id, "abcz"), Some(3));
    assert_eq!(sys.get_font_supported_codepoints_in_word(id, "zzz"), Some(0));
    // Answered again through the per-font memo.
    assert_eq!(sys.get_font_supported_codepoints_in_word(id, "abcz"), Some(3));
}

#[test]
fn counting_fails_only_when_the_font_does_not_load() {
    let mut db = FontDatabase::new();
    let bad = db.push_face(record("Bad", Vec::new(), false));
    let mut sys = FontSystem::new_with_locale_and_db("en-US".to_string(), db);
    assert_eq!(sys.get_font_supported_codepoints_in_word(bad, "abc"), None);
    assert_eq!(sys.get_font_supported_codepoints_in_word(99, "abc"), None);
}

#[test]
fn monospace_index_skips_emoji_faces() {
    let mut db = FontDatabase::new();
    let mono = db.push_face(record("Mono", Vec::new(), true));
    let _plain = db.push_face(record("Plain", Vec::new(), false));
    let emoji = db.push_face(record("MonoEmoji", Vec::new(), true));
    let sys = FontSystem::new_with_locale_and_db("en-US".to_string(), db);
    assert!(sys.is_monospace(mono));
    assert!(!sys.is_monospace(_plain));
    assert!(!sys.is_monospace(emoji));
}

#[test]
fn per_script_monospace_ids() {
    let latn = u32::from_be_bytes(*b"latn");
    let grek = u32::from_be_bytes(*b"grek");
    let mut db = FontDatabase::new();
    let a = db.push_face(record("MonoA", build_font(vec![(*b"GSUB", gsub_table(b"latn"))]), true));
    let b = db.push_face(record("MonoB", build_font(vec![(*b"GSUB", gsub_table(b"grek"))]), true));
    let _c = db.push_face(record("Plain", build_font(Vec::new()), false));
    let sys = FontSystem::new_with_locale_and_db("en-US".to_string(), db);
    assert_eq!(sys.get_monospace_ids_for_scripts(&[latn]), vec![a]);
    assert_eq!(sys.get_monospace_ids_for_scripts(&[grek]), vec![b]);
    assert_eq!(sys.get_monospace_ids_for_scripts(&[latn, grek]), vec![a, b]);
    assert_eq!(sys.get_monospace_ids_for_scripts(&[u32::from_be_bytes(*b"cyrl")]), Vec::<usize>::new());
}

#[test]
fn locale_and_db_round_trip() {
    let mut db = FontDatabase::new();
    db.push_face(record("Test", Vec::new(), false));
    let sys = FontSystem::new_with_locale_and_db("fr-FR".to_string(), db);
    assert_eq!(sys.locale(), "fr-FR");
    assert_eq!(sys.db().len(), 1);
    let (locale, db) = sys.into_locale_and_db();
    assert_eq!(locale, "fr-FR");
    assert_eq!(db.len(), 1);
}
