use fontmatch::attrs::Style;
use fontmatch::db::FaceRecord;
use fontmatch::db::Font;
use fontmatch::db::FontDatabase;
use fontmatch::pipeline::Glyph;
use fontmatch::pipeline::Shaper;
use fontmatch::system::FontSystem;

fn be16(v: &mut Vec<u8>, x: u16) {
    v.extend_from_slice(&x.to_be_bytes());
}

fn be32(v: &mut Vec<u8>, x: u32) {
    v.extend_from_slice(&x.to_be_bytes());
}

fn tiny_font() -> Vec<u8> {
    let mut head = Vec::new();
    be32(&mut head, 0x00010000);
    be32(&mut head, 0);
    be32(&mut head, 0);
    be32(&mut head, 0x5F0F3CF5);
    be16(&mut head, 0);
    be16(&mut head, 1000);
    head.extend_from_slice(&[0u8; 16]);
    head.extend_from_slice(&[0u8; 8]);
    be16(&mut head, 0);
    be16(&mut head, 8);
    be16(&mut head, 0);
    be16(&mut head, 0);
    be16(&mut head, 0);
    let mut hhea = vec![0u8; 36];
    hhea[0..4].copy_from_slice(&0x00010000u32.to_be_bytes());
    let mut maxp = Vec::new();
    be32(&mut maxp, 0x00005000);
    be16(&mut maxp, 2);
    let tables: Vec<([u8; 4], Vec<u8>)> =
        vec![(*b"head", head), (*b"hhea", hhea), (*b"maxp", maxp)];
    let mut font = Vec::new();
    be32(&mut font, 0x00010000);
    be16(&mut font, tables.len() as u16);
    be16(&mut font, 0);
    be16(&mut font, 0);
    be16(&mut font, 0);
    let mut offset = 12 + 16 * tables.len();
    let mut body = Vec::new();
    for (tag, data) in &tables {
        font.extend_from_slice(tag);
        be32(&mut font, 0);
        be32(&mut font, offset as u32);
        be32(&mut font, data.len() as u32);
        offset += data.len();
        body.extend_from_slice(data);
    }
    font.extend_from_slice(&body);
    font
}

fn record(name: &str, data: Vec<u8>) -> FaceRecord {
    FaceRecord {
        families: vec![name.to_string()],
        post_script_name: name.to_string(),
        weight: 400,
        style: Style::Normal,
        stretch: 5,
        monospaced: false,
        data,
        index: 0,
    }
}

/// A shaper that reports one glyph per byte of the run, all rendered.
struct FullCoverageShaper;

impl Shaper for FullCoverageShaper {
    fn shape_fallback(
        &mut self,
        font: &Font,
        line: &str,
        start_run: usize,
        end_run: usize,
        _span_rtl: bool,
    ) -> (Vec<Glyph>, Vec<usize>) {
        let mut glyphs = Vec::new();
        let mut pos = start_run;
        while pos < end_run && pos < line.len() {
            if line.is_char_boundary(pos) {
                glyphs.push(Glyph { start: pos, end: pos + 1, font_id: font.id, glyph_id: 1 });
            }
            pos += 1;
        }
        (glyphs, Vec::new())
    }
}

/// A shaper that renders nothing: every offset stays missing.
struct EmptyShaper;

impl Shaper for EmptyShaper {
    fn shape_fallback(
        &mut self,
        _font: &Font,
        _line: &str,
        start_run: usize,
        end_run: usize,
        _span_rtl: bool,
    ) -> (Vec<Glyph>, Vec<usize>) {
        (Vec::new(), (start_run..end_run).collect())
    }
}

#[test]
fn empty_missing_list_is_a_no_op() {
    let mut sys = FontSystem::new_with_locale_and_db("en-US".to_string(), FontDatabase::new());
    sys.add_unicode_range_fallback('a', 'z', 0);
    let mut shaper = FullCoverageShaper;
    // Deliberately unsorted, to show the stream is left untouched.
    let mut glyphs = vec![
        Glyph { start: 3, end: 4, font_id: 9, glyph_id: 7 },
        Glyph { start: 1, end: 2, font_id: 9, glyph_id: 7 },
    ];
    let before = glyphs.clone();
    let residual = sys.process_unicode_range_fallbacks(
        &mut shaper,
        &mut glyphs,
        "abcdef",
        0,
        6,
        false,
        400,
        Style::Normal,
        &[],
    );
    assert!(residual.is_empty());
    assert_eq!(glyphs, before);
}

#[test]
fn no_rules_returns_missing_unchanged() {
    let mut sys = FontSystem::new_with_locale_and_db("en-US".to_string(), FontDatabase::new());
    let mut shaper = FullCoverageShaper;
    let mut glyphs: Vec<Glyph> = Vec::new();
    let residual = sys.process_unicode_range_fallbacks(
        &mut shaper,
        &mut glyphs,
        "abcdef",
        0,
        6,
        false,
        400,
        Style::Normal,
        &[5, 2],
    );
    assert_eq!(residual, vec![5, 2]);
    assert!(glyphs.is_empty());
}

#[test]
fn resolved_offsets_are_spliced_in() {
    // Offsets 2 ('c') and 5 ('f') resolve to two different faces; both
    // shapes succeed, so the residual is empty and the merged stream
    // holds exactly one glyph starting at each offset.
    let mut db = FontDatabase::new();
    let font_a = db.push_face(record("A", tiny_font()));
    let font_b = db.push_face(record("B", tiny_font()));
    let mut sys = FontSystem::new_with_locale_and_db("en-US".to_string(), db);
    sys.add_unicode_range_fallback('c', 'c', font_a);
    sys.add_unicode_range_fallback('f', 'f', font_b);
    let mut shaper = FullCoverageShaper;
    let mut glyphs: Vec<Glyph> = Vec::new();
    let residual = sys.process_unicode_range_fallbacks(
        &mut shaper,
        &mut glyphs,
        "abcdef",
        0,
        6,
        false,
        400,
        Style::Normal,
        &[2, 5],
    );
    assert!(residual.is_empty());
    assert_eq!(glyphs.iter().filter(|g| g.start == 2).count(), 1);
    assert_eq!(glyphs.iter().filter(|g| g.start == 5).count(), 1);
    assert_eq!(glyphs.len(), 2);
    assert_eq!(glyphs[0].font_id, font_a);
    assert_eq!(glyphs[1].font_id, font_b);
}

#[test]
fn replacing_keeps_one_glyph_per_offset() {
    let mut db = FontDatabase::new();
    let font_a = db.push_face(record("A", tiny_font()));
    let mut sys = FontSystem::new_with_locale_and_db("en-US".to_string(), db);
    sys.add_unicode_range_fallback('a', 'z', font_a);
    let mut shaper = FullCoverageShaper;
    let mut glyphs = vec![
        Glyph { start: 0, end: 1, font_id: 9, glyph_id: 0 },
        Glyph { start: 1, end: 2, font_id: 9, glyph_id: 7 },
    ];
    let residual = sys.process_unicode_range_fallbacks(
        &mut shaper,
        &mut glyphs,
        "ab",
        0,
        2,
        false,
        400,
        Style::Normal,
        &[0],
    );
    assert!(residual.is_empty());
    assert_eq!(glyphs.len(), 2);
    assert_eq!(glyphs[0], Glyph { start: 0, end: 1, font_id: font_a, glyph_id: 1 });
    assert_eq!(glyphs[1], Glyph { start: 1, end: 2, font_id: 9, glyph_id: 7 });
}

#[test]
fn unresolvable_offsets_go_to_the_residual() {
    let mut db = FontDatabase::new();
    let font_a = db.push_face(record("A", tiny_font()));
    let bad = db.push_face(record("Bad", b"junk".to_vec()));
    let mut sys = FontSystem::new_with_locale_and_db("en-US".to_string(), db);
    sys.add_unicode_range_fallback('a', 'a', font_a);
    sys.add_unicode_range_fallback('b', 'b', bad);
    let mut shaper = FullCoverageShaper;
    let mut glyphs: Vec<Glyph> = Vec::new();
    // 0 resolves and shapes; 1 resolves to a face that fails to load;
    // 2 ('c') matches no rule; 9 is outside the run.
    let residual = sys.process_unicode_range_fallbacks(
        &mut shaper,
        &mut glyphs,
        "abc",
        0,
        3,
        false,
        400,
        Style::Normal,
        &[0, 1, 2, 9],
    );
    assert_eq!(residual, vec![1, 2, 9]);
    assert_eq!(glyphs.len(), 1);
    assert_eq!(glyphs[0].start, 0);
}

#[test]
fn shaper_misses_stay_missing() {
    let mut db = FontDatabase::new();
    let font_a = db.push_face(record("A", tiny_font()));
    let mut sys = FontSystem::new_with_locale_and_db("en-US".to_string(), db);
    sys.add_unicode_range_fallback('a', 'z', font_a);
    let mut shaper = EmptyShaper;
    let mut glyphs: Vec<Glyph> = Vec::new();
    let residual = sys.process_unicode_range_fallbacks(
        &mut shaper,
        &mut glyphs,
        "abc",
        0,
        3,
        false,
        400,
        Style::Normal,
        &[2, 0],
    );
    assert_eq!(residual, vec![0, 2]);
    assert!(glyphs.is_empty());
}

#[test]
fn non_boundary_offsets_are_invalid() {
    let mut db = FontDatabase::new();
    let font_a = db.push_face(record("A", tiny_font()));
    let mut sys = FontSystem::new_with_locale_and_db("en-US".to_string(), db);
    sys.add_unicode_range_fallback('\u{0}', '\u{10FFFF}', font_a);
    let mut shaper = FullCoverageShaper;
    let mut glyphs: Vec<Glyph> = Vec::new();
    // "é" is two bytes; offset 1 is a continuation byte.
    let residual = sys.process_unicode_range_fallbacks(
        &mut shaper,
        &mut glyphs,
        "é",
        0,
        2,
        false,
        400,
        Style::Normal,
        &[1],
    );
    assert_eq!(residual, vec![1]);
    assert!(glyphs.is_empty());
}
