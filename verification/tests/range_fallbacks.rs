use fontmatch::attrs::Style;
use fontmatch::db::FaceRecord;
use fontmatch::db::FontDatabase;
use fontmatch::range_fallback::FontError;
use fontmatch::range_fallback::UnicodeRangeFallbacks;
use fontmatch::system::FontSystem;

const FONT_A: usize = 1;
const FONT_B: usize = 2;

#[test]
fn ranges_resolve_their_characters() {
    let mut sys = FontSystem::new_with_locale_and_db("en-US".to_string(), FontDatabase::new());
    sys.add_unicode_range_fallback('a', 'f', FONT_A);
    sys.add_unicode_range_fallback('g', 'r', FONT_B);
    assert_eq!(sys.get_unicode_range_fallback_for_char('c'), Some(FONT_A));
    assert_eq!(sys.get_unicode_range_fallback_for_char('m'), Some(FONT_B));
    assert_eq!(sys.get_unicode_range_fallback_for_char('z'), None);
}

#[test]
fn constrained_rule_beats_generic_when_it_matches() {
    let mut sys = FontSystem::new_with_locale_and_db("en-US".to_string(), FontDatabase::new());
    sys.add_unicode_range_fallback('a', 'z', FONT_A);
    sys.add_unicode_range_fallback_with_style('f', 'z', FONT_B, Some(700), None);
    assert_eq!(
        sys.get_unicode_range_fallback_for_char_with_style('g', Some(700), None),
        Some(FONT_B)
    );
    assert_eq!(
        sys.get_unicode_range_fallback_for_char_with_style('g', Some(400), None),
        Some(FONT_A)
    );
    // A style on the request still matches a rule that constrains only
    // the weight.
    assert_eq!(
        sys.get_unicode_range_fallback_for_char_with_style('g', Some(700), Some(Style::Normal)),
        Some(FONT_B)
    );
}

#[test]
fn most_recent_registration_wins() {
    let mut table = UnicodeRangeFallbacks::new();
    table.add('a', 'z', FONT_A);
    table.add('a', 'z', FONT_B);
    assert_eq!(table.find_for_char('q'), Some(FONT_B));
    table.add_with_style('a', 'z', FONT_A, Some(400), Some(Style::Italic));
    table.add_with_style('a', 'z', FONT_B, Some(400), Some(Style::Italic));
    assert_eq!(
        table.find_for_char_with_style('q', Some(400), Some(Style::Italic)),
        Some(FONT_B)
    );
}

#[test]
fn mismatched_constraints_fall_back_to_generic() {
    let mut table = UnicodeRangeFallbacks::new();
    table.add('a', 'z', FONT_A);
    table.add_with_style('a', 'z', FONT_B, Some(700), Some(Style::Italic));
    // The constrained rule does not match the request, so the generic
    // rule applies even though the constrained one is newer.
    assert_eq!(
        table.find_for_char_with_style('q', Some(400), Some(Style::Normal)),
        Some(FONT_A)
    );
    // Without any request attributes only generic rules apply.
    assert_eq!(table.find_for_char('q'), Some(FONT_A));
}

#[test]
fn empty_table_resolves_nothing() {
    let table = UnicodeRangeFallbacks::new();
    assert!(table.is_empty());
    assert_eq!(table.find_for_char('a'), None);
}

#[test]
fn unknown_family_name_is_rejected() {
    let mut db = FontDatabase::new();
    let id = db.push_face(FaceRecord {
        families: vec!["Inter".to_string()],
        post_script_name: "Inter-Regular".to_string(),
        weight: 400,
        style: Style::Normal,
        stretch: 5,
        monospaced: false,
        data: Vec::new(),
        index: 0,
    });
    let mut sys = FontSystem::new_with_locale_and_db("en-US".to_string(), db);
    let err = sys.add_unicode_range_fallback_for_family('a', 'z', "Nope", None, None);
    assert_eq!(err, Err(FontError::UnknownFamilyName));
    assert!(!sys.has_unicode_range_fallbacks());
    let ok = sys.add_unicode_range_fallback_for_family('a', 'z', "Inter", None, None);
    assert_eq!(ok, Ok(()));
    assert!(sys.has_unicode_range_fallbacks());
    assert_eq!(sys.get_unicode_range_fallback_for_char('q'), Some(id));
}
