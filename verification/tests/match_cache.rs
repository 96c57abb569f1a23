use fontmatch::attrs::FontMatchAttrs;
use fontmatch::attrs::Style;
use fontmatch::db::FaceRecord;
use fontmatch::db::FontDatabase;
use fontmatch::system::FontSystem;

fn face(family: &str, weight: u16, style: Style, stretch: u16) -> FaceRecord {
    FaceRecord {
        families: vec![family.to_string()],
        post_script_name: format!("{}-{}", family, weight),
        weight,
        style,
        stretch,
        monospaced: false,
        data: Vec::new(),
        index: 0,
    }
}

fn any_family(weight: u16) -> FontMatchAttrs {
    FontMatchAttrs { family: Vec::new(), weight, style: Style::Normal, stretch: 5 }
}

#[test]
fn closest_weight_first() {
    let mut db = FontDatabase::new();
    let a = db.push_face(face("Test", 100, Style::Normal, 5));
    let b = db.push_face(face("Test", 400, Style::Normal, 5));
    let c = db.push_face(face("Test", 700, Style::Normal, 5));
    let mut sys = FontSystem::new_with_locale_and_db("en-US".to_string(), db);
    let matches = sys.get_font_matches(&any_family(450));
    let ids: Vec<usize> = matches.iter().map(|k| k.id).collect();
    assert_eq!(ids, vec![b, c, a]);
    assert_eq!(matches[0].font_weight_diff, 50);
    assert_eq!(matches[1].font_weight_diff, 250);
    assert_eq!(matches[2].font_weight_diff, 350);
}

#[test]
fn family_style_and_stretch_filter() {
    let mut db = FontDatabase::new();
    let a = db.push_face(face("Alpha", 400, Style::Normal, 5));
    let _b = db.push_face(face("Beta", 400, Style::Normal, 5));
    let _c = db.push_face(face("Alpha", 400, Style::Italic, 5));
    let _d = db.push_face(face("Alpha", 400, Style::Normal, 7));
    let mut sys = FontSystem::new_with_locale_and_db("en-US".to_string(), db);
    let attrs = FontMatchAttrs {
        family: vec!["Alpha".to_string()],
        weight: 400,
        style: Style::Normal,
        stretch: 5,
    };
    let matches = sys.get_font_matches(&attrs);
    let ids: Vec<usize> = matches.iter().map(|k| k.id).collect();
    assert_eq!(ids, vec![a]);
    let none = sys.get_font_matches(&FontMatchAttrs {
        family: vec!["Gamma".to_string()],
        weight: 400,
        style: Style::Normal,
        stretch: 5,
    });
    assert!(none.is_empty());
}

#[test]
fn requests_compare_by_content() {
    let a = any_family(400);
    let b = any_family(400);
    let c = any_family(500);
    assert!(a.matches_attrs(&b));
    assert!(!a.matches_attrs(&c));
    let d = FontMatchAttrs {
        family: vec!["Test".to_string()],
        weight: 400,
        style: Style::Normal,
        stretch: 5,
    };
    assert!(!a.matches_attrs(&d));
    assert!(d.matches_attrs(&d.duplicate()));
}

#[test]
fn cached_result_is_repeatable() {
    let mut db = FontDatabase::new();
    db.push_face(face("Test", 400, Style::Normal, 5));
    let mut sys = FontSystem::new_with_locale_and_db("en-US".to_string(), db);
    let first = sys.get_font_matches(&any_family(400));
    let second = sys.get_font_matches(&any_family(400));
    assert_eq!(first, second);
}

#[test]
fn database_mutation_recomputes_matches() {
    // A previously cached result for the same request must see a face
    // loaded afterwards instead of being served stale.
    let mut db = FontDatabase::new();
    let a = db.push_face(face("Test", 100, Style::Normal, 5));
    let mut sys = FontSystem::new_with_locale_and_db("en-US".to_string(), db);
    let before = sys.get_font_matches(&any_family(450));
    assert_eq!(before.len(), 1);
    assert_eq!(before[0].id, a);
    let b = sys.db_mut().push_face(face("Test", 450, Style::Normal, 5));
    let after = sys.get_font_matches(&any_family(450));
    let ids: Vec<usize> = after.iter().map(|k| k.id).collect();
    assert_eq!(ids, vec![b, a]);
    assert_eq!(after[0].font_weight_diff, 0);
}

#[test]
fn cache_flushes_at_capacity() {
    let mut db = FontDatabase::new();
    db.push_face(face("Test", 400, Style::Normal, 5));
    let mut sys = FontSystem::new_with_locale_and_db("en-US".to_string(), db);
    for w in 0..300u16 {
        let matches = sys.get_font_matches(&any_family(w));
        assert_eq!(matches.len(), 1);
    }
    // Still correct after the wholesale flush.
    let matches = sys.get_font_matches(&any_family(400));
    assert_eq!(matches.len(), 1);
    assert_eq!(matches[0].font_weight_diff, 0);
}
