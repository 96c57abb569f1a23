use fontmatch::codepoints::FontCachedCodepointSupportInfo;
use fontmatch::codepoints::SUPPORTED_MAX_SZ;

#[test]
fn classifies_from_font_codepoints() {
    let mut cache = FontCachedCodepointSupportInfo::new();
    let cps: Vec<u32> = vec![65, 66, 70];
    assert!(cache.has_codepoint(&cps, 65));
    assert!(!cache.has_codepoint(&cps, 67));
    assert!(cache.has_codepoint(&cps, 70));
}

#[test]
fn cached_classification_is_stable() {
    // Once a (font, codepoint) pair is recorded, repeated queries answer
    // from the memo and never re-consult the codepoint set: handing in a
    // contradicting set afterwards does not change the answer.
    let mut cache = FontCachedCodepointSupportInfo::new();
    let cps: Vec<u32> = vec![65];
    assert!(cache.has_codepoint(&cps, 65));
    assert!(!cache.has_codepoint(&cps, 66));
    let empty: Vec<u32> = Vec::new();
    assert!(cache.has_codepoint(&empty, 65));
    let full: Vec<u32> = vec![65, 66];
    assert!(!cache.has_codepoint(&full, 66));
}

#[test]
fn recording_is_sorted_and_split() {
    let mut cache = FontCachedCodepointSupportInfo::new();
    let cps: Vec<u32> = vec![9, 3, 7];
    assert!(cache.has_codepoint(&cps, 7));
    assert!(cache.has_codepoint(&cps, 3));
    assert!(!cache.has_codepoint(&cps, 5));
    assert!(cache.has_codepoint(&cps, 9));
    assert_eq!(cache.supported, vec![3, 7, 9]);
    assert_eq!(cache.not_supported, vec![5]);
}

#[test]
fn unknown_codepoint_inserts_at_position() {
    let mut cache = FontCachedCodepointSupportInfo::new();
    let cps: Vec<u32> = vec![5];
    assert!(cache.unknown_has_codepoint(&cps, 5, 0, 0));
    assert_eq!(cache.supported, vec![5]);
    assert!(!cache.unknown_has_codepoint(&cps, 8, 1, 0));
    assert_eq!(cache.not_supported, vec![8]);
}

#[test]
fn full_supported_sequence_degrades_without_recording() {
    // Fill the "supported" sequence to its cap, then show that a further
    // supported codepoint is answered but not recorded.
    let mut cache = FontCachedCodepointSupportInfo::new();
    let cps: Vec<u32> = (0..(SUPPORTED_MAX_SZ as u32 + 1)).collect();
    for cp in 0..(SUPPORTED_MAX_SZ as u32) {
        assert!(cache.has_codepoint(&cps, cp));
    }
    assert_eq!(cache.supported.len(), SUPPORTED_MAX_SZ);
    let over = SUPPORTED_MAX_SZ as u32;
    assert!(cache.has_codepoint(&cps, over));
    assert_eq!(cache.supported.len(), SUPPORTED_MAX_SZ);
    // Not recorded: an empty set now answers "unsupported" for it.
    let empty: Vec<u32> = Vec::new();
    assert!(!cache.has_codepoint(&empty, over));
    // A codepoint recorded before the cap stays answered from the memo.
    assert!(cache.has_codepoint(&empty, 0));
}
