use transcript::language::{select_language, select_track};

fn tags(v: &[&str]) -> Vec<String> {
    v.iter().map(|s| s.to_string()).collect()
}

#[test]
fn earliest_preference_wins() {
    let prefs = tags(&["fr", "en", "zh"]);
    let available = tags(&["zh-Hant", "zh-TW", "en-US"]);
    assert_eq!(select_language(&prefs, &available), Some(1));
    assert_eq!(select_track(&prefs, &available), Some(2));
}

#[test]
fn primary_range_matches_script_variant() {
    assert_eq!(select_language(&tags(&["zh"]), &tags(&["zh-Hant"])), Some(0));
}

#[test]
fn regional_range_does_not_match_other_variant() {
    assert_eq!(select_language(&tags(&["zh-TW"]), &tags(&["zh-Hant"])), None);
    assert_eq!(select_track(&tags(&["zh-TW"]), &tags(&["zh-Hant"])), None);
}

#[test]
fn matching_is_directional() {
    assert_eq!(select_language(&tags(&["es-BR"]), &tags(&["es"])), None);
    assert_eq!(select_language(&tags(&["es"]), &tags(&["es-BR"])), Some(0));
}

#[test]
fn malformed_available_tag_is_skipped() {
    let prefs = tags(&["en"]);
    let available = tags(&["not a tag!", "en-GB"]);
    assert_eq!(select_language(&prefs, &available), Some(0));
    assert_eq!(select_track(&prefs, &available), Some(1));
}

#[test]
fn malformed_or_extended_preference_is_skipped() {
    let prefs = tags(&["??", "en-a-bbb", "ja"]);
    let available = tags(&["en", "ja"]);
    assert_eq!(select_language(&prefs, &available), Some(2));
    assert_eq!(select_track(&prefs, &available), Some(1));
}

#[test]
fn nothing_available_selects_nothing() {
    let prefs = tags(&["en", "zh-TW", "ja", "zh-Hant", "ko", "zh"]);
    assert_eq!(select_language(&prefs, &tags(&[])), None);
    assert_eq!(select_language(&tags(&[]), &tags(&["en"])), None);
    assert_eq!(select_track(&prefs, &tags(&["de", "fr"])), None);
}

#[test]
fn first_matching_track_is_chosen() {
    let prefs = tags(&["zh"]);
    let available = tags(&["en", "zh-Hant", "zh"]);
    assert_eq!(select_track(&prefs, &available), Some(1));
}
