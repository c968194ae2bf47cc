use markspace::settings::{
    font_family_label, normalize_font_family, SettingsGroup, DEFAULT_FONT_FAMILY, SYSTEM_UI_FONT,
};

#[test]
fn settings_groups_and_labels() {
    assert_eq!(SettingsGroup::ALL, [SettingsGroup::Font]);
    assert_eq!(SettingsGroup::Font.label(), "字体");
}

#[test]
fn the_system_font_placeholder_becomes_the_default_family() {
    assert_eq!(normalize_font_family(SYSTEM_UI_FONT.to_string()), DEFAULT_FONT_FAMILY);
    assert_eq!(normalize_font_family("Fira Code".to_string()), "Fira Code");
    assert_eq!(DEFAULT_FONT_FAMILY, "YaHei Consolas Hybrid");
}

#[test]
fn font_family_captions() {
    assert_eq!(font_family_label(".SystemUIFont"), "系统默认 (.SystemUIFont)");
    assert_eq!(font_family_label("Noto Sans"), "Noto Sans");
}

#[test]
fn normalizing_a_family_twice_changes_nothing_more() {
    for family in [SYSTEM_UI_FONT, DEFAULT_FONT_FAMILY, "Menlo"] {
        let once = normalize_font_family(family.to_string());
        assert_eq!(normalize_font_family(once.clone()), once);
    }
}
