use puml::render::theme::{float_text, preset_of, ColorScheme, Theme, ThemePreset};

#[test]
fn default_preserves_baseline_colours() {
    let t = Theme::default();
    assert_eq!(t.background_color, "#ffffff");
    assert_eq!(t.class_background, "#dae8fc");
}

#[test]
fn apply_skinparam_background() {
    let mut t = Theme::default();
    t.apply_skinparam("backgroundColor", "#f0f0f0");
    assert_eq!(t.background_color, "#f0f0f0");
}

#[test]
fn apply_skinparam_case_insensitive() {
    let mut t = Theme::default();
    t.apply_skinparam("BACKGROUNDCOLOR", "#ff0000");
    assert_eq!(t.background_color, "#ff0000");
}

#[test]
fn font_size_parses_numerically() {
    let mut t = Theme::default();
    t.apply_skinparam("DefaultFontSize", "18");
    assert_eq!(t.font_size_text.parse::<f64>().unwrap(), 18.0);
}

#[test]
fn unknown_skinparam_ignored() {
    let mut t = Theme::default();
    t.apply_skinparam("bogusParam", "anything");
    assert_eq!(t.background_color, "#ffffff");
}

#[test]
fn preset_amiga_overrides_default() {
    let t = Theme::from_preset("amiga");
    assert_eq!(t.background_color, "#000088");
}

#[test]
fn font_size_that_is_no_number_is_ignored() {
    let mut t = Theme::default();
    t.apply_skinparam("fontsize", "big");
    assert_eq!(t.font_size_text, "13");
    t.apply_skinparam("fontsize", " 1.5e1 ");
    assert_eq!(t.font_size_text, "1.5e1");
    assert_eq!(t.font_size_text.parse::<f64>().unwrap(), 15.0);
}

#[test]
fn empty_value_changes_nothing() {
    let mut t = Theme::default();
    t.apply_skinparam("backgroundcolor", "   ");
    assert_eq!(t.background_color, "#ffffff");
}

#[test]
fn theme_key_reloads_a_preset() {
    let mut t = Theme::default();
    t.apply_skinparam("notebordercolor", "#123456");
    t.apply_skinparam("theme", "DARK");
    assert_eq!(t.color_scheme, ColorScheme::Dark);
    assert_eq!(t.note_border, "#bbbb55");
    assert_eq!(t.background_color, "#1e1e1e");
}

#[test]
fn font_name_loses_its_quotes() {
    let mut t = Theme::default();
    t.apply_skinparam("defaultFontName", "\"Fira Code\"");
    assert_eq!(t.font_family, "Fira Code");
}

#[test]
fn skin_parameters_apply_in_order() {
    let mut t = Theme::default();
    t.apply_all(&[
        ("arrowColor".to_string(), "#111111".to_string()),
        ("SequenceArrowColor".to_string(), "#222222".to_string()),
        ("arrowThickness".to_string(), "2".to_string()),
    ]);
    assert_eq!(t.arrow_color, "#222222");
    assert_eq!(t.arrow_thickness_text, "2");
}

#[test]
fn preset_names_ignore_case() {
    assert_eq!(preset_of("Plain"), ThemePreset::Plain);
    assert_eq!(preset_of("adaptive"), ThemePreset::Auto);
    assert_eq!(preset_of("unknown"), ThemePreset::Default);
    assert_eq!(Theme::from_preset("light").color_scheme, ColorScheme::Light);
    assert_eq!(Theme::from_preset("plain").class_border, "#333333");
}

#[test]
fn float_texts_follow_the_standard_grammar() {
    for ok in ["13", "+1.5", "-.5", "5.", "1e3", "1E-3", "inf", "-Infinity", "NaN"] {
        assert!(float_text(ok), "{}", ok);
        assert!(ok.parse::<f64>().is_ok());
    }
    for bad in ["", ".", "1e", "e3", "1.2.3", " 1", "1 ", "+", "0x10", "1_0"] {
        assert!(!float_text(bad), "{}", bad);
        assert!(bad.parse::<f64>().is_err());
    }
}
