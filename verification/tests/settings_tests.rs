use chlorine::settings::AppSettings;

#[test]
fn default_settings_use_dark_mode_and_standard_hotkey() {
    let settings = AppSettings::default();
    assert!(settings.dark_mode);
    assert_eq!(settings.hotkey, "Ctrl+Shift+C");
}
