use logicrs::editor::{EditorMode, GRID_SIZE};
use logicrs::info::Info;
use logicrs::user_settings::{config_path_parts, Theme, UserSettings, UserSettingsKey, UserSettingsValue};
use logicrs::vector::Vector2;

#[test]
fn settings_read_back_what_was_set() {
    let mut s = UserSettings::new();
    assert!(s.get_setting(UserSettingsKey::ThemeKey).is_none());
    s.create_defaults();
    assert_eq!(s.get_setting(UserSettingsKey::ThemeKey), Some(&UserSettingsValue::ThemeValue(Theme::SystemPreference)));
    s.set_setting(UserSettingsKey::ThemeKey, UserSettingsValue::ThemeValue(Theme::Dark));
    assert_eq!(s.get_setting(UserSettingsKey::ThemeKey), Some(&UserSettingsValue::ThemeValue(Theme::Dark)));
    assert_eq!(s.config_name(), "config.json");
}

#[test]
fn theme_numbers() {
    assert_eq!(Theme::from_index(0), Theme::SystemPreference);
    assert_eq!(Theme::from_index(1), Theme::Dark);
    assert_eq!(Theme::from_index(2), Theme::Light);
    assert_eq!(Theme::Light.index(), 2);
    assert_eq!(Theme::default(), Theme::SystemPreference);
}

#[test]
fn config_path_on_each_system() {
    let name = "config.json".to_string();
    let p = config_path_parts(&"linux".to_string(), Some("/x".to_string()), Some("/home/u".to_string()), None, &name).unwrap();
    assert_eq!(p, vec!["/x", "logicrs", "config.json"]);
    let p = config_path_parts(&"macos".to_string(), None, Some("/home/u".to_string()), None, &name).unwrap();
    assert_eq!(p, vec!["/home/u", ".config", "logicrs", "config.json"]);
    let p = config_path_parts(&"windows".to_string(), None, None, Some("C:\\u".to_string()), &name).unwrap();
    assert_eq!(p, vec!["C:\\u", "AppData", "Local", "config.json"]);
    assert_eq!(
        config_path_parts(&"linux".to_string(), None, None, None, &name),
        Err("Could not find valid config directory".to_string())
    );
    assert_eq!(
        config_path_parts(&"windows".to_string(), None, None, None, &name),
        Err("Could not find user profile directory".to_string())
    );
    assert_eq!(
        config_path_parts(&"haiku".to_string(), Some("/x".to_string()), None, None, &name),
        Err("Could not find valid config directory".to_string())
    );
}

#[test]
fn grid_alignment() {
    assert_eq!(EditorMode::Normal.align(Vector2(37, -12)), Vector2(37, -12));
    assert_eq!(EditorMode::Grid.align(Vector2(37, 60)), Vector2(25, 50));
    // rounds toward zero
    assert_eq!(EditorMode::Grid.align(Vector2(-37, -1)), Vector2(-25, 0));
    let once = EditorMode::Grid.align(Vector2(1234, 99));
    assert_eq!(EditorMode::Grid.align(once), once);
    assert_eq!(GRID_SIZE, 25);
    assert_eq!(EditorMode::from(true), EditorMode::Grid);
}

#[test]
fn application_info() {
    let info = Info::new();
    assert_eq!(info.get_title(), "LogicRs");
    assert_eq!(info.get_app_id(), "com.spydr06.LogicRs");
    assert_eq!(info.get_default_size(), (1280, 720));
    let info = Info::new().title("Other").default_size(10, 20);
    assert_eq!(info.get_title(), "Other");
    assert_eq!(info.get_default_size(), (10, 20));
}

#[test]
fn theme_number_round_trip() {
    for t in [Theme::SystemPreference, Theme::Dark, Theme::Light] {
        assert_eq!(Theme::from_index(t.index()), t);
    }
}
