use std::sync::Arc;

use slashy::settings::{GuildId, Settings, SettingsProvider};

fn settings() -> Settings {
    Settings {
        prefixes: vec!["!", "?"],
        auto_register: true,
        auto_delete: false,
        slash_command_guilds: vec![GuildId(1), GuildId(2)],
    }
}

#[test]
fn settings_hand_out_their_fields() {
    let settings = settings();
    assert_eq!(settings.default_prefixes(), vec!["!".to_string(), "?".to_string()]);
    assert_eq!(settings.prefixes(GuildId(0)), Some(vec!["!".to_string(), "?".to_string()]));
    assert!(settings.auto_register());
    assert!(!settings.auto_delete());
    assert_eq!(settings.auto_register_guilds(), vec![GuildId(1), GuildId(2)]);
}

#[test]
fn shared_settings_answer_as_the_settings_do() {
    let shared = Arc::new(settings());
    assert_eq!(shared.default_prefixes(), vec!["!".to_string(), "?".to_string()]);
    assert_eq!(shared.prefixes(GuildId(7)), Some(vec!["!".to_string(), "?".to_string()]));
    assert!(shared.auto_register());
    assert!(!shared.auto_delete());
    assert_eq!(shared.auto_register_guilds(), vec![GuildId(1), GuildId(2)]);
}
