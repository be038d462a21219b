//! Relay settings.

use goose_roaming::relay::RelayMode;
use goose_roaming::{RelayEntry, RelaySettings, RoamingError};

#[test]
fn default_advertises_no_urls() {
    assert!(RelaySettings::default().advertised_urls().is_empty());
}

#[test]
fn custom_strips_auth_from_advertised() {
    let settings = RelaySettings::Custom(vec![RelayEntry::with_auth(
        "https://relay.example./",
        "secret",
    )]);
    assert_eq!(settings.advertised_urls(), vec!["https://relay.example./"]);
}

#[test]
fn custom_builds_relay_mode() {
    let settings = RelaySettings::Custom(vec![RelayEntry::new("https://relay.example./")]);
    assert!(matches!(
        settings.to_relay_mode().unwrap(),
        RelayMode::Custom(_)
    ));
}

#[test]
fn relay_modes_keep_tokens_and_normalise_urls() {
    let settings = RelaySettings::Custom(vec![
        RelayEntry::with_auth("https://Relay.example", "secret"),
        RelayEntry::new("https://b.example/x"),
    ]);
    match settings.to_relay_mode().unwrap() {
        RelayMode::Custom(configs) => {
            assert_eq!(configs.len(), 2);
            assert_eq!(configs[0].url, "https://relay.example/");
            assert_eq!(configs[0].auth_token.as_deref(), Some("secret"));
            assert_eq!(configs[1].url, "https://b.example/x");
            assert_eq!(configs[1].auth_token, None);
        }
        other => panic!("{other:?}"),
    }
    assert!(matches!(RelaySettings::N0Default.to_relay_mode().unwrap(), RelayMode::Default));
    assert!(matches!(RelaySettings::Disabled.to_relay_mode().unwrap(), RelayMode::Disabled));
    assert!(RelaySettings::Disabled.advertised_urls().is_empty());
}

#[test]
fn the_first_bad_relay_is_named() {
    let settings = RelaySettings::Custom(vec![
        RelayEntry::new("https://ok.example/"),
        RelayEntry::new("no url"),
        RelayEntry::new("neither"),
    ]);
    assert_eq!(
        settings.to_relay_mode().unwrap_err(),
        RoamingError::Transport("bad relay url no url".to_string())
    );
}
