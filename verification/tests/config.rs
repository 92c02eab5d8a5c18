use station::config::{ServerConfig, ServerPingMutation, ServerRegistration, SERVER_PING_MUTATION};

#[test]
fn default_config_is_not_registered() {
    let config = ServerConfig::default();
    assert!(config.registration.is_none());
}

#[test]
fn registration_keeps_url_and_key() {
    let key = [7u8; 32];
    let registration = ServerRegistration::new("https://example.org/api".to_owned(), key);
    assert_eq!(registration.api_url(), "https://example.org/api");
    assert_eq!(registration.private_key, key);
}

#[test]
fn ping_carries_key_and_port() {
    let ping = ServerPingMutation::new([1u8; 32], 1234);
    assert_eq!(ping.query, SERVER_PING_MUTATION);
    assert!(ping.query.starts_with("mutation ping("));
    assert_eq!(ping.variables.port, 1234);
    assert_eq!(ping.variables.private_key, [1u8; 32]);
}
