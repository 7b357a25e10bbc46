use turbo_hearts::config::Config;

#[test]
fn redirect_is_under_the_external_address() {
    let config = Config {
        client_id: "id".to_string(),
        client_secret: "SECRET-REDACTED".to_string(),
        external_uri: "https://hearts.example".to_string(),
        port: 7380,
    };
    assert_eq!(config.redirect_uri(), "https://hearts.example/redirect");
}
