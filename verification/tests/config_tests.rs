use ivyhost::config::{Config, ConfigError};

fn full_settings() -> Vec<(String, String)> {
    [
        ("domain", "example.org"),
        ("bind_address", "0.0.0.0"),
        ("port", "8080"),
        ("site_repo", "https://example.org/site.git"),
        ("branch", "main"),
        ("real_ip_header", "X-Real-IP"),
        ("pg_user", "ivy"),
        ("pg_password", "SECRET-REDACTED"),
        ("pg_host", "localhost"),
        ("pg_port", "5432"),
        ("pg_dbname", "analytics"),
    ]
    .iter()
    .map(|(k, v)| (k.to_string(), v.to_string()))
    .collect()
}

#[test]
fn complete_settings_build_a_config() {
    let config = Config::get_config(&full_settings()).expect("complete settings must parse");
    assert_eq!(config.domain, "example.org");
    assert_eq!(config.bind_address, "0.0.0.0");
    assert_eq!(config.port, 8080);
    assert_eq!(config.site_repo, "https://example.org/site.git");
    assert_eq!(config.branch, "main");
    assert_eq!(config.real_ip_header, "X-Real-IP");
    assert_eq!(config.pg_user, "ivy");
    assert_eq!(config.pg_host, "localhost");
    assert_eq!(config.pg_port, 5432);
    assert_eq!(config.pg_dbname, "analytics");
}

#[test]
fn each_missing_key_is_reported() {
    for drop in 0..11 {
        let mut settings = full_settings();
        settings.remove(drop);
        match Config::get_config(&settings) {
            Err(ConfigError::MissingSetting) => {}
            _ => panic!("a missing key must be rejected"),
        }
    }
}

#[test]
fn out_of_range_or_malformed_ports_are_rejected() {
    for bad in ["65536", "70000", "12a", "", "-1", " 80", "8_0"] {
        let mut settings = full_settings();
        for pair in settings.iter_mut() {
            if pair.0 == "pg_port" {
                pair.1 = bad.to_string();
            }
        }
        match Config::get_config(&settings) {
            Err(ConfigError::InvalidPort) => {}
            _ => panic!("port {:?} must be rejected", bad),
        }
    }
}

#[test]
fn boundary_ports_parse() {
    let mut settings = full_settings();
    for pair in settings.iter_mut() {
        if pair.0 == "port" {
            pair.1 = "65535".to_string();
        }
        if pair.0 == "pg_port" {
            pair.1 = "0".to_string();
        }
    }
    let config = Config::get_config(&settings).unwrap();
    assert_eq!(config.port, 65535);
    assert_eq!(config.pg_port, 0);
}

#[test]
fn first_value_of_a_repeated_key_wins() {
    let mut settings = full_settings();
    settings.push(("domain".to_string(), "shadowed.example".to_string()));
    let config = Config::get_config(&settings).unwrap();
    assert_eq!(config.domain, "example.org");
}
