use redrob_vectordb::models::{check_endpoint, AppSettings, SettingsError};

#[test]
fn default_settings_are_valid() {
    AppSettings::default().validate().unwrap();
}

#[test]
fn unsafe_remote_http_endpoint_is_rejected() {
    let settings = AppSettings {
        redrob_base_url: "http://example.com/v1".into(),
        ..AppSettings::default()
    };
    assert!(settings.validate().is_err());
}

#[test]
fn localhost_http_endpoint_is_allowed_for_development() {
    let settings = AppSettings {
        redrob_base_url: "http://127.0.0.1:8080/v1".into(),
        ..AppSettings::default()
    };
    settings.validate().unwrap();
}

#[test]
fn default_settings_match_documented_values() {
    let settings = AppSettings::default();
    assert_eq!(settings.max_file_size_mb, 50);
    assert_eq!(settings.chunk_size, 1200);
    assert_eq!(settings.chunk_overlap, 180);
    assert_eq!(settings.local_api_port, 47331);
    assert_eq!(settings.include_extensions.len(), 12);
    assert_eq!(settings.excluded_paths, vec![".git", "node_modules", ".cache", "target", "dist"]);
}

#[test]
fn each_settings_rule_reports_its_own_error() {
    let base = AppSettings::default;
    let cases: Vec<(AppSettings, SettingsError)> = vec![
        (AppSettings { max_file_size_mb: 0, ..base() }, SettingsError::FileSize),
        (AppSettings { max_file_size_mb: 251, ..base() }, SettingsError::FileSize),
        (AppSettings { chunk_size: 255, ..base() }, SettingsError::PassageSize),
        (AppSettings { chunk_size: 8193, ..base() }, SettingsError::PassageSize),
        (AppSettings { chunk_overlap: 1200, ..base() }, SettingsError::PassageOverlap),
        (AppSettings { chunk_size: 8192, chunk_overlap: 2049, ..base() }, SettingsError::PassageOverlap),
        (AppSettings { answer_model: "   ".into(), ..base() }, SettingsError::AnswerModel),
        (AppSettings { answer_model: "m".repeat(129), ..base() }, SettingsError::AnswerModel),
        (AppSettings { local_api_port: 1023, ..base() }, SettingsError::LocalApiPort),
        (AppSettings { include_extensions: vec![], ..base() }, SettingsError::ExtensionCount),
        (AppSettings { include_extensions: vec!["txt".into(); 33], ..base() }, SettingsError::ExtensionCount),
        (AppSettings { include_extensions: vec!["t-x".into()], ..base() }, SettingsError::InvalidExtension),
        (AppSettings { include_extensions: vec!["a".repeat(17)], ..base() }, SettingsError::InvalidExtension),
        (AppSettings { redrob_base_url: "not a url".into(), ..base() }, SettingsError::InvalidEndpoint),
        (AppSettings { redrob_base_url: "ftp://example.com".into(), ..base() }, SettingsError::InsecureEndpoint),
    ];
    for (settings, expected) in cases {
        assert_eq!(settings.validate(), Err(expected));
    }
}

#[test]
fn boundary_settings_are_accepted() {
    let settings = AppSettings {
        max_file_size_mb: 250,
        chunk_size: 256,
        chunk_overlap: 255,
        answer_model: "m".repeat(128),
        local_api_port: 1024,
        include_extensions: vec!["a".repeat(16)],
        redrob_base_url: "  https://example.com/v1  ".into(),
        ..AppSettings::default()
    };
    assert_eq!(settings.validate(), Ok(()));
}

#[test]
fn localhost_by_name_is_allowed_over_http() {
    let settings = AppSettings {
        redrob_base_url: "http://localhost:9000".into(),
        ..AppSettings::default()
    };
    assert_eq!(settings.validate(), Ok(()));
}

#[test]
fn settings_error_messages_are_readable() {
    assert_eq!(
        SettingsError::InsecureEndpoint.message(),
        "Redrob API URL must use HTTPS (HTTP is allowed only for localhost)"
    );
    assert_eq!(SettingsError::FileSize.message(), "maximum file size must be between 1 MB and 250 MB");
}

#[test]
fn ipv6_loopback_http_endpoint_is_allowed() {
    let settings = AppSettings {
        redrob_base_url: "http://[::1]:8080/v1".into(),
        ..AppSettings::default()
    };
    settings.validate().unwrap();
    let remote = AppSettings {
        redrob_base_url: "http://[2001:db8::1]/v1".into(),
        ..AppSettings::default()
    };
    assert!(remote.validate().is_err());
}

#[test]
fn plain_http_is_allowed_only_on_loopback_hosts() {
    let http = |host: &str| Some(("http".to_string(), Some(host.to_string())));
    assert_eq!(check_endpoint(http("[::1]")), Ok(()));
    assert_eq!(check_endpoint(http("localhost")), Ok(()));
    assert_eq!(check_endpoint(http("127.0.0.1")), Ok(()));
    assert_eq!(check_endpoint(http("example.com")), Err(SettingsError::InsecureEndpoint));
    assert_eq!(check_endpoint(None), Err(SettingsError::InvalidEndpoint));
}
