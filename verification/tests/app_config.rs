use padagonia::app_config::Settings;

#[test]
fn secure_defaults_require_an_explicit_api_key() {
    let settings = Settings::default();
    assert!(settings.validate().unwrap_err().contains("api_key"));
}

#[test]
fn zero_resource_limit_is_rejected() {
    let mut settings = Settings::default();
    settings.server.api_key = "a-secure-test-key".to_string();
    settings.limits.max_bfs_depth = 0;
    assert!(settings.validate().unwrap_err().contains("limits"));
}

#[test]
fn configured_settings_validate() {
    let mut settings = Settings::default();
    settings.server.api_key = "a-secure-test-key".to_string();
    assert!(settings.validate().is_ok());
}

#[test]
fn padded_api_key_is_rejected() {
    let mut settings = Settings::default();
    settings.server.api_key = " key ".to_string();
    assert!(settings.validate().unwrap_err().contains("api_key"));
}

#[test]
fn data_dir_prefers_the_server_setting() {
    let mut settings = Settings::default();
    settings.server.data_dir = "/var/lib/store.pad".to_string();
    assert_eq!(settings.data_dir(), std::path::PathBuf::from("/var/lib/store.pad"));
}

#[test]
fn data_dir_defaults_to_the_graph_inside_the_storage_dir() {
    let settings = Settings::default();
    assert_eq!(settings.data_dir(), std::path::PathBuf::from("data").join("graph.pad"));
}

#[test]
fn data_dir_parts_name_the_storage_directory_and_graph() {
    let mut settings = Settings::default();
    assert_eq!(settings.data_dir_parts(), Some(("data".to_string(), "graph.pad".to_string())));
    settings.server.data_dir = "/srv/x.pad".to_string();
    assert_eq!(settings.data_dir_parts(), None);
}
