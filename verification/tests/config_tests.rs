use sb::Config;

#[test]
fn test_config_defaults() {
    let _config = Config::default();

    // Test config creation works (specific method tests depend on actual implementation)
    // Just test that the config can be created successfully
    assert!(true); // Config creation succeeded if we get here
}

#[test]
fn default_limits_and_flags() {
    let config = Config::new();
    assert_eq!(config.base_directory, ".");
    assert_eq!(config.max_file_size, 10 * 1024 * 1024);
    assert_eq!(config.max_preview_size, 1024 * 1024);
    assert!(!config.allow_hidden_files);
}

#[test]
fn builders_set_their_field_and_keep_the_rest() {
    let config = Config::new()
        .with_base_directory("/work".to_string())
        .with_max_file_size(2048)
        .with_hidden_files(true);
    assert_eq!(config.base_directory, "/work");
    assert_eq!(config.max_file_size, 2048);
    assert_eq!(config.max_preview_size, 1024 * 1024);
    assert!(config.allow_hidden_files);
}
