use soop3::config::{
    parse_security_policy, validate_config_rules, AppConfig, ConfigError, DirStatus,
    SecurityPolicy, ServerConfig,
};

#[test]
fn test_default_config() {
    let config = AppConfig::default();

    assert_eq!(config.server.host, "0.0.0.0");
    assert_eq!(config.server.port, 8000);
    assert!(!config.server.enable_upload);
    assert_eq!(config.server.public_dir, ".".to_string());

    assert!(config.security.username.is_none());
    assert!(config.security.password.is_none());
    assert_eq!(config.security.policy, SecurityPolicy::AuthenticateNone);

    assert!(config.upload.prepend_timestamp);
    assert!(config.upload.prevent_overwrite);
    assert_eq!(config.upload.max_request_size, 1024 * 1024 * 1024);
}

#[test]
fn test_security_policy_parsing() {
    assert_eq!(
        "authenticate_none".parse::<SecurityPolicy>().unwrap(),
        SecurityPolicy::AuthenticateNone
    );
    assert_eq!(
        "authenticate_upload".parse::<SecurityPolicy>().unwrap(),
        SecurityPolicy::AuthenticateUpload
    );
    assert_eq!(
        "authenticate_all".parse::<SecurityPolicy>().unwrap(),
        SecurityPolicy::AuthenticateAll
    );

    assert_eq!(
        "AUTHENTICATE_ALL".parse::<SecurityPolicy>().unwrap(),
        SecurityPolicy::AuthenticateAll
    );
    assert_eq!(
        "Authenticate_Upload".parse::<SecurityPolicy>().unwrap(),
        SecurityPolicy::AuthenticateUpload
    );

    assert!("invalid".parse::<SecurityPolicy>().is_err());
    assert!("".parse::<SecurityPolicy>().is_err());

    assert_eq!(
        parse_security_policy("authenticate_download").unwrap(),
        SecurityPolicy::AuthenticateDownload
    );
}

#[test]
fn test_upload_dir_calculation() {
    let config = AppConfig {
        server: ServerConfig { public_dir: "/var/www".to_string(), ..Default::default() },
        ..Default::default()
    };

    assert_eq!(config.upload_dir(), &"/var/www".to_string());

    let with_upload = AppConfig {
        server: ServerConfig {
            public_dir: "/var/www".to_string(),
            upload_dir: Some("/srv/uploads".to_string()),
            ..Default::default()
        },
        ..Default::default()
    };
    assert_eq!(with_upload.upload_dir(), &"/srv/uploads".to_string());
}

#[test]
fn validation_requires_complete_auth_credentials() {
    let mut config = AppConfig::default();
    config.security.policy = SecurityPolicy::AuthenticateAll;
    config.security.username = Some("admin".to_string());
    config.security.password = None;

    assert_eq!(
        validate_config_rules(&config, DirStatus::Directory, DirStatus::Directory),
        Err(ConfigError::IncompleteCredentials)
    );

    config.security.password = Some("pw".to_string());
    assert_eq!(
        validate_config_rules(&config, DirStatus::Directory, DirStatus::Directory),
        Ok(())
    );
}

#[test]
fn validation_checks_directories_and_port() {
    let mut config = AppConfig::default();
    assert_eq!(
        validate_config_rules(&config, DirStatus::Missing, DirStatus::Directory),
        Err(ConfigError::PublicDirMissing)
    );
    assert_eq!(
        validate_config_rules(&config, DirStatus::NotDirectory, DirStatus::Directory),
        Err(ConfigError::PublicDirNotDirectory)
    );

    config.server.enable_upload = true;
    assert_eq!(
        validate_config_rules(&config, DirStatus::Directory, DirStatus::Missing),
        Err(ConfigError::UploadDirMissing)
    );
    config.upload.create_directories = true;
    assert_eq!(
        validate_config_rules(&config, DirStatus::Directory, DirStatus::Missing),
        Ok(())
    );

    config.server.port = 0;
    assert_eq!(
        validate_config_rules(&config, DirStatus::Directory, DirStatus::Directory),
        Err(ConfigError::PortZero)
    );
}
