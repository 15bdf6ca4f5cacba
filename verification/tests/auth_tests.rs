use soop3::auth::{
    authenticate_request, constant_time_eq, determine_auth_requirement, parse_basic_auth,
    validate_credentials, AuthOutcome, BasicCredentials,
};
use soop3::config::{SecurityConfig, SecurityPolicy};
use soop3::Method;

#[test]
fn basic_auth_parsing() {
    let header = "Basic dGVzdDp0ZXN0";
    let credentials = parse_basic_auth(header).unwrap();
    assert_eq!(credentials.username, "test");
    assert_eq!(credentials.password, "test");

    let header = "Basic dXNlcjpwYXNzQDEyMw==";
    let credentials = parse_basic_auth(header).unwrap();
    assert_eq!(credentials.username, "user");
    assert_eq!(credentials.password, "pass@123");

    let header = "basic dGVzdDp0ZXN0";
    let credentials = parse_basic_auth(header).unwrap();
    assert_eq!(credentials.username, "test");
    assert_eq!(credentials.password, "test");

    let header = "BASIC\tdGVzdDp0ZXN0";
    let credentials = parse_basic_auth(header).unwrap();
    assert_eq!(credentials.username, "test");
    assert_eq!(credentials.password, "test");

    let header = "Basic    dGVzdDp0ZXN0";
    let credentials = parse_basic_auth(header).unwrap();
    assert_eq!(credentials.username, "test");
    assert_eq!(credentials.password, "test");

    assert!(parse_basic_auth("Bearer token").is_err());
    assert!(parse_basic_auth("Basic").is_err());
    assert!(parse_basic_auth("Basic token extra").is_err());
    assert!(parse_basic_auth("Basic invalid-base64").is_err());
    assert!(parse_basic_auth("Basic dGVzdA==").is_err());
}

#[test]
fn credential_validation() {
    let security_config = SecurityConfig {
        username: Some("admin".to_string()),
        password: Some("secret".to_string()),
        policy: SecurityPolicy::AuthenticateAll,
    };

    let valid_creds = BasicCredentials {
        username: "admin".to_string(),
        password: "secret".to_string(),
    };
    assert!(validate_credentials(&security_config, &valid_creds));

    let invalid_user = BasicCredentials {
        username: "wrong".to_string(),
        password: "secret".to_string(),
    };
    assert!(!validate_credentials(&security_config, &invalid_user));

    let invalid_pass = BasicCredentials {
        username: "admin".to_string(),
        password: "wrong".to_string(),
    };
    assert!(!validate_credentials(&security_config, &invalid_pass));

    let empty_creds = BasicCredentials { username: "".to_string(), password: "".to_string() };
    assert!(!validate_credentials(&security_config, &empty_creds));
}

#[test]
fn constant_time_comparison() {
    assert!(constant_time_eq(b"hello", b"hello"));
    assert!(!constant_time_eq(b"hello", b"world"));
    assert!(!constant_time_eq(b"hello", b"hell"));
    assert!(!constant_time_eq(b"hell", b"hello"));
    assert!(!constant_time_eq(b"", b"hello"));
    assert!(constant_time_eq(b"", b""));
}

#[test]
fn test_basic_auth_parsing() {
    let header = "Basic dGVzdDp0ZXN0";
    let credentials = parse_basic_auth(header).unwrap();
    assert_eq!(credentials.username, "test");
    assert_eq!(credentials.password, "test");

    let header = "Basic dXNlcjpwYXNzQDEyMw==";
    let credentials = parse_basic_auth(header).unwrap();
    assert_eq!(credentials.username, "user");
    assert_eq!(credentials.password, "pass@123");

    assert!(parse_basic_auth("Bearer token").is_err());
    assert!(parse_basic_auth("Basic").is_err());
    assert!(parse_basic_auth("Basic invalid-base64").is_err());
    assert!(parse_basic_auth("Basic dGVzdA==").is_err());
}

#[test]
fn test_credential_validation() {
    let security_config = SecurityConfig {
        username: Some("admin".to_string()),
        password: Some("secret".to_string()),
        policy: SecurityPolicy::AuthenticateAll,
    };

    let valid_creds = BasicCredentials {
        username: "admin".to_string(),
        password: "secret".to_string(),
    };
    assert!(validate_credentials(&security_config, &valid_creds));

    let invalid_user = BasicCredentials {
        username: "wrong".to_string(),
        password: "secret".to_string(),
    };
    assert!(!validate_credentials(&security_config, &invalid_user));

    let invalid_pass = BasicCredentials {
        username: "admin".to_string(),
        password: "wrong".to_string(),
    };
    assert!(!validate_credentials(&security_config, &invalid_pass));

    let empty_creds = BasicCredentials { username: "".to_string(), password: "".to_string() };
    assert!(!validate_credentials(&security_config, &empty_creds));
}

#[test]
fn test_constant_time_comparison() {
    assert!(constant_time_eq(b"hello", b"hello"));
    assert!(!constant_time_eq(b"hello", b"world"));
    assert!(!constant_time_eq(b"hello", b"hell"));
    assert!(!constant_time_eq(b"hell", b"hello"));
    assert!(!constant_time_eq(b"", b"hello"));
    assert!(constant_time_eq(b"", b""));
}

#[test]
fn auth_requirement_by_policy() {
    let none = SecurityConfig {
        username: None,
        password: None,
        policy: SecurityPolicy::AuthenticateNone,
    };
    let all = SecurityConfig { policy: SecurityPolicy::AuthenticateAll, ..none.clone() };
    let upload = SecurityConfig { policy: SecurityPolicy::AuthenticateUpload, ..none.clone() };
    let download = SecurityConfig {
        policy: SecurityPolicy::AuthenticateDownload,
        ..none.clone()
    };

    assert!(!determine_auth_requirement(&none, Method::Get));
    assert!(!determine_auth_requirement(&none, Method::Post));

    assert!(determine_auth_requirement(&all, Method::Get));
    assert!(determine_auth_requirement(&all, Method::Post));
    assert!(!determine_auth_requirement(&all, Method::Options));

    assert!(!determine_auth_requirement(&upload, Method::Get));
    assert!(!determine_auth_requirement(&upload, Method::Head));
    assert!(determine_auth_requirement(&upload, Method::Post));
    assert!(!determine_auth_requirement(&upload, Method::Options));

    assert!(determine_auth_requirement(&download, Method::Get));
    assert!(determine_auth_requirement(&download, Method::Head));
    assert!(!determine_auth_requirement(&download, Method::Post));
}

#[test]
fn auth_middleware_outcomes() {
    let cfg = SecurityConfig {
        username: Some("admin".to_string()),
        password: Some("secret".to_string()),
        policy: SecurityPolicy::AuthenticateAll,
    };
    // admin:secret
    let good = "Basic YWRtaW46c2VjcmV0";
    assert_eq!(authenticate_request(&cfg, Method::Get, Some(good)), AuthOutcome::Allow);
    assert_eq!(authenticate_request(&cfg, Method::Get, None), AuthOutcome::Unauthorized);
    assert_eq!(
        authenticate_request(&cfg, Method::Get, Some("Basic nonsense")),
        AuthOutcome::Unauthorized
    );
    assert_eq!(
        authenticate_request(&cfg, Method::Get, Some("Basic dGVzdDp0ZXN0")),
        AuthOutcome::Unauthorized
    );
    // OPTIONS never authenticates, so preflight passes under every policy.
    assert_eq!(authenticate_request(&cfg, Method::Options, None), AuthOutcome::Allow);

    let unconfigured = SecurityConfig {
        username: None,
        password: None,
        policy: SecurityPolicy::AuthenticateAll,
    };
    assert_eq!(
        authenticate_request(&unconfigured, Method::Get, None),
        AuthOutcome::ServerError
    );
}
