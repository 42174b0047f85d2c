use medicines::auth::{
    attempt_basic_auth, auth_is_correct, extract_auth_from_header,
    extract_credentials_from_base64_string, BasicAuthConfig,
};

fn config() -> BasicAuthConfig {
    BasicAuthConfig::new("username".to_string(), "password".to_string())
}

#[test]
fn check_auth_works() {
    let config = config();
    assert_eq!(
        auth_is_correct("username".to_owned(), "password".to_owned(), &config),
        true
    );
    assert_eq!(
        auth_is_correct("not_username".to_owned(), "password".to_owned(), &config),
        false
    );
    assert_eq!(
        auth_is_correct("username".to_owned(), "not_password".to_owned(), &config),
        false
    );
}

#[test]
fn extracting_credentials_works() {
    assert_eq!(extract_credentials_from_base64_string("Weird String".to_string()), None);
    assert_eq!(
        extract_credentials_from_base64_string("dXNlcm5hbWU6cGFzc3dvcmQ=".to_string()),
        Some(("username".to_string(), "password".to_string()))
    );
}

#[test]
fn extracting_credentials_rejects_text_without_colon() {
    // "usernamepassword"
    assert_eq!(
        extract_credentials_from_base64_string("dXNlcm5hbWVwYXNzd29yZA==".to_string()),
        None
    );
}

#[test]
fn extracting_base64_creds_works() {
    assert_eq!(
        extract_auth_from_header("Basic abcdef".to_string()),
        Some("abcdef".to_string())
    );
    assert_eq!(
        extract_auth_from_header("Basic abcde===".to_string()),
        Some("abcde===".to_string())
    );
    assert_eq!(extract_auth_from_header("Not an auth string".to_string()), None);
    assert_eq!(extract_auth_from_header("Basic abc====".to_string()), None);
}

#[test]
fn attempt_basic_auth_works() {
    let config = config();
    assert!(attempt_basic_auth("Basic dXNlcm5hbWU6cGFzc3dvcmQ=".to_string(), &config));
    assert!(!attempt_basic_auth("Bearer dXNlcm5hbWU6cGFzc3dvcmQ=".to_string(), &config));
    assert!(!attempt_basic_auth("".to_string(), &config));
}
