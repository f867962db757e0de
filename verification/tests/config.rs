use sourcemap_backend::config::{Config, ConfigError, Environment, KeyError, VarError};

fn value(text: &str) -> Result<String, VarError> {
    Ok(text.to_string())
}

fn missing() -> Result<String, VarError> {
    Err(VarError::NotPresent)
}

fn environment() -> Environment {
    Environment {
        host: missing(),
        port: missing(),
        internal_host: missing(),
        internal_port: missing(),
        database_url: value("postgres://db"),
        file_encryption_key: value(&"aa".repeat(32)),
        encryption_key: missing(),
        apikey_encryption_key: value(&"bb".repeat(32)),
        sourcemap_api_key_secret: missing(),
        s3_bucket: value("maps"),
        s3_region: missing(),
        s3_endpoint: value("http://s3"),
        s3_access_key_id: value("id"),
        s3_secret_access_key: value("secret"),
        admin_token: value("token"),
    }
}

fn error_of(env: &Environment) -> ConfigError {
    match Config::from_env(env, true, true) {
        Ok(_) => panic!("the variables should be refused"),
        Err(error) => error,
    }
}

#[test]
fn defaults_stand_in_for_missing_variables() {
    let config = Config::from_env(&environment(), true, true).unwrap_or_else(|_| panic!("config"));
    assert_eq!(config.listen_host, "0.0.0.0");
    assert_eq!(config.listen_port, 3000);
    assert_eq!(config.internal_listen_host, "127.0.0.1");
    assert_eq!(config.internal_listen_port, 3001);
    assert_eq!(config.s3_region, "us-east-1");
    assert_eq!(config.database_url, "postgres://db");
    assert_eq!(config.s3_bucket, "maps");
    assert_eq!(config.s3_endpoint, "http://s3");
    assert_eq!(config.s3_access_key_id, "id");
    assert_eq!(config.s3_secret_access_key, "secret");
    assert_eq!(config.admin_token, "token");
}

#[test]
fn variables_are_taken_as_they_are() {
    let mut env = environment();
    env.host = value("::1");
    env.port = value("+080");
    env.internal_host = value("10.0.0.1");
    env.internal_port = value("65535");
    env.s3_region = value("eu");
    assert_eq!(env.listen_host(), "::1");
    assert_eq!(env.internal_listen_host(), "10.0.0.1");
    let config = Config::from_env(&env, true, true).unwrap_or_else(|_| panic!("config"));
    assert_eq!(config.listen_host, "::1");
    assert_eq!(config.listen_port, 80);
    assert_eq!(config.internal_listen_host, "10.0.0.1");
    assert_eq!(config.internal_listen_port, 65535);
    assert_eq!(config.s3_region, "eu");
}

#[test]
fn older_names_of_the_keys_are_taken_too() {
    let mut env = environment();
    env.file_encryption_key = missing();
    env.encryption_key = value("old file key");
    env.apikey_encryption_key = Err(VarError::NotUnicode);
    env.sourcemap_api_key_secret = value("old api key");
    let config = Config::from_env(&env, true, true).unwrap_or_else(|_| panic!("config"));
    assert_eq!(config.file_encryption_key, "old file key");
    assert_eq!(config.apikey_encryption_key, "old api key");
}

#[test]
fn required_variables_must_be_there() {
    let mut env = environment();
    env.database_url = missing();
    assert_eq!(error_of(&env), ConfigError::Var(VarError::NotPresent));
    let mut env = environment();
    env.s3_bucket = Err(VarError::NotUnicode);
    assert_eq!(error_of(&env), ConfigError::Var(VarError::NotUnicode));
    let mut env = environment();
    env.file_encryption_key = Err(VarError::NotUnicode);
    assert_eq!(error_of(&env), ConfigError::Var(VarError::NotPresent));
    let mut env = environment();
    env.admin_token = missing();
    assert_eq!(error_of(&env), ConfigError::Var(VarError::NotPresent));
}

#[test]
fn ports_must_be_ports() {
    for text in ["", "x", "-1", "65536", " 80"] {
        let mut env = environment();
        env.port = value(text);
        assert_eq!(error_of(&env), ConfigError::InvalidPort);
        let mut env = environment();
        env.internal_port = value(text);
        env.database_url = missing();
        assert_eq!(error_of(&env), ConfigError::InvalidInternalPort);
    }
}

#[test]
fn addresses_are_looked_at_before_the_admin_token() {
    let mut env = environment();
    env.admin_token = missing();
    assert!(matches!(
        Config::from_env(&env, false, false),
        Err(ConfigError::InvalidHost)
    ));
    assert!(matches!(
        Config::from_env(&env, true, false),
        Err(ConfigError::InvalidInternalHost)
    ));
    env.s3_endpoint = missing();
    assert!(matches!(
        Config::from_env(&env, false, false),
        Err(ConfigError::Var(VarError::NotPresent))
    ));
}

#[test]
fn the_two_keys_must_differ_and_be_keys() {
    let config = Config::from_env(&environment(), true, true).unwrap_or_else(|_| panic!("config"));
    let (files, api_keys) = config.keys().unwrap_or_else(|_| panic!("keys"));
    let message = files.encrypt(b"x").unwrap();
    assert!(api_keys.decrypt(&message).is_err());

    let mut env = environment();
    env.apikey_encryption_key = value(&"aa".repeat(32));
    let config = Config::from_env(&env, true, true).unwrap_or_else(|_| panic!("config"));
    assert!(matches!(config.keys(), Err(KeyError::SameKeys)));

    let mut env = environment();
    env.file_encryption_key = value("short");
    env.apikey_encryption_key = value("too");
    let config = Config::from_env(&env, true, true).unwrap_or_else(|_| panic!("config"));
    assert!(matches!(config.keys(), Err(KeyError::InvalidFileKey)));

    let mut env = environment();
    env.apikey_encryption_key = value("short");
    let config = Config::from_env(&env, true, true).unwrap_or_else(|_| panic!("config"));
    assert!(matches!(config.keys(), Err(KeyError::InvalidApiKeyKey)));
}
