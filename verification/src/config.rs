//! How the service is set up, by the variables of its environment.

use vstd::prelude::*;

use crate::crypto::{parsed_key, Crypto};
use crate::decimal::{decimal_text, law_decimal_round_trip, parse_decimal, read_decimal};
use crate::text::{chars_of, same_text};

verus! {

/// Why the value of a variable cannot be had.
#[derive(Debug, Clone, Copy, PartialEq, Eq, Structural)]
pub enum VarError {
    NotPresent,
    NotUnicode,
}

/// The variables that the service reads.
pub struct Environment {
    pub host: Result<String, VarError>,
    pub port: Result<String, VarError>,
    pub internal_host: Result<String, VarError>,
    pub internal_port: Result<String, VarError>,
    pub database_url: Result<String, VarError>,
    pub file_encryption_key: Result<String, VarError>,
    pub encryption_key: Result<String, VarError>,
    pub apikey_encryption_key: Result<String, VarError>,
    pub sourcemap_api_key_secret: Result<String, VarError>,
    pub s3_bucket: Result<String, VarError>,
    pub s3_region: Result<String, VarError>,
    pub s3_endpoint: Result<String, VarError>,
    pub s3_access_key_id: Result<String, VarError>,
    pub s3_secret_access_key: Result<String, VarError>,
    pub admin_token: Result<String, VarError>,
}

/// The value of a variable by what it holds.
pub open spec fn var_view(value: Result<String, VarError>) -> Result<Seq<char>, VarError> {
    match value {
        Ok(text) => Ok(text@),
        Err(error) => Err(error),
    }
}

/// The value of a variable, or a default where it cannot be had.
pub open spec fn or_default(value: Result<String, VarError>, default: Seq<char>) -> Seq<char> {
    match value {
        Ok(text) => text@,
        Err(_) => default,
    }
}

/// The value of a variable, or that of another where it cannot be had.
pub open spec fn or_other(
    first: Result<String, VarError>,
    second: Result<String, VarError>,
) -> Result<Seq<char>, VarError> {
    match first {
        Ok(text) => Ok(text@),
        Err(_) => var_view(second),
    }
}

fn value_or(value: &Result<String, VarError>, default: &str) -> (text: String)
    ensures
        text@ == or_default(*value, default@),
{
    match value {
        Ok(text) => text.clone(),
        Err(_) => default.to_owned(),
    }
}

fn copy_var(value: &Result<String, VarError>) -> (copy: Result<String, VarError>)
    ensures
        var_view(copy) == var_view(*value),
{
    match value {
        Ok(text) => Ok(text.clone()),
        Err(error) => Err(*error),
    }
}

fn value_or_other(
    first: &Result<String, VarError>,
    second: &Result<String, VarError>,
) -> (copy: Result<String, VarError>)
    ensures
        var_view(copy) == or_other(*first, *second),
{
    match first {
        Ok(text) => Ok(text.clone()),
        Err(_) => copy_var(second),
    }
}

/// The port that a text names.
pub open spec fn port_in(text: Seq<char>) -> Option<u16> {
    match parse_decimal(text, u16::MAX as nat) {
        Some(n) => Some(n as u16),
        None => None,
    }
}

fn read_port(text: &str) -> (port: Option<u16>)
    ensures
        port == port_in(text@),
{
    match read_decimal(&chars_of(text), 65_535) {
        Some(n) => Some(n as u16),
        None => None,
    }
}

/// Why the service cannot be set up.
#[derive(Debug, Clone, Copy, PartialEq, Eq, Structural)]
pub enum ConfigError {
    /// `PORT` is no port.
    InvalidPort,
    /// `INTERNAL_PORT` is no port.
    InvalidInternalPort,
    /// `HOST` is no IP address.
    InvalidHost,
    /// `INTERNAL_HOST` is no IP address.
    InvalidInternalHost,
    /// A required variable cannot be had.
    Var(VarError),
}

/// How the service is set up.
pub struct Config {
    pub database_url: String,
    pub file_encryption_key: String,
    pub apikey_encryption_key: String,
    pub s3_bucket: String,
    pub s3_region: String,
    pub s3_endpoint: String,
    pub s3_access_key_id: String,
    pub s3_secret_access_key: String,
    pub listen_host: String,
    pub listen_port: u16,
    pub internal_listen_host: String,
    pub internal_listen_port: u16,
    pub admin_token: String,
}

impl Environment {
    /// The address to listen on.
    pub fn listen_host(&self) -> (host: String)
        ensures
            host@ == or_default(self.host, "0.0.0.0"@),
    {
        value_or(&self.host, "0.0.0.0")
    }

    /// The address to listen on for internal requests.
    pub fn internal_listen_host(&self) -> (host: String)
        ensures
            host@ == or_default(self.internal_host, "127.0.0.1"@),
    {
        value_or(&self.internal_host, "127.0.0.1")
    }

    /// The ports, where both are ports.
    pub open spec fn ports(self) -> Result<(u16, u16), ConfigError> {
        match (
            port_in(or_default(self.port, "3000"@)),
            port_in(or_default(self.internal_port, "3001"@)),
        ) {
            (Some(port), Some(internal_port)) => Ok((port, internal_port)),
            (None, _) => Err(ConfigError::InvalidPort),
            (_, None) => Err(ConfigError::InvalidInternalPort),
        }
    }

    /// The variables that must be there, in the order in which they are asked
    /// for, up to where the addresses are looked at.
    pub open spec fn required(self) -> Seq<Result<Seq<char>, VarError>> {
        seq![
            var_view(self.database_url),
            or_other(self.file_encryption_key, self.encryption_key),
            or_other(self.apikey_encryption_key, self.sourcemap_api_key_secret),
            var_view(self.s3_bucket),
            var_view(self.s3_endpoint),
            var_view(self.s3_access_key_id),
            var_view(self.s3_secret_access_key),
        ]
    }
}

/// The first error among values.
pub open spec fn first_missing(values: Seq<Result<Seq<char>, VarError>>) -> Option<VarError>
    decreases values.len(),
{
    if values.len() == 0 {
        None
    } else {
        match values.first() {
            Err(error) => Some(error),
            Ok(_) => first_missing(values.drop_first()),
        }
    }
}

/// What stands in the way of setting up the service, given which of its
/// addresses are IP addresses: what is looked at first comes first.
pub open spec fn config_error(
    env: Environment,
    host_is_ip: bool,
    internal_host_is_ip: bool,
) -> Option<ConfigError> {
    match env.ports() {
        Err(error) => Some(error),
        Ok(_) => match first_missing(env.required()) {
            Some(error) => Some(ConfigError::Var(error)),
            None => if !host_is_ip {
                Some(ConfigError::InvalidHost)
            } else if !internal_host_is_ip {
                Some(ConfigError::InvalidInternalHost)
            } else {
                match var_view(env.admin_token) {
                    Err(error) => Some(ConfigError::Var(error)),
                    Ok(_) => None,
                }
            },
        },
    }
}

/// The settings that variables make.
pub open spec fn is_config(env: Environment, config: Config) -> bool {
    &&& Ok::<_, VarError>(config.database_url@) == var_view(env.database_url)
    &&& Ok::<_, VarError>(config.file_encryption_key@) == or_other(
        env.file_encryption_key,
        env.encryption_key,
    )
    &&& Ok::<_, VarError>(config.apikey_encryption_key@) == or_other(
        env.apikey_encryption_key,
        env.sourcemap_api_key_secret,
    )
    &&& Ok::<_, VarError>(config.s3_bucket@) == var_view(env.s3_bucket)
    &&& config.s3_region@ == or_default(env.s3_region, "us-east-1"@)
    &&& Ok::<_, VarError>(config.s3_endpoint@) == var_view(env.s3_endpoint)
    &&& Ok::<_, VarError>(config.s3_access_key_id@) == var_view(env.s3_access_key_id)
    &&& Ok::<_, VarError>(config.s3_secret_access_key@) == var_view(env.s3_secret_access_key)
    &&& config.listen_host@ == or_default(env.host, "0.0.0.0"@)
    &&& config.internal_listen_host@ == or_default(env.internal_host, "127.0.0.1"@)
    &&& Ok::<_, ConfigError>((config.listen_port, config.internal_listen_port)) == env.ports()
    &&& Ok::<_, VarError>(config.admin_token@) == var_view(env.admin_token)
}

impl Config {
    /// Sets up the service by its variables. Whether the addresses to listen
    /// on are IP addresses is for the caller to say.
    pub fn from_env(
        env: &Environment,
        host_is_ip: bool,
        internal_host_is_ip: bool,
    ) -> (config: Result<Config, ConfigError>)
        ensures
            match config {
                Ok(config) => config_error(*env, host_is_ip, internal_host_is_ip) is None
                    && is_config(*env, config),
                Err(error) => config_error(*env, host_is_ip, internal_host_is_ip) == Some(error),
            },
    {
        proof {
            reveal_with_fuel(first_missing, 8);
        }
        let port: u16 = match read_port(value_or(&env.port, "3000").as_str()) {
            Some(port) => port,
            None => {
                return Err(ConfigError::InvalidPort);
            },
        };
        let internal_port: u16 = match read_port(value_or(&env.internal_port, "3001").as_str()) {
            Some(port) => port,
            None => {
                return Err(ConfigError::InvalidInternalPort);
            },
        };
        let database_url = match copy_var(&env.database_url) {
            Ok(text) => text,
            Err(error) => {
                return Err(ConfigError::Var(error));
            },
        };
        let file_encryption_key = match value_or_other(
            &env.file_encryption_key,
            &env.encryption_key,
        ) {
            Ok(text) => text,
            Err(error) => {
                return Err(ConfigError::Var(error));
            },
        };
        let apikey_encryption_key = match value_or_other(
            &env.apikey_encryption_key,
            &env.sourcemap_api_key_secret,
        ) {
            Ok(text) => text,
            Err(error) => {
                return Err(ConfigError::Var(error));
            },
        };
        let s3_bucket = match copy_var(&env.s3_bucket) {
            Ok(text) => text,
            Err(error) => {
                return Err(ConfigError::Var(error));
            },
        };
        let s3_endpoint = match copy_var(&env.s3_endpoint) {
            Ok(text) => text,
            Err(error) => {
                return Err(ConfigError::Var(error));
            },
        };
        let s3_access_key_id = match copy_var(&env.s3_access_key_id) {
            Ok(text) => text,
            Err(error) => {
                return Err(ConfigError::Var(error));
            },
        };
        let s3_secret_access_key = match copy_var(&env.s3_secret_access_key) {
            Ok(text) => text,
            Err(error) => {
                return Err(ConfigError::Var(error));
            },
        };
        if !host_is_ip {
            return Err(ConfigError::InvalidHost);
        }
        if !internal_host_is_ip {
            return Err(ConfigError::InvalidInternalHost);
        }
        let admin_token = match copy_var(&env.admin_token) {
            Ok(text) => text,
            Err(error) => {
                return Err(ConfigError::Var(error));
            },
        };
        Ok(
            Config {
                database_url,
                file_encryption_key,
                apikey_encryption_key,
                s3_bucket,
                s3_region: value_or(&env.s3_region, "us-east-1"),
                s3_endpoint,
                s3_access_key_id,
                s3_secret_access_key,
                listen_host: env.listen_host(),
                listen_port: port,
                internal_listen_host: env.internal_listen_host(),
                internal_listen_port: internal_port,
                admin_token,
            },
        )
    }

    /// Takes the two keys: that for files, then that for API keys. They must
    /// differ.
    pub fn keys(&self) -> (keys: Result<(Crypto, Crypto), KeyError>)
        ensures
            match keys {
                Ok((files, api_keys)) => {
                    &&& self.file_encryption_key@ != self.apikey_encryption_key@
                    &&& parsed_key(self.file_encryption_key@) == Some(files@)
                    &&& parsed_key(self.apikey_encryption_key@) == Some(api_keys@)
                },
                Err(KeyError::SameKeys) => self.file_encryption_key@ == self.apikey_encryption_key@,
                Err(KeyError::InvalidFileKey) => {
                    &&& self.file_encryption_key@ != self.apikey_encryption_key@
                    &&& parsed_key(self.file_encryption_key@) is None
                },
                Err(KeyError::InvalidApiKeyKey) => {
                    &&& self.file_encryption_key@ != self.apikey_encryption_key@
                    &&& parsed_key(self.file_encryption_key@) is Some
                    &&& parsed_key(self.apikey_encryption_key@) is None
                },
            },
    {
        if same_text(self.file_encryption_key.as_str(), self.apikey_encryption_key.as_str()) {
            return Err(KeyError::SameKeys);
        }
        let files = match Crypto::new(self.file_encryption_key.as_str()) {
            Ok(crypto) => crypto,
            Err(_) => {
                return Err(KeyError::InvalidFileKey);
            },
        };
        match Crypto::new(self.apikey_encryption_key.as_str()) {
            Ok(api_keys) => Ok((files, api_keys)),
            Err(_) => Err(KeyError::InvalidApiKeyKey),
        }
    }
}

/// Why the keys cannot be taken.
#[derive(Debug, Clone, Copy, PartialEq, Eq, Structural)]
pub enum KeyError {
    /// The key for files is the key for API keys.
    SameKeys,
    /// The key for files is no key.
    InvalidFileKey,
    /// The key for API keys is no key.
    InvalidApiKeyKey,
}

// ---------------------------------------------------------------------------
// Laws
// ---------------------------------------------------------------------------

/// A setting has the value of its variable.
pub open spec fn is_value(setting: Seq<char>, variable: Result<String, VarError>) -> bool {
    variable matches Ok(value) && setting == value@
}

/// A setting has the value of its variable, or a default where that cannot be had.
pub open spec fn is_value_or(
    setting: Seq<char>,
    variable: Result<String, VarError>,
    default: Seq<char>,
) -> bool {
    is_value(setting, variable) || variable is Err && setting == default
}

/// Each setting has the value of its own variable. Where a key's variable cannot be
/// had, that of its older name counts; the region, the addresses and the ports have
/// defaults.
pub proof fn law_settings_are_their_variables(env: Environment, config: Config)
    requires
        is_config(env, config),
    ensures
        is_value(config.database_url@, env.database_url),
        is_value(config.file_encryption_key@, env.file_encryption_key)
            || env.file_encryption_key is Err && is_value(
            config.file_encryption_key@,
            env.encryption_key,
        ),
        is_value(config.apikey_encryption_key@, env.apikey_encryption_key)
            || env.apikey_encryption_key is Err && is_value(
            config.apikey_encryption_key@,
            env.sourcemap_api_key_secret,
        ),
        is_value(config.s3_bucket@, env.s3_bucket),
        is_value_or(config.s3_region@, env.s3_region, "us-east-1"@),
        is_value(config.s3_endpoint@, env.s3_endpoint),
        is_value(config.s3_access_key_id@, env.s3_access_key_id),
        is_value(config.s3_secret_access_key@, env.s3_secret_access_key),
        is_value_or(config.listen_host@, env.host, "0.0.0.0"@),
        is_value_or(config.internal_listen_host@, env.internal_host, "127.0.0.1"@),
        is_value(config.admin_token@, env.admin_token),
        env.port matches Ok(text) ==> parse_decimal(text@, 65535) == Some(
            config.listen_port as nat,
        ),
        env.port is Err ==> config.listen_port == 3000,
        env.internal_port matches Ok(text) ==> parse_decimal(text@, 65535) == Some(
            config.internal_listen_port as nat,
        ),
        env.internal_port is Err ==> config.internal_listen_port == 3001,
{
    lemma_default_ports();
}

proof fn lemma_default_ports()
    ensures
        parse_decimal("3000"@, 65535) == Some(3000nat),
        parse_decimal("3001"@, 65535) == Some(3001nat),
{
    reveal_strlit("3000");
    reveal_strlit("3001");
    law_decimal_round_trip(3000, 65535);
    law_decimal_round_trip(3001, 65535);
    reveal_with_fuel(decimal_text, 5);
    assert(decimal_text(3000) =~= "3000"@);
    assert(decimal_text(3001) =~= "3001"@);
}

/// A port that is none keeps the service from being set up.
pub open spec fn is_bad_port(variable: Result<String, VarError>) -> bool {
    variable matches Ok(text) && parse_decimal(text@, 65535) is None
}

/// Neither of two variables can be had; the error is that of the second.
pub open spec fn both_missing(
    first: Result<String, VarError>,
    second: Result<String, VarError>,
    error: VarError,
) -> bool {
    first is Err && second == Err::<String, _>(error)
}

/// The service can be set up exactly where both ports are ports, both addresses are
/// IP addresses, and every variable without a default can be had. A bad port is told
/// first, that for all requests before that for internal ones.
pub proof fn law_service_is_set_up_where_nothing_is_missing(
    env: Environment,
    host_is_ip: bool,
    internal_host_is_ip: bool,
)
    ensures
        config_error(env, host_is_ip, internal_host_is_ip) is None <==> {
            &&& !is_bad_port(env.port)
            &&& !is_bad_port(env.internal_port)
            &&& host_is_ip
            &&& internal_host_is_ip
            &&& env.database_url is Ok
            &&& env.file_encryption_key is Ok || env.encryption_key is Ok
            &&& env.apikey_encryption_key is Ok || env.sourcemap_api_key_secret is Ok
            &&& env.s3_bucket is Ok
            &&& env.s3_endpoint is Ok
            &&& env.s3_access_key_id is Ok
            &&& env.s3_secret_access_key is Ok
            &&& env.admin_token is Ok
        },
        config_error(env, host_is_ip, internal_host_is_ip) == Some(ConfigError::InvalidPort)
            <==> is_bad_port(env.port),
        config_error(env, host_is_ip, internal_host_is_ip) == Some(ConfigError::InvalidInternalPort)
            <==> !is_bad_port(env.port) && is_bad_port(env.internal_port),
        forall|error: VarError|
            config_error(env, host_is_ip, internal_host_is_ip) == Some(ConfigError::Var(error))
                ==> env.database_url == Err::<String, _>(error) || both_missing(
                env.file_encryption_key,
                env.encryption_key,
                error,
            ) || both_missing(env.apikey_encryption_key, env.sourcemap_api_key_secret, error)
                || env.s3_bucket == Err::<String, _>(error) || env.s3_endpoint == Err::<String, _>(
                error,
            ) || env.s3_access_key_id == Err::<String, _>(error) || env.s3_secret_access_key
                == Err::<String, _>(error) || env.admin_token == Err::<String, _>(error),
        config_error(env, host_is_ip, internal_host_is_ip) == Some(ConfigError::InvalidHost)
            ==> !host_is_ip,
        config_error(env, host_is_ip, internal_host_is_ip) == Some(ConfigError::InvalidInternalHost)
            ==> host_is_ip && !internal_host_is_ip,
        !is_bad_port(env.port) && !is_bad_port(env.internal_port) && env.database_url is Err
            ==> config_error(env, host_is_ip, internal_host_is_ip) == Some(
            ConfigError::Var(env.database_url->Err_0),
        ),
{
    lemma_default_ports();
    reveal_with_fuel(first_missing, 9);
    let required = env.required();
    assert(required.len() == 7);
    assert(required.drop_first() =~= required.subrange(1, 7));
    assert(required.drop_first().drop_first() =~= required.subrange(2, 7));
    assert(required.subrange(2, 7).drop_first() =~= required.subrange(3, 7));
    assert(required.subrange(3, 7).drop_first() =~= required.subrange(4, 7));
    assert(required.subrange(4, 7).drop_first() =~= required.subrange(5, 7));
    assert(required.subrange(5, 7).drop_first() =~= required.subrange(6, 7));
    assert(required.subrange(6, 7).drop_first() =~= required.subrange(7, 7));
}

/// What is looked at first is told first: the database, the keys for files and for API
/// keys, the bucket with its address and its credentials, then the two addresses to
/// listen on, and the token of the administrator last.
pub proof fn law_first_missing_variable_is_told(
    env: Environment,
    host_is_ip: bool,
    internal_host_is_ip: bool,
    error: VarError,
)
    requires
        !is_bad_port(env.port),
        !is_bad_port(env.internal_port),
        env.database_url is Ok,
    ensures
        ({
            let found = config_error(env, host_is_ip, internal_host_is_ip);
            let told = Some(ConfigError::Var(error));
            let files = env.file_encryption_key is Ok || env.encryption_key is Ok;
            let keys = files && (env.apikey_encryption_key is Ok
                || env.sourcemap_api_key_secret is Ok);
            let bucket = keys && env.s3_bucket is Ok;
            let endpoint = bucket && env.s3_endpoint is Ok;
            let access = endpoint && env.s3_access_key_id is Ok;
            let secret = access && env.s3_secret_access_key is Ok;
            &&& both_missing(env.file_encryption_key, env.encryption_key, error) ==> found == told
            &&& files && both_missing(
                env.apikey_encryption_key,
                env.sourcemap_api_key_secret,
                error,
            ) ==> found == told
            &&& keys && env.s3_bucket == Err::<String, _>(error) ==> found == told
            &&& bucket && env.s3_endpoint == Err::<String, _>(error) ==> found == told
            &&& endpoint && env.s3_access_key_id == Err::<String, _>(error) ==> found == told
            &&& access && env.s3_secret_access_key == Err::<String, _>(error) ==> found == told
            &&& secret && !host_is_ip ==> found == Some(ConfigError::InvalidHost)
            &&& secret && host_is_ip && !internal_host_is_ip ==> found == Some(
                ConfigError::InvalidInternalHost,
            )
            &&& secret && host_is_ip && internal_host_is_ip && env.admin_token == Err::<String, _>(
                error,
            ) ==> found == told
        }),
{
    law_service_is_set_up_where_nothing_is_missing(env, host_is_ip, internal_host_is_ip);
    lemma_default_ports();
    reveal_with_fuel(first_missing, 9);
    let required = env.required();
    assert(required.drop_first() =~= required.subrange(1, 7));
    assert(required.subrange(1, 7).drop_first() =~= required.subrange(2, 7));
    assert(required.subrange(2, 7).drop_first() =~= required.subrange(3, 7));
    assert(required.subrange(3, 7).drop_first() =~= required.subrange(4, 7));
    assert(required.subrange(4, 7).drop_first() =~= required.subrange(5, 7));
    assert(required.subrange(5, 7).drop_first() =~= required.subrange(6, 7));
    assert(required.subrange(6, 7).drop_first() =~= required.subrange(7, 7));
}

} // verus!
