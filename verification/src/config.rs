//! Server configuration: the value the bootstrap hands to every request
//! handler, plus the validation rules it must satisfy at startup.
//!
//! Reading configuration files and command lines is outside work; this
//! module only defines the types and the pure validation rules.

use vstd::prelude::*;
use vstd::string::StringExecFns;

verus! {

/// Command-line arguments, as plain values.
#[derive(Debug, Clone)]
pub struct Cli {
    /// public directory to serve
    pub public_dir: String,
    /// enable file uploads
    pub enable_upload: bool,
    /// host to listen on
    pub host: String,
    /// port to listen on
    pub port: u16,
    /// config file to use
    pub config_file: Option<String>,
    /// increase verbosity
    pub verbose: u8,
    /// decrease verbosity
    pub quiet: u8,
}

/// Authentication policy options.
#[derive(Debug, Clone, Copy, PartialEq, Eq, Structural)]
pub enum SecurityPolicy {
    AuthenticateNone,
    AuthenticateAll,
    AuthenticateUpload,
    AuthenticateDownload,
}

impl Default for SecurityPolicy {
    fn default() -> (r: Self)
        ensures
            r == SecurityPolicy::AuthenticateNone,
    {
        SecurityPolicy::AuthenticateNone
    }
}

/// Server configuration section.
#[derive(Debug, Clone)]
pub struct ServerConfig {
    pub host: String,
    pub port: u16,
    pub public_dir: String,
    pub upload_dir: Option<String>,
    pub enable_upload: bool,
    pub cors_origins: Vec<String>,
}

impl Default for ServerConfig {
    fn default() -> (r: Self)
        ensures
            r.host@ == "0.0.0.0"@,
            r.port == 8000,
            r.public_dir@ == "."@,
            r.upload_dir is None,
            !r.enable_upload,
            r.cors_origins@.len() == 0,
    {
        ServerConfig {
            host: String::from_str("0.0.0.0"),
            port: 8000,
            public_dir: String::from_str("."),
            upload_dir: None,
            enable_upload: false,
            cors_origins: Vec::new(),
        }
    }
}

/// Security and authentication configuration.
#[derive(Debug, Clone)]
pub struct SecurityConfig {
    pub username: Option<String>,
    pub password: Option<String>,
    pub policy: SecurityPolicy,
}

impl Default for SecurityConfig {
    fn default() -> (r: Self)
        ensures
            r.username is None,
            r.password is None,
            r.policy == SecurityPolicy::AuthenticateNone,
    {
        SecurityConfig { username: None, password: None, policy: SecurityPolicy::AuthenticateNone }
    }
}

/// Directory listing configuration.
#[derive(Debug, Clone)]
pub struct ListingConfig {
    pub ignore_file: Option<String>,
}

impl Default for ListingConfig {
    fn default() -> (r: Self)
        ensures
            r.ignore_file is None,
    {
        ListingConfig { ignore_file: None }
    }
}

/// One gibibyte, the default request-size ceiling.
pub const DEFAULT_MAX_REQUEST_SIZE: u64 = 1024 * 1024 * 1024;

/// File upload configuration.
#[derive(Debug, Clone)]
pub struct UploadConfig {
    pub max_request_size: u64,
    pub prepend_timestamp: bool,
    pub prevent_overwrite: bool,
    pub create_directories: bool,
}

impl Default for UploadConfig {
    fn default() -> (r: Self)
        ensures
            r.max_request_size == DEFAULT_MAX_REQUEST_SIZE,
            r.prepend_timestamp,
            r.prevent_overwrite,
            !r.create_directories,
    {
        UploadConfig {
            max_request_size: DEFAULT_MAX_REQUEST_SIZE,
            prepend_timestamp: true,
            prevent_overwrite: true,
            create_directories: false,
        }
    }
}

/// Complete application configuration.
#[derive(Debug, Clone)]
pub struct AppConfig {
    pub server: ServerConfig,
    pub security: SecurityConfig,
    pub listing: ListingConfig,
    pub upload: UploadConfig,
}

impl Default for AppConfig {
    fn default() -> (r: Self)
        ensures
            r.server.host@ == "0.0.0.0"@,
            r.server.port == 8000,
            r.server.public_dir@ == "."@,
            r.server.upload_dir is None,
            !r.server.enable_upload,
            r.server.cors_origins@.len() == 0,
            r.security.username is None,
            r.security.password is None,
            r.security.policy == SecurityPolicy::AuthenticateNone,
            r.listing.ignore_file is None,
            r.upload.max_request_size == DEFAULT_MAX_REQUEST_SIZE,
            r.upload.prepend_timestamp,
            r.upload.prevent_overwrite,
            !r.upload.create_directories,
    {
        AppConfig {
            server: Default::default(),
            security: Default::default(),
            listing: Default::default(),
            upload: Default::default(),
        }
    }
}

impl AppConfig {
    /// The effective upload directory: `upload_dir` when set, the public
    /// directory otherwise.
    pub fn upload_dir(&self) -> (r: &String)
        ensures
            self.server.upload_dir matches Some(d) ==> r == d,
            self.server.upload_dir is None ==> r == &self.server.public_dir,
    {
        match &self.server.upload_dir {
            Some(d) => d,
            None => &self.server.public_dir,
        }
    }
}

/// ASCII lowercase of a character code.
pub open spec fn spec_lower_code(u: u32) -> u32 {
    if 0x41 <= u <= 0x5a {
        (u + 0x20) as u32
    } else {
        u
    }
}

/// Case-insensitive (ASCII) equality of two character sequences.
pub open spec fn spec_eq_ignore_ascii_case(a: Seq<char>, b: Seq<char>) -> bool {
    a.len() == b.len() && forall|i: int|
        0 <= i < a.len() ==> spec_lower_code(#[trigger] a[i] as u32) == spec_lower_code(b[i] as u32)
}

fn lower_code(u: u32) -> (r: u32)
    ensures
        r == spec_lower_code(u),
{
    if 0x41 <= u && u <= 0x5a {
        u + 0x20
    } else {
        u
    }
}

/// Compares two strings case-insensitively over ASCII letters.
pub fn str_eq_ignore_ascii_case(a: &str, b: &str) -> (r: bool)
    ensures
        r == spec_eq_ignore_ascii_case(a@, b@),
{
    let alen = a.unicode_len();
    let blen = b.unicode_len();
    if alen != blen {
        return false;
    }
    let mut i: usize = 0;
    while i < alen
        invariant
            alen == a@.len(),
            blen == b@.len(),
            alen == blen,
            0 <= i <= alen,
            forall|j: int|
                0 <= j < i ==> spec_lower_code(#[trigger] a@[j] as u32) == spec_lower_code(
                    b@[j] as u32,
                ),
        decreases alen - i,
    {
        let ca = a.get_char(i) as u32;
        let cb = b.get_char(i) as u32;
        if lower_code(ca) != lower_code(cb) {
            return false;
        }
        i = i + 1;
    }
    true
}

/// Which policy a configuration word names, compared without regard to
/// ASCII case.
pub open spec fn spec_policy_of(s: Seq<char>) -> Option<SecurityPolicy> {
    if spec_eq_ignore_ascii_case(s, "authenticate_none"@) {
        Some(SecurityPolicy::AuthenticateNone)
    } else if spec_eq_ignore_ascii_case(s, "authenticate_upload"@) {
        Some(SecurityPolicy::AuthenticateUpload)
    } else if spec_eq_ignore_ascii_case(s, "authenticate_download"@) {
        Some(SecurityPolicy::AuthenticateDownload)
    } else if spec_eq_ignore_ascii_case(s, "authenticate_all"@) {
        Some(SecurityPolicy::AuthenticateAll)
    } else {
        None
    }
}

/// Parses a policy word.
pub fn parse_security_policy(s: &str) -> (r: Result<SecurityPolicy, String>)
    ensures
        r matches Ok(p) ==> spec_policy_of(s@) == Some(p),
        r is Err <==> spec_policy_of(s@) is None,
{
    if str_eq_ignore_ascii_case(s, "authenticate_none") {
        Ok(SecurityPolicy::AuthenticateNone)
    } else if str_eq_ignore_ascii_case(s, "authenticate_upload") {
        Ok(SecurityPolicy::AuthenticateUpload)
    } else if str_eq_ignore_ascii_case(s, "authenticate_download") {
        Ok(SecurityPolicy::AuthenticateDownload)
    } else if str_eq_ignore_ascii_case(s, "authenticate_all") {
        Ok(SecurityPolicy::AuthenticateAll)
    } else {
        Err(String::from_str("invalid security policy: ").concat(s))
    }
}

impl core::str::FromStr for SecurityPolicy {
    type Err = String;

    fn from_str(s: &str) -> Result<Self, String> {
        parse_security_policy(s)
    }
}

/// The state every request handler shares: the immutable configuration.
#[derive(Debug, Clone)]
pub struct AppState {
    pub config: AppConfig,
}

impl AppState {
    pub fn new(config: AppConfig) -> (s: Self)
        ensures
            s.config == config,
    {
        AppState { config }
    }
}

/// What a startup check of a configured directory found.
#[derive(Clone, Copy, Debug, PartialEq, Eq, Structural)]
pub enum DirStatus {
    Directory,
    NotDirectory,
    Missing,
    Unreadable,
}

/// Why a configuration was refused at startup.
#[derive(Clone, Copy, Debug, PartialEq, Eq, Structural)]
pub enum ConfigError {
    PublicDirNotDirectory,
    PublicDirMissing,
    PublicDirUnreadable,
    UploadDirNotDirectory,
    UploadDirMissing,
    UploadDirUnreadable,
    IncompleteCredentials,
    PortZero,
}

/// Whether exactly one of username and password is configured.
pub open spec fn spec_one_sided_credentials(sec: SecurityConfig) -> bool {
    (sec.username is Some && sec.password is None) || (sec.username is None
        && sec.password is Some)
}

/// The pure startup validation rules.  The caller checks the public and
/// (when uploads are enabled) upload directories on disk and passes what it
/// found; `upload_status` is ignored while uploads are disabled, and a
/// missing upload directory is accepted when `create_directories` is set.
pub fn validate_config_rules(
    config: &AppConfig,
    public_status: DirStatus,
    upload_status: DirStatus,
) -> (r: Result<(), ConfigError>)
    ensures
        r == spec_validate_config(*config, public_status, upload_status),
{
    match public_status {
        DirStatus::Directory => {},
        DirStatus::NotDirectory => {
            return Err(ConfigError::PublicDirNotDirectory);
        },
        DirStatus::Missing => {
            return Err(ConfigError::PublicDirMissing);
        },
        DirStatus::Unreadable => {
            return Err(ConfigError::PublicDirUnreadable);
        },
    }
    if config.server.enable_upload {
        match upload_status {
            DirStatus::Directory => {},
            DirStatus::NotDirectory => {
                return Err(ConfigError::UploadDirNotDirectory);
            },
            DirStatus::Missing => {
                if !config.upload.create_directories {
                    return Err(ConfigError::UploadDirMissing);
                }
            },
            DirStatus::Unreadable => {
                return Err(ConfigError::UploadDirUnreadable);
            },
        }
    }
    let creds_one_sided = match (&config.security.username, &config.security.password) {
        (Some(_), None) => true,
        (None, Some(_)) => true,
        _ => false,
    };
    if !matches!(config.security.policy, SecurityPolicy::AuthenticateNone) && creds_one_sided {
        return Err(ConfigError::IncompleteCredentials);
    }
    if config.server.port == 0 {
        return Err(ConfigError::PortZero);
    }
    Ok(())
}

/// The validation rules as one function of the inputs.
pub open spec fn spec_validate_config(
    config: AppConfig,
    public_status: DirStatus,
    upload_status: DirStatus,
) -> Result<(), ConfigError> {
    if public_status == DirStatus::NotDirectory {
        Err(ConfigError::PublicDirNotDirectory)
    } else if public_status == DirStatus::Missing {
        Err(ConfigError::PublicDirMissing)
    } else if public_status == DirStatus::Unreadable {
        Err(ConfigError::PublicDirUnreadable)
    } else if config.server.enable_upload && upload_status == DirStatus::NotDirectory {
        Err(ConfigError::UploadDirNotDirectory)
    } else if config.server.enable_upload && upload_status == DirStatus::Missing
        && !config.upload.create_directories {
        Err(ConfigError::UploadDirMissing)
    } else if config.server.enable_upload && upload_status == DirStatus::Unreadable {
        Err(ConfigError::UploadDirUnreadable)
    } else if config.security.policy != SecurityPolicy::AuthenticateNone
        && spec_one_sided_credentials(config.security) {
        Err(ConfigError::IncompleteCredentials)
    } else if config.server.port == 0 {
        Err(ConfigError::PortZero)
    } else {
        Ok(())
    }
}

} // verus!
