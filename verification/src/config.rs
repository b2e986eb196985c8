//! Configuration: its defaults, the overrides of the command line, and its validation at
//! startup, so that a misconfiguration fails fast rather than at the first request.

use crate::number::numeral;
use std::collections::HashMap;
use vstd::prelude::*;

verus! {

/// Command-line arguments for the gateway binary.
#[derive(Debug)]
pub struct CliArgs {
    /// Path to a TOML configuration file.
    pub config: Option<String>,
    /// Override the listen address (e.g. `0.0.0.0:8080`).
    pub listen_addr: Option<String>,
    /// Override the NameNode URI (e.g. `hdfs://namenode:8020`).
    pub namenode_uri: Option<String>,
    /// Override the HDFS root path (e.g. `/data`).
    pub hdfs_root: Option<String>,
    /// Override the single exposed bucket name (e.g. `hdfs`).
    pub bucket_name: Option<String>,
    /// Override the shared secret of S3 authentication.
    pub auth_secret: Option<String>,
}

/// Resolved gateway configuration.
#[derive(Debug, Clone)]
pub struct Config {
    /// NameNode URI (e.g. `hdfs://namenode:8020`).
    pub namenode_uri: String,
    /// S3 keys are relative to this HDFS path (e.g. `/data`).
    pub hdfs_root: String,
    /// The single exposed bucket name (e.g. `hdfs`).
    pub bucket_name: String,
    /// Address the HTTP server binds to.
    pub listen_addr: String,
    /// Cap on concurrent in-flight requests.
    pub max_concurrent_requests: usize,
    /// Whether clients see the text of upstream errors.
    pub expose_upstream_errors: bool,
    /// Hadoop options handed to the HDFS client.
    pub hdfs_options: HashMap<String, String>,
    /// Hadoop configuration directory, in place of the usual lookup.
    pub hdfs_config_dir: Option<String>,
    /// Effective user of the HDFS client.
    pub hdfs_user: Option<String>,
    /// Shared secret of S3 authentication; without one nothing is verified.
    pub auth_secret: Option<String>,
}

/// Why a configuration is refused.
#[derive(Debug, PartialEq, Eq)]
pub enum ConfigError {
    /// The file at this path cannot be read, for this reason.
    ReadFile(String, String),
    /// The file is not a TOML configuration, for this reason.
    ParseToml(String),
    /// A required field is missing.
    Missing(&'static str),
    /// A field has a value that it cannot have.
    Invalid(String),
}

impl ConfigError {
    /// The description of the error.
    pub open spec fn text(&self) -> Seq<char> {
        match self {
            ConfigError::ReadFile(path, e) => "failed to read config file "@ + path@ + ": "@ + e@,
            ConfigError::ParseToml(e) => "failed to parse TOML config: "@ + e@,
            ConfigError::Missing(field) => "missing required config field: "@ + field@,
            ConfigError::Invalid(what) => "invalid config value: "@ + what@,
        }
    }

    /// The description of the error.
    pub fn message(&self) -> (s: String)
        ensures
            s@ == self.text(),
    {
        match self {
            ConfigError::ReadFile(path, e) => {
                let mut s = "failed to read config file ".to_string();
                s.append(path.as_str());
                s.append(": ");
                s.append(e.as_str());
                s
            },
            ConfigError::ParseToml(e) => {
                let mut s = "failed to parse TOML config: ".to_string();
                s.append(e.as_str());
                s
            },
            ConfigError::Missing(field) => {
                let mut s = "missing required config field: ".to_string();
                s.append(field);
                s
            },
            ConfigError::Invalid(what) => {
                let mut s = "invalid config value: ".to_string();
                s.append(what.as_str());
                s
            },
        }
    }
}

/// The default listen address.
pub fn default_listen_addr() -> (s: String)
    ensures
        s@ == "0.0.0.0:8080"@,
{
    "0.0.0.0:8080".to_string()
}

/// The default cap on concurrent requests.
pub fn default_max_concurrent_requests() -> (n: usize)
    ensures
        n == 2048,
{
    2048
}

/// By default clients see the text of upstream errors.
pub fn default_expose_upstream_errors() -> (b: bool)
    ensures
        b,
{
    true
}

// ---------------------------------------------------------------------------------------
// Bucket names
// ---------------------------------------------------------------------------------------

/// A lower-case letter or a digit.
pub open spec fn is_alnum(c: char) -> bool {
    'a' <= c <= 'z' || '0' <= c <= '9'
}

/// Four decimal numbers below 256 with dots between them.
pub open spec fn is_ipv4(s: Seq<char>) -> bool {
    exists|a: u8, b: u8, c: u8, d: u8| s == #[trigger] dotted(a, b, c, d)
}

/// An IPv4 address as text.
pub open spec fn dotted(a: u8, b: u8, c: u8, d: u8) -> Seq<char> {
    numeral(a as nat, 10).push('.') + numeral(b as nat, 10).push('.') + numeral(
        c as nat,
        10,
    ).push('.') + numeral(d as nat, 10)
}

/// A legal S3 bucket name: 3 to 63 lower-case letters, digits, dots and hyphens, a letter or
/// digit at both ends, no two dots in a row, not an IP address, and not beginning with `xn--`.
pub open spec fn is_bucket_name(s: Seq<char>) -> bool {
    &&& 3 <= s.len() <= 63
    &&& forall|i: int|
        0 <= i < s.len() ==> is_alnum(#[trigger] s[i]) || s[i] == '.' || s[i] == '-'
    &&& is_alnum(s.first())
    &&& is_alnum(s.last())
    &&& forall|i: int|
        0 <= i < s.len() - 1 ==> !(#[trigger] s[i] == '.' && s[i + 1] == '.')
    &&& !is_ipv4(s)
    &&& !"xn--"@.is_prefix_of(s)
}

/// Check a bucket name with `s3s::path::check_bucket_name`, which holds it to the rules that
/// `is_bucket_name` states. It refuses any IP address; of the characters that the rules allow
/// only an IPv4 address can be made.
#[verifier::external_body]
fn check_bucket_name(name: &str) -> (r: bool)
    ensures
        r == is_bucket_name(name@),
{
    s3s::path::check_bucket_name(name)
}

/// A string in quotes and with escapes, as `std::fmt::Debug` writes it.
pub uninterp spec fn quoted(s: Seq<char>) -> Seq<char>;

/// Write a string with `std::fmt::Debug` for `str`, by `format!`. The result depends on the
/// string alone.
#[verifier::external_body]
fn debug_text(s: &str) -> (r: String)
    ensures
        r@ == quoted(s@),
{
    format!("{:?}", s)
}

/// What is said of an illegal bucket name, given the name in quotes.
pub open spec fn bucket_complaint_of(name: Seq<char>) -> Seq<char> {
    "bucket_name "@ + name + " is not a valid S3 bucket name"@
}

/// What is said of an illegal bucket name, given the name in quotes.
pub fn bucket_complaint(name: String) -> (s: String)
    ensures
        s@ == bucket_complaint_of(name@),
{
    let mut s = "bucket_name ".to_string();
    s.append(name.as_str());
    s.append(" is not a valid S3 bucket name");
    s
}

// ---------------------------------------------------------------------------------------
// Loading
// ---------------------------------------------------------------------------------------

/// Where a configuration comes from.
#[derive(Debug)]
pub enum ConfigSource {
    /// A configuration file: what reading and parsing it came to.
    File(Result<Config, ConfigError>),
    /// No file: the environment variables `HDFS_NN_URI`, `HDFS_ROOT` and `BUCKET_NAME`.
    Env { namenode_uri: Option<String>, hdfs_root: Option<String>, bucket_name: Option<String> },
}

/// `v`, if it is there, in place of `base`.
pub open spec fn or_else(v: Option<String>, base: String) -> String {
    match v {
        Some(s) => s,
        None => base,
    }
}

/// `c` with all fields but the first three at their defaults.
pub open spec fn has_defaults(c: Config) -> bool {
    &&& c.listen_addr@ == "0.0.0.0:8080"@
    &&& c.max_concurrent_requests == 2048
    &&& c.expose_upstream_errors
    &&& c.hdfs_options@ == Map::<String, String>::empty()
    &&& c.hdfs_config_dir is None
    &&& c.hdfs_user is None
    &&& c.auth_secret is None
}

/// A NameNode on this machine, with its whole namespace exposed.
pub open spec fn is_default(c: Config) -> bool {
    &&& c.namenode_uri@ == "hdfs://localhost:8020"@
    &&& c.hdfs_root@ == "/"@
    &&& c.bucket_name@ == "hdfs"@
    &&& has_defaults(c)
}

/// `s` is the value of an environment variable, empty if it is not set.
pub open spec fn is_setting(v: Option<String>, s: String) -> bool {
    match v {
        Some(t) => s == t,
        None => s@.len() == 0,
    }
}

/// `base` is the configuration before overrides. Each environment variable stands for one
/// setting; those that are not set leave their setting missing.
pub open spec fn is_base(source: ConfigSource, base: Config) -> bool {
    match source {
        ConfigSource::File(r) => r == Ok::<Config, ConfigError>(base),
        ConfigSource::Env { namenode_uri, hdfs_root, bucket_name } => is_setting(
            namenode_uri,
            base.namenode_uri,
        ) && is_setting(hdfs_root, base.hdfs_root) && is_setting(bucket_name, base.bucket_name)
            && has_defaults(base),
    }
}

/// `base` with the values of the command line in place of its own.
pub open spec fn overridden(base: Config, args: CliArgs) -> Config {
    Config {
        listen_addr: or_else(args.listen_addr, base.listen_addr),
        namenode_uri: or_else(args.namenode_uri, base.namenode_uri),
        hdfs_root: or_else(args.hdfs_root, base.hdfs_root),
        bucket_name: or_else(args.bucket_name, base.bucket_name),
        auth_secret: match args.auth_secret {
            Some(s) => Some(s),
            None => base.auth_secret,
        },
        ..base
    }
}

/// A configuration that the gateway can run with.
pub open spec fn is_valid(c: Config) -> bool {
    &&& c.namenode_uri@.len() > 0
    &&& c.hdfs_root@.len() > 0
    &&& c.bucket_name@.len() > 0
    &&& c.max_concurrent_requests > 0
    &&& is_bucket_name(c.bucket_name@)
}

/// `e` names the first thing that is wrong with `c`.
pub open spec fn complains(c: Config, e: ConfigError) -> bool {
    if c.namenode_uri@.len() == 0 {
        e matches ConfigError::Missing(f) && f@ == "namenode_uri"@
    } else if c.hdfs_root@.len() == 0 {
        e matches ConfigError::Missing(f) && f@ == "hdfs_root"@
    } else if c.bucket_name@.len() == 0 {
        e matches ConfigError::Missing(f) && f@ == "bucket_name"@
    } else if c.max_concurrent_requests == 0 {
        e matches ConfigError::Invalid(s) && s@ == "max_concurrent_requests must be greater than 0"@
    } else {
        !is_bucket_name(c.bucket_name@) && (e matches ConfigError::Invalid(s) && s@
            == bucket_complaint_of(quoted(c.bucket_name@)))
    }
}

/// The value of an environment variable, empty if it is not set.
fn setting(v: Option<String>) -> (s: String)
    ensures
        is_setting(v, s),
{
    match v {
        Some(t) => t,
        None => String::new(),
    }
}

/// `v`, if it is there, in place of `base`.
fn pick(v: &Option<String>, base: String) -> (r: String)
    ensures
        r == or_else(*v, base),
{
    match v {
        Some(s) => s.clone(),
        None => base,
    }
}

impl Config {
    /// A configuration with all fields but these at their defaults.
    fn with_defaults(namenode_uri: String, hdfs_root: String, bucket_name: String) -> (c: Self)
        ensures
            c.namenode_uri == namenode_uri,
            c.hdfs_root == hdfs_root,
            c.bucket_name == bucket_name,
            has_defaults(c),
    {
        Config {
            namenode_uri,
            hdfs_root,
            bucket_name,
            listen_addr: default_listen_addr(),
            max_concurrent_requests: default_max_concurrent_requests(),
            expose_upstream_errors: default_expose_upstream_errors(),
            hdfs_options: HashMap::new(),
            hdfs_config_dir: None,
            hdfs_user: None,
            auth_secret: None,
        }
    }

    /// The configuration of the environment variables `HDFS_NN_URI`, `HDFS_ROOT` and
    /// `BUCKET_NAME`. A setting whose variable is not set stays empty: it is required, and
    /// missing unless something else supplies it.
    pub fn from_env(
        namenode_uri: Option<String>,
        hdfs_root: Option<String>,
        bucket_name: Option<String>,
    ) -> (c: Self)
        ensures
            is_setting(namenode_uri, c.namenode_uri),
            is_setting(hdfs_root, c.hdfs_root),
            is_setting(bucket_name, c.bucket_name),
            has_defaults(c),
    {
        Config::with_defaults(setting(namenode_uri), setting(hdfs_root), setting(bucket_name))
    }

    /// Resolve the configuration: a file, or else the environment; then the overrides of the
    /// command line; then validation. A required setting that none of them supplies is refused
    /// at startup.
    pub fn load(args: &CliArgs, source: ConfigSource) -> (r: Result<Self, ConfigError>)
        ensures
            match source {
                ConfigSource::File(Err(e)) => r == Err::<Config, ConfigError>(e),
                _ => exists|base: Config| #[trigger]
                    is_base(source, base) && match r {
                        Ok(c) => c == overridden(base, *args) && is_valid(c),
                        Err(e) => !is_valid(overridden(base, *args)) && complains(
                            overridden(base, *args),
                            e,
                        ),
                    },
            },
    {
        let ghost from = source;
        let base = match source {
            ConfigSource::File(Ok(c)) => c,
            ConfigSource::File(Err(e)) => {
                return Err(e);
            },
            ConfigSource::Env { namenode_uri, hdfs_root, bucket_name } => Config::from_env(
                namenode_uri,
                hdfs_root,
                bucket_name,
            ),
        };
        assert(is_base(from, base));
        let config = Config {
            listen_addr: pick(&args.listen_addr, base.listen_addr),
            namenode_uri: pick(&args.namenode_uri, base.namenode_uri),
            hdfs_root: pick(&args.hdfs_root, base.hdfs_root),
            bucket_name: pick(&args.bucket_name, base.bucket_name),
            auth_secret: match &args.auth_secret {
                Some(s) => Some(s.clone()),
                None => base.auth_secret,
            },
            max_concurrent_requests: base.max_concurrent_requests,
            expose_upstream_errors: base.expose_upstream_errors,
            hdfs_options: base.hdfs_options,
            hdfs_config_dir: base.hdfs_config_dir,
            hdfs_user: base.hdfs_user,
        };
        assert(config == overridden(base, *args));
        match config.validate() {
            Ok(()) => Ok(config),
            Err(e) => Err(e),
        }
    }

    /// Check that the gateway can run with this configuration: the required fields are there,
    /// the cap on requests is positive, and the bucket name is a legal S3 bucket name.
    pub fn validate(&self) -> (r: Result<(), ConfigError>)
        ensures
            r is Ok <==> is_valid(*self),
            r matches Err(e) ==> complains(*self, e),
    {
        if self.namenode_uri.as_str().is_empty() {
            return Err(ConfigError::Missing("namenode_uri"));
        }
        if self.hdfs_root.as_str().is_empty() {
            return Err(ConfigError::Missing("hdfs_root"));
        }
        if self.bucket_name.as_str().is_empty() {
            return Err(ConfigError::Missing("bucket_name"));
        }
        if self.max_concurrent_requests == 0 {
            return Err(
                ConfigError::Invalid("max_concurrent_requests must be greater than 0".to_string()),
            );
        }
        if !check_bucket_name(self.bucket_name.as_str()) {
            let name = debug_text(self.bucket_name.as_str());
            return Err(ConfigError::Invalid(bucket_complaint(name)));
        }
        Ok(())
    }
}

/// Missing settings fail fast: without a file, a required setting that neither its environment
/// variable nor the command line supplies makes the configuration invalid.
pub proof fn law_missing_setting_refused(args: CliArgs, source: ConfigSource, base: Config)
    requires
        is_base(source, base),
        source matches ConfigSource::Env { namenode_uri, hdfs_root, bucket_name } && {
            ||| namenode_uri is None && args.namenode_uri is None
            ||| hdfs_root is None && args.hdfs_root is None
            ||| bucket_name is None && args.bucket_name is None
        },
    ensures
        !is_valid(overridden(base, args)),
{
}

impl Default for Config {
    /// A NameNode on this machine, with its whole namespace exposed.
    fn default() -> (c: Self)
        ensures
            is_default(c),
    {
        Config::with_defaults(
            "hdfs://localhost:8020".to_string(),
            "/".to_string(),
            "hdfs".to_string(),
        )
    }
}

// ---------------------------------------------------------------------------------------
// Laws
// ---------------------------------------------------------------------------------------

/// A setting without a flag comes from the file as it stands there, whatever the command line
/// says.
pub proof fn law_settings_without_flag(
    args: &CliArgs,
    file: Config,
    r: Result<Config, ConfigError>,
)
    requires
        call_ensures(Config::load, (args, ConfigSource::File(Ok(file))), r),
    ensures
        r matches Ok(c) ==> {
            &&& c.max_concurrent_requests == file.max_concurrent_requests
            &&& c.expose_upstream_errors == file.expose_upstream_errors
            &&& c.hdfs_options == file.hdfs_options
            &&& c.hdfs_config_dir == file.hdfs_config_dir
            &&& c.hdfs_user == file.hdfs_user
        },
{
}

/// A setting with a flag is that of the command line where it gives one, and else that of the
/// file.
pub proof fn law_flags_override(args: &CliArgs, file: Config, r: Result<Config, ConfigError>)
    requires
        call_ensures(Config::load, (args, ConfigSource::File(Ok(file))), r),
    ensures
        r matches Ok(c) ==> {
            &&& args.listen_addr matches Some(v) ==> c.listen_addr@ == v@
            &&& args.listen_addr is None ==> c.listen_addr@ == file.listen_addr@
            &&& args.namenode_uri matches Some(v) ==> c.namenode_uri@ == v@
            &&& args.namenode_uri is None ==> c.namenode_uri@ == file.namenode_uri@
            &&& args.hdfs_root matches Some(v) ==> c.hdfs_root@ == v@
            &&& args.hdfs_root is None ==> c.hdfs_root@ == file.hdfs_root@
            &&& args.bucket_name matches Some(v) ==> c.bucket_name@ == v@
            &&& args.bucket_name is None ==> c.bucket_name@ == file.bucket_name@
            &&& args.auth_secret matches Some(v) ==> c.auth_secret == Some(v)
            &&& args.auth_secret is None ==> c.auth_secret == file.auth_secret
        },
{
}

/// A valid file is loaded unchanged, field by field, where the command line overrides nothing.
pub proof fn law_file_is_loaded(
    args: &CliArgs,
    file: Config,
    valid: Result<(), ConfigError>,
    r: Result<Config, ConfigError>,
)
    requires
        args.listen_addr is None,
        args.namenode_uri is None,
        args.hdfs_root is None,
        args.bucket_name is None,
        args.auth_secret is None,
        call_ensures(Config::validate, (&file,), valid),
        call_ensures(Config::load, (args, ConfigSource::File(Ok(file))), r),
    ensures
        valid is Ok ==> r == Ok::<Config, ConfigError>(file),
        valid is Err ==> r is Err,
{
}

/// Without a file each environment variable sets one setting, which the command line overrides,
/// and the others have their defaults.
pub proof fn law_environment_is_loaded(
    args: &CliArgs,
    namenode_uri: Option<String>,
    hdfs_root: Option<String>,
    bucket_name: Option<String>,
    r: Result<Config, ConfigError>,
)
    requires
        call_ensures(
            Config::load,
            (args, ConfigSource::Env { namenode_uri, hdfs_root, bucket_name }),
            r,
        ),
    ensures
        r matches Ok(c) ==> {
            &&& args.namenode_uri matches Some(v) ==> c.namenode_uri@ == v@
            &&& args.namenode_uri is None ==> (namenode_uri matches Some(v) && c.namenode_uri@
                == v@)
            &&& args.hdfs_root matches Some(v) ==> c.hdfs_root@ == v@
            &&& args.hdfs_root is None ==> (hdfs_root matches Some(v) && c.hdfs_root@ == v@)
            &&& args.bucket_name matches Some(v) ==> c.bucket_name@ == v@
            &&& args.bucket_name is None ==> (bucket_name matches Some(v) && c.bucket_name@ == v@)
            &&& args.listen_addr matches Some(v) ==> c.listen_addr@ == v@
            &&& args.listen_addr is None ==> c.listen_addr@ == "0.0.0.0:8080"@
            &&& c.auth_secret == args.auth_secret
            &&& c.max_concurrent_requests == 2048
            &&& c.expose_upstream_errors
            &&& c.hdfs_options@ == Map::<String, String>::empty()
            &&& c.hdfs_config_dir is None
            &&& c.hdfs_user is None
        },
{
}

/// Loading succeeds just when nothing is wrong with the settings that win: each required one is
/// there, requests are admitted at all, and the bucket name is legal.
pub proof fn law_loading_succeeds(
    args: &CliArgs,
    namenode_uri: Option<String>,
    hdfs_root: Option<String>,
    bucket_name: Option<String>,
    r: Result<Config, ConfigError>,
)
    requires
        call_ensures(
            Config::load,
            (args, ConfigSource::Env { namenode_uri, hdfs_root, bucket_name }),
            r,
        ),
    ensures
        r is Ok <==> {
            &&& match args.namenode_uri {
                Some(v) => v@.len() > 0,
                None => namenode_uri matches Some(v) && v@.len() > 0,
            }
            &&& match args.hdfs_root {
                Some(v) => v@.len() > 0,
                None => hdfs_root matches Some(v) && v@.len() > 0,
            }
            &&& match args.bucket_name {
                Some(v) => is_bucket_name(v@),
                None => bucket_name matches Some(v) && is_bucket_name(v@),
            }
        },
{
}

/// A file that cannot be read or parsed is reported as it is, whatever the command line says.
pub proof fn law_bad_file_is_reported(
    args: &CliArgs,
    e: ConfigError,
    r: Result<Config, ConfigError>,
)
    requires
        call_ensures(Config::load, (args, ConfigSource::File(Err(e))), r),
    ensures
        r == Err::<Config, ConfigError>(e),
{
}

/// What validation refuses, and with which words: the first required field that is empty, then
/// a cap that admits nothing, then an illegal bucket name. Everything else is accepted.
pub proof fn law_validation(c: &Config, r: Result<(), ConfigError>)
    requires
        call_ensures(Config::validate, (c,), r),
    ensures
        r is Ok <==> {
            &&& c.namenode_uri@.len() > 0
            &&& c.hdfs_root@.len() > 0
            &&& c.max_concurrent_requests > 0
            &&& is_bucket_name(c.bucket_name@)
        },
        c.namenode_uri@.len() == 0 ==> (r matches Err(ConfigError::Missing(f)) && f@
            == "namenode_uri"@),
        c.namenode_uri@.len() > 0 && c.hdfs_root@.len() == 0 ==> (r matches Err(
            ConfigError::Missing(f),
        ) && f@ == "hdfs_root"@),
        c.namenode_uri@.len() > 0 && c.hdfs_root@.len() > 0 && c.bucket_name@.len() == 0 ==> (
        r matches Err(ConfigError::Missing(f)) && f@ == "bucket_name"@),
        c.namenode_uri@.len() > 0 && c.hdfs_root@.len() > 0 && c.bucket_name@.len() > 0
            && c.max_concurrent_requests == 0 ==> (r matches Err(ConfigError::Invalid(s)) && s@
            == "max_concurrent_requests must be greater than 0"@),
        c.namenode_uri@.len() > 0 && c.hdfs_root@.len() > 0 && c.bucket_name@.len() > 0
            && c.max_concurrent_requests > 0 && !is_bucket_name(c.bucket_name@) ==> (r matches Err(
            ConfigError::Invalid(s),
        ) && s@ == "bucket_name "@ + quoted(c.bucket_name@) + " is not a valid S3 bucket name"@),
{
}

/// The same configuration is checked the same way wherever it comes from: what is loaded is what
/// validation accepts.
pub proof fn law_loaded_is_valid(
    args: &CliArgs,
    source: ConfigSource,
    c: Config,
    checked: Result<(), ConfigError>,
)
    requires
        call_ensures(Config::load, (args, source), Ok::<Config, ConfigError>(c)),
        call_ensures(Config::validate, (&c,), checked),
    ensures
        checked is Ok,
{
}

/// The defaults.
pub proof fn law_defaults(
    c: Config,
    listen_addr: String,
    max_concurrent_requests: usize,
    expose_upstream_errors: bool,
)
    requires
        call_ensures(<Config as Default>::default, (), c),
        call_ensures(default_listen_addr, (), listen_addr),
        call_ensures(default_max_concurrent_requests, (), max_concurrent_requests),
        call_ensures(default_expose_upstream_errors, (), expose_upstream_errors),
    ensures
        listen_addr@ == "0.0.0.0:8080"@,
        max_concurrent_requests == 2048,
        expose_upstream_errors,
        c.namenode_uri@ == "hdfs://localhost:8020"@,
        c.hdfs_root@ == "/"@,
        c.bucket_name@ == "hdfs"@,
        c.listen_addr@ == listen_addr@,
        c.max_concurrent_requests == max_concurrent_requests,
        c.expose_upstream_errors == expose_upstream_errors,
        c.hdfs_options@ == Map::<String, String>::empty(),
        c.hdfs_config_dir is None,
        c.hdfs_user is None,
        c.auth_secret is None,
{
}

/// A description says what went wrong and repeats the particulars.
pub proof fn law_error_descriptions(e: &ConfigError, s: String)
    requires
        call_ensures(ConfigError::message, (e,), s),
    ensures
        match *e {
            ConfigError::ReadFile(path, why) => s@ == "failed to read config file "@ + path@ + ": "@
                + why@,
            ConfigError::ParseToml(why) => s@ == "failed to parse TOML config: "@ + why@,
            ConfigError::Missing(field) => s@ == "missing required config field: "@ + field@,
            ConfigError::Invalid(what) => s@ == "invalid config value: "@ + what@,
        },
{
}

/// Loading a file succeeds just when nothing is wrong with the settings that win.
pub proof fn law_loading_a_file_succeeds(
    args: &CliArgs,
    file: Config,
    r: Result<Config, ConfigError>,
)
    requires
        call_ensures(Config::load, (args, ConfigSource::File(Ok(file))), r),
    ensures
        r is Ok <==> {
            &&& match args.namenode_uri {
                Some(v) => v@.len() > 0,
                None => file.namenode_uri@.len() > 0,
            }
            &&& match args.hdfs_root {
                Some(v) => v@.len() > 0,
                None => file.hdfs_root@.len() > 0,
            }
            &&& match args.bucket_name {
                Some(v) => is_bucket_name(v@),
                None => is_bucket_name(file.bucket_name@),
            }
            &&& file.max_concurrent_requests > 0
        },
{
}

/// Each environment variable stands for one setting, which is empty without it; the others have
/// their defaults.
pub proof fn law_environment_settings(
    namenode_uri: Option<String>,
    hdfs_root: Option<String>,
    bucket_name: Option<String>,
    c: Config,
    defaults: Config,
)
    requires
        call_ensures(Config::from_env, (namenode_uri, hdfs_root, bucket_name), c),
        call_ensures(<Config as Default>::default, (), defaults),
    ensures
        namenode_uri matches Some(v) ==> c.namenode_uri@ == v@,
        namenode_uri is None ==> c.namenode_uri@.len() == 0,
        hdfs_root matches Some(v) ==> c.hdfs_root@ == v@,
        hdfs_root is None ==> c.hdfs_root@.len() == 0,
        bucket_name matches Some(v) ==> c.bucket_name@ == v@,
        bucket_name is None ==> c.bucket_name@.len() == 0,
        c.listen_addr@ == defaults.listen_addr@,
        c.max_concurrent_requests == defaults.max_concurrent_requests,
        c.expose_upstream_errors == defaults.expose_upstream_errors,
        c.hdfs_options@ == defaults.hdfs_options@,
        c.hdfs_config_dir == defaults.hdfs_config_dir,
        c.hdfs_user == defaults.hdfs_user,
        c.auth_secret == defaults.auth_secret,
{
}

/// A complaint about a bucket name repeats it.
pub proof fn law_bucket_complaint(name: String, s: String)
    requires
        call_ensures(bucket_complaint, (name,), s),
    ensures
        s@ == "bucket_name "@ + name@ + " is not a valid S3 bucket name"@,
{
}

/// What is wrong with the settings that win is reported as validation would report it.
pub proof fn law_loading_reports_what_is_wrong(
    args: &CliArgs,
    file: Config,
    e: ConfigError,
    told: String,
    c: &Config,
    wrong: ConfigError,
    expected: String,
)
    requires
        call_ensures(Config::load, (args, ConfigSource::File(Ok(file))), Err::<Config, ConfigError>(e)),
        call_ensures(ConfigError::message, (&e,), told),
        args.namenode_uri matches Some(v) ==> c.namenode_uri@ == v@,
        args.namenode_uri is None ==> c.namenode_uri@ == file.namenode_uri@,
        args.hdfs_root matches Some(v) ==> c.hdfs_root@ == v@,
        args.hdfs_root is None ==> c.hdfs_root@ == file.hdfs_root@,
        args.bucket_name matches Some(v) ==> c.bucket_name@ == v@,
        args.bucket_name is None ==> c.bucket_name@ == file.bucket_name@,
        c.max_concurrent_requests == file.max_concurrent_requests,
        call_ensures(Config::validate, (c,), Err::<(), ConfigError>(wrong)),
        call_ensures(ConfigError::message, (&wrong,), expected),
    ensures
        told@ == expected@,
{
}

/// Without a file too, what is wrong is reported as validation would report it.
pub proof fn law_loading_reports_what_is_missing(
    args: &CliArgs,
    namenode_uri: Option<String>,
    hdfs_root: Option<String>,
    bucket_name: Option<String>,
    e: ConfigError,
    told: String,
    c: &Config,
    wrong: ConfigError,
    expected: String,
)
    requires
        call_ensures(
            Config::load,
            (args, ConfigSource::Env { namenode_uri, hdfs_root, bucket_name }),
            Err::<Config, ConfigError>(e),
        ),
        call_ensures(ConfigError::message, (&e,), told),
        args.namenode_uri matches Some(v) ==> c.namenode_uri@ == v@,
        args.namenode_uri is None ==> (namenode_uri matches Some(v) ==> c.namenode_uri@ == v@),
        args.namenode_uri is None && namenode_uri is None ==> c.namenode_uri@.len() == 0,
        args.hdfs_root matches Some(v) ==> c.hdfs_root@ == v@,
        args.hdfs_root is None ==> (hdfs_root matches Some(v) ==> c.hdfs_root@ == v@),
        args.hdfs_root is None && hdfs_root is None ==> c.hdfs_root@.len() == 0,
        args.bucket_name matches Some(v) ==> c.bucket_name@ == v@,
        args.bucket_name is None ==> (bucket_name matches Some(v) ==> c.bucket_name@ == v@),
        args.bucket_name is None && bucket_name is None ==> c.bucket_name@.len() == 0,
        c.max_concurrent_requests == 2048,
        call_ensures(Config::validate, (c,), Err::<(), ConfigError>(wrong)),
        call_ensures(ConfigError::message, (&wrong,), expected),
    ensures
        told@ == expected@,
{
}

} // verus!
