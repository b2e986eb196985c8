//! Configuration.

use std::collections::HashMap;

use hdfs_s3_gateway::auth::SharedSecretAuth;
use hdfs_s3_gateway::config::{
    bucket_complaint, default_expose_upstream_errors, default_listen_addr,
    default_max_concurrent_requests, CliArgs, Config, ConfigError, ConfigSource,
};

fn no_args() -> CliArgs {
    CliArgs {
        config: None,
        listen_addr: None,
        namenode_uri: None,
        hdfs_root: None,
        bucket_name: None,
        auth_secret: None,
    }
}

fn no_env() -> ConfigSource {
    ConfigSource::Env {
        namenode_uri: None,
        hdfs_root: None,
        bucket_name: None,
    }
}

fn named(bucket: &str) -> Config {
    Config {
        bucket_name: bucket.into(),
        ..Config::default()
    }
}

#[test]
fn defaults() {
    let source = ConfigSource::Env {
        namenode_uri: Some("hdfs://nn:1".into()),
        hdfs_root: Some("/r".into()),
        bucket_name: Some("bkt".into()),
    };
    let c = Config::load(&no_args(), source).unwrap();
    assert_eq!(c.namenode_uri, "hdfs://nn:1");
    assert_eq!(c.hdfs_root, "/r");
    assert_eq!(c.bucket_name, "bkt");
    assert_eq!(c.listen_addr, "0.0.0.0:8080");
    assert_eq!(c.max_concurrent_requests, 2048);
    assert!(c.expose_upstream_errors);
    assert!(c.hdfs_options.is_empty());
    assert_eq!(c.hdfs_config_dir, None);
    assert_eq!(c.hdfs_user, None);
    assert_eq!(c.auth_secret, None);
    assert_eq!(default_listen_addr(), "0.0.0.0:8080");
    assert_eq!(default_max_concurrent_requests(), 2048);
    assert!(default_expose_upstream_errors());
    let local = Config::default();
    assert_eq!(local.namenode_uri, "hdfs://localhost:8020");
    assert_eq!(local.hdfs_root, "/");
    assert_eq!(local.bucket_name, "hdfs");
    assert!(local.validate().is_ok());
}

#[test]
fn an_empty_environment_is_refused() {
    let e = Config::load(&no_args(), no_env()).unwrap_err();
    assert_eq!(e, ConfigError::Missing("namenode_uri"));
}

#[test]
fn each_variable_stands_for_its_own_setting() {
    let source = |namenode_uri: Option<&str>| ConfigSource::Env {
        namenode_uri: namenode_uri.map(|s| s.to_string()),
        hdfs_root: Some("/data".into()),
        bucket_name: Some("lake".into()),
    };
    let e = Config::load(&no_args(), source(None)).unwrap_err();
    assert_eq!(e, ConfigError::Missing("namenode_uri"));
    let args = CliArgs {
        namenode_uri: Some("hdfs://nn:8020".into()),
        ..no_args()
    };
    let c = Config::load(&args, source(None)).unwrap();
    assert_eq!(c.namenode_uri, "hdfs://nn:8020");
    assert_eq!(c.hdfs_root, "/data");
    assert_eq!(c.bucket_name, "lake");
    let c = Config::load(&args, source(Some("hdfs://other:1"))).unwrap();
    assert_eq!(c.namenode_uri, "hdfs://nn:8020");
}

#[test]
fn missing_variables_are_named() {
    let load = |uri: &str, root: Option<&str>, bucket: Option<&str>| {
        Config::load(
            &no_args(),
            ConfigSource::Env {
                namenode_uri: Some(uri.into()),
                hdfs_root: root.map(|s| s.to_string()),
                bucket_name: bucket.map(|s| s.to_string()),
            },
        )
        .unwrap_err()
    };
    assert_eq!(
        load("hdfs://nn:1", None, Some("bkt")),
        ConfigError::Missing("hdfs_root")
    );
    assert_eq!(
        load("hdfs://nn:1", Some("/r"), None),
        ConfigError::Missing("bucket_name")
    );
}

#[test]
fn the_command_line_overrides() {
    let mut options = HashMap::new();
    options.insert("dfs.replication".to_string(), "2".to_string());
    let file = Config {
        hdfs_options: options,
        hdfs_user: Some("u".into()),
        auth_secret: Some("file".into()),
        ..Config::default()
    };
    let args = CliArgs {
        config: Some("gateway.toml".into()),
        listen_addr: Some("127.0.0.1:1".into()),
        namenode_uri: Some("hdfs://x:2".into()),
        hdfs_root: Some("/x".into()),
        bucket_name: Some("xxx".into()),
        auth_secret: Some("cli".into()),
    };
    let c = Config::load(&args, ConfigSource::File(Ok(file))).unwrap();
    assert_eq!(c.listen_addr, "127.0.0.1:1");
    assert_eq!(c.namenode_uri, "hdfs://x:2");
    assert_eq!(c.hdfs_root, "/x");
    assert_eq!(c.bucket_name, "xxx");
    assert_eq!(c.auth_secret, Some("cli".into()));
    assert_eq!(c.hdfs_user, Some("u".into()));
    assert_eq!(c.hdfs_options.get("dfs.replication"), Some(&"2".to_string()));
}

#[test]
fn a_bad_file_is_refused() {
    let e = Config::load(
        &no_args(),
        ConfigSource::File(Err(ConfigError::ReadFile("f.toml".into(), "gone".into()))),
    )
    .unwrap_err();
    assert_eq!(e.message(), "failed to read config file f.toml: gone");
    let e = Config::load(
        &no_args(),
        ConfigSource::File(Err(ConfigError::ParseToml("line 1".into()))),
    )
    .unwrap_err();
    assert_eq!(e.message(), "failed to parse TOML config: line 1");
}

#[test]
fn missing_fields_in_order() {
    let missing = |c: Config| c.validate().unwrap_err().message();
    let empty = Config {
        namenode_uri: String::new(),
        hdfs_root: String::new(),
        bucket_name: String::new(),
        max_concurrent_requests: 0,
        ..Config::default()
    };
    assert_eq!(missing(empty), "missing required config field: namenode_uri");
    let empty = Config {
        hdfs_root: String::new(),
        bucket_name: String::new(),
        ..Config::default()
    };
    assert_eq!(missing(empty), "missing required config field: hdfs_root");
    assert_eq!(missing(named("")), "missing required config field: bucket_name");
    let idle = Config {
        max_concurrent_requests: 0,
        bucket_name: "X".into(),
        ..Config::default()
    };
    assert_eq!(
        missing(idle),
        "invalid config value: max_concurrent_requests must be greater than 0"
    );
}

#[test]
fn overrides_are_validated_too() {
    let args = CliArgs {
        bucket_name: Some("Not Legal".into()),
        ..no_args()
    };
    let e = Config::load(&args, ConfigSource::File(Ok(Config::default()))).unwrap_err();
    assert_eq!(
        e,
        ConfigError::Invalid("bucket_name \"Not Legal\" is not a valid S3 bucket name".into())
    );
}

#[test]
fn bucket_names() {
    for good in ["hdfs", "abc", "a-b.c", "0a9", "1.2.3", "1.2.3.256", "01.2.3.4"] {
        assert!(named(good).validate().is_ok(), "{good}");
    }
    let long = "a".repeat(63);
    assert!(named(&long).validate().is_ok());
    let longer = "a".repeat(64);
    for bad in [
        "ab", "Abc", "a_b", "-abc", "abc-", ".abc", "abc.", "a..b", "1.2.3.4", "0.0.0.255",
        "xn--abc", "caf\u{e9}",
    ] {
        assert!(named(bad).validate().is_err(), "{bad}");
    }
    assert!(named(&longer).validate().is_err());
}

#[test]
fn illegal_names_are_quoted_with_escapes() {
    let e = named("a\"b").validate().unwrap_err();
    assert_eq!(
        e.message(),
        "invalid config value: bucket_name \"a\\\"b\" is not a valid S3 bucket name"
    );
    assert_eq!(
        bucket_complaint("Q".into()),
        "bucket_name Q is not a valid S3 bucket name"
    );
}

#[test]
fn one_secret_for_every_access_key() {
    assert!(SharedSecretAuth::from_config(&Config::default()).is_none());
    let c = Config {
        auth_secret: Some("s3cr3t".into()),
        ..Config::default()
    };
    let auth = SharedSecretAuth::from_config(&c).unwrap();
    assert_eq!(auth.get_secret_key("alice"), "s3cr3t");
    assert_eq!(auth.get_secret_key("bob"), "s3cr3t");
    assert_eq!(SharedSecretAuth::new("x".into()).get_secret_key(""), "x");
}
