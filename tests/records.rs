use envy::login::{next_device_action, DeviceAction, DeviceReply};
use envy::commit::{commit_blob_path, format_timestamp, Commit, COMMIT_VERSION};
use envy::config::{
    auth_server_url, get_remote_url, parse_github_username, validate_project_config, ProjectConfig,
};
use envy::error::ErrorKind;

#[test]
fn commit_new_sets_fields() {
    let c = Commit::new(None, "first".to_string(), "m1".to_string(), Some("ana".to_string()));
    assert_eq!(c.version, COMMIT_VERSION);
    assert_eq!(c.parent, None);
    assert_eq!(c.message, "first");
    assert_eq!(c.manifest_hash, "m1");
    assert_eq!(c.author, Some("ana".to_string()));
    assert!(c.timestamp > 1_600_000_000);
}

#[test]
fn commit_encode_decode_round_trip() {
    let c = Commit::at(Some("p".repeat(64)), "fix: rotate ключ".to_string(), "m".repeat(64), None, 1_700_000_123);
    let back = Commit::decode(&c.encode()).unwrap();
    assert_eq!(back.parent, c.parent);
    assert_eq!(back.message, c.message);
    assert_eq!(back.manifest_hash, c.manifest_hash);
    assert_eq!(back.author, None);
    assert_eq!(back.timestamp, 1_700_000_123);
}

#[test]
fn commit_decode_errors() {
    let c = Commit::at(None, "m".to_string(), "h".to_string(), Some("a".to_string()), 5);
    let mut bytes = c.encode();
    bytes[0] = 7;
    assert_eq!(Commit::decode(&bytes).err(), Some(ErrorKind::VersionError));
    bytes[0] = 1;
    bytes.truncate(bytes.len() - 1);
    assert_eq!(Commit::decode(&bytes).err(), Some(ErrorKind::MalformedData));
    assert_eq!(Commit::decode(&[]).err(), Some(ErrorKind::MalformedData));
}

#[test]
fn commit_blob_path_layout() {
    assert_eq!(commit_blob_path("abc"), ".envoy/cache/commits/abc.blob");
}

#[test]
fn format_timestamp_units() {
    assert_eq!(format_timestamp(1000, 1030), "30 seconds ago");
    assert_eq!(format_timestamp(1000, 1000), "0 seconds ago");
    assert_eq!(format_timestamp(0, 120), "2 minutes ago");
    assert_eq!(format_timestamp(0, 5 * 3600 + 7), "5 hours ago");
    assert_eq!(format_timestamp(0, 3 * 86400), "3 days ago");
    assert_eq!(format_timestamp(0, 2 * 604800), "2 weeks ago");
    assert_eq!(format_timestamp(0, 3 * 2592000), "3 months ago");
    assert_eq!(format_timestamp(2000, 1000), "2000");
}

fn config() -> ProjectConfig {
    ProjectConfig {
        project_id: "proj-one".to_string(),
        version: 1,
        name: Some("demo".to_string()),
        remotes: vec![
            ("origin".to_string(), "https://a.example".to_string()),
            ("backup".to_string(), "https://b.example".to_string()),
        ],
        default_remote: "origin".to_string(),
    }
}

#[test]
fn remote_url_lookup() {
    let c = config();
    assert_eq!(get_remote_url(&c, None), Ok("https://a.example".to_string()));
    assert_eq!(get_remote_url(&c, Some(&"backup".to_string())), Ok("https://b.example".to_string()));
    assert_eq!(get_remote_url(&c, Some(&"nope".to_string())), Err(ErrorKind::ConfigError));
}

#[test]
fn config_validation() {
    let mut c = config();
    assert_eq!(validate_project_config(&c), Ok(()));
    c.default_remote = "missing".to_string();
    assert_eq!(validate_project_config(&c), Err(ErrorKind::ConfigError));
    let mut c = config();
    c.version = 2;
    assert_eq!(validate_project_config(&c), Err(ErrorKind::ConfigError));
}

#[test]
fn github_usernames() {
    assert_eq!(parse_github_username("  octocat \n"), Ok("octocat".to_string()));
    assert_eq!(parse_github_username("https://github.com/octocat/"), Ok("octocat".to_string()));
    assert_eq!(parse_github_username("github.com/a/b//"), Ok("b".to_string()));
    assert_eq!(parse_github_username("gitlab.com/x"), Ok("gitlab.com/x".to_string()));
    assert_eq!(parse_github_username(""), Ok("".to_string()));
}

#[test]
fn auth_server_url_value() {
    assert_eq!(auth_server_url(), "https://envoy-server.fly.dev");
}

#[test]
fn device_login_steps() {
    assert_eq!(next_device_action(DeviceReply::Granted("tok".to_string()), 5, 100, 100), DeviceAction::Save("tok".to_string()));
    assert_eq!(next_device_action(DeviceReply::Pending, 5, 10, 100), DeviceAction::Wait(5));
    assert_eq!(next_device_action(DeviceReply::SlowDown, 5, 10, 100), DeviceAction::Wait(15));
    assert_eq!(next_device_action(DeviceReply::Pending, 5, 100, 100), DeviceAction::TimedOut);
    assert_eq!(next_device_action(DeviceReply::SlowDown, u64::MAX, 0, 1), DeviceAction::Wait(u64::MAX));
}
