use furl_core::config::{DownloadMetadata, FurlConfig};

#[test]
fn default_configuration() {
    let c = FurlConfig::default();
    assert_eq!(c.download_dir, ".");
    assert_eq!(c.threads, 8);
}

#[test]
fn config_dir_carries_app_directory() {
    let c = FurlConfig::default();
    if let Some(dir) = c.get_config_dir() {
        assert!(dir.ends_with("/furl-cli"), "{dir}");
    }
}

#[test]
fn db_path_inside_app_directory() {
    let c = FurlConfig::default();
    if let Some(p) = c.get_db_path() {
        assert!(p.ends_with("/furl-cli/db.json"), "{p}");
    }
}

#[test]
fn config_file_inside_app_directory() {
    let c = FurlConfig::default();
    if let Some(p) = c.get_config_file() {
        assert!(p.ends_with("/furl-cli/config.toml"), "{p}");
    }
}

#[test]
fn metadata_record_constructs() {
    let _m = DownloadMetadata {};
}
