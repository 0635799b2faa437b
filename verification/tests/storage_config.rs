use live_recordings::config::{default_s3_root, StorageConfig};

#[test]
fn test_default_storage_config() {
    let config = StorageConfig::default();

    match config {
        StorageConfig::S3 { bucket, root, .. } => {
            assert_eq!(bucket, "");
            assert_eq!(root, "/");
        }
    }
}

#[test]
fn default_storage_config_sets_nothing_else() {
    match StorageConfig::default() {
        StorageConfig::S3 {
            region,
            endpoint,
            access_key_id,
            secret_access_key,
            session_token,
            disable_config_load,
            enable_virtual_host_style,
            ..
        } => {
            assert_eq!(region, None);
            assert_eq!(endpoint, None);
            assert_eq!(access_key_id, None);
            assert_eq!(secret_access_key, None);
            assert_eq!(session_token, None);
            assert!(!disable_config_load);
            assert!(!enable_virtual_host_style);
        }
    }
    assert_eq!(default_s3_root(), "/");
}

#[test]
fn storage_config_clone_keeps_every_field() {
    let config = StorageConfig::S3 {
        bucket: "my-bucket".to_string(),
        root: "/recordings".to_string(),
        region: Some("us-west-2".to_string()),
        endpoint: None,
        access_key_id: Some("AKIA...".to_string()),
        secret_access_key: Some("secret...".to_string()),
        session_token: None,
        disable_config_load: false,
        enable_virtual_host_style: true,
    };
    match config.clone() {
        StorageConfig::S3 {
            bucket,
            root,
            region,
            endpoint,
            access_key_id,
            secret_access_key,
            session_token,
            disable_config_load,
            enable_virtual_host_style,
        } => {
            assert_eq!(bucket, "my-bucket");
            assert_eq!(root, "/recordings");
            assert_eq!(region, Some("us-west-2".to_string()));
            assert_eq!(endpoint, None);
            assert_eq!(access_key_id, Some("AKIA...".to_string()));
            assert_eq!(secret_access_key, Some("secret...".to_string()));
            assert_eq!(session_token, None);
            assert!(!disable_config_load);
            assert!(enable_virtual_host_style);
        }
    }
}
