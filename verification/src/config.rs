//! Where recordings are stored.

use vstd::prelude::*;
use vstd::string::*;

verus! {

/// The settings of the object storage that holds the recordings.
#[derive(Debug)]
pub enum StorageConfig {
    /// S3 or a service that speaks its protocol.
    S3 {
        /// Bucket name.
        bucket: String,
        /// Root path within the bucket.
        root: String,
        /// Region.
        region: Option<String>,
        /// Endpoint of an S3-compatible service.
        endpoint: Option<String>,
        /// Access key id.
        access_key_id: Option<String>,
        /// Secret access key.
        secret_access_key: Option<String>,
        /// Session token of temporary credentials.
        session_token: Option<String>,
        /// Whether settings and credentials are not loaded from the
        /// environment.
        disable_config_load: bool,
        /// Whether the bucket is addressed as a virtual host.
        enable_virtual_host_style: bool,
    },
}

/// A copy of an optional string.
pub fn clone_optional(s: &Option<String>) -> (out: Option<String>)
    ensures
        out == *s,
{
    match s {
        Some(t) => Some(t.clone()),
        None => None,
    }
}

/// The root path where none is configured: the root of the bucket.
pub fn default_s3_root() -> (root: String)
    ensures
        root@ == "/"@,
{
    String::from_str("/")
}

impl Clone for StorageConfig {
    fn clone(&self) -> (out: Self)
        ensures
            out == *self,
    {
        match self {
            StorageConfig::S3 {
                bucket,
                root,
                region,
                endpoint,
                access_key_id,
                secret_access_key,
                session_token,
                disable_config_load,
                enable_virtual_host_style,
            } => StorageConfig::S3 {
                bucket: bucket.clone(),
                root: root.clone(),
                region: clone_optional(region),
                endpoint: clone_optional(endpoint),
                access_key_id: clone_optional(access_key_id),
                secret_access_key: clone_optional(secret_access_key),
                session_token: clone_optional(session_token),
                disable_config_load: *disable_config_load,
                enable_virtual_host_style: *enable_virtual_host_style,
            },
        }
    }
}

impl Default for StorageConfig {
    /// S3 with an unnamed bucket, the root of the bucket as root path, and
    /// nothing else set.
    fn default() -> (cfg: Self)
        ensures
            cfg matches StorageConfig::S3 {
                bucket,
                root,
                region,
                endpoint,
                access_key_id,
                secret_access_key,
                session_token,
                disable_config_load,
                enable_virtual_host_style,
            } && bucket@.len() == 0 && root@ == "/"@ && region is None && endpoint is None
                && access_key_id is None && secret_access_key is None && session_token is None
                && !disable_config_load && !enable_virtual_host_style,
    {
        StorageConfig::S3 {
            bucket: String::new(),
            root: default_s3_root(),
            region: None,
            endpoint: None,
            access_key_id: None,
            secret_access_key: None,
            session_token: None,
            disable_config_load: false,
            enable_virtual_host_style: false,
        }
    }
}

} // verus!
