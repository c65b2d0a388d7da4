//! Service configuration.
use crate::domain::DomainError;
use vstd::prelude::*;

verus! {

pub const DEFAULT_GATEWAY_PORT: u16 = 8080;

pub const DEFAULT_BROKER_QUEUE_SIZE: usize = 1000;

/// 10 MiB.
pub const DEFAULT_MAX_DOCUMENT_SIZE: usize = 10485760;

pub const DEFAULT_TIMEOUT_SECONDS: u64 = 30;

/// Settings of every module of the service.
pub struct AppConfig {
    pub gateway_port: u16,
    /// Records a topic's slowest consumer group may lag behind.
    pub broker_queue_size: usize,
    /// Root directory of the broker's segments and offset files.
    pub broker_storage_dir: String,
    pub collab_max_document_size: usize,
    pub collab_timeout_seconds: u64,
    pub log_level: String,
}

impl AppConfig {
    /// The configuration: for now always the built-in defaults.
    pub fn load() -> (r: Result<AppConfig, DomainError>)
        ensures
            r matches Ok(c) && c.gateway_port == DEFAULT_GATEWAY_PORT && c.broker_queue_size
                == DEFAULT_BROKER_QUEUE_SIZE && c.broker_storage_dir@ == "./data"@
                && c.collab_max_document_size == DEFAULT_MAX_DOCUMENT_SIZE
                && c.collab_timeout_seconds == DEFAULT_TIMEOUT_SECONDS && c.log_level@
                == "info"@,
    {
        Ok(
            AppConfig {
                gateway_port: DEFAULT_GATEWAY_PORT,
                broker_queue_size: DEFAULT_BROKER_QUEUE_SIZE,
                broker_storage_dir: String::from_str("./data"),
                collab_max_document_size: DEFAULT_MAX_DOCUMENT_SIZE,
                collab_timeout_seconds: DEFAULT_TIMEOUT_SECONDS,
                log_level: String::from_str("info"),
            },
        )
    }
}

} // verus!
