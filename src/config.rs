use vstd::prelude::*;
use crate::error::{Error, Result};

verus! {

/// Service configuration.
#[derive(Debug, Clone)]
pub struct Config {
    pub server: ServerConfig,
    pub metadata: MetadataConfig,
    pub scheduler: SchedulerConfig,
    pub cache: CacheConfig,
    pub tape: TapeConfig,
    pub notification: NotificationConfig,
}

#[derive(Debug, Clone)]
pub struct ServerConfig {
    pub host: String,
    pub port: u16,
    pub s3_endpoint: String,
}

#[derive(Debug, Clone)]
pub struct MetadataConfig {
    pub backend: MetadataBackend,
    pub postgres: Option<PostgresConfig>,
    pub etcd: Option<EtcdConfig>,
}

/// Which metadata store backs the service.
#[derive(Debug, Clone, Copy, PartialEq, Eq, Structural)]
pub enum MetadataBackend {
    Postgres,
    Etcd,
}

#[derive(Debug, Clone)]
pub struct PostgresConfig {
    pub url: String,
    pub max_connections: u32,
}

#[derive(Debug, Clone)]
pub struct EtcdConfig {
    pub endpoints: Vec<String>,
    pub timeout_secs: u64,
}

#[derive(Debug, Clone)]
pub struct SchedulerConfig {
    pub archive: ArchiveSchedulerConfig,
    pub recall: RecallSchedulerConfig,
}

#[derive(Debug, Clone)]
pub struct ArchiveSchedulerConfig {
    pub scan_interval_secs: u64,
    pub batch_size: usize,
    pub min_archive_size_mb: u64,
    /// Target throughput in MB/s.
    pub target_throughput_mbps: u64,
}

#[derive(Debug, Clone)]
pub struct RecallSchedulerConfig {
    pub queue_size: usize,
    pub max_concurrent_restores: usize,
    pub restore_timeout_secs: u64,
    pub min_restore_interval_secs: u64,
}

#[derive(Debug, Clone)]
pub struct CacheConfig {
    pub enabled: bool,
    pub path: String,
    pub max_size_gb: u64,
    pub ttl_secs: u64,
    pub eviction_policy: EvictionPolicy,
}

#[derive(Debug, Clone, Copy, PartialEq, Eq, Structural)]
pub enum EvictionPolicy {
    Lru,
    Lfu,
    Ttl,
}

#[derive(Debug, Clone)]
pub struct TapeConfig {
    pub library_path: Option<String>,
    /// Tape formats accepted, such as "LTO-9".
    pub supported_formats: Vec<String>,
    pub replication_factor: u32,
    pub verify_readability: bool,
}

#[derive(Debug, Clone)]
pub struct NotificationConfig {
    pub enabled: bool,
    pub webhook_url: Option<String>,
    pub mq_endpoint: Option<String>,
}

impl Default for Config {
    fn default() -> (r: Self)
        ensures
            r.server.port == 9000,
            r.metadata.backend == MetadataBackend::Postgres,
            r.metadata.postgres matches Some(p) && p.max_connections == 10,
            r.metadata.etcd is None,
            r.scheduler.archive.scan_interval_secs == 3600,
            r.scheduler.archive.batch_size == 1000,
            r.scheduler.archive.min_archive_size_mb == 100,
            r.scheduler.archive.target_throughput_mbps == 300,
            r.scheduler.recall.queue_size == 10000,
            r.scheduler.recall.max_concurrent_restores == 10,
            r.scheduler.recall.restore_timeout_secs == 3600,
            r.scheduler.recall.min_restore_interval_secs == 300,
            r.cache.enabled,
            r.cache.max_size_gb == 100,
            r.cache.ttl_secs == 86400,
            r.cache.eviction_policy == EvictionPolicy::Lru,
            r.tape.library_path is None,
            r.tape.supported_formats@.len() == 2,
            r.tape.replication_factor == 2,
            r.tape.verify_readability,
            r.notification.enabled,
            r.notification.webhook_url is None,
            r.notification.mq_endpoint is None,
    {
        let mut formats: Vec<String> = Vec::new();
        formats.push("LTO-9".to_owned());
        formats.push("LTO-10".to_owned());
        Config {
            server: ServerConfig {
                host: "0.0.0.0".to_owned(),
                port: 9000,
                s3_endpoint: "http://localhost:9000".to_owned(),
            },
            metadata: MetadataConfig {
                backend: MetadataBackend::Postgres,
                postgres: Some(PostgresConfig { url: "postgresql://localhost/coldstore".to_owned(), max_connections: 10 }),
                etcd: None,
            },
            scheduler: SchedulerConfig {
                archive: ArchiveSchedulerConfig {
                    scan_interval_secs: 3600,
                    batch_size: 1000,
                    min_archive_size_mb: 100,
                    target_throughput_mbps: 300,
                },
                recall: RecallSchedulerConfig {
                    queue_size: 10000,
                    max_concurrent_restores: 10,
                    restore_timeout_secs: 3600,
                    min_restore_interval_secs: 300,
                },
            },
            cache: CacheConfig {
                enabled: true,
                path: "/var/cache/coldstore".to_owned(),
                max_size_gb: 100,
                ttl_secs: 86400,
                eviction_policy: EvictionPolicy::Lru,
            },
            tape: TapeConfig {
                library_path: None,
                supported_formats: formats,
                replication_factor: 2,
                verify_readability: true,
            },
            notification: NotificationConfig { enabled: true, webhook_url: None, mq_endpoint: None },
        }
    }
}

/// The etcd metadata backend: the endpoints it connects to.
pub struct EtcdBackend {
    endpoints: Vec<String>,
}

impl EtcdBackend {
    pub closed spec fn endpoints(&self) -> Seq<String> {
        self.endpoints@
    }

    pub fn new(endpoints: Vec<String>) -> (r: Self)
        ensures
            r.endpoints() == endpoints@,
    {
        EtcdBackend { endpoints }
    }
}

/// The metadata backend chosen by the configuration, with its settings.
pub enum BackendChoice {
    Postgres(PostgresConfig),
    Etcd(EtcdBackend),
}

/// Chooses the metadata backend that `config` names; a backend whose
/// settings are missing is a configuration error.
pub fn backend_from_config(config: &MetadataConfig) -> (r: Result<BackendChoice>)
    ensures
        config.backend == MetadataBackend::Postgres ==> (r is Err <==> config.postgres is None),
        config.backend == MetadataBackend::Etcd ==> (r is Err <==> config.etcd is None),
        r matches Ok(BackendChoice::Postgres(p)) ==> (config.backend == MetadataBackend::Postgres
            && config.postgres is Some && p.url@ == config.postgres.unwrap().url@
            && p.max_connections == config.postgres.unwrap().max_connections),
        r matches Ok(BackendChoice::Etcd(b)) ==> (config.backend == MetadataBackend::Etcd
            && config.etcd is Some && b.endpoints() == config.etcd.unwrap().endpoints@),
{
    match config.backend {
        MetadataBackend::Postgres => match &config.postgres {
            Some(p) => Ok(BackendChoice::Postgres(PostgresConfig { url: p.url.clone(), max_connections: p.max_connections })),
            None => Err(Error::Metadata("PostgreSQL settings missing".to_owned())),
        },
        MetadataBackend::Etcd => match &config.etcd {
            Some(e) => Ok(BackendChoice::Etcd(EtcdBackend::new(crate::lifecycle::copy_strings(&e.endpoints)))),
            None => Err(Error::Metadata("etcd settings missing".to_owned())),
        },
    }
}

} // verus!
