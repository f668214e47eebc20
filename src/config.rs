//! Settings of a running instance.
use vstd::prelude::*;

verus! {

/// Settings of a running instance.
#[derive(Debug, Clone)]
pub struct Config {
    pub env: String,
    pub debug: bool,
    pub pk_length: u32,
    pub sk_length: u32,
    pub rate_limit: String,
    pub global_rate_limit: String,
    pub logging_level: String,
    /// The tenant tag that namespaces every stored key.
    pub contract_id: String,
    pub redis_url: String,
    pub port: String,
    /// Where the key-value store lives.
    pub rocksdb_path: String,
}

impl Config {
    /// The default settings.
    pub fn new() -> (r: Config)
        ensures
            r.rocksdb_path@ == "/tmp/rocksdb"@,
            r.port@ == "8080"@,
            r.contract_id@ == "default"@,
            r.redis_url@ == "redis://127.0.0.1/"@,
            r.env@ == "development"@,
            r.debug,
            r.logging_level@ == "DEBUG"@,
    {
        Config::with_values(None, None, None)
    }

    /// The settings with the given store path, port and tenant tag, each taking its
    /// default when absent.
    pub fn with_values(rocksdb_path: Option<String>, port: Option<String>, contract_id: Option<String>) -> (r: Config)
        ensures
            r.rocksdb_path@ == (if let Some(v) = rocksdb_path { v@ } else { "/tmp/rocksdb"@ }),
            r.port@ == (if let Some(v) = port { v@ } else { "8080"@ }),
            r.contract_id@ == (if let Some(v) = contract_id { v@ } else { "default"@ }),
            r.redis_url@ == "redis://127.0.0.1/"@,
            r.env@ == "development"@,
            r.debug,
            r.pk_length == 0,
            r.sk_length == 0,
            r.rate_limit@.len() == 0,
            r.global_rate_limit@.len() == 0,
            r.logging_level@ == "DEBUG"@,
    {
        let rocksdb_path = match rocksdb_path {
            Some(v) => v,
            None => "/tmp/rocksdb".to_owned(),
        };
        let port = match port {
            Some(v) => v,
            None => "8080".to_owned(),
        };
        let contract_id = match contract_id {
            Some(v) => v,
            None => "default".to_owned(),
        };
        let empty = String::new();
        let empty2 = String::new();
        Config {
            env: "development".to_owned(),
            debug: true,
            pk_length: 0,
            sk_length: 0,
            rate_limit: empty,
            global_rate_limit: empty2,
            logging_level: "DEBUG".to_owned(),
            contract_id,
            redis_url: "redis://127.0.0.1/".to_owned(),
            port,
            rocksdb_path,
        }
    }
}

} // verus!
