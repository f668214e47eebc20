//! Error kinds of the index.
use vstd::prelude::*;

verus! {

/// Failures of reading or decoding stored values.
#[derive(Debug, Clone, Copy, PartialEq, Eq)]
pub enum DeserializeError {
    MissingKey,
    InvalidForm,
    RocksDBConnectionError,
    RedisConnectionError,
    DNSResolverError,
    ClusterConnectionError,
}

impl DeserializeError {
    /// A sentence describing the failure.
    pub fn message(&self) -> (r: String)
        ensures
            *self == DeserializeError::MissingKey ==> r@ == "Key is missing in the response"@,
            *self == DeserializeError::InvalidForm ==> r@ == "Value is not in the expected format"@,
            *self == DeserializeError::RocksDBConnectionError ==> r@ == "Error connecting to RocksDB"@,
            *self == DeserializeError::RedisConnectionError ==> r@ == "Error connecting to Redis"@,
            *self == DeserializeError::DNSResolverError ==> r@ == "Error resolving DNS"@,
            *self == DeserializeError::ClusterConnectionError ==> r@ == "Error connecting to Cluster at init"@,
    {
        match self {
            DeserializeError::MissingKey => "Key is missing in the response".to_owned(),
            DeserializeError::InvalidForm => "Value is not in the expected format".to_owned(),
            DeserializeError::RocksDBConnectionError => "Error connecting to RocksDB".to_owned(),
            DeserializeError::RedisConnectionError => "Error connecting to Redis".to_owned(),
            DeserializeError::DNSResolverError => "Error resolving DNS".to_owned(),
            DeserializeError::ClusterConnectionError => "Error connecting to Cluster at init".to_owned(),
        }
    }
}

/// Failures of the request middleware.
#[derive(Debug, Clone, Copy, PartialEq, Eq)]
pub enum MiddlewareError {
    InternalError,
    APIKeyError,
    Timeout,
}

impl MiddlewareError {
    /// The HTTP status code that reports the failure.
    pub fn status_code(&self) -> (r: u16)
        ensures
            *self == MiddlewareError::InternalError ==> r == 500,
            *self == MiddlewareError::APIKeyError ==> r == 401,
            *self == MiddlewareError::Timeout ==> r == 504,
    {
        match self {
            MiddlewareError::InternalError => 500,
            MiddlewareError::APIKeyError => 401,
            MiddlewareError::Timeout => 504,
        }
    }

    /// A short description of the failure.
    pub fn message(&self) -> (r: String)
        ensures
            *self == MiddlewareError::InternalError ==> r@ == "internal error"@,
            *self == MiddlewareError::APIKeyError ==> r@ == "api key not found"@,
            *self == MiddlewareError::Timeout ==> r@ == "timeout"@,
    {
        match self {
            MiddlewareError::InternalError => "internal error".to_owned(),
            MiddlewareError::APIKeyError => "api key not found".to_owned(),
            MiddlewareError::Timeout => "timeout".to_owned(),
        }
    }
}

/// A request that breaks a limit of the index, with its explanation.
#[derive(Debug, Clone, PartialEq)]
pub struct ValidationError(pub String);

} // verus!
