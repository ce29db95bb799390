//! Configuration and errors of the database drivers that run generated
//! histories against real databases.
use vstd::prelude::*;

verus! {

/// Configuration for connecting to a database cluster.
#[derive(Debug)]
pub struct ClusterConfig {
    /// Hostnames or IP addresses of the cluster nodes.
    pub hosts: Vec<String>,
    /// Port number for database connections.
    pub port: u16,
    /// Name of the database to use.
    pub db_name: String,
}

/// Driver for AntidoteDB, a geo-replicated CRDT database.
#[derive(Debug)]
pub struct AntidoteDbDriver {
    pub config: ClusterConfig,
}

/// Errors from the AntidoteDB driver.
#[derive(Debug)]
pub enum AntidoteDbError {
    /// Failed to connect to the cluster.
    Connection(String),
    /// Query execution failed.
    Execution(String),
}

/// Driver for CockroachDB.
#[derive(Debug)]
pub struct CockroachDbDriver {
    pub config: ClusterConfig,
}

/// Errors from the CockroachDB driver.
#[derive(Debug)]
pub enum CockroachDbError {
    /// Failed to connect to the cluster.
    Connection(String),
    /// Query execution failed.
    Execution(String),
}

/// Driver for Galera Cluster.
#[derive(Debug)]
pub struct GaleraDriver {
    pub config: ClusterConfig,
}

/// Errors from the Galera driver.
#[derive(Debug)]
pub enum GaleraError {
    /// Failed to connect to the cluster.
    Connection(String),
    /// Query execution failed.
    Execution(String),
}

} // verus!
