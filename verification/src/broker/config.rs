//! The broker's configuration.
use vstd::prelude::*;

verus! {

/// How long a rebalance may last, in milliseconds.
pub const DEFAULT_REBALANCE_TIMEOUT_MS: i64 = 30_000;

/// The configuration of a broker.
#[derive(Debug)]
pub struct BrokerConfig {
    pub node_id: u64,
    /// Where clients connect.
    pub api_addr: String,
    /// Where other brokers connect.
    pub rpc_addr: String,
    pub storage_path: String,
    pub cluster: Option<ClusterConfig>,
    pub raft: Option<RaftConfig>,
    pub retention: RetentionConfig,
    pub log_level: String,
    /// How brokers talk to each other: "grpc" or "sbe_tcp".
    pub transport: String,
    /// A broker of an existing cluster to join.
    pub join_addr: Option<String>,
    /// How many replicas a new topic gets, as far as there are brokers.
    pub default_replication_factor: u16,
}

/// The cluster that a broker belongs to.
#[derive(Debug)]
pub struct ClusterConfig {
    pub initial_members: Vec<ClusterMember>,
    /// Whether to start a new cluster.
    pub bootstrap: bool,
}

/// A member of a cluster.
#[derive(Debug)]
pub struct ClusterMember {
    pub node_id: u64,
    pub api_addr: String,
    pub rpc_addr: String,
    /// Where the raw TCP transport connects; where absent, `rpc_addr`.
    pub sbe_tcp_addr: Option<String>,
}

/// How long messages are kept.
#[derive(Debug, Clone, Copy, PartialEq, Eq)]
pub struct RetentionConfig {
    /// Drop messages older than this many milliseconds; where absent, keep them.
    pub retention_ms: Option<u64>,
    /// Keep this many messages of a partition; where absent, keep all.
    pub max_messages_per_partition: Option<usize>,
}

impl Default for RetentionConfig {
    fn default() -> (r: Self)
        ensures
            r == (RetentionConfig { retention_ms: None, max_messages_per_partition: None }),
    {
        RetentionConfig { retention_ms: None, max_messages_per_partition: None }
    }
}

/// The timing of the replicated log.
#[derive(Debug, Clone, Copy, PartialEq, Eq, Structural)]
pub struct RaftConfig {
    pub heartbeat_interval_ms: u64,
    pub election_timeout_min_ms: u64,
    pub election_timeout_max_ms: u64,
    /// After how many log entries a snapshot is taken.
    pub snapshot_threshold: u64,
    /// How long to wait for all members before a rebalance is ended without the rest.
    pub rebalance_timeout_ms: i64,
}

impl Default for RaftConfig {
    fn default() -> (r: Self)
        ensures
            r == (RaftConfig {
                heartbeat_interval_ms: 1000,
                election_timeout_min_ms: 3000,
                election_timeout_max_ms: 6000,
                snapshot_threshold: 10000,
                rebalance_timeout_ms: DEFAULT_REBALANCE_TIMEOUT_MS,
            }),
    {
        RaftConfig {
            heartbeat_interval_ms: 1000,
            election_timeout_min_ms: 3000,
            election_timeout_max_ms: 6000,
            snapshot_threshold: 10000,
            rebalance_timeout_ms: default_rebalance_timeout_ms(),
        }
    }
}

pub fn default_rebalance_timeout_ms() -> (r: i64)
    ensures
        r == 30_000,
{
    DEFAULT_REBALANCE_TIMEOUT_MS
}

pub fn default_node_id() -> (r: u64)
    ensures
        r == 1,
{
    1
}

pub fn default_api_addr() -> (r: String)
    ensures
        r@ == "127.0.0.1:50051"@,
{
    "127.0.0.1:50051".to_owned()
}

pub fn default_rpc_addr() -> (r: String)
    ensures
        r@ == "127.0.0.1:50052"@,
{
    "127.0.0.1:50052".to_owned()
}

pub fn default_storage_path() -> (r: String)
    ensures
        r@ == "./data/broker-1"@,
{
    "./data/broker-1".to_owned()
}

pub fn default_log_level() -> (r: String)
    ensures
        r@ == "info"@,
{
    "info".to_owned()
}

pub fn default_transport() -> (r: String)
    ensures
        r@ == "grpc"@,
{
    "grpc".to_owned()
}

pub fn default_replication_factor() -> (r: u16)
    ensures
        r == 1,
{
    1
}

impl BrokerConfig {
    /// The configuration of a broker on its own.
    pub fn default_single_node() -> (r: Self)
        ensures
            r.node_id == 1,
            r.api_addr@ == "127.0.0.1:50051"@,
            r.rpc_addr@ == "127.0.0.1:50052"@,
            r.storage_path@ == "./data/broker-1"@,
            r.cluster is None,
            r.raft is None,
            r.retention == (RetentionConfig { retention_ms: None, max_messages_per_partition: None }),
            r.log_level@ == "info"@,
            r.transport@ == "grpc"@,
            r.join_addr is None,
            r.default_replication_factor == 1,
    {
        BrokerConfig {
            node_id: default_node_id(),
            api_addr: default_api_addr(),
            rpc_addr: default_rpc_addr(),
            storage_path: default_storage_path(),
            cluster: None,
            raft: None,
            retention: RetentionConfig::default(),
            log_level: default_log_level(),
            transport: default_transport(),
            join_addr: None,
            default_replication_factor: default_replication_factor(),
        }
    }

    /// Whether the configuration names members of a cluster.
    pub fn is_cluster_mode(&self) -> (b: bool)
        ensures
            b == (self.cluster matches Some(c) && c.initial_members@.len() > 0),
    {
        match &self.cluster {
            Some(c) => c.initial_members.len() > 0,
            None => false,
        }
    }

    /// How long a rebalance may last under this configuration.
    pub fn rebalance_timeout_ms(&self) -> (r: i64)
        ensures
            r == (match self.raft {
                Some(c) => c.rebalance_timeout_ms,
                None => DEFAULT_REBALANCE_TIMEOUT_MS,
            }),
    {
        match &self.raft {
            Some(c) => c.rebalance_timeout_ms,
            None => default_rebalance_timeout_ms(),
        }
    }
}

} // verus!
