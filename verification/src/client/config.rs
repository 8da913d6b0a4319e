//! The configuration of clients.
use vstd::prelude::*;

use crate::maps::Dup;

verus! {

/// The configuration of a client program.
#[derive(Debug)]
pub struct AppConfig {
    pub broker: BrokerConfig,
    pub producer: Option<ProducerConfig>,
    pub consumer: Option<ConsumerConfig>,
}

/// How a client finds its broker.
#[derive(Debug)]
pub struct BrokerConfig {
    pub address: String,
    pub timeout_secs: u64,
    pub max_retries: u32,
}

/// The configuration of a producer.
#[derive(Debug)]
pub struct ProducerConfig {
    pub topic: String,
    /// The partition of messages that nothing else gives one.
    pub partition: i32,
    /// How messages get a partition: "fixed", "round_robin" or "key_hash".
    pub partitioning: String,
    pub num_partitions: i32,
    /// Who has to have a message: minus one all replicas, zero nobody, one the leader.
    pub required_acks: i32,
    pub timeout_ms: i32,
    /// How many messages are sent at once.
    pub batch_size: usize,
    pub flush_interval_ms: u64,
}

/// The configuration of a consumer.
#[derive(Debug)]
pub struct ConsumerConfig {
    pub topic: String,
    /// The partitions to read where no group assigns any.
    pub partitions: Vec<i32>,
    pub group_id: Option<String>,
    /// Where to start: minus two at the beginning, minus one at the end, else here.
    pub offset: i64,
    pub max_bytes: i32,
    pub max_wait_ms: i32,
    pub min_bytes: i32,
    pub auto_commit: bool,
    pub auto_commit_interval_ms: u64,
    pub poll_interval_ms: u64,
    /// How many messages one poll hands out at most.
    pub max_messages_per_poll: usize,
}

/// What a broker configuration says.
pub open spec fn is_default_broker(b: BrokerConfig) -> bool {
    b.address@ == "http://localhost:50051"@ && b.timeout_secs == 30 && b.max_retries == 3
}

/// A producer configuration with nothing but a topic given.
pub open spec fn is_default_producer(p: ProducerConfig, topic: Seq<char>) -> bool {
    &&& p.topic@ == topic
    &&& p.partition == 0
    &&& p.partitioning@ == "fixed"@
    &&& p.num_partitions == 1
    &&& p.required_acks == 1
    &&& p.timeout_ms == 5000
    &&& p.batch_size == 100
    &&& p.flush_interval_ms == 100
}

/// A consumer configuration with nothing but a topic and a group given.
pub open spec fn is_default_consumer(c: ConsumerConfig, topic: Seq<char>, group_id: Option<Seq<char>>) -> bool {
    &&& c.topic@ == topic
    &&& c.partitions@ == seq![0i32]
    &&& c.group_id.deep_view() == group_id
    &&& c.offset == -2
    &&& c.max_bytes == 1_048_576
    &&& c.max_wait_ms == 1000
    &&& c.min_bytes == 1
    &&& !c.auto_commit
    &&& c.auto_commit_interval_ms == 5000
    &&& c.poll_interval_ms == 1000
    &&& c.max_messages_per_poll == 500
}

impl Default for BrokerConfig {
    fn default() -> (r: Self)
        ensures
            is_default_broker(r),
    {
        BrokerConfig {
            address: default_broker_address(),
            timeout_secs: default_timeout(),
            max_retries: default_max_retries(),
        }
    }
}

pub fn default_broker_address() -> (r: String)
    ensures
        r@ == "http://localhost:50051"@,
{
    "http://localhost:50051".to_owned()
}

pub fn default_timeout() -> (r: u64)
    ensures
        r == 30,
{
    30
}

pub fn default_max_retries() -> (r: u32)
    ensures
        r == 3,
{
    3
}

pub fn default_partitioning() -> (r: String)
    ensures
        r@ == "fixed"@,
{
    "fixed".to_owned()
}

pub fn default_num_partitions() -> (r: i32)
    ensures
        r == 1,
{
    1
}

pub fn default_acks() -> (r: i32)
    ensures
        r == 1,
{
    1
}

pub fn default_produce_timeout() -> (r: i32)
    ensures
        r == 5000,
{
    5000
}

pub fn default_batch_size() -> (r: usize)
    ensures
        r == 100,
{
    100
}

pub fn default_flush_interval() -> (r: u64)
    ensures
        r == 100,
{
    100
}

pub fn default_partitions() -> (r: Vec<i32>)
    ensures
        r@ == seq![0i32],
{
    vec![0i32]
}

pub fn default_max_bytes() -> (r: i32)
    ensures
        r == 1_048_576,
{
    1_048_576
}

pub fn default_max_wait() -> (r: i32)
    ensures
        r == 1000,
{
    1000
}

pub fn default_min_bytes() -> (r: i32)
    ensures
        r == 1,
{
    1
}

pub fn default_auto_commit_interval() -> (r: u64)
    ensures
        r == 5000,
{
    5000
}

pub fn default_poll_interval() -> (r: u64)
    ensures
        r == 1000,
{
    1000
}

pub fn default_max_messages_per_poll() -> (r: usize)
    ensures
        r == 500,
{
    500
}

/// A consumer configuration with nothing but a topic and a group given.
pub fn consumer_defaults(topic: String, group_id: Option<String>) -> (r: ConsumerConfig)
    ensures
        is_default_consumer(r, topic@, group_id.deep_view()),
{
    ConsumerConfig {
        topic,
        partitions: default_partitions(),
        group_id,
        offset: -2,
        max_bytes: default_max_bytes(),
        max_wait_ms: default_max_wait(),
        min_bytes: default_min_bytes(),
        auto_commit: false,
        auto_commit_interval_ms: default_auto_commit_interval(),
        poll_interval_ms: default_poll_interval(),
        max_messages_per_poll: default_max_messages_per_poll(),
    }
}

/// What is wrong with a configuration, if anything: a topic without a name.
pub open spec fn config_fault(c: AppConfig) -> Option<Seq<char>> {
    match c.producer {
        Some(p) if p.topic@.len() == 0 => Some("Producer topic cannot be empty"@),
        _ => match c.consumer {
            Some(k) if k.topic@.len() == 0 => Some("Consumer topic cannot be empty"@),
            _ => None,
        },
    }
}

impl AppConfig {
    /// The configuration of a producer.
    pub fn default_producer(topic: String) -> (r: Self)
        ensures
            is_default_broker(r.broker),
            r.producer matches Some(p) && is_default_producer(p, topic@),
            r.consumer is None,
    {
        AppConfig {
            broker: BrokerConfig::default(),
            producer: Some(
                ProducerConfig {
                    topic,
                    partition: 0,
                    partitioning: default_partitioning(),
                    num_partitions: default_num_partitions(),
                    required_acks: default_acks(),
                    timeout_ms: default_produce_timeout(),
                    batch_size: default_batch_size(),
                    flush_interval_ms: default_flush_interval(),
                },
            ),
            consumer: None,
        }
    }

    /// The configuration of a consumer.
    pub fn default_consumer(topic: String, group_id: Option<String>) -> (r: Self)
        ensures
            is_default_broker(r.broker),
            r.producer is None,
            r.consumer matches Some(c) && is_default_consumer(c, topic@, group_id.deep_view()),
    {
        AppConfig {
            broker: BrokerConfig::default(),
            producer: None,
            consumer: Some(consumer_defaults(topic, group_id)),
        }
    }

    /// Refuses a configuration with a topic without a name.
    pub fn validate(&self) -> (r: Result<(), String>)
        ensures
            match r {
                Ok(()) => config_fault(*self) is None,
                Err(e) => config_fault(*self) == Some(e@),
            },
    {
        if let Some(producer) = &self.producer {
            if producer.topic.as_str().is_empty() {
                return Err("Producer topic cannot be empty".to_owned());
            }
        }
        if let Some(consumer) = &self.consumer {
            if consumer.topic.as_str().is_empty() {
                return Err("Consumer topic cannot be empty".to_owned());
            }
        }
        Ok(())
    }
}

/// The configuration of a producer passes where its topic has a name.
pub proof fn default_producer_is_valid(c: AppConfig, topic: Seq<char>)
    requires
        c.producer matches Some(p) && is_default_producer(p, topic),
        c.consumer is None,
    ensures
        config_fault(c) is None <==> topic.len() > 0,
{
}

/// Which address a client connects to: the one on the command line, or the configured one.
pub fn broker_address(given: &Option<String>, config: &AppConfig) -> (r: String)
    ensures
        r@ == (match given {
            Some(a) => a@,
            None => config.broker.address@,
        }),
{
    match given {
        Some(a) => a.dup(),
        None => config.broker.address.dup(),
    }
}

/// A configuration is refused exactly where a producer or a consumer has no topic.
pub proof fn topics_need_names(c: AppConfig)
    ensures
        config_fault(c) is None <==> (c.producer matches Some(p) ==> p.topic@.len() > 0) && (c.consumer matches Some(k)
            ==> k.topic@.len() > 0),
        c.producer matches Some(p) ==> (p.topic@.len() == 0 ==> config_fault(c) == Some("Producer topic cannot be empty"@)),
{
}

} // verus!
