//! How a consumer is configured step by step.
use vstd::prelude::*;

use crate::client::config::{consumer_defaults, is_default_consumer, ConsumerConfig};

verus! {

/// A consumer in the making.
pub struct ConsumerBuilder {
    pub broker_addr: String,
    pub config: ConsumerConfig,
}

impl ConsumerBuilder {
    /// A consumer of a topic, without a group, that commits nothing by itself.
    pub fn new(broker_addr: String, topic: String) -> (r: Self)
        ensures
            r.broker_addr@ == broker_addr@,
            is_default_consumer(r.config, topic@, None),
    {
        let mut config = consumer_defaults(topic, None);
        config.auto_commit = false;
        ConsumerBuilder { broker_addr, config }
    }

    /// The consumer as a member of a group.
    pub fn group_id(self, group_id: String) -> (r: Self)
        ensures
            r == (ConsumerBuilder {
                config: ConsumerConfig { group_id: Some(group_id), ..self.config },
                ..self
            }),
    {
        let mut b = self;
        b.config.group_id = Some(group_id);
        b
    }

    /// Whether the consumer commits by itself.
    pub fn auto_commit(self, enabled: bool) -> (r: Self)
        ensures
            r == (ConsumerBuilder { config: ConsumerConfig { auto_commit: enabled, ..self.config }, ..self }),
    {
        let mut b = self;
        b.config.auto_commit = enabled;
        b
    }

    /// The consumer starts at the end.
    pub fn latest(self) -> (r: Self)
        ensures
            r == (ConsumerBuilder { config: ConsumerConfig { offset: -1i64, ..self.config }, ..self }),
    {
        let mut b = self;
        b.config.offset = -1;
        b
    }

    /// The consumer starts at the beginning.
    pub fn earliest(self) -> (r: Self)
        ensures
            r == (ConsumerBuilder { config: ConsumerConfig { offset: -2i64, ..self.config }, ..self }),
    {
        let mut b = self;
        b.config.offset = -2;
        b
    }

    /// The consumer with another configuration.
    pub fn with_config(self, config: ConsumerConfig) -> (r: Self)
        ensures
            r == (ConsumerBuilder { config, ..self }),
    {
        let mut b = self;
        b.config = config;
        b
    }
}

} // verus!
