//! The subscriber: watches a shadow at the broker and reports peers
//! appearing and disappearing.
//!
//! The osaka-style loop that owns the endpoint and awaits frames runs in
//! the unverified driver; the verified part is the builder and the
//! dispatch rule applied to each decoded change notice.

use vstd::prelude::*;
use crate::endpoint::Config;
use crate::proto;
use crate::proto::{SubscribeChange, SubscribeChangeM};

verus! {

/// What the driver must do with one decoded change notice.
#[derive(Debug)]
pub enum SubscriberAction {
    /// Call the publish callback with this peer identity's bytes.
    NotifyPublish(Vec<u8>),
    /// Call the unpublish callback with this peer identity's bytes.
    NotifyUnpublish(Vec<u8>),
    /// Another subscriber took over: stop the subscription.
    Stop,
    /// Nothing to do.
    Nothing,
}

/// Configures a subscription: the caller's configuration and which
/// callbacks it registered. The callbacks themselves stay with the
/// driver; here only their presence matters for dispatch.
pub struct SubscriberBuilder {
    pub config: Config,
    pub on_publish: bool,
    pub on_unpublish: bool,
}

/// Start building a subscription.
pub fn new(config: Config) -> (r: SubscriberBuilder)
    ensures
        r.config == config,
        !r.on_publish,
        !r.on_unpublish,
{
    SubscriberBuilder { config, on_publish: false, on_unpublish: false }
}

impl SubscriberBuilder {
    /// Register interest in peers disappearing from the shadow.
    pub fn on_unpublish(self) -> (r: Self)
        ensures
            r.config == self.config,
            r.on_publish == self.on_publish,
            r.on_unpublish,
    {
        SubscriberBuilder { on_unpublish: true, ..self }
    }

    /// Register interest in peers appearing under the shadow.
    pub fn on_publish(self) -> (r: Self)
        ensures
            r.config == self.config,
            r.on_publish,
            r.on_unpublish == self.on_unpublish,
    {
        SubscriberBuilder { on_publish: true, ..self }
    }

    /// The request that opens the subscription stream on the broker,
    /// with an empty filter.
    pub fn subscribe_request(&self, shadow: Vec<u8>) -> (r: proto::SubscribeRequest)
        ensures
            r.shadow == shadow,
            r.filter@.len() == 0,
    {
        proto::SubscribeRequest { shadow, filter: Vec::new() }
    }

    /// Dispatch one change notice from the subscription stream: a
    /// publish or unpublish is reported only where the matching callback
    /// was registered, a supersession stops the subscription, and an
    /// empty notice does nothing.
    pub fn handler_step(&self, change: SubscribeChange) -> (r: SubscriberAction)
        ensures
            match change.m {
                Some(SubscribeChangeM::Publish(p)) => if self.on_publish {
                    r matches SubscriberAction::NotifyPublish(id) && id == p.identity
                } else {
                    r is Nothing
                },
                Some(SubscribeChangeM::Unpublish(u)) => if self.on_unpublish {
                    r matches SubscriberAction::NotifyUnpublish(id) && id == u.identity
                } else {
                    r is Nothing
                },
                Some(SubscribeChangeM::Supersede(..)) => r is Stop,
                None => r is Nothing,
            },
    {
        match change.m {
            Some(SubscribeChangeM::Publish(p)) => {
                if self.on_publish {
                    SubscriberAction::NotifyPublish(p.identity)
                } else {
                    SubscriberAction::Nothing
                }
            },
            Some(SubscribeChangeM::Unpublish(u)) => {
                if self.on_unpublish {
                    SubscriberAction::NotifyUnpublish(u.identity)
                } else {
                    SubscriberAction::Nothing
                }
            },
            Some(SubscribeChangeM::Supersede(..)) => SubscriberAction::Stop,
            None => SubscriberAction::Nothing,
        }
    }
}

} // verus!
