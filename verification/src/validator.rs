//! The start of a node: where it listens, and in which order its parts are set up.
use crate::curve::Point;
use crate::decimal;
use crate::decimal::push_decimal;
use crate::field::Scalar;
use crate::net_sync::all_peers_connected;
use crate::orchestrator::settings::Ipv4;
use crate::text::text;
use vstd::prelude::*;

verus! {

/// Where a node is found in the network.
#[derive(Clone, Copy, Debug, PartialEq, Eq, Structural)]
pub struct Endpoint {
    pub ip: Ipv4,
    pub port: u16,
}

/// Where nodes are found, by their numbers, for their peers and for those who
/// watch them.
#[derive(Debug)]
pub struct PublicAddresses {
    pub network: Vec<Endpoint>,
    pub metrics: Vec<Endpoint>,
}

/// The same port on every address of the machine.
pub open spec fn everywhere(e: Endpoint) -> Endpoint {
    Endpoint { ip: Ipv4 { a: 0, b: 0, c: 0, d: 0 }, port: e.port }
}

fn bind(e: &Endpoint) -> (r: Endpoint)
    ensures
        r == everywhere(*e),
{
    Endpoint { ip: Ipv4 { a: 0, b: 0, c: 0, d: 0 }, port: e.port }
}

/// The addresses that a node listens on, for its peers and for those who watch
/// it. A node whose address is missing does not start.
pub fn listening_addresses(config: &PublicAddresses, authority: u64) -> (r: Result<
    (Endpoint, Endpoint),
    String,
>)
    ensures
        authority >= config.network@.len() ==> (r matches Err(m) && m@
            == "No network address for authority "@ + decimal::decimal(authority as nat)),
        authority < config.network@.len() && authority >= config.metrics@.len() ==> (r matches Err(
            m,
        ) && m@ == "No metrics address for authority "@ + decimal::decimal(authority as nat)),
        authority < config.network@.len() && authority < config.metrics@.len() ==> r == Ok::<
            (Endpoint, Endpoint),
            String,
        >(
            (
                everywhere(config.network@[authority as int]),
                everywhere(config.metrics@[authority as int]),
            ),
        ),
{
    if authority >= config.network.len() as u64 {
        let mut m = text("No network address for authority ");
        push_decimal(&mut m, authority);
        return Err(m);
    }
    if authority >= config.metrics.len() as u64 {
        let mut m = text("No metrics address for authority ");
        push_decimal(&mut m, authority);
        return Err(m);
    }
    let i: usize = authority as usize;
    Ok((bind(&config.network[i]), bind(&config.metrics[i])))
}

/// How far the start of a node is.
#[derive(Clone, Copy, Debug, PartialEq, Eq, Structural)]
pub enum StartStage {
    /// Connections to all other nodes are awaited.
    AwaitPeers,
    /// The key generation runs.
    AwaitKeys,
    /// Transactions are sent.
    Running,
}

/// What a starting node does next.
#[derive(Clone, Copy, Debug, PartialEq, Eq, Structural)]
pub enum StartAction {
    Wait,
    StartKeyGeneration,
    StartGenerator,
}

/// A starting node, with its share of the secret once it has one.
pub struct Startup {
    pub stage: StartStage,
    pub committee_size: usize,
    pub share: Option<Scalar>,
}

impl Startup {
    /// A node of a committee, without connections.
    pub fn new(committee_size: usize) -> (r: Self)
        ensures
            r.stage is AwaitPeers,
            r.committee_size == committee_size,
            r.share is None,
    {
        Startup { stage: StartStage::AwaitPeers, committee_size, share: None }
    }

    /// The node has so many connections: the key generation starts, once, where
    /// they are all there.
    pub fn on_peers(&mut self, connected: usize) -> (r: StartAction)
        ensures
            final(self).committee_size == old(self).committee_size,
            final(self).share == old(self).share,
            r == (if old(self).stage is AwaitPeers && connected + 1 >= old(self).committee_size {
                StartAction::StartKeyGeneration
            } else {
                StartAction::Wait
            }),
            final(self).stage == (if r is StartKeyGeneration {
                StartStage::AwaitKeys
            } else {
                old(self).stage
            }),
    {
        if self.stage == StartStage::AwaitPeers && (self.committee_size == 0
            || all_peers_connected(connected, self.committee_size)) {
            self.stage = StartStage::AwaitKeys;
            StartAction::StartKeyGeneration
        } else {
            StartAction::Wait
        }
    }

    /// The key generation gave keys: the share is kept, and transactions are sent.
    pub fn on_keys(&mut self, keys: (Point, Scalar)) -> (r: StartAction)
        ensures
            final(self).committee_size == old(self).committee_size,
            r == (if old(self).stage is AwaitKeys {
                StartAction::StartGenerator
            } else {
                StartAction::Wait
            }),
            final(self).stage == (if r is StartGenerator {
                StartStage::Running
            } else {
                old(self).stage
            }),
            final(self).share == (if r is StartGenerator {
                Some(keys.1)
            } else {
                old(self).share
            }),
    {
        if self.stage == StartStage::AwaitKeys {
            self.stage = StartStage::Running;
            self.share = Some(keys.1);
            StartAction::StartGenerator
        } else {
            StartAction::Wait
        }
    }
}

/// A node listens on all addresses of its machine, at its own port.
pub proof fn law_node_listens_at_its_port(e: Endpoint, other: Endpoint)
    ensures
        everywhere(e).port == e.port,
        everywhere(e).ip.a == 0 && everywhere(e).ip.b == 0 && everywhere(e).ip.c == 0
            && everywhere(e).ip.d == 0,
        e.port == other.port ==> everywhere(e) == everywhere(other),
{
}

} // verus!
