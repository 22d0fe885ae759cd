//! A peer's self-description: what a node advertises about itself and
//! what the roster keeps per peer.

use vstd::prelude::*;
use crate::platform::{now_millis, local_ip_string, mac_address_strings};

verus! {

/// A peer daemon, identified by a stable 64-bit id.
#[derive(Debug)]
pub struct Node {
    /// Stable for the peer's lifetime; unique within the roster.
    pub id: i64,
    /// Human label; defaults to the host's IPv4 string.
    pub name: String,
    /// Primary local IPv4 in dotted form.
    pub ipaddress: String,
    /// UDP port the peer listens on.
    pub port: u16,
    /// Milliseconds since the Unix epoch when presence was last
    /// observed.
    pub hit_timestamp: u128,
    /// Interface MAC strings, for diagnostics.
    pub mac_address: Vec<String>,
    /// False means known but past the timeout.
    pub active: bool,
}

/// The views of a sequence of nodes.
pub open spec fn node_views(s: Seq<Node>) -> Seq<NodeView> {
    s.map_values(|n: Node| n@)
}

/// A copy of a list of nodes.
pub fn clone_node_list(v: &Vec<Node>) -> (r: Vec<Node>)
    ensures
        node_views(r@) == node_views(v@),
{
    let mut r: Vec<Node> = Vec::new();
    let mut i: usize = 0;
    while i < v.len()
        invariant
            0 <= i <= v@.len(),
            r@.len() == i,
            forall|j: int| 0 <= j < i ==> (#[trigger] r@[j])@ == node_views(v@)[j],
        decreases v@.len() - i,
    {
        r.push(v[i].clone());
        i = i + 1;
    }
    proof {
        assert(node_views(r@) =~= node_views(v@));
    }
    r
}

/// The mathematical shape of a node.
pub struct NodeView {
    pub id: i64,
    pub name: Seq<char>,
    pub ipaddress: Seq<char>,
    pub port: u16,
    pub hit_timestamp: u128,
    pub mac_address: Seq<Seq<char>>,
    pub active: bool,
}

impl View for Node {
    type V = NodeView;

    open spec fn view(&self) -> NodeView {
        NodeView {
            id: self.id,
            name: self.name@,
            ipaddress: self.ipaddress@,
            port: self.port,
            hit_timestamp: self.hit_timestamp,
            mac_address: self.mac_address@.map_values(|s: String| s@),
            active: self.active,
        }
    }
}

impl Clone for Node {
    fn clone(&self) -> (r: Self)
        ensures
            r@ == self@,
    {
        let mut macs: Vec<String> = Vec::new();
        let mut i: usize = 0;
        while i < self.mac_address.len()
            invariant
                0 <= i <= self.mac_address@.len(),
                macs@.len() == i,
                forall|j: int| 0 <= j < i ==> (#[trigger] macs@[j])@ == self.mac_address@[j]@,
            decreases self.mac_address@.len() - i,
        {
            macs.push(self.mac_address[i].clone());
            i = i + 1;
        }
        let r = Node {
            id: self.id,
            name: self.name.clone(),
            ipaddress: self.ipaddress.clone(),
            port: self.port,
            hit_timestamp: self.hit_timestamp,
            mac_address: macs,
            active: self.active,
        };
        proof {
            assert(r@.mac_address =~= self@.mac_address);
        }
        r
    }
}

impl Node {
    /// A node record for this host: the address and MAC list come from
    /// the machine (falling back to an unspecified address when the
    /// lookup fails), the rest from the arguments, active from the
    /// start.
    pub fn new(id: i64, name: String, port: u16, hit_timestamp: u128) -> (r: Node)
        ensures
            r@.id == id,
            r@.name == name@,
            r@.port == port,
            r@.hit_timestamp == hit_timestamp,
            r@.active,
    {
        let ipaddress = match local_ip_string() {
            Some(ip) => ip,
            None => String::from_str("0.0.0.0"),
        };
        Node {
            id,
            name,
            ipaddress,
            port,
            hit_timestamp,
            mac_address: mac_address_strings(),
            active: true,
        }
    }

    /// The record a node advertises at startup: no presence seen yet.
    pub fn new_self_node(id: i64, name: String, port: u16) -> (r: Node)
        ensures
            r@.id == id,
            r@.name == name@,
            r@.port == port,
            r@.hit_timestamp == 0,
            r@.active,
    {
        Node::new(id, name, port, 0)
    }

    /// Stamps the node with the given wall-clock instant.
    pub fn set_hit_timestamp(&mut self, t: u128)
        ensures
            final(self)@ == (NodeView { hit_timestamp: t, ..old(self)@ }),
    {
        self.hit_timestamp = t;
    }

    /// Stamps the node with the wall clock now.
    pub fn update_hit_timestamp(&mut self)
        ensures
            final(self)@ == (NodeView { hit_timestamp: final(self)@.hit_timestamp, ..old(self)@ }),
    {
        let t = now_millis();
        self.set_hit_timestamp(t);
    }

    /// Renames the node.
    pub fn update_name(&mut self, name: String)
        ensures
            final(self)@ == (NodeView { name: name@, ..old(self)@ }),
    {
        self.name = name;
    }

    /// Marks the node reachable.
    pub fn active(&mut self)
        ensures
            final(self)@ == (NodeView { active: true, ..old(self)@ }),
    {
        self.active = true;
    }

    /// Marks the node past its timeout.
    pub fn inactive(&mut self)
        ensures
            final(self)@ == (NodeView { active: false, ..old(self)@ }),
    {
        self.active = false;
    }
}

} // verus!
