//! The persisted daemon state: multicast parameters, the node's own
//! identity, and the last-known roster.

use vstd::prelude::*;
use crate::node::{Node, NodeView, node_views};

use crate::platform::local_ip_string;
use crate::snowflake::SnowflakeIdGenerator;
use crate::strutil::string_to_bytes;

verus! {

/// The configuration a daemon runs with and persists.
#[derive(Debug)]
pub struct Config {
    /// This node's id, assigned once at first start.
    pub id: i64,
    /// The multicast group to advertise on.
    pub board_ip: String,
    /// The UDP port to bind and advertise on.
    pub board_port: u16,
    /// Seconds a node may go unheard before it counts as gone.
    pub node_timeout: u16,
    /// This node's human label.
    pub node_name: String,
    /// The last-known roster.
    pub node_list: Vec<Node>,
}

/// The mathematical shape of a configuration.
pub struct ConfigView {
    pub id: i64,
    pub board_ip: Seq<char>,
    pub board_port: u16,
    pub node_timeout: u16,
    pub node_name: Seq<char>,
    pub node_list: Seq<NodeView>,
}

impl View for Config {
    type V = ConfigView;

    open spec fn view(&self) -> ConfigView {
        ConfigView {
            id: self.id,
            board_ip: self.board_ip@,
            board_port: self.board_port,
            node_timeout: self.node_timeout,
            node_name: self.node_name@,
            node_list: node_views(self.node_list@),
        }
    }
}

impl Config {
    /// This node's id.
    pub fn id(&self) -> (r: i64)
        ensures
            r == self@.id,
    {
        self.id
    }

    /// The multicast group address.
    pub fn board_ip(&self) -> (r: &str)
        ensures
            r@ == self@.board_ip,
    {
        self.board_ip.as_str()
    }

    /// The UDP port.
    pub fn board_port(&self) -> (r: u16)
        ensures
            r == self@.board_port,
    {
        self.board_port
    }

    /// The node timeout, in seconds.
    pub fn node_timeout(&self) -> (r: u16)
        ensures
            r == self@.node_timeout,
    {
        self.node_timeout
    }

    /// This node's label.
    pub fn node_name(&self) -> (r: &str)
        ensures
            r@ == self@.node_name,
    {
        self.node_name.as_str()
    }

    /// The last-known roster.
    pub fn node_list(&self) -> (r: &Vec<Node>)
        ensures
            node_views(r@) == self@.node_list,
    {
        &self.node_list
    }

    /// Sets the multicast group address.
    pub fn set_board_ip(&mut self, board_ip: String)
        ensures
            final(self)@ == (ConfigView { board_ip: board_ip@, ..old(self)@ }),
    {
        self.board_ip = board_ip;
    }

    /// Sets the UDP port.
    pub fn set_board_port(&mut self, board_port: u16)
        ensures
            final(self)@ == (ConfigView { board_port: board_port, ..old(self)@ }),
    {
        self.board_port = board_port;
    }

    /// Sets the node timeout, in seconds.
    pub fn set_node_timeout(&mut self, node_timeout: u16)
        ensures
            final(self)@ == (ConfigView { node_timeout: node_timeout, ..old(self)@ }),
    {
        self.node_timeout = node_timeout;
    }

    /// Renames this node.
    pub fn set_node_name(&mut self, node_name: String)
        ensures
            final(self)@ == (ConfigView { node_name: node_name@, ..old(self)@ }),
    {
        self.node_name = node_name;
    }

    /// Replaces the persisted roster.
    pub fn set_node_list(&mut self, node_list: Vec<Node>)
        ensures
            final(self)@ == (ConfigView { node_list: node_views(node_list@), ..old(self)@ }),
    {
        self.node_list = node_list;
    }
}

impl Clone for Config {
    fn clone(&self) -> (r: Self)
        ensures
            r@ == self@,
    {
        Config {
            id: self.id,
            board_ip: self.board_ip.clone(),
            board_port: self.board_port,
            node_timeout: self.node_timeout,
            node_name: self.node_name.clone(),
            node_list: crate::node::clone_node_list(&self.node_list),
        }
    }
}

impl Default for Config {
    /// The configuration a daemon materializes on first start: the
    /// standard multicast group and port, a ten-second timeout, an
    /// empty roster, the host's address for a name, and a freshly
    /// generated id.
    fn default() -> (r: Config)
        ensures
            r@.board_ip == "224.0.0.1"@,
            r@.board_port == 8081,
            r@.node_timeout == 10,
            r@.node_list == Seq::<NodeView>::empty(),
            r@.id > 0,
    {
        let node_name = match local_ip_string() {
            Some(ip) => ip,
            None => String::from_str("0.0.0.0"),
        };
        // a small host number drawn from the address, so that distinct
        // hosts tend to draw ids from distinct ranges
        let name_bytes = string_to_bytes(node_name.as_str());
        let mut acc: u16 = 0;
        let mut i: usize = 0;
        while i < name_bytes.len()
            invariant
                acc < 32,
            decreases name_bytes@.len() - i,
        {
            acc = (acc + (name_bytes[i] as u16)) % 32;
            i = i + 1;
        }
        let mut gen = SnowflakeIdGenerator::new(1, acc);
        let id = gen.real_time_generate();
        let r = Config {
            id,
            board_ip: String::from_str("224.0.0.1"),
            board_port: 8081,
            node_timeout: 10,
            node_name,
            node_list: Vec::new(),
        };
        proof {
            assert(r@.node_list =~= Seq::<NodeView>::empty());
        }
        r
    }
}

} // verus!
