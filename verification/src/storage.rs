//! The configuration store: the single writer of the configuration
//! file.  The store keeps an in-memory copy; every mutation hands back
//! the exact bytes to flush, and re-reading those bytes yields the
//! written values (see
//! [`crate::config_json::lemma_config_round_trip`]).

use vstd::prelude::*;
use crate::config::{Config, ConfigView};
use crate::config_json::{render_config, parse_config, render_config_spec, parse_config_spec};

verus! {

/// The configuration a first start materializes: the standard
/// multicast group and port, the ten-second timeout, no roster yet,
/// and a freshly assigned id.
pub open spec fn default_config_shape(c: ConfigView) -> bool {
    &&& c.board_ip == "224.0.0.1"@
    &&& c.board_port == 8081
    &&& c.node_timeout == 10
    &&& c.node_list == Seq::<crate::node::NodeView>::empty()
    &&& c.id > 0
}

/// The single-writer store backing `config.json`.
#[derive(Debug)]
pub struct Storage {
    path: String,
    data: Config,
}

/// The mathematical shape of the store.
pub struct StorageView {
    pub path: Seq<char>,
    pub data: ConfigView,
}

impl View for Storage {
    type V = StorageView;

    closed spec fn view(&self) -> StorageView {
        StorageView { path: self.path@, data: self.data@ }
    }
}

impl Storage {
    /// Opens the store over what the file held: parseable content
    /// becomes the in-memory copy and nothing needs writing; anything
    /// else falls back to the default configuration (the standard
    /// group and port, a ten-second timeout, an empty roster, a fresh
    /// id), handed back as bytes to flush.
    pub fn new(path: String, file_bytes: Option<Vec<u8>>) -> (r: (Storage, Option<Vec<u8>>))
        ensures
            r.0@.path == path@,
            ({
                match file_bytes {
                    Some(bytes) => {
                        if parse_config_spec(bytes@) is Some {
                            &&& r.0@.data == parse_config_spec(bytes@).unwrap()
                            &&& r.1 is None
                        } else {
                            &&& default_config_shape(r.0@.data)
                            &&& r.1 is Some
                            &&& r.1.unwrap()@ == render_config_spec(r.0@.data)
                        }
                    },
                    None => {
                        &&& default_config_shape(r.0@.data)
                        &&& r.1 is Some
                        &&& r.1.unwrap()@ == render_config_spec(r.0@.data)
                    },
                }
            }),
    {
        match file_bytes {
            Some(bytes) => {
                match parse_config(&bytes) {
                    Some(data) => (Storage { path, data }, None),
                    None => {
                        let data = Config::default();
                        let flush = render_config(&data);
                        (Storage { path, data }, Some(flush))
                    },
                }
            },
            None => {
                let data = Config::default();
                let flush = render_config(&data);
                (Storage { path, data }, Some(flush))
            },
        }
    }

    /// The path the store writes to.
    pub fn path(&self) -> (r: &str)
        ensures
            r@ == self@.path,
    {
        self.path.as_str()
    }

    /// A copy of the in-memory configuration.
    pub fn get(&self) -> (r: Config)
        ensures
            r@ == self@.data,
    {
        self.data.clone()
    }

    /// Re-reads the configuration from what the file holds now; bytes
    /// that do not parse leave the in-memory copy as the source of
    /// truth.
    pub fn refresh(&mut self, file_bytes: &Vec<u8>) -> (r: Config)
        ensures
            parse_config_spec(file_bytes@) is Some ==> final(self)@.data == parse_config_spec(
                file_bytes@,
            ).unwrap() && r@ == final(self)@.data,
            parse_config_spec(file_bytes@) is None ==> final(self)@ == old(self)@ && r@ == old(
                self,
            )@.data,
            final(self)@.path == old(self)@.path,
    {
        match parse_config(file_bytes) {
            Some(data) => {
                self.data = data;
            },
            None => {},
        }
        self.get()
    }

    /// Replaces the configuration and hands back the bytes to flush:
    /// exactly the canonical rendering of the new value, which parses
    /// back to it.
    pub fn set(&mut self, data: Config) -> (w: Vec<u8>)
        ensures
            final(self)@.data == data@,
            final(self)@.path == old(self)@.path,
            w@ == render_config_spec(data@),
            parse_config_spec(w@) == Some(data@),
    {
        let w = render_config(&data);
        self.data = data;
        proof {
            crate::config_json::lemma_config_round_trip(self.data@);
        }
        w
    }
}

} // verus!
