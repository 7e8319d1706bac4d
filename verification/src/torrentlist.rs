//! A registry of torrents keyed by caller-chosen identifiers.
//!
//! The registry itself is plain data; a caller that shares it across
//! threads must serialize access and keep at most one in-flight announce
//! per identifier, as the tracker session design assumes.

use crate::torrent::Torrent;
use std::collections::HashMap;
use vstd::prelude::*;

verus! {

broadcast use vstd::std_specs::hash::group_hash_axioms;

/// One registered torrent with its display status.
#[derive(Debug)]
pub struct TorrentItem {
    pub object: Torrent,
    pub status: String,
    pub id: usize,
}

/// The registry: identifiers to registered torrents.
pub struct TorrentList {
    pub list: HashMap<usize, TorrentItem>,
}

impl TorrentList {
    /// An empty registry.
    pub fn new() -> (r: TorrentList)
        ensures
            r.list@ == Map::<usize, TorrentItem>::empty(),
    {
        TorrentList { list: HashMap::new() }
    }

    /// Registers `torrent` under `id` with the initial status message,
    /// replacing any earlier entry with the same identifier.
    pub fn push_with_id_and_url(&mut self, id: usize, torrent: Torrent)
        ensures
            final(self).list@.dom() == old(self).list@.dom().insert(id),
            final(self).list@[id].object == torrent,
            final(self).list@[id].status@ == "Test Message Hello"@,
            final(self).list@[id].id == id,
            forall|k: usize|
                k != id && old(self).list@.dom().contains(k) ==> final(self).list@[k] == old(
                    self,
                ).list@[k],
    {
        let status = "Test Message Hello".to_owned();
        self.list.insert(id, TorrentItem { object: torrent, status, id });
        proof {
            assert(self.list@.dom() =~= old(self).list@.dom().insert(id));
        }
    }

    /// The status message of the entry registered under `id`.
    pub fn get_status(&mut self, id: &usize) -> (r: String)
        requires
            old(self).list@.dom().contains(*id),
        ensures
            *final(self) == *old(self),
            r@ == old(self).list@[*id].status@,
    {
        match self.list.get(id) {
            Some(item) => item.status.clone(),
            None => {
                proof {
                    assert(false);
                }
                String::new()
            },
        }
    }
}

} // verus!
