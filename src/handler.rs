use vstd::prelude::*;

use crate::config::{
    is_ssh_endpoint, new_peer_ok, port_used, ports_distinct, same_settings, table_has, PeerView, SyncConfig,
    TUNNEL_BASE_PORT,
};

verus! {

/// The commands that edit the sync configuration. Each says whether it
/// changed anything, so that the caller knows whether to save.
#[derive(Debug)]
pub struct SyncHandler {
    config: SyncConfig,
}

impl SyncHandler {
    pub closed spec fn config_spec(&self) -> SyncConfig {
        self.config
    }

    pub fn new(config: SyncConfig) -> (r: Self)
        ensures
            r.config_spec() == config,
    {
        SyncHandler { config }
    }

    pub fn config(&self) -> (r: &SyncConfig)
        ensures
            *r == self.config_spec(),
    {
        &self.config
    }

    pub fn enable_sync(&mut self)
        ensures
            same_settings(final(self).config_spec(), old(self).config_spec()),
            final(self).config_spec().enabled,
            final(self).config_spec().peers@ == old(self).config_spec().peers@,
    {
        self.config.enable();
    }

    pub fn disable_sync(&mut self)
        ensures
            same_settings(final(self).config_spec(), old(self).config_spec()),
            !final(self).config_spec().enabled,
            final(self).config_spec().peers@ == old(self).config_spec().peers@,
    {
        self.config.disable();
    }

    /// Adds the peer as `SyncConfig::add_peer` does; false when an SSH
    /// peer finds no free tunnel port.
    pub fn add_peer(&mut self, peer_id: String, endpoint: String, default_user: String) -> (r: bool)
        ensures
            same_settings(final(self).config_spec(), old(self).config_spec()),
            final(self).config_spec().enabled == old(self).config_spec().enabled,
            !r ==> final(self).config_spec().peers@ == old(self).config_spec().peers@,
            ports_distinct(old(self).config_spec().peers@) ==> ports_distinct(
                final(self).config_spec().peers@,
            ),
            !r ==> is_ssh_endpoint(endpoint@) && forall|q: int|
                TUNNEL_BASE_PORT <= q <= u16::MAX ==> port_used(old(self).config_spec().peers@, q),
            r ==> exists|v: PeerView|
                {
                    &&& new_peer_ok(v, endpoint@, default_user@, old(self).config_spec().peers@)
                    &&& table_has(old(self).config_spec().peers@, peer_id@) ==> exists|i: int|
                        0 <= i < old(self).config_spec().peers@.len()
                            && old(self).config_spec().peers@[i].0 == peer_id@
                            && final(self).config_spec().peers@ == old(self).config_spec().peers@.update(i, (peer_id@, v))
                    &&& !table_has(old(self).config_spec().peers@, peer_id@) ==> final(self).config_spec().peers@ == old(self).config_spec().peers@.push((peer_id@, v))
                },
    {
        self.config.add_peer(peer_id, endpoint, default_user)
    }

    /// Removes the peer; false when there is none of that id.
    pub fn remove_peer(&mut self, peer_id: &str) -> (r: bool)
        ensures
            same_settings(final(self).config_spec(), old(self).config_spec()),
            r == table_has(old(self).config_spec().peers@, peer_id@),
            r ==> exists|i: int|
                0 <= i < old(self).config_spec().peers@.len() && old(self).config_spec().peers@[i].0
                    == peer_id@ && final(self).config_spec().peers@ == old(self).config_spec().peers@.remove(i),
            !r ==> final(self).config_spec().peers@ == old(self).config_spec().peers@,
            final(self).config_spec().enabled == old(self).config_spec().enabled,
    {
        self.config.peers.remove(peer_id)
    }

    /// Turns the peer on or off; false when there is none of that id.
    pub fn set_peer_enabled(&mut self, peer_id: &str, enabled: bool) -> (r: bool)
        ensures
            same_settings(final(self).config_spec(), old(self).config_spec()),
            r == table_has(old(self).config_spec().peers@, peer_id@),
            r ==> exists|i: int|
                0 <= i < old(self).config_spec().peers@.len() && old(self).config_spec().peers@[i].0
                    == peer_id@ && final(self).config_spec().peers@ == old(self).config_spec().peers@.update(
                    i,
                    (peer_id@, PeerView { enabled, ..old(self).config_spec().peers@[i].1 }),
                ),
            !r ==> final(self).config_spec().peers@ == old(self).config_spec().peers@,
            final(self).config_spec().enabled == old(self).config_spec().enabled,
    {
        self.config.peers.set_enabled(peer_id, enabled)
    }
}

} // verus!
