use vstd::prelude::*;
use vstd::string::*;

use crate::config::{PeerConfig, PeerView, SshConfig, SshView, SyncConfig, DEFAULT_SSH_PORT};
use crate::entry::{log_view, ClipboardHistoryEntry, EntryView};
use crate::history::{merge_clipboard_history, stored_merge};
use crate::merge::ConflictResolutionStrategy;
use crate::sync::{create_sync_message, SyncData, SyncManager, SyncMessage, SyncMessageType};
use crate::text::{decimal_text, decimal_text_spec};

verus! {

/// The `ssh` arguments that open the tunnel of `c`:
/// `-N -L <local>:localhost:<remote> -p <port> <user>@<host> [-i <identity>]`.
pub open spec fn ssh_args_spec(c: SshView) -> Seq<Seq<char>> {
    let port: u16 = match c.ssh_port {
        Some(p) => p,
        None => 22,
    };
    let base = seq![
        seq!['-', 'N'],
        seq!['-', 'L'],
        decimal_text_spec(c.tunnel_local_port as nat) + seq![
            ':',
            'l',
            'o',
            'c',
            'a',
            'l',
            'h',
            'o',
            's',
            't',
            ':',
        ] + decimal_text_spec(c.remote_port as nat),
        seq!['-', 'p'],
        decimal_text_spec(port as nat),
        c.ssh_user + seq!['@'] + c.ssh_host,
    ];
    match c.identity_file {
        Some(f) => base + seq![seq!['-', 'i'], f],
        None => base,
    }
}

/// The address a peer reached through its tunnel has on this machine.
pub open spec fn tunnel_endpoint_spec(port: u16) -> Seq<char> {
    seq!['h', 't', 't', 'p', ':', '/', '/', 'l', 'o', 'c', 'a', 'l', 'h', 'o', 's', 't', ':']
        + decimal_text_spec(port as nat)
}

/// The address the sync protocol talks to for a peer.
pub open spec fn resolved_endpoint(p: PeerView) -> Seq<char> {
    match p.ssh {
        Some(c) => tunnel_endpoint_spec(c.tunnel_local_port),
        None => p.endpoint,
    }
}

/// The arguments of the `ssh` command that opens the tunnel of `c`.
pub fn ssh_tunnel_args(c: &SshConfig) -> (r: Vec<String>)
    ensures
        r@.map_values(|s: String| s@) == ssh_args_spec(c@),
{
    proof {
        reveal_strlit("-N");
        reveal_strlit("-L");
        reveal_strlit(":localhost:");
        reveal_strlit("-p");
        reveal_strlit("@");
        reveal_strlit("-i");
        assert("-N"@ =~= seq!['-', 'N']);
        assert("-L"@ =~= seq!['-', 'L']);
        assert("-p"@ =~= seq!['-', 'p']);
        assert("-i"@ =~= seq!['-', 'i']);
        assert("@"@ =~= seq!['@']);
        assert(":localhost:"@ =~= seq![':', 'l', 'o', 'c', 'a', 'l', 'h', 'o', 's', 't', ':']);
    }
    let mut forward = decimal_text(c.tunnel_local_port as u64);
    forward.append(":localhost:");
    let remote = decimal_text(c.remote_port as u64);
    forward.append(remote.as_str());
    let port = match c.ssh_port {
        Some(p) => p,
        None => DEFAULT_SSH_PORT,
    };
    let mut target = c.ssh_user.clone();
    target.append("@");
    target.append(c.ssh_host.as_str());
    let mut args: Vec<String> = Vec::new();
    args.push("-N".to_owned());
    args.push("-L".to_owned());
    args.push(forward);
    args.push("-p".to_owned());
    args.push(decimal_text(port as u64));
    args.push(target);
    let ghost base = args@.map_values(|s: String| s@);
    assert(base[2] == decimal_text_spec(c.tunnel_local_port as nat) + seq![
        ':',
        'l',
        'o',
        'c',
        'a',
        'l',
        'h',
        'o',
        's',
        't',
        ':',
    ] + decimal_text_spec(c.remote_port as nat));
    assert(base[5] == c.ssh_user@ + seq!['@'] + c.ssh_host@);
    if let Some(f) = &c.identity_file {
        args.push("-i".to_owned());
        args.push(f.clone());
    }
    assert(args@.map_values(|s: String| s@) =~= ssh_args_spec(c@));
    args
}

/// The address the sync protocol talks to for `peer`: its tunnel's local
/// port when it has one, else its endpoint as written.
pub fn resolve_endpoint(peer: &PeerConfig) -> (r: String)
    ensures
        r@ == resolved_endpoint(peer@),
{
    match &peer.ssh_config {
        Some(c) => {
            proof {
                reveal_strlit("http://localhost:");
                assert("http://localhost:"@ =~= seq![
                    'h',
                    't',
                    't',
                    'p',
                    ':',
                    '/',
                    '/',
                    'l',
                    'o',
                    'c',
                    'a',
                    'l',
                    'h',
                    'o',
                    's',
                    't',
                    ':',
                ]);
            }
            let mut out = "http://localhost:".to_owned();
            let port = decimal_text(c.tunnel_local_port as u64);
            out.append(port.as_str());
            out
        },
        None => peer.endpoint.clone(),
    }
}

/// What to do about a peer's tunnel before talking to it.
#[derive(Debug, Clone, PartialEq, Eq)]
pub enum TunnelAction {
    /// A tunnel already holds the local port: use it.
    Reuse,
    /// Start `ssh` with these arguments.
    Spawn(Vec<String>),
}

/// The decision about a peer's tunnel, given whether its local port is bound
/// right now: a bound port is held by a tunnel already, so it is reused;
/// a free one gets a new `ssh` process. A tunnel that has died frees its
/// port and so is started again.
pub fn tunnel_action(c: &SshConfig, port_bound: bool) -> (r: TunnelAction)
    ensures
        port_bound ==> r == TunnelAction::Reuse,
        !port_bound ==> (r matches TunnelAction::Spawn(args) && args@.map_values(|s: String| s@)
            == ssh_args_spec(c@)),
{
    if port_bound {
        TunnelAction::Reuse
    } else {
        TunnelAction::Spawn(ssh_tunnel_args(c))
    }
}

/// Where one peer's sync pass stands.
#[derive(Debug, Clone, Copy, PartialEq, Eq, Structural)]
pub enum PassStage {
    /// Waiting for the peer to accept our handshake.
    Handshake,
    /// Waiting for the peer's entries newer than the watermark.
    Pull,
    /// Waiting for the peer to accept our newer entries.
    Push,
    /// Completed; the watermark has moved.
    Done,
    /// Aborted for this cycle; nothing more is done with this peer.
    Failed,
}

/// One synchronization pass with one peer.
#[derive(Debug)]
pub struct PeerPass {
    pub peer_id: String,
    pub endpoint: String,
    /// The watermark the pass exchanges entries from.
    pub since: i64,
    pub stage: PassStage,
    /// The entries the peer sent in this pass.
    pub pulled: Vec<ClipboardHistoryEntry>,
}

/// Whether an entry of the merged log goes to the peer: newer than the
/// watermark, and not one that the peer itself just sent.
pub open spec fn to_push(since: i64, pulled: Seq<EntryView>) -> spec_fn(EntryView) -> bool {
    |e: EntryView| e.timestamp > since && !pulled.contains(e)
}

impl PeerPass {
    /// The handshake's answer: accepted moves on to pulling, anything else
    /// fails the pass.
    pub fn on_handshake(&mut self, accepted: bool)
        ensures
            final(self).peer_id == old(self).peer_id,
            final(self).endpoint == old(self).endpoint,
            final(self).since == old(self).since,
            final(self).pulled == old(self).pulled,
            old(self).stage == PassStage::Handshake ==> final(self).stage == (if accepted {
                PassStage::Pull
            } else {
                PassStage::Failed
            }),
            old(self).stage != PassStage::Handshake ==> final(self).stage == old(self).stage,
    {
        if self.stage == PassStage::Handshake {
            self.stage = if accepted {
                PassStage::Pull
            } else {
                PassStage::Failed
            };
        }
    }

    /// A transport failure: a pass that has not completed fails.
    pub fn fail(&mut self)
        ensures
            final(self).peer_id == old(self).peer_id,
            final(self).endpoint == old(self).endpoint,
            final(self).since == old(self).since,
            final(self).pulled == old(self).pulled,
            final(self).stage == (if old(self).stage == PassStage::Done {
                PassStage::Done
            } else {
                PassStage::Failed
            }),
    {
        if self.stage != PassStage::Done {
            self.stage = PassStage::Failed;
        }
    }

    /// The entries of the (merged) local log to send to the peer.
    pub fn entries_to_push(&self, log: &Vec<ClipboardHistoryEntry>) -> (r: Vec<ClipboardHistoryEntry>)
        ensures
            log_view(r@) == log_view(log@).filter(to_push(self.since, log_view(self.pulled@))),
    {
        let ghost f = to_push(self.since, log_view(self.pulled@));
        let mut out: Vec<ClipboardHistoryEntry> = Vec::new();
        let mut i: usize = 0;
        while i < log.len()
            invariant
                i <= log.len(),
                log_view(out@) == log_view(log@).take(i as int).filter(
                    to_push(self.since, log_view(self.pulled@)),
                ),
            decreases log.len() - i,
        {
            let ghost before = log_view(log@).take(i as int);
            let ghost after = log_view(log@).take(i as int + 1);
            let e = &log[i];
            let mut seen = false;
            let mut j: usize = 0;
            while j < self.pulled.len()
                invariant
                    j <= self.pulled@.len(),
                    seen == exists|q: int| 0 <= q < j && self.pulled@[q]@ == e@,
                decreases self.pulled.len() - j,
            {
                if self.pulled[j].same_value(e) {
                    seen = true;
                }
                j = j + 1;
            }
            proof {
                assert(after.drop_last() =~= before);
                assert(after.last() == e@);
                reveal(Seq::filter);
                if seen {
                    let q = choose|q: int| 0 <= q < j && self.pulled@[q]@ == e@;
                    assert(log_view(self.pulled@)[q] == e@);
                }
                if log_view(self.pulled@).contains(e@) {
                    let q = choose|q: int| 0 <= q < self.pulled@.len() && log_view(self.pulled@)[q] == e@;
                    assert(self.pulled@[q]@ == e@);
                }
                assert(to_push(self.since, log_view(self.pulled@))(e@) == (e.timestamp > self.since && !seen));
                assert(after.filter(to_push(self.since, log_view(self.pulled@))) == (if to_push(
                    self.since,
                    log_view(self.pulled@),
                )(after.last()) {
                    before.filter(to_push(self.since, log_view(self.pulled@))).push(after.last())
                } else {
                    before.filter(to_push(self.since, log_view(self.pulled@)))
                }));
            }
            if e.timestamp > self.since && !seen {
                out.push(e.duplicate());
                assert(log_view(out@) =~= before.filter(
                    to_push(self.since, log_view(self.pulled@)),
                ).push(e@));
            }
            i = i + 1;
        }
        assert(log_view(log@).take(log.len() as int) =~= log_view(log@));
        out
    }
}

/// The client side of the sync protocol on this device: the session state
/// and the conflict strategy of merges.
#[derive(Debug)]
pub struct SyncProtocol {
    manager: SyncManager,
    strategy: ConflictResolutionStrategy,
}

impl SyncProtocol {
    pub closed spec fn manager_spec(&self) -> SyncManager {
        self.manager
    }

    pub closed spec fn strategy_spec(&self) -> ConflictResolutionStrategy {
        self.strategy
    }

    /// This device's identity.
    pub open spec fn own_id(&self) -> Seq<char> {
        self.manager_spec().config_spec().peer_id@
    }

    /// A protocol that settles conflicts by keeping the newest entry.
    pub fn new(config: SyncConfig) -> (r: Self)
        ensures
            r.manager_spec().config_spec() == config,
            forall|k: Seq<char>| r.manager_spec().last_sync_spec(k) is None,
            r.strategy_spec() == ConflictResolutionStrategy::KeepNewest,
    {
        Self::with_strategy(config, ConflictResolutionStrategy::KeepNewest)
    }

    /// A protocol that settles conflicts by `strategy`.
    pub fn with_strategy(config: SyncConfig, strategy: ConflictResolutionStrategy) -> (r: Self)
        ensures
            r.manager_spec().config_spec() == config,
            forall|k: Seq<char>| r.manager_spec().last_sync_spec(k) is None,
            r.strategy_spec() == strategy,
    {
        SyncProtocol { manager: SyncManager::new(config), strategy }
    }

    pub fn manager(&self) -> (r: &SyncManager)
        ensures
            *r == self.manager_spec(),
    {
        &self.manager
    }

    /// The peers a sync cycle visits: every enabled peer, in order, or none
    /// when sync is off.
    pub fn peers_to_sync(&self) -> (r: Vec<(String, PeerConfig)>)
        ensures
            !self.manager_spec().config_spec().enabled ==> r@.len() == 0,
            self.manager_spec().config_spec().enabled ==> r@.map_values(
                |p: (String, PeerConfig)| (p.0@, p.1@),
            ) == self.manager_spec().config_spec().peers@.filter(crate::sync::peer_enabled()),
    {
        if !self.manager.is_enabled() {
            return Vec::new();
        }
        self.manager.get_enabled_peers()
    }

    /// Starts a pass with `peer`: resolves its address and, for a peer
    /// behind SSH, decides about its tunnel given whether the tunnel's local
    /// port is bound right now (see `tunnel_action`). The pass starts from the peer's watermark,
    /// or from the epoch when there is none.
    pub fn begin_pass(&mut self, peer_id: &String, peer: &PeerConfig, port_bound: bool) -> (r: (
        PeerPass,
        Option<TunnelAction>,
    ))
        ensures
            final(self).manager_spec() == old(self).manager_spec(),
            final(self).strategy_spec() == old(self).strategy_spec(),
            r.0.peer_id@ == peer_id@,
            r.0.endpoint@ == resolved_endpoint(peer@),
            r.0.since == match old(self).manager_spec().last_sync_spec(peer_id@) {
                Some(t) => t,
                None => 0,
            },
            r.0.stage == PassStage::Handshake,
            r.0.pulled@.len() == 0,
            match peer.ssh_config {
                None => r.1 is None,
                Some(c) => {
                    &&& port_bound ==> r.1 == Some(TunnelAction::Reuse)
                    &&& !port_bound ==> (r.1 matches Some(TunnelAction::Spawn(args)) && args@.map_values(|s: String| s@) == ssh_args_spec(c@))
                },
            },
    {
        let tunnel = match &peer.ssh_config {
            Some(c) => Some(tunnel_action(c, port_bound)),
            None => None,
        };
        let since = match self.manager.get_last_sync(peer_id.as_str()) {
            Some(t) => t,
            None => 0,
        };
        let pass = PeerPass {
            peer_id: peer_id.clone(),
            endpoint: resolve_endpoint(peer),
            since,
            stage: PassStage::Handshake,
            pulled: Vec::new(),
        };
        (pass, tunnel)
    }

    /// The handshake this device sends: its identity, stamped `now`.
    pub fn handshake_message(&self, now: i64) -> (r: SyncMessage)
        ensures
            r.timestamp == now,
            r.message_type == SyncMessageType::Handshake,
            r.peer_id@ == self.own_id(),
            r.data is None,
    {
        create_sync_message(
            SyncMessageType::Handshake,
            self.manager.get_peer_id().to_owned(),
            None,
            now,
        )
    }

    /// The push of `entries` to a peer, stamped `now`.
    pub fn push_message(&self, entries: Vec<ClipboardHistoryEntry>, now: i64) -> (r: SyncMessage)
        ensures
            r.timestamp == now,
            r.message_type == SyncMessageType::ClipboardSync,
            r.peer_id@ == self.own_id(),
            r.data == Some(SyncData::ClipboardEntries(entries)),
    {
        create_sync_message(
            SyncMessageType::ClipboardSync,
            self.manager.get_peer_id().to_owned(),
            Some(SyncData::ClipboardEntries(entries)),
            now,
        )
    }

    /// The peer's answer to the pull: its entries, or `None` when the
    /// request failed. Received entries are merged into `local`, and the
    /// merged log, in timestamp order and to be stored, is returned; a failed pull fails the pass
    /// and leaves the log alone.
    pub fn on_history(
        &self,
        pass: &mut PeerPass,
        reply: Option<Vec<ClipboardHistoryEntry>>,
        local: &Vec<ClipboardHistoryEntry>,
    ) -> (r: Option<Vec<ClipboardHistoryEntry>>)
        ensures
            final(pass).peer_id == old(pass).peer_id,
            final(pass).endpoint == old(pass).endpoint,
            final(pass).since == old(pass).since,
            old(pass).stage != PassStage::Pull ==> r is None && final(pass).stage == old(
                pass,
            ).stage && final(pass).pulled == old(pass).pulled,
            old(pass).stage == PassStage::Pull ==> match reply {
                None => r is None && final(pass).stage == PassStage::Failed,
                Some(remote) => {
                    &&& final(pass).stage == PassStage::Push
                    &&& final(pass).pulled == remote
                    &&& r matches Some(m) && log_view(m@) == stored_merge(
                        log_view(local@),
                        log_view(remote@),
                        self.strategy_spec(),
                        self.own_id(),
                    )
                },
            },
    {
        if pass.stage != PassStage::Pull {
            return None;
        }
        match reply {
            None => {
                pass.stage = PassStage::Failed;
                None
            },
            Some(remote) => {
                let own = self.manager.get_peer_id().to_owned();
                let m = merge_clipboard_history(local, &remote, &self.strategy, &own);
                pass.pulled = remote;
                pass.stage = PassStage::Push;
                Some(m)
            },
        }
    }

    /// The peer's answer to the push. An accepted push completes the pass
    /// and moves the peer's watermark to `now`; a refused one fails it.
    pub fn on_push(&mut self, pass: &mut PeerPass, accepted: bool, now: i64)
        ensures
            final(self).strategy_spec() == old(self).strategy_spec(),
            final(self).manager_spec().config_spec() == old(self).manager_spec().config_spec(),
            final(pass).peer_id == old(pass).peer_id,
            final(pass).since == old(pass).since,
            old(pass).stage == PassStage::Push && accepted ==> {
                &&& final(pass).stage == PassStage::Done
                &&& final(self).manager_spec().last_sync_spec(old(pass).peer_id@) == Some(now)
                &&& forall|k: Seq<char>|
                    k != old(pass).peer_id@ ==> final(self).manager_spec().last_sync_spec(k)
                        == old(self).manager_spec().last_sync_spec(k)
            },
            !(old(pass).stage == PassStage::Push && accepted) ==> final(self).manager_spec()
                == old(self).manager_spec(),
            old(pass).stage == PassStage::Push && !accepted ==> final(pass).stage
                == PassStage::Failed,
            old(pass).stage != PassStage::Push ==> final(pass).stage == old(pass).stage,
    {
        if pass.stage != PassStage::Push {
            return ;
        }
        if accepted {
            self.manager.update_last_sync(pass.peer_id.clone(), now);
            pass.stage = PassStage::Done;
        } else {
            pass.stage = PassStage::Failed;
        }
    }
}

} // verus!
