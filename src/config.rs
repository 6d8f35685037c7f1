use vstd::prelude::*;
use vstd::string::*;

use crate::text::{parse_unsigned, parse_unsigned_spec, str_eq};

verus! {

/// The first local port handed out for SSH tunnels.
pub const TUNNEL_BASE_PORT: u16 = 8081;

/// The port that the sync service listens on unless configured otherwise,
/// and the remote port that a new tunnel forwards to.
pub const DEFAULT_SYNC_PORT: u16 = 8080;

/// The SSH port used when an endpoint names none.
pub const DEFAULT_SSH_PORT: u16 = 22;

/// How to reach a peer through an SSH local port forward.
#[derive(Debug, Clone, PartialEq, Eq)]
pub struct SshConfig {
    pub tunnel_local_port: u16,
    pub remote_port: u16,
    pub ssh_user: String,
    pub ssh_host: String,
    pub ssh_port: Option<u16>,
    pub identity_file: Option<String>,
}

/// One configured peer.
#[derive(Debug, Clone, PartialEq, Eq)]
pub struct PeerConfig {
    pub endpoint: String,
    pub enabled: bool,
    pub ssh_config: Option<SshConfig>,
}

pub struct SshView {
    pub tunnel_local_port: u16,
    pub remote_port: u16,
    pub ssh_user: Seq<char>,
    pub ssh_host: Seq<char>,
    pub ssh_port: Option<u16>,
    pub identity_file: Option<Seq<char>>,
}

pub struct PeerView {
    pub endpoint: Seq<char>,
    pub enabled: bool,
    pub ssh: Option<SshView>,
}

impl View for SshConfig {
    type V = SshView;

    open spec fn view(&self) -> SshView {
        SshView {
            tunnel_local_port: self.tunnel_local_port,
            remote_port: self.remote_port,
            ssh_user: self.ssh_user@,
            ssh_host: self.ssh_host@,
            ssh_port: self.ssh_port,
            identity_file: match self.identity_file {
                Some(f) => Some(f@),
                None => None,
            },
        }
    }
}

impl View for PeerConfig {
    type V = PeerView;

    open spec fn view(&self) -> PeerView {
        PeerView {
            endpoint: self.endpoint@,
            enabled: self.enabled,
            ssh: match self.ssh_config {
                Some(c) => Some(c@),
                None => None,
            },
        }
    }
}

impl SshConfig {
    pub fn duplicate(&self) -> (r: Self)
        ensures
            r@ == self@,
    {
        SshConfig {
            tunnel_local_port: self.tunnel_local_port,
            remote_port: self.remote_port,
            ssh_user: self.ssh_user.clone(),
            ssh_host: self.ssh_host.clone(),
            ssh_port: self.ssh_port,
            identity_file: match &self.identity_file {
                Some(f) => Some(f.clone()),
                None => None,
            },
        }
    }
}

impl PeerConfig {
    pub fn duplicate(&self) -> (r: Self)
        ensures
            r@ == self@,
    {
        PeerConfig {
            endpoint: self.endpoint.clone(),
            enabled: self.enabled,
            ssh_config: match &self.ssh_config {
                Some(c) => Some(c.duplicate()),
                None => None,
            },
        }
    }
}

/// Whether `k` is the key of some entry of `t`.
pub open spec fn table_has(t: Seq<(Seq<char>, PeerView)>, k: Seq<char>) -> bool {
    exists|i: int| 0 <= i < t.len() && #[trigger] t[i].0 == k
}

/// The peers of a configuration, keyed by peer id, in order of insertion.
#[derive(Debug)]
pub struct PeerTable {
    entries: Vec<(String, PeerConfig)>,
}

impl View for PeerTable {
    type V = Seq<(Seq<char>, PeerView)>;

    closed spec fn view(&self) -> Seq<(Seq<char>, PeerView)> {
        self.entries@.map_values(|p: (String, PeerConfig)| (p.0@, p.1@))
    }
}

impl PeerTable {
    #[verifier::type_invariant]
    closed spec fn keys_distinct(self) -> bool {
        forall|i: int, j: int|
            0 <= i < self.entries@.len() && 0 <= j < self.entries@.len() && i != j
                ==> #[trigger] self.entries@[i].0@ != #[trigger] self.entries@[j].0@
    }

    pub fn new() -> (r: Self)
        ensures
            r@.len() == 0,
    {
        let r = PeerTable { entries: Vec::new() };
        assert(r@ =~= Seq::empty());
        r
    }

    pub fn len(&self) -> (r: usize)
        ensures
            r == self@.len(),
    {
        self.entries.len()
    }

    /// The position of `key`, if it is there.
    fn position(&self, key: &str) -> (r: Option<usize>)
        ensures
            match r {
                Some(i) => i < self@.len() && self@[i as int].0 == key@,
                None => !table_has(self@, key@),
            },
    {
        let mut i: usize = 0;
        while i < self.entries.len()
            invariant
                i <= self.entries@.len(),
                forall|j: int| 0 <= j < i ==> #[trigger] self@[j].0 != key@,
            decreases self.entries.len() - i,
        {
            assert(self@[i as int].0 == self.entries@[i as int].0@);
            if str_eq(self.entries[i].0.as_str(), key) {
                return Some(i);
            }
            i = i + 1;
        }
        None
    }

    /// Whether a peer is stored under `key`.
    pub fn contains_key(&self, key: &str) -> (r: bool)
        ensures
            r == table_has(self@, key@),
    {
        self.position(key).is_some()
    }

    /// The peer stored under `key`.
    pub fn get(&self, key: &str) -> (r: Option<&PeerConfig>)
        ensures
            match r {
                Some(p) => exists|i: int|
                    0 <= i < self@.len() && #[trigger] self@[i] == (key@, p@),
                None => !table_has(self@, key@),
            },
    {
        match self.position(key) {
            Some(i) => {
                assert(self@[i as int] == (key@, self.entries@[i as int].1@));
                Some(&self.entries[i].1)
            },
            None => None,
        }
    }

    /// The entry at position `i`.
    pub fn entry(&self, i: usize) -> (r: (&String, &PeerConfig))
        requires
            i < self@.len(),
        ensures
            self@[i as int] == (r.0@, r.1@),
    {
        let e = &self.entries[i];
        (&e.0, &e.1)
    }

    /// Stores `value` under `key`, in place of any peer stored there.
    pub fn insert(&mut self, key: String, value: PeerConfig)
        ensures
            table_has(old(self)@, key@) ==> exists|i: int|
                0 <= i < old(self)@.len() && old(self)@[i].0 == key@ && final(self)@ == old(
                    self,
                )@.update(i, (key@, value@)),
            !table_has(old(self)@, key@) ==> final(self)@ == old(self)@.push((key@, value@)),
    {
        proof {
            use_type_invariant(&*self);
        }
        let ghost before = self@;
        match self.position(key.as_str()) {
            Some(i) => {
                let ghost k = key@;
                let mut v: Vec<(String, PeerConfig)> = Vec::new();
                std::mem::swap(&mut self.entries, &mut v);
                v.set(i, (key, value));
                self.entries = v;
                assert(self@ =~= before.update(i as int, (k, value@)));
            },
            None => {
                let ghost k = key@;
                proof {
                    assert forall|j: int| 0 <= j < self.entries@.len() implies self.entries@[j].0@
                        != k by {
                        assert(before[j].0 == self.entries@[j].0@);
                    }
                }
                let mut v: Vec<(String, PeerConfig)> = Vec::new();
                std::mem::swap(&mut self.entries, &mut v);
                v.push((key, value));
                self.entries = v;
                assert(self@ =~= before.push((k, value@)));
            },
        }
    }

    /// Removes the peer stored under `key`; says whether there was one.
    pub fn remove(&mut self, key: &str) -> (r: bool)
        ensures
            r == table_has(old(self)@, key@),
            r ==> exists|i: int|
                0 <= i < old(self)@.len() && old(self)@[i].0 == key@ && final(self)@ == old(
                    self,
                )@.remove(i),
            !r ==> final(self)@ == old(self)@,
    {
        proof {
            use_type_invariant(&*self);
        }
        let ghost before = self@;
        match self.position(key) {
            Some(i) => {
                let mut v: Vec<(String, PeerConfig)> = Vec::new();
                std::mem::swap(&mut self.entries, &mut v);
                v.remove(i);
                self.entries = v;
                assert(self@ =~= before.remove(i as int));
                true
            },
            None => false,
        }
    }

    /// Turns the peer stored under `key` on or off; says whether there was one.
    pub fn set_enabled(&mut self, key: &str, enabled: bool) -> (r: bool)
        ensures
            r == table_has(old(self)@, key@),
            r ==> exists|i: int|
                0 <= i < old(self)@.len() && old(self)@[i].0 == key@ && final(self)@ == old(
                    self,
                )@.update(i, (key@, PeerView { enabled, ..old(self)@[i].1 })),
            !r ==> final(self)@ == old(self)@,
    {
        proof {
            use_type_invariant(&*self);
        }
        let ghost before = self@;
        match self.position(key) {
            Some(i) => {
                let name = self.entries[i].0.clone();
                let mut peer = self.entries[i].1.duplicate();
                peer.enabled = enabled;
                let mut v: Vec<(String, PeerConfig)> = Vec::new();
                std::mem::swap(&mut self.entries, &mut v);
                v.set(i, (name, peer));
                self.entries = v;
                assert(self@ =~= before.update(
                    i as int,
                    (key@, PeerView { enabled, ..before[i as int].1 }),
                ));
                true
            },
            None => false,
        }
    }
}

/// Whether the peer holds a tunnel on local port `p`.
pub open spec fn holds_port(v: PeerView, p: int) -> bool {
    match v.ssh {
        Some(c) => c.tunnel_local_port == p,
        None => false,
    }
}

/// Whether some peer of `t` holds a tunnel on local port `p`.
pub open spec fn port_used(t: Seq<(Seq<char>, PeerView)>, p: int) -> bool {
    exists|i: int| 0 <= i < t.len() && holds_port(#[trigger] t[i].1, p)
}

/// The local port of the peer's tunnel, if it has one.
pub open spec fn tunnel_port(v: PeerView) -> Option<u16> {
    match v.ssh {
        Some(c) => Some(c.tunnel_local_port),
        None => None,
    }
}

/// No two peers of `t` hold a tunnel on the same local port.
pub open spec fn ports_distinct(t: Seq<(Seq<char>, PeerView)>) -> bool {
    forall|i: int, j: int|
        0 <= i < t.len() && 0 <= j < t.len() && i != j && tunnel_port(#[trigger] t[i].1) is Some
            ==> tunnel_port(t[i].1) != tunnel_port(#[trigger] t[j].1)
}

/// Storing a peer whose tunnel port (if any) no peer holds keeps the ports
/// distinct, whether it replaces the entry of its key or is appended.
proof fn lemma_store_keeps_ports_distinct(
    before: Seq<(Seq<char>, PeerView)>,
    after: Seq<(Seq<char>, PeerView)>,
    k: Seq<char>,
    v: PeerView,
)
    requires
        ports_distinct(before),
        match tunnel_port(v) {
            Some(p) => !port_used(before, p as int),
            None => true,
        },
        (exists|i: int| 0 <= i < before.len() && before[i].0 == k && after == before.update(i, (k, v)))
            || after == before.push((k, v)),
    ensures
        ports_distinct(after),
{
    assert forall|i: int, j: int|
        0 <= i < after.len() && 0 <= j < after.len() && i != j && tunnel_port(#[trigger] after[i].1)
            is Some implies tunnel_port(after[i].1) != tunnel_port(#[trigger] after[j].1) by {
        let x = if after == before.push((k, v)) {
            before.len() as int
        } else {
            choose|x: int| 0 <= x < before.len() && before[x].0 == k && after == before.update(x, (k, v))
        };
        if i == x {
            assert(after[i].1 == v);
            if tunnel_port(after[j].1) == tunnel_port(v) {
                assert(after[j] == before[j]);
                assert(holds_port(before[j].1, tunnel_port(v).unwrap() as int));
            }
        } else if j == x {
            assert(after[j].1 == v);
            assert(after[i] == before[i]);
            if tunnel_port(after[i].1) == tunnel_port(v) {
                assert(holds_port(before[i].1, tunnel_port(v).unwrap() as int));
            }
        } else {
            assert(after[i] == before[i] && after[j] == before[j]);
        }
    }
}

/// The tunnel that `add_peer` sets up for the endpoint: the target that the
/// endpoint names, remote port 8080, no identity file, and the lowest local
/// port from 8081 up that no peer of `peers` holds.
pub open spec fn new_tunnel_ok(
    c: SshView,
    endpoint: Seq<char>,
    default_user: Seq<char>,
    peers: Seq<(Seq<char>, PeerView)>,
) -> bool {
    let (user, host, port) = ssh_target(endpoint, default_user);
    &&& c.remote_port == DEFAULT_SYNC_PORT
    &&& c.ssh_user == user
    &&& c.ssh_host == host
    &&& c.ssh_port == Some(port)
    &&& c.identity_file is None
    &&& TUNNEL_BASE_PORT <= c.tunnel_local_port
    &&& !port_used(peers, c.tunnel_local_port as int)
    &&& forall|q: int| TUNNEL_BASE_PORT <= q < c.tunnel_local_port ==> port_used(peers, q)
}

/// The peer that `add_peer` stores for the endpoint.
pub open spec fn new_peer_ok(
    v: PeerView,
    endpoint: Seq<char>,
    default_user: Seq<char>,
    peers: Seq<(Seq<char>, PeerView)>,
) -> bool {
    &&& v.endpoint == endpoint
    &&& v.enabled
    &&& if is_ssh_endpoint(endpoint) {
        match v.ssh {
            Some(c) => new_tunnel_ok(c, endpoint, default_user, peers),
            None => false,
        }
    } else {
        v.ssh is None
    }
}

/// The peer-sync configuration of this device.
#[derive(Debug)]
pub struct SyncConfig {
    pub enabled: bool,
    pub peer_id: String,
    pub listen_port: u16,
    pub peers: PeerTable,
    pub sync_interval_seconds: u64,
    pub auto_sync: bool,
}

/// Whether the two configurations agree on everything but the switch and
/// the peers: identity, listen port, interval and auto sync.
pub open spec fn same_settings(a: SyncConfig, b: SyncConfig) -> bool {
    &&& a.peer_id == b.peer_id
    &&& a.listen_port == b.listen_port
    &&& a.sync_interval_seconds == b.sync_interval_seconds
    &&& a.auto_sync == b.auto_sync
}

/// The endpoint prefix that marks a peer reached through SSH.
pub open spec fn ssh_scheme() -> Seq<char> {
    seq!['s', 's', 'h', ':', '/', '/']
}

pub open spec fn is_ssh_endpoint(e: Seq<char>) -> bool {
    e.len() >= 6 && e.take(6) == ssh_scheme()
}

/// The index of the first `c` in `s`, or `s.len()` when there is none.
pub open spec fn first_pos(s: Seq<char>, c: char) -> int {
    if exists|i: int| 0 <= i < s.len() && s[i] == c && forall|j: int| 0 <= j < i ==> s[j] != c {
        choose|i: int| 0 <= i < s.len() && s[i] == c && forall|j: int| 0 <= j < i ==> s[j] != c
    } else {
        s.len() as int
    }
}

/// The user, host and port that an `ssh://user@host:port` endpoint names;
/// `default_user` stands in for a missing user and 22 for a missing or
/// unreadable port.
pub open spec fn ssh_target(endpoint: Seq<char>, default_user: Seq<char>) -> (
    Seq<char>,
    Seq<char>,
    u16,
) {
    let rest = endpoint.skip(6);
    let colon = first_pos(rest, ':');
    let user_host = rest.take(colon);
    let port: u16 = if colon < rest.len() {
        match parse_unsigned_spec(rest.skip(colon + 1), 65535) {
            Some(v) => v as u16,
            None => 22,
        }
    } else {
        22
    };
    let at = first_pos(user_host, '@');
    if at < user_host.len() {
        (user_host.take(at), user_host.skip(at + 1), port)
    } else {
        (default_user, user_host, port)
    }
}

/// The position of the first `c` in `s`, or its length.
fn find_char(s: &str, c: char) -> (r: usize)
    ensures
        r == first_pos(s@, c),
{
    let n = s.unicode_len();
    let mut i: usize = 0;
    while i < n
        invariant
            n == s@.len(),
            i <= n,
            forall|j: int| 0 <= j < i ==> s@[j] != c,
        decreases n - i,
    {
        if s.get_char(i) == c {
            proof {
                let k = choose|k: int|
                    0 <= k < s@.len() && s@[k] == c && forall|j: int| 0 <= j < k ==> s@[j] != c;
                assert(k == i as int) by {
                    if k < i {
                    } else if k > i {
                        assert(s@[i as int] == c);
                    }
                }
            }
            return i;
        }
        i = i + 1;
    }
    i
}

/// The characters that a generated device suffix is drawn from.
pub open spec fn suffix_alphabet() -> Seq<char> {
    seq!['a', 'b', 'c', 'd', 'e', 'f', 'g', 'h', 'i', 'j', 'k', 'l', 'm', 'n', 'o', 'p', 'q', 'r', 's', 't', 'u', 'v', 'w', 'x', 'y', 'z', '0', '1', '2', '3', '4', '5', '6', '7', '8', '9']
}

/// Whether `s` is a device suffix: four characters of the suffix alphabet.
pub open spec fn is_device_suffix(s: Seq<char>) -> bool {
    s.len() == 4 && forall|i: int|
        0 <= i < 4 ==> #[trigger] suffix_alphabet().contains(s[i])
}

/// Relies on hostname::get: the host name of this machine, decoded lossily;
/// empty when it cannot be read.
#[verifier::external_body]
fn local_hostname() -> (r: String) {
    hostname::get().unwrap_or_default().to_string_lossy().to_string()
}

/// Relies on fastrand::usize: a number drawn below `n` (it panics on an
/// empty range, which `requires` leaves out).
#[verifier::external_body]
fn random_below(n: usize) -> (r: usize)
    requires
        n > 0,
    ensures
        r < n,
{
    fastrand::usize(..n)
}

/// A random four-character device suffix.
pub fn random_device_suffix() -> (r: String)
    ensures
        is_device_suffix(r@),
{
    let alphabet = "abcdefghijklmnopqrstuvwxyz0123456789";
    proof {
        reveal_strlit("abcdefghijklmnopqrstuvwxyz0123456789");
        assert(alphabet@ =~= suffix_alphabet());
    }
    let n = alphabet.unicode_len();
    let mut out = String::new();
    let mut k: usize = 0;
    while k < 4
        invariant
            alphabet@ == suffix_alphabet(),
            n == alphabet@.len(),
            n == 36,
            k <= 4,
            out@.len() == k,
            forall|i: int| 0 <= i < k ==> #[trigger] suffix_alphabet().contains(out@[i]),
        decreases 4 - k,
    {
        let idx = random_below(n);
        let piece = alphabet.substring_char(idx, idx + 1);
        assert(piece@[0] == alphabet@[idx as int]);
        let ghost before = out@;
        out.append(piece);
        assert(out@[k as int] == piece@[0]);
        assert forall|i: int| 0 <= i < k implies out@[i] == before[i] by {}
        k = k + 1;
    }
    out
}

/// The device identity `user@host-suffix`.
pub fn compose_peer_id(user: &str, host: &str, suffix: &str) -> (r: String)
    ensures
        r@ == user@ + seq!['@'] + host@ + seq!['-'] + suffix@,
{
    proof {
        reveal_strlit("@");
        reveal_strlit("-");
    }
    let mut out = user.to_owned();
    out.append("@");
    out.append(host);
    out.append("-");
    out.append(suffix);
    assert("@"@ =~= seq!['@']);
    assert("-"@ =~= seq!['-']);
    out
}

impl Default for SyncConfig {
    /// A fresh configuration for this machine under the user name `user`;
    /// `SyncConfig::generated` takes the actual user name.
    fn default() -> (r: Self)
        ensures
            exists|host: Seq<char>, suffix: Seq<char>|
                is_device_suffix(suffix) && r.peer_id@ == seq!['u', 's', 'e', 'r', '@'] + host
                    + seq!['-'] + suffix,
            !r.enabled,
            r.listen_port == DEFAULT_SYNC_PORT,
            r.peers@.len() == 0,
            r.sync_interval_seconds == 30,
            r.auto_sync,
    {
        proof {
            reveal_strlit("user");
        }
        let r = Self::generated("user");
        assert("user"@ + seq!['@'] =~= seq!['u', 's', 'e', 'r', '@']);
        proof {
            let (h, x) = choose|h: Seq<char>, x: Seq<char>|
                is_device_suffix(x) && r.peer_id@ == "user"@ + seq!['@'] + h + seq!['-'] + x;
            assert(r.peer_id@ =~= seq!['u', 's', 'e', 'r', '@'] + h + seq!['-'] + x);
        }
        r
    }
}

impl SyncConfig {
    /// A fresh configuration for this machine, with the defaults of
    /// `with_peer_id` and the identity `user@host-suffix`, where `host` is
    /// this machine's host name and `suffix` is drawn at random.
    pub fn generated(user: &str) -> (r: Self)
        ensures
            exists|host: Seq<char>, suffix: Seq<char>|
                is_device_suffix(suffix) && r.peer_id@ == user@ + seq!['@'] + host + seq!['-']
                    + suffix,
            !r.enabled,
            r.listen_port == DEFAULT_SYNC_PORT,
            r.peers@.len() == 0,
            r.sync_interval_seconds == 30,
            r.auto_sync,
    {
        let host = local_hostname();
        let suffix = random_device_suffix();
        let id = compose_peer_id(user, host.as_str(), suffix.as_str());
        Self::with_peer_id(id)
    }

    /// A configuration with the defaults and the given identity: sync off,
    /// listening on 8080, syncing every 30 seconds when enabled, no peers.
    pub fn with_peer_id(peer_id: String) -> (r: Self)
        ensures
            r.peer_id == peer_id,
            !r.enabled,
            r.listen_port == DEFAULT_SYNC_PORT,
            r.peers@.len() == 0,
            r.sync_interval_seconds == 30,
            r.auto_sync,
    {
        SyncConfig {
            enabled: false,
            peer_id,
            listen_port: DEFAULT_SYNC_PORT,
            peers: PeerTable::new(),
            sync_interval_seconds: 30,
            auto_sync: true,
        }
    }

    /// The lowest local port from 8081 up that no peer's tunnel holds.
    pub fn find_available_port(&self) -> (r: Option<u16>)
        ensures
            match r {
                Some(p) => TUNNEL_BASE_PORT <= p && !port_used(self.peers@, p as int) && forall|
                    q: int,
                | TUNNEL_BASE_PORT <= q < p ==> port_used(self.peers@, q),
                None => forall|q: int|
                    TUNNEL_BASE_PORT <= q <= u16::MAX ==> port_used(self.peers@, q),
            },
    {
        let mut port: u32 = TUNNEL_BASE_PORT as u32;
        while port <= u16::MAX as u32
            invariant
                TUNNEL_BASE_PORT <= port <= u16::MAX as u32 + 1,
                forall|q: int| TUNNEL_BASE_PORT <= q < port ==> port_used(self.peers@, q),
            decreases u16::MAX as u32 + 1 - port,
        {
            let mut used = false;
            let mut i: usize = 0;
            while i < self.peers.len()
                invariant
                    i <= self.peers@.len(),
                    used == exists|j: int| 0 <= j < i && holds_port(#[trigger] self.peers@[j].1, port as int),
                decreases self.peers@.len() - i,
            {
                let (_, peer) = self.peers.entry(i);
                let hit = match &peer.ssh_config {
                    Some(ssh) => ssh.tunnel_local_port as u32 == port,
                    None => false,
                };
                assert(hit == holds_port(self.peers@[i as int].1, port as int));
                if hit {
                    used = true;
                }
                i = i + 1;
            }
            if !used {
                return Some(port as u16);
            }
            port = port + 1;
        }
        None
    }

    /// Adds (or replaces) the peer `peer_id`, enabled.
    ///
    /// An `ssh://user@host:port` endpoint gets a tunnel on the lowest free
    /// local port from 8081 up, forwarding to the remote port 8080; a missing
    /// user is `default_user`, a missing or unreadable port 22. Any other
    /// endpoint is used as it stands. Returns false, and changes nothing,
    /// only when an SSH peer finds no free local port.
    pub fn add_peer(&mut self, peer_id: String, endpoint: String, default_user: String) -> (r:
        bool)
        ensures
            final(self).enabled == old(self).enabled,
            final(self).peer_id == old(self).peer_id,
            final(self).listen_port == old(self).listen_port,
            final(self).sync_interval_seconds == old(self).sync_interval_seconds,
            final(self).auto_sync == old(self).auto_sync,
            !r ==> final(self).peers@ == old(self).peers@,
            ports_distinct(old(self).peers@) ==> ports_distinct(final(self).peers@),
            !r ==> is_ssh_endpoint(endpoint@) && forall|q: int|
                TUNNEL_BASE_PORT <= q <= u16::MAX ==> port_used(old(self).peers@, q),
            r ==> exists|v: PeerView|
                {
                    &&& new_peer_ok(v, endpoint@, default_user@, old(self).peers@)
                    &&& table_has(old(self).peers@, peer_id@) ==> exists|i: int|
                        0 <= i < old(self).peers@.len() && old(self).peers@[i].0 == peer_id@
                            && final(self).peers@ == old(self).peers@.update(i, (peer_id@, v))
                    &&& !table_has(old(self).peers@, peer_id@) ==> final(self).peers@ == old(
                        self,
                    ).peers@.push((peer_id@, v))
                },
    {
        let e = endpoint.as_str();
        let n = e.unicode_len();
        let is_ssh = n >= 6 && str_eq(e.substring_char(0, 6), "ssh://");
        proof {
            reveal_strlit("ssh://");
            assert(ssh_scheme() =~= "ssh://"@);
            if n >= 6 {
                assert(endpoint@.take(6) =~= endpoint@.subrange(0, 6));
            }
        }
        if !is_ssh {
            let peer = PeerConfig { endpoint, enabled: true, ssh_config: None };
            let ghost pv = peer@;
            assert(new_peer_ok(pv, pv.endpoint, default_user@, old(self).peers@));
            let ghost k = peer_id@;
            self.peers.insert(peer_id, peer);
            proof {
                if ports_distinct(old(self).peers@) {
                    lemma_store_keeps_ports_distinct(old(self).peers@, self.peers@, k, pv);
                }
            }
            return true;
        }
        let port = match self.find_available_port() {
            Some(p) => p,
            None => return false,
        };
        let rest = e.substring_char(6, n);
        assert(rest@ =~= endpoint@.skip(6));
        let colon = find_char(rest, ':');
        let rn = rest.unicode_len();
        let user_host = rest.substring_char(0, colon);
        let ssh_port: u16 = if colon < rn {
            match parse_unsigned(rest.substring_char(colon + 1, rn), 65535) {
                Some(v) => v as u16,
                None => DEFAULT_SSH_PORT,
            }
        } else {
            DEFAULT_SSH_PORT
        };
        let at = find_char(user_host, '@');
        let uhn = user_host.unicode_len();
        let (user, host) = if at < uhn {
            (user_host.substring_char(0, at).to_owned(), user_host.substring_char(at + 1, uhn).to_owned())
        } else {
            (default_user, user_host.to_owned())
        };
        proof {
            assert(rest@.skip(colon + 1) =~= rest@.subrange(colon + 1, rn as int));
            assert(user_host@.skip(at + 1) =~= user_host@.subrange(at + 1, uhn as int));
        }
        let ghost v_endpoint = endpoint@;
        let peer = PeerConfig {
            endpoint,
            enabled: true,
            ssh_config: Some(
                SshConfig {
                    tunnel_local_port: port,
                    remote_port: DEFAULT_SYNC_PORT,
                    ssh_user: user,
                    ssh_host: host,
                    ssh_port: Some(ssh_port),
                    identity_file: None,
                },
            ),
        };
        let ghost pv = peer@;
        assert(new_peer_ok(pv, v_endpoint, default_user@, old(self).peers@));
        let ghost k = peer_id@;
        self.peers.insert(peer_id, peer);
        proof {
            if ports_distinct(old(self).peers@) {
                lemma_store_keeps_ports_distinct(old(self).peers@, self.peers@, k, pv);
            }
        }
        true
    }

    /// Turns sync on.
    pub fn enable(&mut self)
        ensures
            final(self).enabled,
            final(self).peers@ == old(self).peers@,
            same_settings(*final(self), *old(self)),
    {
        self.enabled = true;
    }

    /// Turns sync off.
    pub fn disable(&mut self)
        ensures
            !final(self).enabled,
            final(self).peers@ == old(self).peers@,
            same_settings(*final(self), *old(self)),
    {
        self.enabled = false;
    }
}

} // verus!
