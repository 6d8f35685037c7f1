use vstd::prelude::*;

use crate::config::{PeerConfig, PeerView, SyncConfig};
use crate::entry::ClipboardHistoryEntry;
use crate::text::str_eq;

verus! {

/// What a sync envelope asks for or answers.
#[derive(Debug, Clone, Copy, PartialEq, Eq, Structural)]
pub enum SyncMessageType {
    Handshake,
    ClipboardSync,
    HistoryRequest,
    HistoryResponse,
    Heartbeat,
}

/// The payload of a sync envelope.
#[derive(Debug, Clone, PartialEq, Eq)]
pub enum SyncData {
    ClipboardEntries(Vec<ClipboardHistoryEntry>),
    Timestamp(i64),
}

/// The envelope exchanged on `POST /sync`.
#[derive(Debug, Clone, PartialEq, Eq)]
pub struct SyncMessage {
    pub message_type: SyncMessageType,
    pub peer_id: String,
    pub timestamp: i64,
    pub data: Option<SyncData>,
}

/// An envelope stamped with `timestamp`, the sender's current time.
pub fn create_sync_message(
    message_type: SyncMessageType,
    peer_id: String,
    data: Option<SyncData>,
    timestamp: i64,
) -> (r: SyncMessage)
    ensures
        r.timestamp == timestamp,
        r.message_type == message_type,
        r.peer_id == peer_id,
        r.data == data,
{
    SyncMessage { message_type, peer_id, timestamp, data }
}

/// Whether `k` has a recorded watermark in `t`.
pub open spec fn marks_has(t: Seq<(Seq<char>, i64)>, k: Seq<char>) -> bool {
    exists|i: int| 0 <= i < t.len() && #[trigger] t[i].0 == k
}

/// The watermark recorded for `k` in `t`.
pub open spec fn mark_of(t: Seq<(Seq<char>, i64)>, k: Seq<char>) -> Option<i64> {
    if marks_has(t, k) {
        Some(t[choose|i: int| 0 <= i < t.len() && #[trigger] t[i].0 == k].1)
    } else {
        None
    }
}

/// Per-peer watermarks: the last time a sync with each peer completed.
#[derive(Debug)]
pub struct Watermarks {
    marks: Vec<(String, i64)>,
}

impl View for Watermarks {
    type V = Seq<(Seq<char>, i64)>;

    closed spec fn view(&self) -> Seq<(Seq<char>, i64)> {
        self.marks@.map_values(|p: (String, i64)| (p.0@, p.1))
    }
}

impl Watermarks {
    #[verifier::type_invariant]
    closed spec fn keys_distinct(self) -> bool {
        forall|i: int, j: int|
            0 <= i < self.marks@.len() && 0 <= j < self.marks@.len() && i != j
                ==> #[trigger] self.marks@[i].0@ != #[trigger] self.marks@[j].0@
    }

    /// The watermark recorded for `k`.
    pub closed spec fn get_spec(&self, k: Seq<char>) -> Option<i64> {
        mark_of(self@, k)
    }

    pub fn new() -> (r: Self)
        ensures
            forall|k: Seq<char>| r.get_spec(k) is None,
    {
        let r = Watermarks { marks: Vec::new() };
        assert(r@ =~= Seq::empty());
        r
    }

    fn position(&self, key: &str) -> (r: Option<usize>)
        ensures
            match r {
                Some(i) => i < self@.len() && self@[i as int].0 == key@,
                None => !marks_has(self@, key@),
            },
    {
        let mut i: usize = 0;
        while i < self.marks.len()
            invariant
                i <= self.marks@.len(),
                forall|j: int| 0 <= j < i ==> #[trigger] self@[j].0 != key@,
            decreases self.marks.len() - i,
        {
            assert(self@[i as int].0 == self.marks@[i as int].0@);
            if str_eq(self.marks[i].0.as_str(), key) {
                return Some(i);
            }
            i = i + 1;
        }
        None
    }

    /// The watermark recorded for `key`.
    pub fn get(&self, key: &str) -> (r: Option<i64>)
        ensures
            r == self.get_spec(key@),
    {
        proof {
            use_type_invariant(self);
            lemma_view_distinct(self);
        }
        match self.position(key) {
            Some(i) => {
                proof {
                    lemma_mark_at(self@, key@, i as int);
                }
                Some(self.marks[i].1)
            },
            None => None,
        }
    }

    /// Records `t` as the watermark of `key`.
    pub fn set(&mut self, key: String, t: i64)
        ensures
            final(self).get_spec(key@) == Some(t),
            forall|k: Seq<char>| k != key@ ==> final(self).get_spec(k) == old(self).get_spec(k),
    {
        proof {
            use_type_invariant(&*self);
            lemma_view_distinct(self);
        }
        let ghost before = self@;
        let ghost k = key@;
        let pos = self.position(key.as_str());
        let ghost idx: int = match pos {
            Some(i) => i as int,
            None => before.len() as int,
        };
        let mut v: Vec<(String, i64)> = Vec::new();
        std::mem::swap(&mut self.marks, &mut v);
        match pos {
            Some(i) => {
                v.set(i, (key, t));
                self.marks = v;
                assert(self@ =~= before.update(i as int, (k, t)));
            },
            None => {
                proof {
                    assert forall|j: int| 0 <= j < v@.len() implies v@[j].0@ != k by {
                        assert(before[j].0 == v@[j].0@);
                    }
                }
                v.push((key, t));
                self.marks = v;
                assert(self@ =~= before.push((k, t)));
            },
        }
        proof {
            use_type_invariant(&*self);
            lemma_view_distinct(self);
            let after = self@;
            assert(after[idx] == (k, t));
            lemma_mark_at(after, k, idx);
            assert forall|k2: Seq<char>| k2 != k implies mark_of(after, k2) == mark_of(before, k2) by {
                if marks_has(before, k2) {
                    let j = choose|j: int| 0 <= j < before.len() && #[trigger] before[j].0 == k2;
                    lemma_mark_at(before, k2, j);
                    assert(after[j] == before[j]);
                    lemma_mark_at(after, k2, j);
                } else if marks_has(after, k2) {
                    let j = choose|j: int| 0 <= j < after.len() && #[trigger] after[j].0 == k2;
                    assert(j < before.len() && before[j] == after[j]);
                }
            }
        }
    }
}

/// Whether the peer is switched on.
pub open spec fn peer_enabled() -> spec_fn((Seq<char>, PeerView)) -> bool {
    |p: (Seq<char>, PeerView)| p.1.enabled
}

/// The state of a sync session: the configuration, and the watermark of
/// each peer it has synced with.
#[derive(Debug)]
pub struct SyncManager {
    config: SyncConfig,
    last_sync: Watermarks,
}

impl SyncManager {
    /// The configuration the session runs on.
    pub closed spec fn config_spec(&self) -> SyncConfig {
        self.config
    }

    /// The watermark recorded for the peer `k`.
    pub closed spec fn last_sync_spec(&self, k: Seq<char>) -> Option<i64> {
        self.last_sync.get_spec(k)
    }

    /// A session with no watermarks yet.
    pub fn new(config: SyncConfig) -> (r: Self)
        ensures
            r.config_spec() == config,
            forall|k: Seq<char>| r.last_sync_spec(k) is None,
    {
        SyncManager { config, last_sync: Watermarks::new() }
    }

    pub fn is_enabled(&self) -> (r: bool)
        ensures
            r == self.config_spec().enabled,
    {
        self.config.enabled
    }

    pub fn get_peer_id(&self) -> (r: &str)
        ensures
            r@ == self.config_spec().peer_id@,
    {
        self.config.peer_id.as_str()
    }

    pub fn get_listen_port(&self) -> (r: u16)
        ensures
            r == self.config_spec().listen_port,
    {
        self.config.listen_port
    }

    /// The enabled peers, in the order of the configuration.
    pub fn get_enabled_peers(&self) -> (r: Vec<(String, PeerConfig)>)
        ensures
            r@.map_values(|p: (String, PeerConfig)| (p.0@, p.1@)) == self.config_spec().peers@.filter(
                peer_enabled(),
            ),
    {
        let peers = &self.config.peers;
        let ghost all = peers@;
        let mut out: Vec<(String, PeerConfig)> = Vec::new();
        let mut i: usize = 0;
        while i < peers.len()
            invariant
                all == peers@,
                i <= all.len(),
                out@.map_values(|p: (String, PeerConfig)| (p.0@, p.1@)) == all.take(i as int).filter(
                    peer_enabled(),
                ),
            decreases all.len() - i,
        {
            let (name, peer) = peers.entry(i);
            let ghost before = all.take(i as int);
            let ghost after = all.take(i as int + 1);
            proof {
                assert(after.drop_last() =~= before);
                assert(after.last() == all[i as int]);
                reveal(Seq::filter);
                assert(after.filter(peer_enabled()) == (if peer_enabled()(after.last()) {
                    before.filter(peer_enabled()).push(after.last())
                } else {
                    before.filter(peer_enabled())
                }));
            }
            if peer.enabled {
                let ghost prev = out@;
                out.push((name.clone(), peer.duplicate()));
                assert(out@.map_values(|p: (String, PeerConfig)| (p.0@, p.1@)) =~= prev.map_values(
                    |p: (String, PeerConfig)| (p.0@, p.1@),
                ).push(all[i as int]));
            }
            i = i + 1;
        }
        assert(all.take(all.len() as int) =~= all);
        out
    }

    /// Records `timestamp` as the watermark of the peer `peer_id`.
    pub fn update_last_sync(&mut self, peer_id: String, timestamp: i64)
        ensures
            final(self).config_spec() == old(self).config_spec(),
            final(self).last_sync_spec(peer_id@) == Some(timestamp),
            forall|k: Seq<char>|
                k != peer_id@ ==> final(self).last_sync_spec(k) == old(self).last_sync_spec(k),
    {
        self.last_sync.set(peer_id, timestamp);
    }

    /// The watermark recorded for the peer `peer_id`.
    pub fn get_last_sync(&self, peer_id: &str) -> (r: Option<i64>)
        ensures
            r == self.last_sync_spec(peer_id@),
    {
        self.last_sync.get(peer_id)
    }
}

/// No two entries of `t` share a key.
pub open spec fn marks_distinct(t: Seq<(Seq<char>, i64)>) -> bool {
    forall|i: int, j: int|
        0 <= i < t.len() && 0 <= j < t.len() && i != j ==> #[trigger] t[i].0 != #[trigger] t[j].0
}

proof fn lemma_view_distinct(w: &Watermarks)
    requires
        w.keys_distinct(),
    ensures
        marks_distinct(w@),
{
    assert forall|i: int, j: int|
        0 <= i < w@.len() && 0 <= j < w@.len() && i != j implies #[trigger] w@[i].0
        != #[trigger] w@[j].0 by {
        assert(w@[i].0 == w.marks@[i].0@);
        assert(w@[j].0 == w.marks@[j].0@);
    }
}

proof fn lemma_mark_at(t: Seq<(Seq<char>, i64)>, k: Seq<char>, i: int)
    requires
        marks_distinct(t),
        0 <= i < t.len(),
        t[i].0 == k,
    ensures
        mark_of(t, k) == Some(t[i].1),
{
    assert(marks_has(t, k));
    let c = choose|c: int| 0 <= c < t.len() && #[trigger] t[c].0 == k;
    if c != i {
        assert(t[c].0 != t[i].0);
    }
}

} // verus!
