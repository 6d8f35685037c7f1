use vstd::prelude::*;
use vstd::string::*;

use crate::entry::{log_view, ClipboardHistoryEntry, EntryView};
use crate::history::{merge_clipboard_history, stored_merge};
use crate::merge::ConflictResolutionStrategy;
use crate::text::{all_space, str_eq, trim_bounds};

verus! {

/// The port of the peer-to-peer listener.
pub const ZP_P2P_PORT: u16 = 7643;

/// A message of the peer-to-peer broadcast mode.
#[derive(Debug, Clone, PartialEq, Eq)]
pub enum ZpMessage {
    /// A whole history, in answer to `RequestHistory`.
    History(Vec<ClipboardHistoryEntry>),
    /// One entry just captured by the sender.
    NewEntry(ClipboardHistoryEntry),
    /// A request for the receiver's whole history.
    RequestHistory,
}

/// The address to connect to for `addr`: as given when it names a port,
/// else with the peer-to-peer port added.
pub open spec fn peer_address_spec(addr: Seq<char>) -> Seq<char> {
    if addr.contains(':') {
        addr
    } else {
        addr + seq![':', '7', '6', '4', '3']
    }
}

pub fn peer_address(addr: &str) -> (r: String)
    ensures
        r@ == peer_address_spec(addr@),
{
    let n = addr.unicode_len();
    let mut i: usize = 0;
    while i < n
        invariant
            n == addr@.len(),
            i <= n,
            forall|j: int| 0 <= j < i ==> addr@[j] != ':',
        decreases n - i,
    {
        if addr.get_char(i) == ':' {
            return addr.to_owned();
        }
        i = i + 1;
    }
    proof {
        reveal_strlit(":7643");
        assert(":7643"@ =~= seq![':', '7', '6', '4', '3']);
    }
    let mut out = addr.to_owned();
    out.append(":7643");
    out
}

/// The peers known to the broadcast mode: addresses, each once, in the
/// order they were learned.
#[derive(Debug)]
pub struct KnownPeers {
    addrs: Vec<String>,
}

impl View for KnownPeers {
    type V = Seq<Seq<char>>;

    closed spec fn view(&self) -> Seq<Seq<char>> {
        self.addrs@.map_values(|s: String| s@)
    }
}

/// The list learned from the lines of the known-peers file: each line that
/// is not blank, the first time it appears, in order.
pub open spec fn learned(lines: Seq<Seq<char>>) -> Seq<Seq<char>>
    decreases lines.len(),
{
    if lines.len() == 0 {
        Seq::empty()
    } else {
        let prev = learned(lines.drop_last());
        let l = lines.last();
        if all_space(l) || prev.contains(l) {
            prev
        } else {
            prev.push(l)
        }
    }
}

impl KnownPeers {
    #[verifier::type_invariant]
    closed spec fn each_once(self) -> bool {
        self@.no_duplicates()
    }

    pub fn new() -> (r: Self)
        ensures
            r@.len() == 0,
            r@.no_duplicates(),
    {
        let r = KnownPeers { addrs: Vec::new() };
        assert(r@ =~= Seq::<Seq<char>>::empty());
        r
    }

    pub fn len(&self) -> (r: usize)
        ensures
            r == self@.len(),
            self@.no_duplicates(),
    {
        proof {
            use_type_invariant(self);
        }
        self.addrs.len()
    }

    pub fn get(&self, i: usize) -> (r: &String)
        requires
            i < self@.len(),
        ensures
            r@ == self@[i as int],
            self@.no_duplicates(),
    {
        proof {
            use_type_invariant(self);
        }
        &self.addrs[i]
    }

    /// Whether `addr` is known.
    pub fn contains(&self, addr: &str) -> (r: bool)
        ensures
            r == self@.contains(addr@),
            self@.no_duplicates(),
    {
        proof {
            use_type_invariant(self);
        }
        let mut i: usize = 0;
        while i < self.addrs.len()
            invariant
                i <= self.addrs@.len(),
                self@.no_duplicates(),
                forall|j: int| 0 <= j < i ==> #[trigger] self@[j] != addr@,
            decreases self.addrs.len() - i,
        {
            assert(self@[i as int] == self.addrs@[i as int]@);
            if str_eq(self.addrs[i].as_str(), addr) {
                return true;
            }
            i = i + 1;
        }
        false
    }

    /// Learns `addr`; says whether it was new (and the list is to be saved).
    /// Afterwards `addr` is in the list exactly once.
    pub fn add(&mut self, addr: String) -> (r: bool)
        ensures
            r == !old(self)@.contains(addr@),
            r ==> final(self)@ == old(self)@.push(addr@),
            !r ==> final(self)@ == old(self)@,
            final(self)@.no_duplicates(),
            final(self)@.contains(addr@),
    {
        proof {
            use_type_invariant(&*self);
        }
        if self.contains(addr.as_str()) {
            return false;
        }
        let ghost before = self@;
        let ghost a = addr@;
        let mut v: Vec<String> = Vec::new();
        std::mem::swap(&mut self.addrs, &mut v);
        v.push(addr);
        proof {
            assert(v@.map_values(|s: String| s@) =~= before.push(a));
            assert(before.push(a)[before.len() as int] == a);
        }
        self.addrs = v;
        true
    }

    /// The list stored in the known-peers file, from its lines: the lines
    /// that are not blank, each once, in the order they first appear.
    pub fn from_lines(lines: &Vec<String>) -> (r: Self)
        ensures
            r@ == learned(lines@.map_values(|s: String| s@)),
            r@.no_duplicates(),
    {
        let ghost lv = lines@.map_values(|s: String| s@);
        let mut peers = KnownPeers::new();
        let mut i: usize = 0;
        assert(lv.take(0) =~= Seq::<Seq<char>>::empty());
        while i < lines.len()
            invariant
                i <= lines@.len(),
                lv == lines@.map_values(|s: String| s@),
                peers@ == learned(lv.take(i as int)),
            decreases lines.len() - i,
        {
            let line = &lines[i];
            let (lo, hi) = trim_bounds(line.as_str());
            proof {
                let t = lv.take(i as int + 1);
                assert(t.drop_last() =~= lv.take(i as int));
                assert(t.last() == line@);
                if lo < hi {
                    assert(!crate::text::is_space(line@[lo as int]));
                } else {
                    assert(all_space(line@));
                }
            }
            if lo < hi {
                peers.add(line.clone());
            }
            i = i + 1;
        }
        assert(lv.take(lines@.len() as int) =~= lv);
        proof {
            use_type_invariant(&peers);
        }
        peers
    }
}

/// What receiving a broadcast message comes to: the log to store, if any,
/// and the message to answer with, if any.
#[derive(Debug)]
pub struct IncomingOutcome {
    pub store: Option<Vec<ClipboardHistoryEntry>>,
    pub reply: Option<ZpMessage>,
}

/// Handles a message received by the broadcast listener, given the local
/// log (`None` when it could not be read, in which case nothing is stored
/// and no history is sent).
///
/// A new entry, or a whole history, is merged into the log, which is then
/// to be stored. A history request is answered with the whole log.
pub fn handle_incoming(
    message: ZpMessage,
    log: Option<&Vec<ClipboardHistoryEntry>>,
    strategy: &ConflictResolutionStrategy,
    own: &String,
) -> (r: IncomingOutcome)
    ensures
        log is None ==> r.store is None && r.reply is None,
        log matches Some(l) ==> match message {
            ZpMessage::NewEntry(e) => {
                &&& r.reply is None
                &&& r.store matches Some(s)
                &&& log_view(s@) == stored_merge(log_view(l@), seq![e@], *strategy, own@)
            },
            ZpMessage::History(es) => {
                &&& r.reply is None
                &&& r.store matches Some(s)
                &&& log_view(s@) == stored_merge(log_view(l@), log_view(es@), *strategy, own@)
            },
            ZpMessage::RequestHistory => {
                &&& r.store is None
                &&& r.reply matches Some(ZpMessage::History(h))
                &&& log_view(h@) == log_view(l@)
            },
        },
{
    let l = match log {
        Some(l) => l,
        None => return IncomingOutcome { store: None, reply: None },
    };
    match message {
        ZpMessage::NewEntry(e) => {
            let ghost ev = e@;
            let mut one: Vec<ClipboardHistoryEntry> = Vec::new();
            one.push(e);
            assert(log_view(one@) =~= seq![ev]);
            let s = merge_clipboard_history(l, &one, strategy, own);
            IncomingOutcome { store: Some(s), reply: None }
        },
        ZpMessage::History(es) => {
            let s = merge_clipboard_history(l, &es, strategy, own);
            IncomingOutcome { store: Some(s), reply: None }
        },
        ZpMessage::RequestHistory => {
            let h = crate::merge::copy_log(l);
            IncomingOutcome { store: None, reply: Some(ZpMessage::History(h)) }
        },
    }
}

} // verus!
