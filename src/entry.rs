use vstd::prelude::*;

verus! {

/// One captured clipboard value.
///
/// `timestamp` is the capture time in seconds since the Unix epoch.
/// `device_id` names the device that captured it, and `entry_id` is the
/// globally unique id given at capture; records written before ids existed
/// carry neither.
#[derive(Debug, Clone, PartialEq, Eq)]
pub struct ClipboardHistoryEntry {
    pub content: String,
    pub timestamp: i64,
    pub device_id: Option<String>,
    pub entry_id: Option<u64>,
}

/// The mathematical value of an entry.
pub struct EntryView {
    pub content: Seq<char>,
    pub timestamp: i64,
    pub device: Option<Seq<char>>,
    pub id: Option<u64>,
}

pub open spec fn opt_str_view(o: Option<String>) -> Option<Seq<char>> {
    match o {
        Some(s) => Some(s@),
        None => None,
    }
}

impl View for ClipboardHistoryEntry {
    type V = EntryView;

    open spec fn view(&self) -> EntryView {
        EntryView {
            content: self.content@,
            timestamp: self.timestamp,
            device: opt_str_view(self.device_id),
            id: self.entry_id,
        }
    }
}

/// The abstract value of a log: the views of its entries, in order.
pub open spec fn log_view(v: Seq<ClipboardHistoryEntry>) -> Seq<EntryView> {
    v.map_values(|e: ClipboardHistoryEntry| e@)
}

/// What deduplication compares: the entry id when there is one, and the
/// exact content otherwise.
pub enum EntryKey {
    Id(u64),
    Content(Seq<char>),
}

pub open spec fn key_of(e: EntryView) -> EntryKey {
    match e.id {
        Some(i) => EntryKey::Id(i),
        None => EntryKey::Content(e.content),
    }
}

pub open spec fn has_key(log: Seq<EntryView>, k: EntryKey) -> bool {
    exists|i: int| 0 <= i < log.len() && #[trigger] key_of(log[i]) == k
}

/// A well-formed log: no two entries share an entry id (entries without
/// an id are not constrained).
pub open spec fn ids_unique(log: Seq<EntryView>) -> bool {
    forall|i: int, j: int|
        0 <= i < log.len() && 0 <= j < log.len() && i != j && (#[trigger] log[i]).id is Some
            ==> log[i].id != (#[trigger] log[j]).id
}

/// The entries of `log` captured strictly after `since`, in order.
pub open spec fn entries_after(log: Seq<EntryView>, since: i64) -> Seq<EntryView> {
    log.filter(newer_than(since))
}

pub open spec fn newer_than(since: i64) -> spec_fn(EntryView) -> bool {
    |e: EntryView| e.timestamp > since
}

impl ClipboardHistoryEntry {
    /// A copy with the same value.
    pub fn duplicate(&self) -> (r: Self)
        ensures
            r@ == self@,
    {
        let device_id = match &self.device_id {
            Some(d) => Some(d.clone()),
            None => None,
        };
        ClipboardHistoryEntry {
            content: self.content.clone(),
            timestamp: self.timestamp,
            device_id,
            entry_id: self.entry_id,
        }
    }

    /// Whether the two entries have the same deduplication key.
    pub fn same_key(&self, other: &Self) -> (r: bool)
        ensures
            r == (key_of(self@) == key_of(other@)),
    {
        match (self.entry_id, other.entry_id) {
            (Some(x), Some(y)) => x == y,
            (None, None) => self.content == other.content,
            _ => false,
        }
    }

    /// Whether the two entries have the same value.
    pub fn same_value(&self, other: &Self) -> (r: bool)
        ensures
            r == (self@ == other@),
    {
        let dev_eq = match (&self.device_id, &other.device_id) {
            (Some(a), Some(b)) => *a == *b,
            (None, None) => true,
            _ => false,
        };
        self.content == other.content && self.timestamp == other.timestamp && dev_eq
            && self.entry_id == other.entry_id
    }

    /// Whether the entry was captured on the device named `device`.
    pub fn from_device(&self, device: &String) -> (r: bool)
        ensures
            r == (self@.device == Some(device@)),
    {
        match &self.device_id {
            Some(d) => *d == *device,
            None => false,
        }
    }
}

/// The entries of `entries` captured strictly after `since_timestamp`, in
/// the order they had.
pub fn filter_entries_since_timestamp(
    entries: &Vec<ClipboardHistoryEntry>,
    since_timestamp: i64,
) -> (r: Vec<ClipboardHistoryEntry>)
    ensures
        log_view(r@) == entries_after(log_view(entries@), since_timestamp),
{
    let mut out: Vec<ClipboardHistoryEntry> = Vec::new();
    let mut i: usize = 0;
    while i < entries.len()
        invariant
            i <= entries.len(),
            log_view(out@) == log_view(entries@).take(i as int).filter(newer_than(since_timestamp)),
        decreases entries.len() - i,
    {
        let ghost before = log_view(entries@).take(i as int);
        let ghost after = log_view(entries@).take(i as int + 1);
        proof {
            assert(after.drop_last() =~= before);
            assert(after.last() == entries@[i as int]@);
            assert(newer_than(since_timestamp)(after.last()) == (entries@[i as int].timestamp > since_timestamp));
            reveal(Seq::filter);
            assert(after.filter(newer_than(since_timestamp)) == (if newer_than(since_timestamp)(after.last()) {
                after.drop_last().filter(newer_than(since_timestamp)).push(after.last())
            } else {
                after.drop_last().filter(newer_than(since_timestamp))
            }));
        }
        if entries[i].timestamp > since_timestamp {
            out.push(entries[i].duplicate());
            assert(log_view(out@) =~= before.filter(newer_than(since_timestamp)).push(entries@[i as int]@));
        } else {
            assert(after.filter(newer_than(since_timestamp)) == before.filter(newer_than(since_timestamp)));
        }
        i = i + 1;
    }
    assert(log_view(entries@).take(entries.len() as int) =~= log_view(entries@));
    out
}

} // verus!
