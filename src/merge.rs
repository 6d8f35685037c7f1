use vstd::prelude::*;

use crate::entry::{has_key, ids_unique, key_of, log_view, ClipboardHistoryEntry, EntryKey, EntryView};

verus! {

/// How a remote entry that conflicts with a local one (same key, other
/// value) is settled.
#[derive(Debug, Clone, PartialEq, Eq)]
pub enum ConflictResolutionStrategy {
    /// The entry with the later timestamp wins.
    KeepNewest,
    /// Both entries are kept.
    KeepBoth,
    /// The local entry always wins.
    PreferLocalDevice,
    /// The remote entry wins only when it was captured on the named device.
    PreferSpecificDevice(String),
}

/// Whether, under strategy `s`, the remote entry `r` takes the place of the
/// conflicting entry `e`.
pub open spec fn displaces(s: ConflictResolutionStrategy, r: EntryView, e: EntryView) -> bool {
    match s {
        ConflictResolutionStrategy::KeepNewest => r.timestamp > e.timestamp,
        ConflictResolutionStrategy::PreferSpecificDevice(d) => r.device == Some(d@),
        _ => false,
    }
}

/// `log` with every entry of key `key_of(r)` that `r` displaces replaced by `r`.
pub open spec fn replace_displaced(
    log: Seq<EntryView>,
    r: EntryView,
    s: ConflictResolutionStrategy,
) -> Seq<EntryView> {
    log.map_values(
        |e: EntryView|
            if key_of(e) == key_of(r) && displaces(s, r, e) {
                r
            } else {
                e
            },
    )
}

proof fn lemma_replace_index(log: Seq<EntryView>, r: EntryView, s: ConflictResolutionStrategy, i: int)
    requires
        0 <= i < log.len(),
    ensures
        replace_displaced(log, r, s).len() == log.len(),
        replace_displaced(log, r, s)[i] == (if key_of(log[i]) == key_of(r) && displaces(s, r, log[i]) {
            r
        } else {
            log[i]
        }),
{
}

/// Whether `e` records the same event as `r`: the same key and the same
/// content.
pub open spec fn same_event(e: EntryView, r: EntryView) -> bool {
    key_of(e) == key_of(r) && e.content == r.content
}

/// Whether `log` already records the event `r`.
pub open spec fn holds_event(log: Seq<EntryView>, r: EntryView) -> bool {
    exists|i: int| 0 <= i < log.len() && #[trigger] same_event(log[i], r)
}

/// The effect of one remote entry `r` on the log `acc`, on the device `own`:
/// an entry of this device is dropped, an event already recorded is
/// skipped, a new key is appended, and a true conflict (same key, other
/// content) is settled by the strategy.
pub open spec fn merge_step(
    acc: Seq<EntryView>,
    r: EntryView,
    s: ConflictResolutionStrategy,
    own: Seq<char>,
) -> Seq<EntryView> {
    if r.device == Some(own) {
        acc
    } else if holds_event(acc, r) {
        acc
    } else if !has_key(acc, key_of(r)) {
        acc.push(r)
    } else if s is KeepBoth {
        acc.push(r)
    } else {
        replace_displaced(acc, r, s)
    }
}

/// The result of merging the remote entries, in order, into `local`.
pub open spec fn merged(
    local: Seq<EntryView>,
    remote: Seq<EntryView>,
    s: ConflictResolutionStrategy,
    own: Seq<char>,
) -> Seq<EntryView>
    decreases remote.len(),
{
    if remote.len() == 0 {
        local
    } else {
        merge_step(merged(local, remote.drop_last(), s, own), remote.last(), s, own)
    }
}

/// Applies one remote entry to the log.
fn apply_remote_entry(
    acc: &mut Vec<ClipboardHistoryEntry>,
    r: &ClipboardHistoryEntry,
    strategy: &ConflictResolutionStrategy,
    own: &String,
)
    ensures
        log_view(final(acc)@) == merge_step(log_view(old(acc)@), r@, *strategy, own@),
{
    let ghost start = log_view(acc@);
    if r.from_device(own) {
        return ;
    }
    let mut found_value = false;
    let mut found_key = false;
    let mut i: usize = 0;
    while i < acc.len()
        invariant
            i <= acc.len(),
            log_view(acc@) == start,
            found_value == (exists|j: int| 0 <= j < i && #[trigger] same_event(start[j], r@)),
            found_key == (exists|j: int| 0 <= j < i && #[trigger] key_of(start[j]) == key_of(r@)),
        decreases acc.len() - i,
    {
        assert(start[i as int] == acc@[i as int]@);
        let hit = acc[i].same_key(r) && acc[i].content == r.content;
        assert(hit == same_event(start[i as int], r@));
        if hit {
            found_value = true;
        }
        if acc[i].same_key(r) {
            found_key = true;
        }
        i = i + 1;
    }
    if found_value {
        return ;
    }
    if !found_key {
        acc.push(r.duplicate());
        assert(log_view(acc@) =~= start.push(r@));
        return ;
    }
    if let ConflictResolutionStrategy::KeepBoth = strategy {
        acc.push(r.duplicate());
        assert(log_view(acc@) =~= start.push(r@));
        return ;
    }
    let ghost target = replace_displaced(start, r@, *strategy);
    assert forall|j: int| 0 <= j < acc@.len() implies #[trigger] acc@[j]@ == start[j] by {}
    let mut k: usize = 0;
    while k < acc.len()
        invariant
            k <= acc.len(),
            acc@.len() == start.len(),
            target == replace_displaced(start, r@, *strategy),
            forall|j: int| 0 <= j < k ==> #[trigger] acc@[j]@ == target[j],
            forall|j: int| k <= j < acc@.len() ==> #[trigger] acc@[j]@ == start[j],
        decreases acc.len() - k,
    {
        assert(start[k as int] == acc@[k as int]@);
        proof {
            lemma_replace_index(start, r@, *strategy, k as int);
        }
        let wins = match strategy {
            ConflictResolutionStrategy::KeepNewest => r.timestamp > acc[k].timestamp,
            ConflictResolutionStrategy::PreferSpecificDevice(d) => r.from_device(d),
            _ => false,
        };
        assert(wins == displaces(*strategy, r@, start[k as int]));
        if acc[k].same_key(r) && wins {
            acc.set(k, r.duplicate());
        }
        k = k + 1;
    }
    assert(log_view(acc@) =~= target);
}

/// A copy of the log with the same value.
pub fn copy_log(log: &Vec<ClipboardHistoryEntry>) -> (r: Vec<ClipboardHistoryEntry>)
    ensures
        log_view(r@) == log_view(log@),
{
    let mut acc: Vec<ClipboardHistoryEntry> = Vec::new();
    let mut i: usize = 0;
    while i < log.len()
        invariant
            i <= log.len(),
            acc@.len() == i,
            forall|j: int| 0 <= j < i ==> #[trigger] acc@[j]@ == log@[j]@,
        decreases log.len() - i,
    {
        acc.push(log[i].duplicate());
        i = i + 1;
    }
    assert(log_view(acc@) =~= log_view(log@));
    acc
}

/// Merges the remote entries, in order, into a copy of the local log (the
/// merge engine; `merge_clipboard_history` orders and caps the result for
/// storage).
///
/// A remote entry captured on this device (`own`) is dropped; one that is
/// already present is skipped; one whose key is new is appended; one that
/// conflicts with local entries of the same key is settled by `strategy`.
pub fn merge_entries(
    local: &Vec<ClipboardHistoryEntry>,
    remote: &Vec<ClipboardHistoryEntry>,
    strategy: &ConflictResolutionStrategy,
    own: &String,
) -> (r: Vec<ClipboardHistoryEntry>)
    ensures
        log_view(r@) == merged(log_view(local@), log_view(remote@), *strategy, own@),
{
    let mut acc = copy_log(local);
    let ghost lv = log_view(local@);
    let ghost rv = log_view(remote@);
    let mut j: usize = 0;
    while j < remote.len()
        invariant
            j <= remote.len(),
            rv == log_view(remote@),
            log_view(acc@) == merged(lv, rv.take(j as int), *strategy, own@),
        decreases remote.len() - j,
    {
        proof {
            assert(rv.take(j as int + 1).drop_last() =~= rv.take(j as int));
            assert(rv.take(j as int + 1).last() == remote@[j as int]@);
        }
        apply_remote_entry(&mut acc, &remote[j], strategy, own);
        j = j + 1;
    }
    assert(rv.take(remote.len() as int) =~= rv);
    acc
}

/// Whether a further application of `r` leaves `acc` as it is.
pub open spec fn settled(
    acc: Seq<EntryView>,
    r: EntryView,
    s: ConflictResolutionStrategy,
    own: Seq<char>,
) -> bool {
    merge_step(acc, r, s, own) == acc
}

proof fn lemma_step_settles(
    acc: Seq<EntryView>,
    r: EntryView,
    s: ConflictResolutionStrategy,
    own: Seq<char>,
)
    ensures
        settled(merge_step(acc, r, s, own), r, s, own),
{
    let m = merge_step(acc, r, s, own);
    if r.device == Some(own) || holds_event(acc, r) {
    } else if !has_key(acc, key_of(r)) || s is KeepBoth {
        assert(same_event(m[acc.len() as int], r));
    } else {
        if exists|i: int|
            0 <= i < acc.len() && key_of(acc[i]) == key_of(r) && displaces(s, r, #[trigger] acc[i]) {
            let i = choose|i: int|
                0 <= i < acc.len() && key_of(acc[i]) == key_of(r) && displaces(
                    s,
                    r,
                    #[trigger] acc[i],
                );
            lemma_replace_index(acc, r, s, i);
            assert(same_event(m[i], r));
        } else {
            assert forall|i: int| 0 <= i < acc.len() implies m[i] == acc[i] by {
                lemma_replace_index(acc, r, s, i);
            }
            assert(m =~= acc);
        }
    }
}

/// An entry without an id is keyed by its content: any entry of its key
/// records the same event.
proof fn lemma_content_key_is_event(log: Seq<EntryView>, r: EntryView)
    requires
        r.id is None,
        has_key(log, key_of(r)),
    ensures
        holds_event(log, r),
{
    let i = choose|i: int| 0 <= i < log.len() && #[trigger] key_of(log[i]) == key_of(r);
    assert(same_event(log[i], r));
}

proof fn lemma_step_keeps_settled(
    acc: Seq<EntryView>,
    r: EntryView,
    r2: EntryView,
    s: ConflictResolutionStrategy,
    own: Seq<char>,
)
    requires
        settled(acc, r, s, own),
        key_of(r2) != key_of(r) || r.id is None,
    ensures
        settled(merge_step(acc, r2, s, own), r, s, own),
{
    let m = merge_step(acc, r2, s, own);
    if r.device == Some(own) {
    } else if r.id is None {
        if !holds_event(acc, r) {
            if !has_key(acc, key_of(r)) {
                assert(merge_step(acc, r, s, own).len() == acc.len() + 1);
            }
            lemma_content_key_is_event(acc, r);
        }
        let i = choose|i: int| 0 <= i < acc.len() && #[trigger] same_event(acc[i], r);
        assert(key_of(acc[i]) == key_of(r));
        lemma_step_keeps_keys(acc, r2, s, own, key_of(r));
        lemma_content_key_is_event(m, r);
    } else {
        assert(m.len() >= acc.len());
        assert forall|i: int| 0 <= i < acc.len() && key_of(acc[i]) == key_of(r) implies m[i]
            == acc[i] by {
            if m != acc && !(m.len() == acc.len() + 1) {
                lemma_replace_index(acc, r2, s, i);
            }
        }
        if holds_event(acc, r) {
            let i = choose|i: int| 0 <= i < acc.len() && #[trigger] same_event(acc[i], r);
            assert(m[i] == acc[i]);
            assert(same_event(m[i], r));
        } else if holds_event(m, r) {
        } else {
            let i = choose|i: int| 0 <= i < acc.len() && #[trigger] key_of(acc[i]) == key_of(r);
            assert(key_of(m[i]) == key_of(r));
            assert(has_key(m, key_of(r)));
            assert forall|j: int| 0 <= j < acc.len() implies !(key_of(acc[j]) == key_of(r)
                && displaces(s, r, acc[j])) by {
                lemma_replace_index(acc, r, s, j);
                if key_of(acc[j]) == key_of(r) && displaces(s, r, acc[j]) {
                    assert(replace_displaced(acc, r, s)[j] == r);
                    assert(same_event(acc[j], r));
                }
            }
            assert forall|j: int| 0 <= j < m.len() implies replace_displaced(m, r, s)[j] == m[j] by {
                lemma_replace_index(m, r, s, j);
                if j < acc.len() && m != acc && m.len() == acc.len() {
                    lemma_replace_index(acc, r2, s, j);
                }
            }
            assert(replace_displaced(m, r, s) =~= m);
        }
    }
}

/// Whether `r` is settled depends only on which entries the log holds,
/// not on their order or number.
pub proof fn lemma_settled_by_members(
    a: Seq<EntryView>,
    b: Seq<EntryView>,
    r: EntryView,
    s: ConflictResolutionStrategy,
    own: Seq<char>,
)
    requires
        forall|e: EntryView| a.contains(e) <==> b.contains(e),
        settled(a, r, s, own),
    ensures
        settled(b, r, s, own),
{
    if r.device == Some(own) {
    } else if holds_event(a, r) {
        let i = choose|i: int| 0 <= i < a.len() && #[trigger] same_event(a[i], r);
        assert(a.contains(a[i]));
        let j = choose|j: int| 0 <= j < b.len() && b[j] == a[i];
        assert(same_event(b[j], r));
    } else if holds_event(b, r) {
    } else {
        if !has_key(a, key_of(r)) || s is KeepBoth {
            assert(merge_step(a, r, s, own).len() == a.len() + 1);
        }
        let i = choose|i: int| 0 <= i < a.len() && #[trigger] key_of(a[i]) == key_of(r);
        assert(a.contains(a[i]));
        let j = choose|j: int| 0 <= j < b.len() && b[j] == a[i];
        assert(key_of(b[j]) == key_of(r));
        assert(has_key(b, key_of(r)));
        assert forall|k: int| 0 <= k < b.len() implies replace_displaced(b, r, s)[k] == b[k] by {
            lemma_replace_index(b, r, s, k);
            if key_of(b[k]) == key_of(r) && displaces(s, r, b[k]) {
                assert(b.contains(b[k]));
                let x = choose|x: int| 0 <= x < a.len() && a[x] == b[k];
                lemma_replace_index(a, r, s, x);
                assert(replace_displaced(a, r, s)[x] == r);
                assert(same_event(a[x], r));
            }
        }
        assert(replace_displaced(b, r, s) =~= b);
    }
}

/// Two entries of a log whose ids are distinct have different keys, unless
/// the second has no id.
proof fn lemma_distinct_keys(log: Seq<EntryView>, i: int, j: int)
    requires
        ids_unique(log),
        0 <= i < log.len(),
        0 <= j < log.len(),
        i != j,
    ensures
        key_of(log[i]) != key_of(log[j]) || log[j].id is None,
{
    if log[j].id is Some {
        assert(log[j].id != log[i].id);
    }
}

pub proof fn lemma_merged_settles(
    local: Seq<EntryView>,
    remote: Seq<EntryView>,
    s: ConflictResolutionStrategy,
    own: Seq<char>,
)
    requires
        ids_unique(remote),
    ensures
        forall|i: int|
            0 <= i < remote.len() ==> settled(merged(local, remote, s, own), #[trigger] remote[i], s, own),
    decreases remote.len(),
{
    if remote.len() > 0 {
        let prev = remote.drop_last();
        assert(ids_unique(prev)) by {
            assert forall|i: int, j: int|
                0 <= i < prev.len() && 0 <= j < prev.len() && i != j && (#[trigger] prev[i]).id is Some
                implies prev[i].id != (#[trigger] prev[j]).id by {
                assert(prev[i] == remote[i] && prev[j] == remote[j]);
            }
        }
        lemma_merged_settles(local, prev, s, own);
        let m0 = merged(local, prev, s, own);
        assert forall|i: int| 0 <= i < remote.len() implies settled(
            merged(local, remote, s, own),
            #[trigger] remote[i],
            s,
            own,
        ) by {
            if i < remote.len() - 1 {
                assert(prev[i] == remote[i]);
                lemma_distinct_keys(remote, remote.len() - 1, i);
                lemma_step_keeps_settled(m0, remote[i], remote.last(), s, own);
            } else {
                lemma_step_settles(m0, remote.last(), s, own);
            }
        }
    }
}

pub proof fn lemma_merge_settled_unchanged(
    acc: Seq<EntryView>,
    remote: Seq<EntryView>,
    s: ConflictResolutionStrategy,
    own: Seq<char>,
)
    requires
        forall|i: int| 0 <= i < remote.len() ==> settled(acc, #[trigger] remote[i], s, own),
    ensures
        merged(acc, remote, s, own) == acc,
    decreases remote.len(),
{
    if remote.len() > 0 {
        let prev = remote.drop_last();
        assert forall|i: int| 0 <= i < prev.len() implies settled(acc, #[trigger] prev[i], s, own) by {
            assert(prev[i] == remote[i]);
        }
        lemma_merge_settled_unchanged(acc, prev, s, own);
        assert(settled(acc, remote[remote.len() - 1], s, own));
    }
}

/// Merging the same remote log a second time changes nothing:
/// `merge(merge(A, B), B) == merge(A, B)`, when no two entries of `B` share
/// an entry id.
pub proof fn lemma_merge_idempotent(
    local: Seq<EntryView>,
    remote: Seq<EntryView>,
    s: ConflictResolutionStrategy,
    own: Seq<char>,
)
    requires
        ids_unique(remote),
    ensures
        merged(merged(local, remote, s, own), remote, s, own) == merged(local, remote, s, own),
{
    lemma_merged_settles(local, remote, s, own);
    lemma_merge_settled_unchanged(merged(local, remote, s, own), remote, s, own);
}

/// Whether the remote entry was captured on some other device than `own`.
pub open spec fn foreign(own: Seq<char>) -> spec_fn(EntryView) -> bool {
    |e: EntryView| e.device != Some(own)
}

/// Remote entries captured on this device have no effect at all: merging
/// `remote` gives the same log as merging only its entries from other
/// devices. So such an entry is never added a second time and never takes
/// the place of a local entry.
pub proof fn lemma_own_entries_ignored(
    local: Seq<EntryView>,
    remote: Seq<EntryView>,
    s: ConflictResolutionStrategy,
    own: Seq<char>,
)
    ensures
        merged(local, remote, s, own) == merged(local, remote.filter(foreign(own)), s, own),
    decreases remote.len(),
{
    reveal(Seq::filter);
    if remote.len() > 0 {
        lemma_own_entries_ignored(local, remote.drop_last(), s, own);
        let f = remote.drop_last().filter(foreign(own));
        if foreign(own)(remote.last()) {
            assert(remote.filter(foreign(own)) == f.push(remote.last()));
            assert(f.push(remote.last()).drop_last() =~= f);
        } else {
            assert(remote.filter(foreign(own)) == f);
        }
    }
}

/// Remote entries that all come from this device leave the local log as it
/// is: none is added, and none takes the place of a local entry, whatever
/// its id.
pub proof fn lemma_only_own_entries_change_nothing(
    local: Seq<EntryView>,
    remote: Seq<EntryView>,
    s: ConflictResolutionStrategy,
    own: Seq<char>,
)
    requires
        forall|i: int| 0 <= i < remote.len() ==> (#[trigger] remote[i]).device == Some(own),
    ensures
        merged(local, remote, s, own) == local,
    decreases remote.len(),
{
    if remote.len() > 0 {
        let prev = remote.drop_last();
        assert forall|i: int| 0 <= i < prev.len() implies (#[trigger] prev[i]).device == Some(own) by {
            assert(prev[i] == remote[i]);
        }
        lemma_only_own_entries_change_nothing(local, prev, s, own);
        assert(remote.last().device == Some(own));
    }
}

/// Entries with equal keys have equal ids.
proof fn lemma_key_gives_id(a: EntryView, b: EntryView)
    requires
        key_of(a) == key_of(b),
    ensures
        a.id == b.id,
{
    match a.id {
        Some(x) => {
            assert(key_of(a) == EntryKey::Id(x));
        },
        None => {
            assert(key_of(a) is Content);
        },
    }
}

proof fn lemma_step_keeps_ids_unique(
    acc: Seq<EntryView>,
    r: EntryView,
    s: ConflictResolutionStrategy,
    own: Seq<char>,
)
    requires
        ids_unique(acc),
        !(s is KeepBoth),
    ensures
        ids_unique(merge_step(acc, r, s, own)),
{
    let m = merge_step(acc, r, s, own);
    if r.device == Some(own) || holds_event(acc, r) {
    } else if !has_key(acc, key_of(r)) {
        assert forall|i: int, j: int|
            0 <= i < m.len() && 0 <= j < m.len() && i != j && (#[trigger] m[i]).id is Some
            implies m[i].id != (#[trigger] m[j]).id by {
            if i < acc.len() && j < acc.len() {
                assert(m[i] == acc[i] && m[j] == acc[j]);
            } else if i < acc.len() {
                assert(m[j] == r);
                if m[i].id == r.id {
                    assert(key_of(acc[i]) == key_of(r));
                }
            } else {
                assert(m[i] == r);
                if m[j].id == r.id {
                    assert(key_of(acc[j]) == key_of(r));
                }
            }
        }
    } else {
        assert forall|i: int, j: int|
            0 <= i < m.len() && 0 <= j < m.len() && i != j && (#[trigger] m[i]).id is Some
            implies m[i].id != (#[trigger] m[j]).id by {
            lemma_replace_index(acc, r, s, i);
            lemma_replace_index(acc, r, s, j);
            lemma_key_gives_id(m[i], acc[i]);
            lemma_key_gives_id(m[j], acc[j]);
        }
    }
}

/// Under every strategy but `KeepBoth`, merging into a log whose entry ids
/// are distinct gives a log whose entry ids are distinct: at most one entry
/// for each id.
pub proof fn lemma_merge_keeps_ids_unique(
    local: Seq<EntryView>,
    remote: Seq<EntryView>,
    s: ConflictResolutionStrategy,
    own: Seq<char>,
)
    requires
        ids_unique(local),
        !(s is KeepBoth),
    ensures
        ids_unique(merged(local, remote, s, own)),
    decreases remote.len(),
{
    if remote.len() > 0 {
        lemma_merge_keeps_ids_unique(local, remote.drop_last(), s, own);
        lemma_step_keeps_ids_unique(merged(local, remote.drop_last(), s, own), remote.last(), s, own);
    }
}

proof fn lemma_keep_both_shape(
    local: Seq<EntryView>,
    remote: Seq<EntryView>,
    own: Seq<char>,
)
    requires
        ids_unique(remote),
    ensures
        merged(local, remote, ConflictResolutionStrategy::KeepBoth, own).len() >= local.len(),
        merged(local, remote, ConflictResolutionStrategy::KeepBoth, own).take(local.len() as int)
            == local,
        ids_unique(
            merged(local, remote, ConflictResolutionStrategy::KeepBoth, own).skip(local.len() as int),
        ),
        forall|p: int|
            local.len() <= p < merged(local, remote, ConflictResolutionStrategy::KeepBoth, own).len()
                ==> exists|q: int|
                0 <= q < remote.len() && #[trigger] merged(
                    local,
                    remote,
                    ConflictResolutionStrategy::KeepBoth,
                    own,
                )[p] == remote[q],
    decreases remote.len(),
{
    let s = ConflictResolutionStrategy::KeepBoth;
    let m = merged(local, remote, s, own);
    if remote.len() == 0 {
        assert(m.take(local.len() as int) =~= local);
        assert(m.skip(local.len() as int).len() == 0);
    } else {
        let prev = remote.drop_last();
        assert(ids_unique(prev)) by {
            assert forall|i: int, j: int|
                0 <= i < prev.len() && 0 <= j < prev.len() && i != j && (#[trigger] prev[i]).id is Some
                implies prev[i].id != (#[trigger] prev[j]).id by {
                assert(prev[i] == remote[i] && prev[j] == remote[j]);
            }
        }
        lemma_keep_both_shape(local, prev, own);
        let m0 = merged(local, prev, s, own);
        let r = remote.last();
        if m == m0 {
            assert forall|p: int| local.len() <= p < m.len() implies exists|q: int|
                0 <= q < remote.len() && #[trigger] m[p] == remote[q] by {
                let q = choose|q: int| 0 <= q < prev.len() && m0[p] == prev[q];
                assert(m[p] == remote[q]);
            }
        } else {
            assert(m == m0.push(r));
            assert(m.take(local.len() as int) =~= m0.take(local.len() as int));
            let t0 = m0.skip(local.len() as int);
            let t = m.skip(local.len() as int);
            assert(t =~= t0.push(r));
            let last = remote.len() - 1;
            assert forall|i: int, j: int|
                0 <= i < t.len() && 0 <= j < t.len() && i != j && (#[trigger] t[i]).id is Some
                implies t[i].id != (#[trigger] t[j]).id by {
                if i < t0.len() && j < t0.len() {
                    assert(t[i] == t0[i] && t[j] == t0[j]);
                } else if i < t0.len() {
                    let q = choose|q: int| 0 <= q < prev.len() && m0[local.len() + i] == prev[q];
                    assert(t[i] == remote[q]);
                    assert(t[j] == remote[last]);
                    assert(remote[q].id != remote[last].id);
                } else {
                    let q = choose|q: int| 0 <= q < prev.len() && m0[local.len() + j] == prev[q];
                    assert(t[j] == remote[q]);
                    assert(t[i] == remote[last]);
                    assert(remote[last].id != remote[q].id);
                }
            }
            assert forall|p: int| local.len() <= p < m.len() implies exists|q: int|
                0 <= q < remote.len() && #[trigger] m[p] == remote[q] by {
                if p < m0.len() {
                    let q = choose|q: int| 0 <= q < prev.len() && m0[p] == prev[q];
                    assert(m[p] == remote[q]);
                } else {
                    assert(m[p] == remote[last]);
                }
            }
        }
    }
}

/// Under `KeepBoth`, merging two logs whose entry ids are distinct leaves
/// at most two entries with any one id: no three distinct positions share
/// an id.
pub proof fn lemma_keep_both_at_most_two(
    local: Seq<EntryView>,
    remote: Seq<EntryView>,
    own: Seq<char>,
    i: int,
    j: int,
    k: int,
)
    requires
        ids_unique(local),
        ids_unique(remote),
        0 <= i < j < k < merged(local, remote, ConflictResolutionStrategy::KeepBoth, own).len(),
    ensures
        !({
            let m = merged(local, remote, ConflictResolutionStrategy::KeepBoth, own);
            m[i].id is Some && m[i].id == m[j].id && m[j].id == m[k].id
        }),
{
    let m = merged(local, remote, ConflictResolutionStrategy::KeepBoth, own);
    lemma_keep_both_shape(local, remote, own);
    let n = local.len() as int;
    let head = m.take(n);
    let tail = m.skip(n);
    if m[i].id is Some && m[i].id == m[j].id && m[j].id == m[k].id {
        if j < n {
            assert(head[i] == m[i] && head[j] == m[j]);
        } else {
            assert(tail[j - n] == m[j] && tail[k - n] == m[k]);
        }
    }
}

/// No value with an id sits at two positions of `s`.
pub open spec fn id_values_distinct(s: Seq<EntryView>) -> bool {
    forall|i: int, j: int|
        0 <= i < s.len() && 0 <= j < s.len() && i != j && (#[trigger] s[i]).id is Some ==> s[i]
            != #[trigger] s[j]
}

/// No entry appended after the first `n` equals one of them.
pub open spec fn fresh_tail(m: Seq<EntryView>, n: int) -> bool {
    forall|i: int, p: int| 0 <= i < n <= p < m.len() ==> #[trigger] m[i] != #[trigger] m[p]
}

proof fn lemma_keep_both_fresh_tail(local: Seq<EntryView>, remote: Seq<EntryView>, own: Seq<char>)
    ensures
        fresh_tail(merged(local, remote, ConflictResolutionStrategy::KeepBoth, own), local.len() as int),
    decreases remote.len(),
{
    let s = ConflictResolutionStrategy::KeepBoth;
    if remote.len() > 0 {
        let prev = remote.drop_last();
        lemma_keep_both_fresh_tail(local, prev, own);
        lemma_merged_len(local, prev, s, own);
        let m0 = merged(local, prev, s, own);
        let m = merged(local, remote, s, own);
        let r = remote.last();
        if m != m0 {
            assert(m == m0.push(r));
            assert forall|i: int, p: int| 0 <= i < local.len() <= p < m.len() implies #[trigger] m[i]
                != #[trigger] m[p] by {
                if p < m0.len() {
                    assert(m[i] == m0[i] && m[p] == m0[p]);
                } else {
                    assert(m[i] == m0[i] && m[p] == r);
                    if m0[i] == r {
                        assert(same_event(m0[i], r));
                    }
                }
            }
        }
    }
}

/// Under `KeepBoth`, with the entry ids of each log distinct, no value with
/// an id is stored twice.
pub proof fn lemma_keep_both_values_distinct(
    local: Seq<EntryView>,
    remote: Seq<EntryView>,
    own: Seq<char>,
)
    requires
        ids_unique(local),
        ids_unique(remote),
    ensures
        id_values_distinct(merged(local, remote, ConflictResolutionStrategy::KeepBoth, own)),
{
    let m = merged(local, remote, ConflictResolutionStrategy::KeepBoth, own);
    let n = local.len() as int;
    lemma_keep_both_shape(local, remote, own);
    lemma_keep_both_fresh_tail(local, remote, own);
    let head = m.take(n);
    let tail = m.skip(n);
    assert forall|i: int, j: int|
        0 <= i < m.len() && 0 <= j < m.len() && i != j && (#[trigger] m[i]).id is Some implies m[i]
        != #[trigger] m[j] by {
        if i < n && j < n {
            assert(head[i] == m[i] && head[j] == m[j]);
        } else if i >= n && j >= n {
            assert(tail[i - n] == m[i] && tail[j - n] == m[j]);
        }
    }
}

/// Under `KeepBoth`, a local and a remote entry of one id that truly
/// conflict (other content) are both kept, the remote one coming from
/// another device and the ids of each log distinct. With
/// `lemma_keep_both_at_most_two`, that id then has exactly two entries.
pub proof fn lemma_keep_both_keeps_conflict(
    local: Seq<EntryView>,
    remote: Seq<EntryView>,
    own: Seq<char>,
    a: int,
    b: int,
)
    requires
        ids_unique(local),
        ids_unique(remote),
        0 <= a < local.len(),
        0 <= b < remote.len(),
        local[a].id is Some,
        local[a].id == remote[b].id,
        local[a].content != remote[b].content,
        remote[b].device != Some(own),
    ensures
        merged(local, remote, ConflictResolutionStrategy::KeepBoth, own).contains(local[a]),
        merged(local, remote, ConflictResolutionStrategy::KeepBoth, own).contains(remote[b]),
{
    let s = ConflictResolutionStrategy::KeepBoth;
    let n = local.len() as int;
    let m = merged(local, remote, s, own);
    lemma_keep_both_shape(local, remote, own);
    assert(m.take(n)[a] == m[a]);
    let r = remote[b];
    let head = remote.take(b);
    let x1 = remote.take(b + 1);
    let tail = remote.skip(b + 1);
    assert(ids_unique(head)) by {
        assert forall|i: int, j: int|
            0 <= i < head.len() && 0 <= j < head.len() && i != j && (#[trigger] head[i]).id is Some
            implies head[i].id != (#[trigger] head[j]).id by {
            assert(head[i] == remote[i] && head[j] == remote[j]);
        }
    }
    assert(ids_unique(tail)) by {
        assert forall|i: int, j: int|
            0 <= i < tail.len() && 0 <= j < tail.len() && i != j && (#[trigger] tail[i]).id is Some
            implies tail[i].id != (#[trigger] tail[j]).id by {
            assert(tail[i] == remote[b + 1 + i] && tail[j] == remote[b + 1 + j]);
        }
    }
    lemma_keep_both_shape(local, head, own);
    let m0 = merged(local, head, s, own);
    assert(!holds_event(m0, r)) by {
        if holds_event(m0, r) {
            let x = choose|x: int| 0 <= x < m0.len() && #[trigger] same_event(m0[x], r);
            lemma_key_gives_id(m0[x], r);
            if x < n {
                assert(m0.take(n)[x] == m0[x]);
                if x != a {
                    assert(local[a].id != local[x].id);
                }
            } else {
                let q = choose|q: int| 0 <= q < head.len() && m0[x] == head[q];
                assert(head[q] == remote[q]);
                assert(remote[b].id != remote[q].id);
            }
        }
    }
    assert(x1.drop_last() =~= head);
    assert(x1.last() == r);
    let m1 = merged(local, x1, s, own);
    assert(m1 == m0.push(r));
    assert(m1[m0.len() as int] == r);
    lemma_keep_both_shape(m1, tail, own);
    let mf = merged(m1, tail, s, own);
    assert(mf.take(m1.len() as int)[m0.len() as int] == r);
    lemma_merged_append(local, x1, tail, s, own);
    assert(x1 + tail =~= remote);
    assert(mf[m0.len() as int] == r);
}

proof fn lemma_step_keeps_keys(
    acc: Seq<EntryView>,
    r: EntryView,
    s: ConflictResolutionStrategy,
    own: Seq<char>,
    k: EntryKey,
)
    requires
        has_key(acc, k),
    ensures
        has_key(merge_step(acc, r, s, own), k),
{
    let m = merge_step(acc, r, s, own);
    let i = choose|i: int| 0 <= i < acc.len() && #[trigger] key_of(acc[i]) == k;
    if m.len() == acc.len() && m != acc {
        lemma_replace_index(acc, r, s, i);
    }
    assert(key_of(m[i]) == k);
}

proof fn lemma_step_adds_key(
    acc: Seq<EntryView>,
    r: EntryView,
    s: ConflictResolutionStrategy,
    own: Seq<char>,
)
    requires
        r.device != Some(own),
    ensures
        has_key(merge_step(acc, r, s, own), key_of(r)),
{
    let m = merge_step(acc, r, s, own);
    if holds_event(acc, r) {
        let i = choose|i: int| 0 <= i < acc.len() && #[trigger] same_event(acc[i], r);
        assert(key_of(m[i]) == key_of(r));
    } else if !has_key(acc, key_of(r)) || s is KeepBoth {
        assert(key_of(m[acc.len() as int]) == key_of(r));
    } else {
        lemma_step_keeps_keys(acc, r, s, own, key_of(r));
    }
}

/// No key is lost in a merge: every key of the local log, and the key of
/// every remote entry from another device, has an entry in the result.
/// With `lemma_merge_keeps_ids_unique`, each such id has exactly one entry
/// under every strategy but `KeepBoth`.
pub proof fn lemma_merge_keeps_every_key(
    local: Seq<EntryView>,
    remote: Seq<EntryView>,
    s: ConflictResolutionStrategy,
    own: Seq<char>,
)
    ensures
        forall|k: EntryKey| has_key(local, k) ==> #[trigger] has_key(merged(local, remote, s, own), k),
        forall|j: int|
            0 <= j < remote.len() && remote[j].device != Some(own) ==> has_key(
                merged(local, remote, s, own),
                key_of(#[trigger] remote[j]),
            ),
    decreases remote.len(),
{
    if remote.len() > 0 {
        let prev = remote.drop_last();
        lemma_merge_keeps_every_key(local, prev, s, own);
        let m0 = merged(local, prev, s, own);
        let r = remote.last();
        assert forall|k: EntryKey| has_key(local, k) implies #[trigger] has_key(
            merged(local, remote, s, own),
            k,
        ) by {
            assert(has_key(m0, k));
            lemma_step_keeps_keys(m0, r, s, own, k);
        }
        assert forall|j: int| 0 <= j < remote.len() && remote[j].device != Some(own) implies has_key(
            merged(local, remote, s, own),
            key_of(#[trigger] remote[j]),
        ) by {
            if j < remote.len() - 1 {
                assert(prev[j] == remote[j]);
                assert(has_key(m0, key_of(prev[j])));
                lemma_step_keeps_keys(m0, r, s, own, key_of(remote[j]));
            } else {
                lemma_step_adds_key(m0, r, s, own);
            }
        }
    }
}

/// `e` is in `log`, and is the only value there with key `k`.
pub open spec fn sole_entry(log: Seq<EntryView>, k: EntryKey, e: EntryView) -> bool {
    &&& log.contains(e)
    &&& forall|x: int| 0 <= x < log.len() && #[trigger] key_of(log[x]) == k ==> log[x] == e
}

/// Merging `x` and then `y` is merging `x + y`.
pub proof fn lemma_merged_append(
    local: Seq<EntryView>,
    x: Seq<EntryView>,
    y: Seq<EntryView>,
    s: ConflictResolutionStrategy,
    own: Seq<char>,
)
    ensures
        merged(local, x + y, s, own) == merged(merged(local, x, s, own), y, s, own),
    decreases y.len(),
{
    if y.len() == 0 {
        assert(x + y =~= x);
    } else {
        lemma_merged_append(local, x, y.drop_last(), s, own);
        assert((x + y).drop_last() =~= x + y.drop_last());
        assert((x + y).last() == y.last());
    }
}

/// A merge adds at most one entry for each remote entry.
pub proof fn lemma_merged_len(
    local: Seq<EntryView>,
    remote: Seq<EntryView>,
    s: ConflictResolutionStrategy,
    own: Seq<char>,
)
    ensures
        local.len() <= merged(local, remote, s, own).len() <= local.len() + remote.len(),
    decreases remote.len(),
{
    if remote.len() > 0 {
        lemma_merged_len(local, remote.drop_last(), s, own);
    }
}

/// Remote entries of other keys leave the sole entry of a key in place.
proof fn lemma_merged_keeps_sole(
    acc: Seq<EntryView>,
    remote: Seq<EntryView>,
    s: ConflictResolutionStrategy,
    own: Seq<char>,
    e: EntryView,
)
    requires
        sole_entry(acc, key_of(e), e),
        forall|j: int| 0 <= j < remote.len() ==> key_of(#[trigger] remote[j]) != key_of(e),
    ensures
        sole_entry(merged(acc, remote, s, own), key_of(e), e),
    decreases remote.len(),
{
    if remote.len() > 0 {
        let prev = remote.drop_last();
        assert forall|j: int| 0 <= j < prev.len() implies key_of(#[trigger] prev[j]) != key_of(e) by {
            assert(prev[j] == remote[j]);
        }
        lemma_merged_keeps_sole(acc, prev, s, own, e);
        assert(key_of(remote[remote.len() - 1]) != key_of(e));
        lemma_step_keeps_sole(merged(acc, prev, s, own), remote.last(), s, own, e);
    }
}

/// Remote entries of other keys add no entry of key `k`.
proof fn lemma_merged_lacks_key(
    acc: Seq<EntryView>,
    remote: Seq<EntryView>,
    s: ConflictResolutionStrategy,
    own: Seq<char>,
    k: EntryKey,
)
    requires
        !has_key(acc, k),
        forall|j: int| 0 <= j < remote.len() ==> key_of(#[trigger] remote[j]) != k,
    ensures
        !has_key(merged(acc, remote, s, own), k),
    decreases remote.len(),
{
    if remote.len() > 0 {
        let prev = remote.drop_last();
        assert forall|j: int| 0 <= j < prev.len() implies key_of(#[trigger] prev[j]) != k by {
            assert(prev[j] == remote[j]);
        }
        lemma_merged_lacks_key(acc, prev, s, own, k);
        let m0 = merged(acc, prev, s, own);
        let r = remote.last();
        assert(key_of(remote[remote.len() - 1]) != k);
        let m = merge_step(m0, r, s, own);
        if has_key(m, k) {
            let i = choose|i: int| 0 <= i < m.len() && #[trigger] key_of(m[i]) == k;
            if m.len() == m0.len() && m != m0 {
                lemma_replace_index(m0, r, s, i);
                assert(key_of(m0[i]) == k);
            } else if m != m0 {
                assert(m == m0.push(r));
                if i < m0.len() {
                    assert(key_of(m0[i]) == k);
                }
            } else {
                assert(key_of(m0[i]) == k);
            }
        }
    }
}

/// Entries of different ids are never collapsed into one, whatever their
/// content: a local entry whose id no remote entry carries stays, and a
/// remote entry from another device whose id no local entry carries is
/// added. Each is then the only entry of its id.
pub proof fn lemma_distinct_ids_kept(
    local: Seq<EntryView>,
    remote: Seq<EntryView>,
    s: ConflictResolutionStrategy,
    own: Seq<char>,
    a: int,
    b: int,
)
    requires
        ids_unique(local),
        ids_unique(remote),
        0 <= a < local.len(),
        0 <= b < remote.len(),
        local[a].id is Some,
        remote[b].id is Some,
        forall|j: int| 0 <= j < remote.len() ==> (#[trigger] remote[j]).id != local[a].id,
        forall|j: int| 0 <= j < local.len() ==> (#[trigger] local[j]).id != remote[b].id,
        remote[b].device != Some(own),
    ensures
        sole_entry(merged(local, remote, s, own), key_of(local[a]), local[a]),
        sole_entry(merged(local, remote, s, own), key_of(remote[b]), remote[b]),
{
    let ea = local[a];
    let eb = remote[b];
    // The local entry.
    assert forall|x: int| 0 <= x < local.len() && #[trigger] key_of(local[x]) == key_of(ea) implies local[x]
        == ea by {
        lemma_key_gives_id(local[x], ea);
        if x != a {
            assert(ea.id != local[x].id);
        }
    }
    assert(local.contains(ea));
    assert forall|j: int| 0 <= j < remote.len() implies key_of(#[trigger] remote[j]) != key_of(ea) by {
        if key_of(remote[j]) == key_of(ea) {
            lemma_key_gives_id(remote[j], ea);
        }
    }
    lemma_merged_keeps_sole(local, remote, s, own, ea);
    // The remote entry.
    let head = remote.take(b);
    let tail = remote.skip(b + 1);
    assert forall|x: int| 0 <= x < local.len() implies key_of(#[trigger] local[x]) != key_of(eb) by {
        if key_of(local[x]) == key_of(eb) {
            lemma_key_gives_id(local[x], eb);
        }
    }
    assert(!has_key(local, key_of(eb)));
    assert forall|j: int| 0 <= j < head.len() implies key_of(#[trigger] head[j]) != key_of(eb) by {
        assert(head[j] == remote[j]);
        lemma_distinct_keys(remote, b, j);
        if key_of(head[j]) == key_of(eb) {
            lemma_key_gives_id(head[j], eb);
        }
    }
    lemma_merged_lacks_key(local, head, s, own, key_of(eb));
    let m0 = merged(local, head, s, own);
    let m1 = merge_step(m0, eb, s, own);
    assert(!holds_event(m0, eb)) by {
        if holds_event(m0, eb) {
            let i = choose|i: int| 0 <= i < m0.len() && #[trigger] same_event(m0[i], eb);
            assert(key_of(m0[i]) == key_of(eb));
        }
    }
    assert(m1 == m0.push(eb));
    assert(m1[m0.len() as int] == eb);
    assert forall|x: int| 0 <= x < m1.len() && #[trigger] key_of(m1[x]) == key_of(eb) implies m1[x] == eb by {
        if x < m0.len() {
            assert(m1[x] == m0[x]);
        }
    }
    let x1 = remote.take(b + 1);
    assert(x1.drop_last() =~= head);
    assert(x1.last() == eb);
    assert(merged(local, x1, s, own) == m1);
    assert forall|j: int| 0 <= j < tail.len() implies key_of(#[trigger] tail[j]) != key_of(eb) by {
        assert(tail[j] == remote[b + 1 + j]);
        lemma_distinct_keys(remote, b, b + 1 + j);
        if key_of(tail[j]) == key_of(eb) {
            lemma_key_gives_id(tail[j], eb);
        }
    }
    lemma_merged_keeps_sole(m1, tail, s, own, eb);
    lemma_merged_append(local, x1, tail, s, own);
    assert(x1 + tail =~= remote);
}

proof fn lemma_step_keeps_sole(
    acc: Seq<EntryView>,
    r: EntryView,
    s: ConflictResolutionStrategy,
    own: Seq<char>,
    e: EntryView,
)
    requires
        sole_entry(acc, key_of(e), e),
        key_of(r) != key_of(e),
    ensures
        sole_entry(merge_step(acc, r, s, own), key_of(e), e),
{
    let m = merge_step(acc, r, s, own);
    let i = choose|i: int| 0 <= i < acc.len() && acc[i] == e;
    if m.len() == acc.len() && m != acc {
        lemma_replace_index(acc, r, s, i);
        assert forall|x: int| 0 <= x < m.len() && #[trigger] key_of(m[x]) == key_of(e) implies m[x]
            == e by {
            lemma_replace_index(acc, r, s, x);
        }
    } else if m != acc {
        assert(m == acc.push(r));
    }
    assert(m[i] == e);
}

proof fn lemma_keep_newest_prefix(
    local: Seq<EntryView>,
    remote: Seq<EntryView>,
    own: Seq<char>,
    a: int,
    b: int,
    n: int,
)
    requires
        ids_unique(local),
        ids_unique(remote),
        0 <= a < local.len(),
        0 <= b < remote.len(),
        0 <= n <= remote.len(),
        local[a].id is Some,
        local[a].id == remote[b].id,
        local[a].content != remote[b].content,
        remote[b].device != Some(own),
        local[a].timestamp != remote[b].timestamp,
    ensures
        sole_entry(
            merged(local, remote.take(n), ConflictResolutionStrategy::KeepNewest, own),
            key_of(local[a]),
            if n > b && remote[b].timestamp > local[a].timestamp {
                remote[b]
            } else {
                local[a]
            },
        ),
    decreases n,
{
    let s = ConflictResolutionStrategy::KeepNewest;
    let k = key_of(local[a]);
    let rn = remote.take(n);
    if n == 0 {
        assert(rn.len() == 0);
        assert forall|x: int| 0 <= x < local.len() && #[trigger] key_of(local[x]) == k implies local[x]
            == local[a] by {
            lemma_key_gives_id(local[x], local[a]);
            if x != a {
                assert(local[a].id != local[x].id);
            }
        }
    } else {
        lemma_keep_newest_prefix(local, remote, own, a, b, n - 1);
        assert(rn.drop_last() =~= remote.take(n - 1));
        let m0 = merged(local, remote.take(n - 1), s, own);
        let r = remote[n - 1];
        assert(rn.last() == r);
        if n - 1 != b {
            lemma_distinct_keys(remote, b, n - 1);
            if r.id is None {
                assert(key_of(r) is Content);
            }
            assert(key_of(r) != key_of(remote[b]));
            let w = if n - 1 > b && remote[b].timestamp > local[a].timestamp {
                remote[b]
            } else {
                local[a]
            };
            lemma_step_keeps_sole(m0, r, s, own, w);
        } else {
            let e = local[a];
            assert(key_of(r) == k);
            assert(!holds_event(m0, r)) by {
                if holds_event(m0, r) {
                    let x = choose|x: int| 0 <= x < m0.len() && #[trigger] same_event(m0[x], r);
                    assert(key_of(m0[x]) == k);
                }
            }
            let i = choose|i: int| 0 <= i < m0.len() && m0[i] == e;
            assert(key_of(m0[i]) == k);
            assert(has_key(m0, key_of(r)));
            let m = merge_step(m0, r, s, own);
            lemma_replace_index(m0, r, s, i);
            assert forall|x: int| 0 <= x < m.len() && #[trigger] key_of(m[x]) == k implies m[x] == (
            if r.timestamp > e.timestamp {
                r
            } else {
                e
            }) by {
                lemma_replace_index(m0, r, s, x);
            }
        }
    }
}

/// Under `KeepNewest`, when a local and a remote entry of the same entry id
/// truly conflict (other content) and carry different timestamps, the
/// merged log holds the later one, and no other entry of that id; the
/// remote entry comes from another device, and no log repeats an id.
pub proof fn lemma_keep_newest_wins(
    local: Seq<EntryView>,
    remote: Seq<EntryView>,
    own: Seq<char>,
    a: int,
    b: int,
)
    requires
        ids_unique(local),
        ids_unique(remote),
        0 <= a < local.len(),
        0 <= b < remote.len(),
        local[a].id is Some,
        local[a].id == remote[b].id,
        local[a].content != remote[b].content,
        remote[b].device != Some(own),
        local[a].timestamp != remote[b].timestamp,
    ensures
        sole_entry(
            merged(local, remote, ConflictResolutionStrategy::KeepNewest, own),
            key_of(local[a]),
            if local[a].timestamp < remote[b].timestamp {
                remote[b]
            } else {
                local[a]
            },
        ),
{
    lemma_keep_newest_prefix(local, remote, own, a, b, remote.len() as int);
    assert(remote.take(remote.len() as int) =~= remote);
}

} // verus!
