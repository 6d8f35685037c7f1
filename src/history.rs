use vstd::prelude::*;

use crate::entry::{has_key, ids_unique, key_of, log_view, ClipboardHistoryEntry, EntryKey, EntryView};
use crate::merge::{
    foreign, id_values_distinct, lemma_distinct_ids_kept, lemma_keep_both_at_most_two,
    lemma_keep_both_keeps_conflict, lemma_keep_both_values_distinct, lemma_keep_newest_wins, lemma_merge_keeps_every_key,
    lemma_merge_keeps_ids_unique, lemma_merge_settled_unchanged, lemma_merged_len,
    lemma_merged_settles, lemma_own_entries_ignored, lemma_settled_by_members, merge_entries, merged,
    settled, sole_entry, ConflictResolutionStrategy,
};
use crate::text::{lemma_trim_spec, trim_bounds, trim_spec};

verus! {

/// The most entries a log keeps after a merge; the oldest go first.
pub const HISTORY_CAP: usize = 100;

/// Whether the entries are in ascending timestamp order.
pub open spec fn by_time(log: Seq<EntryView>) -> bool {
    forall|i: int, j: int| 0 <= i < j < log.len() ==> #[trigger] log[i].timestamp <= #[trigger] log[j].timestamp
}

/// The last `cap` entries of `log` (all of them when it is shorter).
pub open spec fn newest(log: Seq<EntryView>, cap: nat) -> Seq<EntryView> {
    if log.len() > cap {
        log.skip(log.len() - cap)
    } else {
        log
    }
}

/// `e` inserted into `s` after every entry whose timestamp is not later.
pub open spec fn insert_by_time(s: Seq<EntryView>, e: EntryView) -> Seq<EntryView>
    decreases s.len(),
{
    if s.len() == 0 {
        seq![e]
    } else if s.last().timestamp <= e.timestamp {
        s.push(e)
    } else {
        insert_by_time(s.drop_last(), e).push(s.last())
    }
}

/// Insertion sort by timestamp: entries with equal timestamps keep their
/// order.
pub open spec fn sort_by_time(s: Seq<EntryView>) -> Seq<EntryView>
    decreases s.len(),
{
    if s.len() == 0 {
        s
    } else {
        insert_by_time(sort_by_time(s.drop_last()), s.last())
    }
}

/// Inserting at the first position whose entry is later is `insert_by_time`.
proof fn lemma_insert_at(s: Seq<EntryView>, e: EntryView, p: int)
    requires
        by_time(s),
        0 <= p <= s.len(),
        forall|j: int| 0 <= j < p ==> #[trigger] s[j].timestamp <= e.timestamp,
        p < s.len() ==> s[p].timestamp > e.timestamp,
    ensures
        insert_by_time(s, e) == s.insert(p, e),
    decreases s.len(),
{
    if s.len() == 0 {
        assert(s.insert(p, e) =~= seq![e]);
    } else if s.last().timestamp <= e.timestamp {
        if p < s.len() {
            assert(s[p].timestamp <= s.last().timestamp);
        }
        assert(s.insert(p, e) =~= s.push(e));
    } else {
        if p == s.len() {
            assert(s[s.len() - 1].timestamp <= e.timestamp);
        }
        let d = s.drop_last();
        assert(by_time(d));
        lemma_insert_at(d, e, p);
        assert(s.insert(p, e) =~= d.insert(p, e).push(s.last()));
    }
}

/// A log already in timestamp order is left as it is by the sort.
pub proof fn lemma_sorted_unchanged(s: Seq<EntryView>)
    requires
        by_time(s),
    ensures
        sort_by_time(s) == s,
    decreases s.len(),
{
    if s.len() > 0 {
        let d = s.drop_last();
        assert(by_time(d));
        lemma_sorted_unchanged(d);
        if d.len() > 0 {
            assert(d.last().timestamp <= s.last().timestamp);
        }
        assert(d.push(s.last()) =~= s);
    }
}

/// The entries of the log in ascending timestamp order; entries with equal
/// timestamps keep their order.
pub fn sort_by_timestamp(log: &Vec<ClipboardHistoryEntry>) -> (r: Vec<ClipboardHistoryEntry>)
    ensures
        log_view(r@) == sort_by_time(log_view(log@)),
        by_time(log_view(r@)),
        log_view(r@).to_multiset() == log_view(log@).to_multiset(),
{
    broadcast use vstd::seq_lib::to_multiset_insert;

    let mut out: Vec<ClipboardHistoryEntry> = Vec::new();
    let mut i: usize = 0;
    assert(log_view(out@) =~= log_view(log@).take(0));
    while i < log.len()
        invariant
            i <= log.len(),
            by_time(log_view(out@)),
            log_view(out@) == sort_by_time(log_view(log@).take(i as int)),
            log_view(out@).to_multiset() == log_view(log@).take(i as int).to_multiset(),
        decreases log.len() - i,
    {
        let e = &log[i];
        let mut p: usize = 0;
        while p < out.len() && out[p].timestamp <= e.timestamp
            invariant
                p <= out@.len(),
                forall|j: int| 0 <= j < p ==> #[trigger] out@[j].timestamp <= e.timestamp,
            decreases out.len() - p,
        {
            p = p + 1;
        }
        let ghost before = log_view(out@);
        proof {
            assert forall|j: int| 0 <= j < p implies #[trigger] before[j].timestamp <= e.timestamp by {
                assert(before[j] == out@[j]@);
            }
            if p < out@.len() {
                assert(before[p as int] == out@[p as int]@);
            }
            lemma_insert_at(before, e@, p as int);
            let t = log_view(log@).take(i as int + 1);
            assert(t.drop_last() =~= log_view(log@).take(i as int));
            assert(t.last() == e@);
        }
        out.insert(p, e.duplicate());
        proof {
            assert(log_view(out@) =~= before.insert(p as int, e@));
            let after = log_view(out@);
            assert forall|a: int, b: int| 0 <= a < b < after.len() implies #[trigger] after[a].timestamp
                <= #[trigger] after[b].timestamp by {
                if b < p {
                    assert(after[a] == before[a] && after[b] == before[b]);
                } else if b == p {
                    assert(after[a] == before[a]);
                } else if a < p {
                    assert(after[a] == before[a] && after[b] == before[b - 1]);
                    assert(before[a].timestamp <= e.timestamp);
                    if p < before.len() {
                        assert(before[p as int].timestamp > e.timestamp);
                        assert(before[p as int].timestamp <= before[b - 1].timestamp);
                    }
                } else if a == p {
                    assert(after[b] == before[b - 1]);
                    assert(before[p as int].timestamp > e.timestamp);
                    assert(before[p as int].timestamp <= before[b - 1].timestamp);
                } else {
                    assert(after[a] == before[a - 1] && after[b] == before[b - 1]);
                }
            }
            assert(log_view(log@).take(i as int + 1) =~= log_view(log@).take(i as int).push(e@));
            vstd::seq_lib::to_multiset_build(log_view(log@).take(i as int), e@);
            vstd::seq_lib::to_multiset_insert(before, p as int, e@);
        }
        i = i + 1;
    }
    assert(log_view(log@).take(log.len() as int) =~= log_view(log@));
    out
}

/// The log without its oldest entries beyond `cap`.
pub fn keep_newest(log: Vec<ClipboardHistoryEntry>, cap: usize) -> (r: Vec<ClipboardHistoryEntry>)
    ensures
        log_view(r@) == newest(log_view(log@), cap as nat),
{
    if log.len() <= cap {
        return log;
    }
    let start = log.len() - cap;
    let mut out: Vec<ClipboardHistoryEntry> = Vec::new();
    let mut i: usize = start;
    while i < log.len()
        invariant
            start <= i <= log.len(),
            start == log@.len() - cap,
            out@.len() == i - start,
            forall|j: int| 0 <= j < out@.len() ==> #[trigger] out@[j]@ == log@[start + j]@,
        decreases log.len() - i,
    {
        out.push(log[i].duplicate());
        i = i + 1;
    }
    assert(log_view(out@) =~= log_view(log@).skip(start as int));
    out
}

/// The log that merging `remote` into `local` stores: the merge, in
/// timestamp order, at most `HISTORY_CAP` entries with the oldest dropped.
pub open spec fn stored_merge(
    local: Seq<EntryView>,
    remote: Seq<EntryView>,
    s: ConflictResolutionStrategy,
    own: Seq<char>,
) -> Seq<EntryView> {
    newest(sort_by_time(merged(local, remote, s, own)), HISTORY_CAP as nat)
}

/// Merges remote entries into the stored log (see `merge_entries`) and
/// orders the result for storage: ascending by timestamp, entries with
/// equal timestamps in merge order, at most `HISTORY_CAP` entries, the
/// newest kept.
pub fn merge_clipboard_history(
    local: &Vec<ClipboardHistoryEntry>,
    remote: &Vec<ClipboardHistoryEntry>,
    strategy: &ConflictResolutionStrategy,
    own: &String,
) -> (r: Vec<ClipboardHistoryEntry>)
    ensures
        log_view(r@) == stored_merge(log_view(local@), log_view(remote@), *strategy, own@),
        by_time(log_view(r@)),
{
    let m = merge_entries(local, remote, strategy, own);
    let s = sort_by_timestamp(&m);
    let r = keep_newest(s, HISTORY_CAP);
    assert(by_time(log_view(r@))) by {
        let sv = sort_by_time(merged(log_view(local@), log_view(remote@), *strategy, own@));
        if sv.len() > HISTORY_CAP {
            assert forall|i: int, j: int| 0 <= i < j < log_view(r@).len() implies #[trigger] log_view(
                r@,
            )[i].timestamp <= #[trigger] log_view(r@)[j].timestamp by {
                let k = sv.len() - HISTORY_CAP;
                assert(log_view(r@)[i] == sv[i + k] && log_view(r@)[j] == sv[j + k]);
            }
        }
    }
    r
}

proof fn lemma_insert_by_time_props(s: Seq<EntryView>, e: EntryView)
    requires
        by_time(s),
    ensures
        by_time(insert_by_time(s, e)),
        insert_by_time(s, e).to_multiset() == s.to_multiset().insert(e),
    decreases s.len(),
{
    broadcast use vstd::seq_lib::group_to_multiset_ensures;

    if s.len() == 0 {
        assert(seq![e] =~= s.push(e));
        vstd::seq_lib::to_multiset_build(s, e);
    } else if s.last().timestamp <= e.timestamp {
        vstd::seq_lib::to_multiset_build(s, e);
        let t = s.push(e);
        assert forall|i: int, j: int| 0 <= i < j < t.len() implies #[trigger] t[i].timestamp
            <= #[trigger] t[j].timestamp by {
            if j == s.len() {
                assert(s[i].timestamp <= s.last().timestamp);
            }
        }
    } else {
        let d = s.drop_last();
        assert(by_time(d));
        lemma_insert_by_time_props(d, e);
        let t = insert_by_time(d, e);
        let last = s.last();
        vstd::seq_lib::to_multiset_build(t, last);
        vstd::seq_lib::to_multiset_build(d, last);
        assert(d.push(last) =~= s);
        assert(t.push(last).to_multiset() =~= s.to_multiset().insert(e));
        let u = t.push(last);
        assert forall|i: int, j: int| 0 <= i < j < u.len() implies #[trigger] u[i].timestamp
            <= #[trigger] u[j].timestamp by {
            if j == t.len() {
                let x = t[i];
                assert(t.contains(x));
                assert(t.to_multiset().count(x) > 0);
                if x != e {
                    assert(d.to_multiset().count(x) > 0);
                    assert(d.contains(x));
                    let k = choose|k: int| 0 <= k < d.len() && d[k] == x;
                    assert(s[k] == x);
                }
            } else {
                assert(u[i] == t[i] && u[j] == t[j]);
            }
        }
    }
}

/// The sort puts the entries in timestamp order and keeps each of them.
pub proof fn lemma_sort_by_time_props(s: Seq<EntryView>)
    ensures
        by_time(sort_by_time(s)),
        sort_by_time(s).to_multiset() == s.to_multiset(),
    decreases s.len(),
{
    broadcast use vstd::seq_lib::group_to_multiset_ensures;

    if s.len() > 0 {
        let d = s.drop_last();
        lemma_sort_by_time_props(d);
        lemma_insert_by_time_props(sort_by_time(d), s.last());
        vstd::seq_lib::to_multiset_build(d, s.last());
        assert(d.push(s.last()) =~= s);
    }
}

/// Storing the merge of the same remote log a second time changes nothing,
/// when no two remote entries share an entry id and the merge fits in the
/// cap.
pub proof fn lemma_stored_merge_idempotent(
    local: Seq<EntryView>,
    remote: Seq<EntryView>,
    s: ConflictResolutionStrategy,
    own: Seq<char>,
)
    requires
        ids_unique(remote),
        merged(local, remote, s, own).len() <= HISTORY_CAP,
    ensures
        stored_merge(stored_merge(local, remote, s, own), remote, s, own) == stored_merge(
            local,
            remote,
            s,
            own,
        ),
{
    broadcast use vstd::seq_lib::group_to_multiset_ensures;

    let m = merged(local, remote, s, own);
    let p = sort_by_time(m);
    lemma_sort_by_time_props(m);
    assert(p.len() == m.len()) by {
        vstd::seq_lib::to_multiset_len(p);
        vstd::seq_lib::to_multiset_len(m);
    }
    assert(stored_merge(local, remote, s, own) == p);
    lemma_merged_settles(local, remote, s, own);
    assert forall|i: int| 0 <= i < remote.len() implies settled(p, #[trigger] remote[i], s, own) by {
        assert forall|e: EntryView| m.contains(e) <==> p.contains(e) by {
            assert(m.contains(e) <==> m.to_multiset().count(e) > 0);
            assert(p.contains(e) <==> p.to_multiset().count(e) > 0);
        }
        lemma_settled_by_members(m, p, remote[i], s, own);
    }
    lemma_merge_settled_unchanged(p, remote, s, own);
    lemma_sorted_unchanged(p);
}

/// Where `insert_by_time` puts `e`.
pub open spec fn insert_pos(s: Seq<EntryView>, e: EntryView) -> int
    decreases s.len(),
{
    if s.len() == 0 {
        0
    } else if s.last().timestamp <= e.timestamp {
        s.len() as int
    } else {
        insert_pos(s.drop_last(), e)
    }
}

proof fn lemma_insert_pos(s: Seq<EntryView>, e: EntryView)
    ensures
        0 <= insert_pos(s, e) <= s.len(),
        insert_by_time(s, e) == s.insert(insert_pos(s, e), e),
    decreases s.len(),
{
    if s.len() == 0 {
        assert(s.insert(0, e) =~= seq![e]);
    } else if s.last().timestamp <= e.timestamp {
        assert(s.insert(s.len() as int, e) =~= s.push(e));
    } else {
        let d = s.drop_last();
        lemma_insert_pos(d, e);
        let p = insert_pos(d, e);
        assert(s.insert(p, e) =~= d.insert(p, e).push(s.last()));
    }
}

/// The sort keeps entry ids distinct.
proof fn lemma_sort_keeps_ids_unique(s: Seq<EntryView>)
    requires
        ids_unique(s),
    ensures
        ids_unique(sort_by_time(s)),
    decreases s.len(),
{
    broadcast use vstd::seq_lib::group_to_multiset_ensures;

    if s.len() > 0 {
        let d = s.drop_last();
        let e = s.last();
        assert(ids_unique(d)) by {
            assert forall|i: int, j: int|
                0 <= i < d.len() && 0 <= j < d.len() && i != j && (#[trigger] d[i]).id is Some
                implies d[i].id != (#[trigger] d[j]).id by {
                assert(d[i] == s[i] && d[j] == s[j]);
            }
        }
        lemma_sort_keeps_ids_unique(d);
        lemma_sort_by_time_props(d);
        let sd = sort_by_time(d);
        lemma_insert_pos(sd, e);
        let p = insert_pos(sd, e);
        let t = sd.insert(p, e);
        // An entry other than `e` comes from `d`, so its id is not `e`'s.
        assert forall|x: int| 0 <= x < sd.len() implies (#[trigger] sd[x]).id != e.id || e.id is None by {
            assert(sd.contains(sd[x]));
            assert(sd.to_multiset().count(sd[x]) > 0);
            assert(d.contains(sd[x]));
            let k = choose|k: int| 0 <= k < d.len() && d[k] == sd[x];
            assert(s[k] == sd[x]);
            if e.id is Some {
                assert(s[s.len() - 1].id != s[k].id);
            }
        }
        assert forall|i: int, j: int|
            0 <= i < t.len() && 0 <= j < t.len() && i != j && (#[trigger] t[i]).id is Some implies t[i].id
            != (#[trigger] t[j]).id by {
            let ii = if i < p {
                i
            } else {
                i - 1
            };
            let jj = if j < p {
                j
            } else {
                j - 1
            };
            if i != p && j != p {
                assert(t[i] == sd[ii] && t[j] == sd[jj]);
            } else if i == p {
                assert(t[i] == e && t[j] == sd[jj]);
            } else {
                assert(t[j] == e && t[i] == sd[ii]);
            }
        }
    }
}

/// The sort keeps every value with an id at one position.
proof fn lemma_sort_keeps_values_distinct(s: Seq<EntryView>)
    requires
        id_values_distinct(s),
    ensures
        id_values_distinct(sort_by_time(s)),
    decreases s.len(),
{
    broadcast use vstd::seq_lib::group_to_multiset_ensures;

    if s.len() > 0 {
        let d = s.drop_last();
        let e = s.last();
        assert(id_values_distinct(d)) by {
            assert forall|i: int, j: int|
                0 <= i < d.len() && 0 <= j < d.len() && i != j && (#[trigger] d[i]).id is Some implies d[i]
                != #[trigger] d[j] by {
                assert(d[i] == s[i] && d[j] == s[j]);
            }
        }
        lemma_sort_keeps_values_distinct(d);
        lemma_sort_by_time_props(d);
        let sd = sort_by_time(d);
        lemma_insert_pos(sd, e);
        let p = insert_pos(sd, e);
        let t = sd.insert(p, e);
        assert forall|x: int| 0 <= x < sd.len() implies (#[trigger] sd[x]) != e || e.id is None by {
            assert(sd.contains(sd[x]));
            assert(sd.to_multiset().count(sd[x]) > 0);
            assert(d.contains(sd[x]));
            let k = choose|k: int| 0 <= k < d.len() && d[k] == sd[x];
            assert(s[k] == sd[x]);
            if e.id is Some && sd[x] == e {
                assert(s[s.len() - 1] != s[k]);
            }
        }
        assert forall|i: int, j: int|
            0 <= i < t.len() && 0 <= j < t.len() && i != j && (#[trigger] t[i]).id is Some implies t[i]
            != #[trigger] t[j] by {
            let ii = if i < p {
                i
            } else {
                i - 1
            };
            let jj = if j < p {
                j
            } else {
                j - 1
            };
            if i != p && j != p {
                assert(t[i] == sd[ii] && t[j] == sd[jj]);
            } else if i == p {
                assert(t[i] == e && t[j] == sd[jj]);
            } else {
                assert(t[j] == e && t[i] == sd[ii]);
            }
        }
    }
}

/// Stored form of `lemma_keep_both_at_most_two`: under `KeepBoth`, with the
/// entry ids of each log distinct, no three positions of the stored log
/// share an id.
pub proof fn lemma_stored_keep_both_at_most_two(
    local: Seq<EntryView>,
    remote: Seq<EntryView>,
    own: Seq<char>,
    i: int,
    j: int,
    k: int,
)
    requires
        ids_unique(local),
        ids_unique(remote),
        0 <= i < j < k < stored_merge(local, remote, ConflictResolutionStrategy::KeepBoth, own).len(),
    ensures
        !({
            let q = stored_merge(local, remote, ConflictResolutionStrategy::KeepBoth, own);
            q[i].id is Some && q[i].id == q[j].id && q[j].id == q[k].id
        }),
{
    broadcast use vstd::seq_lib::group_to_multiset_ensures;

    let sb = ConflictResolutionStrategy::KeepBoth;
    let m = merged(local, remote, sb, own);
    let p = sort_by_time(m);
    let q = stored_merge(local, remote, sb, own);
    lemma_keep_both_values_distinct(local, remote, own);
    lemma_sort_keeps_values_distinct(m);
    lemma_sort_by_time_props(m);
    let off: int = if p.len() > HISTORY_CAP {
        p.len() - HISTORY_CAP
    } else {
        0
    };
    assert(q =~= p.skip(off));
    if q[i].id is Some && q[i].id == q[j].id && q[j].id == q[k].id {
        let (pi, pj, pk) = (i + off, j + off, k + off);
        assert(q[i] == p[pi] && q[j] == p[pj] && q[k] == p[pk]);
        assert(p[pi] != p[pj] && p[pj] != p[pk] && p[pi] != p[pk]);
        assert(p.contains(p[pi]) && p.contains(p[pj]) && p.contains(p[pk]));
        assert(p.to_multiset().count(p[pi]) > 0);
        assert(p.to_multiset().count(p[pj]) > 0);
        assert(p.to_multiset().count(p[pk]) > 0);
        let a = choose|a: int| 0 <= a < m.len() && m[a] == p[pi];
        let b = choose|b: int| 0 <= b < m.len() && m[b] == p[pj];
        let c = choose|c: int| 0 <= c < m.len() && m[c] == p[pk];
        if a < b && b < c {
            lemma_keep_both_at_most_two(local, remote, own, a, b, c);
        } else if a < c && c < b {
            lemma_keep_both_at_most_two(local, remote, own, a, c, b);
        } else if b < a && a < c {
            lemma_keep_both_at_most_two(local, remote, own, b, a, c);
        } else if b < c && c < a {
            lemma_keep_both_at_most_two(local, remote, own, b, c, a);
        } else if c < a && a < b {
            lemma_keep_both_at_most_two(local, remote, own, c, a, b);
        } else {
            lemma_keep_both_at_most_two(local, remote, own, c, b, a);
        }
    }
}

/// Stored form of `lemma_keep_both_keeps_conflict`: when the logs fit in
/// the cap, both entries of a true conflict are stored under `KeepBoth`.
pub proof fn lemma_stored_keep_both_keeps_conflict(
    local: Seq<EntryView>,
    remote: Seq<EntryView>,
    own: Seq<char>,
    a: int,
    b: int,
)
    requires
        local.len() + remote.len() <= HISTORY_CAP,
        ids_unique(local),
        ids_unique(remote),
        0 <= a < local.len(),
        0 <= b < remote.len(),
        local[a].id is Some,
        local[a].id == remote[b].id,
        local[a].content != remote[b].content,
        remote[b].device != Some(own),
    ensures
        stored_merge(local, remote, ConflictResolutionStrategy::KeepBoth, own).contains(local[a]),
        stored_merge(local, remote, ConflictResolutionStrategy::KeepBoth, own).contains(remote[b]),
{
    lemma_keep_both_keeps_conflict(local, remote, own, a, b);
    lemma_stored_is_sorted_merge(local, remote, ConflictResolutionStrategy::KeepBoth, own);
}

/// The stored log holds exactly the merged entries, in timestamp order,
/// when the two logs together fit in the cap.
pub proof fn lemma_stored_is_sorted_merge(
    local: Seq<EntryView>,
    remote: Seq<EntryView>,
    s: ConflictResolutionStrategy,
    own: Seq<char>,
)
    requires
        local.len() + remote.len() <= HISTORY_CAP,
    ensures
        stored_merge(local, remote, s, own) == sort_by_time(merged(local, remote, s, own)),
        forall|e: EntryView| #[trigger]
            stored_merge(local, remote, s, own).contains(e) <==> merged(
                local,
                remote,
                s,
                own,
            ).contains(e),
{
    broadcast use vstd::seq_lib::group_to_multiset_ensures;

    let m = merged(local, remote, s, own);
    lemma_merged_len(local, remote, s, own);
    lemma_sort_by_time_props(m);
    let p = sort_by_time(m);
    vstd::seq_lib::to_multiset_len(p);
    vstd::seq_lib::to_multiset_len(m);
    assert forall|e: EntryView| #[trigger] p.contains(e) <==> m.contains(e) by {
        assert(m.contains(e) <==> m.to_multiset().count(e) > 0);
        assert(p.contains(e) <==> p.to_multiset().count(e) > 0);
    }
}

/// Stored form of `lemma_merge_keeps_ids_unique`: under every strategy but
/// `KeepBoth`, the stored log holds at most one entry for each id.
pub proof fn lemma_stored_keeps_ids_unique(
    local: Seq<EntryView>,
    remote: Seq<EntryView>,
    s: ConflictResolutionStrategy,
    own: Seq<char>,
)
    requires
        ids_unique(local),
        !(s is KeepBoth),
    ensures
        ids_unique(stored_merge(local, remote, s, own)),
{
    let m = merged(local, remote, s, own);
    lemma_merge_keeps_ids_unique(local, remote, s, own);
    lemma_sort_keeps_ids_unique(m);
    let p = sort_by_time(m);
    if p.len() > HISTORY_CAP {
        let k = p.len() - HISTORY_CAP;
        let q = p.skip(k);
        assert forall|i: int, j: int|
            0 <= i < q.len() && 0 <= j < q.len() && i != j && (#[trigger] q[i]).id is Some implies q[i].id
            != (#[trigger] q[j]).id by {
            assert(q[i] == p[i + k] && q[j] == p[j + k]);
        }
    }
}

/// Stored form of `lemma_merge_keeps_every_key`: when the logs fit in the
/// cap, every local key, and the key of every remote entry from another
/// device, has an entry in the stored log.
pub proof fn lemma_stored_keeps_every_key(
    local: Seq<EntryView>,
    remote: Seq<EntryView>,
    s: ConflictResolutionStrategy,
    own: Seq<char>,
)
    requires
        local.len() + remote.len() <= HISTORY_CAP,
    ensures
        forall|k: EntryKey| has_key(local, k) ==> #[trigger] has_key(stored_merge(local, remote, s, own), k),
        forall|j: int|
            0 <= j < remote.len() && remote[j].device != Some(own) ==> has_key(
                stored_merge(local, remote, s, own),
                key_of(#[trigger] remote[j]),
            ),
{
    let m = merged(local, remote, s, own);
    let p = stored_merge(local, remote, s, own);
    lemma_merge_keeps_every_key(local, remote, s, own);
    lemma_stored_is_sorted_merge(local, remote, s, own);
    assert forall|k: EntryKey| has_key(m, k) implies #[trigger] has_key(p, k) by {
        let i = choose|i: int| 0 <= i < m.len() && #[trigger] key_of(m[i]) == k;
        assert(m.contains(m[i]));
        assert(p.contains(m[i]));
        let j = choose|j: int| 0 <= j < p.len() && p[j] == m[i];
        assert(key_of(p[j]) == k);
    }
    assert forall|j: int| 0 <= j < remote.len() && remote[j].device != Some(own) implies has_key(
        p,
        key_of(#[trigger] remote[j]),
    ) by {
        assert(has_key(m, key_of(remote[j])));
    }
}

/// Stored form of `lemma_own_entries_ignored`: remote entries captured on
/// this device have no effect on the stored log.
pub proof fn lemma_stored_own_entries_ignored(
    local: Seq<EntryView>,
    remote: Seq<EntryView>,
    s: ConflictResolutionStrategy,
    own: Seq<char>,
)
    ensures
        stored_merge(local, remote, s, own) == stored_merge(local, remote.filter(foreign(own)), s, own),
{
    lemma_own_entries_ignored(local, remote, s, own);
}

/// A sole entry stays sole when the log is replaced by one holding the same
/// entries.
proof fn lemma_sole_by_members(a: Seq<EntryView>, b: Seq<EntryView>, k: EntryKey, e: EntryView)
    requires
        sole_entry(a, k, e),
        forall|x: EntryView| #[trigger] b.contains(x) <==> a.contains(x),
    ensures
        sole_entry(b, k, e),
{
    assert(b.contains(e));
    assert forall|x: int| 0 <= x < b.len() && #[trigger] key_of(b[x]) == k implies b[x] == e by {
        assert(b.contains(b[x]));
        let y = choose|y: int| 0 <= y < a.len() && a[y] == b[x];
        assert(key_of(a[y]) == k);
    }
}

/// Stored form of `lemma_keep_newest_wins`: when the logs fit in the cap,
/// the stored log holds the later of two truly conflicting entries of one
/// id, and no other entry of that id.
pub proof fn lemma_stored_keep_newest_wins(
    local: Seq<EntryView>,
    remote: Seq<EntryView>,
    own: Seq<char>,
    a: int,
    b: int,
)
    requires
        local.len() + remote.len() <= HISTORY_CAP,
        ids_unique(local),
        ids_unique(remote),
        0 <= a < local.len(),
        0 <= b < remote.len(),
        local[a].id is Some,
        local[a].id == remote[b].id,
        local[a].content != remote[b].content,
        remote[b].device != Some(own),
        local[a].timestamp != remote[b].timestamp,
    ensures
        sole_entry(
            stored_merge(local, remote, ConflictResolutionStrategy::KeepNewest, own),
            key_of(local[a]),
            if local[a].timestamp < remote[b].timestamp {
                remote[b]
            } else {
                local[a]
            },
        ),
{
    let s = ConflictResolutionStrategy::KeepNewest;
    lemma_keep_newest_wins(local, remote, own, a, b);
    lemma_stored_is_sorted_merge(local, remote, s, own);
    lemma_sole_by_members(
        merged(local, remote, s, own),
        stored_merge(local, remote, s, own),
        key_of(local[a]),
        if local[a].timestamp < remote[b].timestamp {
            remote[b]
        } else {
            local[a]
        },
    );
}

/// Stored form of `lemma_distinct_ids_kept`: when the logs fit in the cap,
/// entries of different ids are both stored, whatever their content.
pub proof fn lemma_stored_distinct_ids_kept(
    local: Seq<EntryView>,
    remote: Seq<EntryView>,
    s: ConflictResolutionStrategy,
    own: Seq<char>,
    a: int,
    b: int,
)
    requires
        local.len() + remote.len() <= HISTORY_CAP,
        ids_unique(local),
        ids_unique(remote),
        0 <= a < local.len(),
        0 <= b < remote.len(),
        local[a].id is Some,
        remote[b].id is Some,
        forall|j: int| 0 <= j < remote.len() ==> (#[trigger] remote[j]).id != local[a].id,
        forall|j: int| 0 <= j < local.len() ==> (#[trigger] local[j]).id != remote[b].id,
        remote[b].device != Some(own),
    ensures
        sole_entry(stored_merge(local, remote, s, own), key_of(local[a]), local[a]),
        sole_entry(stored_merge(local, remote, s, own), key_of(remote[b]), remote[b]),
{
    lemma_distinct_ids_kept(local, remote, s, own, a, b);
    lemma_stored_is_sorted_merge(local, remote, s, own);
    let m = merged(local, remote, s, own);
    let p = stored_merge(local, remote, s, own);
    lemma_sole_by_members(m, p, key_of(local[a]), local[a]);
    lemma_sole_by_members(m, p, key_of(remote[b]), remote[b]);
}

/// A log in timestamp order and within the cap is stored as it is when
/// nothing comes from the peer: re-running a sync pass with nothing new
/// leaves the log unchanged.
pub proof fn lemma_nothing_new_keeps_log(
    local: Seq<EntryView>,
    s: ConflictResolutionStrategy,
    own: Seq<char>,
)
    requires
        by_time(local),
        local.len() <= HISTORY_CAP,
    ensures
        stored_merge(local, Seq::empty(), s, own) == local,
{
    lemma_sorted_unchanged(local);
}

/// What a stored log file holds, as far as can be told without decoding it.
#[derive(Debug, Clone, Copy, PartialEq, Eq, Structural)]
pub enum StoreShape {
    /// No file, only whitespace, or an empty list: the log is empty.
    Empty,
    /// A list to decode.
    List,
}

/// A log file that is there but cannot be a log.
#[derive(Debug, Clone, Copy, PartialEq, Eq, Structural)]
pub enum StoreError {
    CorruptStore,
}

pub open spec fn empty_list() -> Seq<char> {
    seq!['[', ']']
}

/// How a log file with content `text` (`None` when there is no file) is
/// read: what is left after trimming whitespace decides. Nothing, or `[]`,
/// is an empty log; something that starts with `[` is a list to decode;
/// anything else is corrupt.
pub open spec fn store_shape(text: Option<Seq<char>>) -> Result<StoreShape, StoreError> {
    match text {
        None => Ok(StoreShape::Empty),
        Some(t) => {
            let core = trim_spec(t);
            if core.len() == 0 || core == empty_list() {
                Ok(StoreShape::Empty)
            } else if core[0] == '[' {
                Ok(StoreShape::List)
            } else {
                Err(StoreError::CorruptStore)
            }
        },
    }
}

/// Tells how a log file with content `text` is to be read.
#[verifier::spinoff_prover]
pub fn classify_store(text: Option<&str>) -> (r: Result<StoreShape, StoreError>)
    ensures
        r == store_shape(
            match text {
                Some(t) => Some(t@),
                None => None,
            },
        ),
{
    match text {
        None => Ok(StoreShape::Empty),
        Some(t) => {
            let (lo, hi) = trim_bounds(t);
            proof {
                lemma_trim_spec(t@, lo as int, hi as int);
            }
            if lo == hi {
                return Ok(StoreShape::Empty);
            }
            let first = t.get_char(lo);
            let is_empty_list = hi - lo == 2 && first == '[' && t.get_char(lo + 1) == ']';
            proof {
                let core = t@.subrange(lo as int, hi as int);
                assert(core[0] == first);
                if hi - lo == 2 {
                    assert(core[1] == t@[lo + 1]);
                    if is_empty_list {
                        assert(core =~= empty_list());
                    }
                }
            }
            if is_empty_list {
                Ok(StoreShape::Empty)
            } else if first == '[' {
                Ok(StoreShape::List)
            } else {
                Err(StoreError::CorruptStore)
            }
        },
    }
}

/// Relies on fastrand::u64: a number drawn from the whole `u64` range.
/// Nothing is promised of its value.
#[verifier::external_body]
fn random_entry_id() -> (r: u64) {
    fastrand::u64(..)
}

/// A new entry for `content`, captured at `now` on the device `device_id`,
/// with a fresh random id.
pub fn capture_entry(content: String, device_id: &String, now: i64) -> (r: ClipboardHistoryEntry)
    ensures
        r.content == content,
        r.timestamp == now,
        r.device_id == Some(*device_id),
        r.entry_id is Some,
{
    ClipboardHistoryEntry {
        content,
        timestamp: now,
        device_id: Some(device_id.clone()),
        entry_id: Some(random_entry_id()),
    }
}

/// Appends a captured entry to the log.
pub fn save_clipboard_history(log: &mut Vec<ClipboardHistoryEntry>, entry: ClipboardHistoryEntry)
    ensures
        final(log)@ == old(log)@.push(entry),
{
    log.push(entry);
}

/// Watches the clipboard for new values to capture.
#[derive(Debug)]
pub struct ClipboardWatcher {
    last: String,
}

impl ClipboardWatcher {
    pub closed spec fn last_spec(&self) -> Seq<char> {
        self.last@
    }

    pub fn new() -> (r: Self)
        ensures
            r.last_spec().len() == 0,
    {
        ClipboardWatcher { last: String::new() }
    }

    /// The clipboard now holds `text`: returns it when it is to be captured,
    /// that is when it is not empty and differs from the last value captured.
    pub fn observe(&mut self, text: String) -> (r: Option<String>)
        ensures
            (text@.len() > 0 && text@ != old(self).last_spec()) ==> (r == Some(text)
                && final(self).last_spec() == text@),
            !(text@.len() > 0 && text@ != old(self).last_spec()) ==> (r is None
                && final(self).last_spec() == old(self).last_spec()),
    {
        if text.as_str().unicode_len() == 0 || text == self.last {
            return None;
        }
        self.last = text.clone();
        Some(text)
    }
}

} // verus!
