//! The previous-set resolver: from a user's full set history, selects for
//! every exercise/profile key the sets of that key's most recent workout(s)
//! and projects them to previous-set baselines.
//!
//! Workouts are ranked per key by their `end_time`, descending, with dense
//! ranking: every workout tied for the single latest `end_time` shares rank
//! one, and only sets owned by a rank-one workout survive. Survivors are
//! ordered ascending by `created_at` with a stable tie-break (ties keep
//! their input order).

use vstd::prelude::*;

use crate::grouping::{first_seen_keys, with_key};
use crate::records::{baseline_of, BootstrapPreviousSet, GroupKey, Keyed, PreviousSetRow,
    PreviousSetsEntry};

verus! {

/// The largest `end_time` among the rows of `s`, as an integer;
/// `i64::MIN` when `s` is empty.
pub open spec fn max_end(s: Seq<PreviousSetRow>) -> int
    decreases s.len(),
{
    if s.len() == 0 {
        i64::MIN as int
    } else {
        let m = max_end(s.drop_last());
        if s.last().end_time as int > m {
            s.last().end_time as int
        } else {
            m
        }
    }
}

/// The rows of `s` whose owning workout ended exactly at `t`, in input order.
pub open spec fn rows_at_time(s: Seq<PreviousSetRow>, t: int) -> Seq<PreviousSetRow>
    decreases s.len(),
{
    if s.len() == 0 {
        Seq::empty()
    } else {
        let prev = rows_at_time(s.drop_last(), t);
        if s.last().end_time as int == t {
            prev.push(s.last())
        } else {
            prev
        }
    }
}

/// Insert `x` into `s` after every element whose `created_at` is at most
/// `x.created_at`. On a sorted `s` this keeps the order and places `x`
/// after its ties, which makes the derived sort stable.
pub open spec fn insert_by_created(s: Seq<PreviousSetRow>, x: PreviousSetRow) -> Seq<
    PreviousSetRow,
>
    decreases s.len(),
{
    if s.len() == 0 {
        seq![x]
    } else if s.last().created_at <= x.created_at {
        s.push(x)
    } else {
        insert_by_created(s.drop_last(), x).push(s.last())
    }
}

/// Stable sort of `s`, ascending by `created_at`: rows with equal
/// `created_at` keep their input order.
pub open spec fn sort_by_created(s: Seq<PreviousSetRow>) -> Seq<PreviousSetRow>
    decreases s.len(),
{
    if s.len() == 0 {
        Seq::empty()
    } else {
        insert_by_created(sort_by_created(s.drop_last()), s.last())
    }
}

/// The rows of key `k` that survive the ranking: those owned by a workout
/// tied for the latest `end_time` recorded for `k`.
pub open spec fn latest_rows(s: Seq<PreviousSetRow>, k: GroupKey) -> Seq<PreviousSetRow> {
    rows_at_time(with_key(s, k), max_end(with_key(s, k)))
}

/// The baseline projections of a row sequence, elementwise.
pub open spec fn baselines_seq(s: Seq<PreviousSetRow>) -> Seq<BootstrapPreviousSet> {
    s.map_values(|r: PreviousSetRow| baseline_of(r))
}

/// The baselines the resolver owes for key `k`: the key's surviving rows,
/// sorted ascending by `created_at`, projected to baselines.
pub open spec fn baselines_for(s: Seq<PreviousSetRow>, k: GroupKey) -> Seq<BootstrapPreviousSet> {
    baselines_seq(sort_by_created(latest_rows(s, k)))
}

/// `entries` is the resolution of the history `rows`: one entry per
/// distinct key of `rows`, in first-seen order, each holding exactly the
/// baselines owed for its key. A key with no rows has no entry.
pub open spec fn is_resolution_of(entries: Seq<PreviousSetsEntry>, rows: Seq<PreviousSetRow>) -> bool {
    &&& entries.len() == first_seen_keys(rows).len()
    &&& forall|i: int|
        0 <= i < entries.len() ==> (#[trigger] entries[i]).key == first_seen_keys(rows)[i]
    &&& forall|i: int|
        0 <= i < entries.len() ==> (#[trigger] entries[i]).sets@ == baselines_for(
            rows,
            entries[i].key,
        )
}

/// A row sequence ordered ascending by `created_at`.
pub open spec fn sorted_by_created(s: Seq<PreviousSetRow>) -> bool {
    forall|i: int, j: int| 0 <= i < j < s.len() ==> s[i].created_at <= s[j].created_at
}

/// Stable insertion keeps the order and only adds the new row: the result
/// is sorted when the input is, and holds the input rows plus the new one.
proof fn lemma_insert_by_created_ensures(s: Seq<PreviousSetRow>, x: PreviousSetRow)
    requires
        sorted_by_created(s),
    ensures
        sorted_by_created(insert_by_created(s, x)),
        insert_by_created(s, x).to_multiset() == s.push(x).to_multiset(),
        forall|m: int|
            0 <= m < insert_by_created(s, x).len() ==> insert_by_created(s, x)[m] == x
                || s.contains(#[trigger] insert_by_created(s, x)[m]),
    decreases s.len(),
{
    broadcast use vstd::seq_lib::group_to_multiset_ensures;

    let r = insert_by_created(s, x);
    if s.len() == 0 {
        assert(r =~= Seq::<PreviousSetRow>::empty().push(x));
        assert(s.push(x) =~= r);
    } else if s.last().created_at <= x.created_at {
        assert forall|m: int| 0 <= m < r.len() implies r[m] == x || s.contains(#[trigger] r[m]) by {
            if m < s.len() {
                assert(r[m] == s[m]);
            }
        }
        assert forall|i: int, j: int| 0 <= i < j < r.len() implies r[i].created_at
            <= r[j].created_at by {
            if j < s.len() {
            } else {
                assert(r[j] == x);
                if i < s.len() - 1 {
                    assert(s[i].created_at <= s[s.len() - 1].created_at);
                }
            }
        }
    } else {
        let pre = s.drop_last();
        let last = s.last();
        assert(forall|m: int| 0 <= m < pre.len() ==> pre[m] == s[m]);
        lemma_insert_by_created_ensures(pre, x);
        let rp = insert_by_created(pre, x);
        assert(r == rp.push(last));
        // contents
        assert forall|m: int| 0 <= m < r.len() implies r[m] == x || s.contains(#[trigger] r[m]) by {
            if m < rp.len() {
                assert(r[m] == rp[m]);
                if rp[m] != x {
                    assert(pre.contains(rp[m]));
                    let n = choose|n: int| 0 <= n < pre.len() && pre[n] == rp[m];
                    assert(s[n] == rp[m]);
                }
            } else {
                assert(r[m] == last);
                assert(s[s.len() - 1] == last);
            }
        }
        // order: every row of rp is x (below last) or a row of pre (below last)
        assert forall|i: int, j: int| 0 <= i < j < r.len() implies r[i].created_at
            <= r[j].created_at by {
            if j < rp.len() {
            } else {
                assert(r[j] == last);
                assert(r[i] == rp[i]);
                if rp[i] == x {
                    assert(x.created_at <= last.created_at);
                } else {
                    assert(pre.contains(rp[i]));
                    let n = choose|n: int| 0 <= n < pre.len() && pre[n] == rp[i];
                    assert(s[n].created_at <= s[s.len() - 1].created_at);
                }
            }
        }
        // multiset: both sides are pre's rows plus x plus last
        assert(rp.push(last).to_multiset() =~= rp.to_multiset().insert(last));
        assert(pre.push(x).to_multiset() =~= pre.to_multiset().insert(x));
        assert(s.push(x).to_multiset() =~= s.to_multiset().insert(x));
        assert(pre.push(last) =~= s);
        assert(s.to_multiset() =~= pre.to_multiset().insert(last));
        assert(pre.to_multiset().insert(x).insert(last) =~= pre.to_multiset().insert(
            last,
        ).insert(x));
    }
}

/// The stable sort sorts: its output is ascending by `created_at` and is a
/// permutation of its input.
pub proof fn lemma_sort_by_created_ensures(s: Seq<PreviousSetRow>)
    ensures
        sorted_by_created(sort_by_created(s)),
        sort_by_created(s).to_multiset() == s.to_multiset(),
    decreases s.len(),
{
    broadcast use vstd::seq_lib::group_to_multiset_ensures;

    if s.len() > 0 {
        let pre = s.drop_last();
        let last = s.last();
        lemma_sort_by_created_ensures(pre);
        lemma_insert_by_created_ensures(sort_by_created(pre), last);
        assert(sort_by_created(pre).push(last).to_multiset() =~= sort_by_created(
            pre,
        ).to_multiset().insert(last));
        assert(pre.push(last) =~= s);
        assert(s.to_multiset() =~= pre.to_multiset().insert(last));
    }
}

/// `max_end` is the maximum: no row exceeds it, and some row reaches it
/// whenever there is a row at all.
pub proof fn lemma_max_end_is_max(s: Seq<PreviousSetRow>)
    ensures
        forall|i: int| 0 <= i < s.len() ==> (#[trigger] s[i]).end_time as int <= max_end(s),
        s.len() > 0 ==> exists|i: int|
            0 <= i < s.len() && (#[trigger] s[i]).end_time as int == max_end(s),
    decreases s.len(),
{
    if s.len() > 0 {
        let pre = s.drop_last();
        assert(forall|m: int| 0 <= m < pre.len() ==> pre[m] == s[m]);
        lemma_max_end_is_max(pre);
        if pre.len() > 0 {
            let w = choose|i: int|
                0 <= i < pre.len() && (#[trigger] pre[i]).end_time as int == max_end(pre);
            if s.last().end_time as int > max_end(pre) {
                assert(s[s.len() - 1].end_time as int == max_end(s));
            } else {
                assert(s[w].end_time as int == max_end(s));
            }
        } else {
            assert(s[s.len() - 1].end_time as int == max_end(s));
        }
    }
}

/// The rows kept at time `t` are exactly the rows of `s` whose `end_time`
/// is `t`: each kept row is such a row of `s`, and each such row is kept.
pub proof fn lemma_rows_at_time_ensures(s: Seq<PreviousSetRow>, t: int)
    ensures
        forall|m: int|
            0 <= m < rows_at_time(s, t).len() ==> (#[trigger] rows_at_time(s, t)[m]).end_time as int
                == t && s.contains(rows_at_time(s, t)[m]),
        forall|i: int|
            0 <= i < s.len() && (#[trigger] s[i]).end_time as int == t ==> rows_at_time(
                s,
                t,
            ).contains(s[i]),
    decreases s.len(),
{
    if s.len() > 0 {
        let pre = s.drop_last();
        assert(forall|m: int| 0 <= m < pre.len() ==> pre[m] == s[m]);
        lemma_rows_at_time_ensures(pre, t);
        let rp = rows_at_time(pre, t);
        assert forall|m: int| 0 <= m < rows_at_time(s, t).len() implies (#[trigger] rows_at_time(
            s,
            t,
        )[m]).end_time as int == t && s.contains(rows_at_time(s, t)[m]) by {
            if m < rp.len() {
                assert(rows_at_time(s, t)[m] == rp[m]);
                let n = choose|n: int| 0 <= n < pre.len() && pre[n] == rp[m];
                assert(s[n] == rp[m]);
            } else {
                assert(rows_at_time(s, t)[m] == s.last());
                assert(s[s.len() - 1] == s.last());
            }
        }
        assert forall|i: int|
            0 <= i < s.len() && (#[trigger] s[i]).end_time as int == t implies rows_at_time(
            s,
            t,
        ).contains(s[i]) by {
            if i < s.len() - 1 {
                assert(pre[i] == s[i]);
                assert(rp.contains(s[i]));
                let n = choose|n: int| 0 <= n < rp.len() && rp[n] == s[i];
                assert(rows_at_time(s, t)[n] == s[i]);
            } else {
                let r2 = rows_at_time(s, t);
                assert(r2 == rp.push(s.last()));
                assert(r2[r2.len() - 1] == s[i]);
            }
        }
    }
}

/// Dense-rank selection: for a key `k`, exactly the rows owned by a
/// workout tied for the key's single latest `end_time` survive — every
/// survivor belongs to `k` and carries the latest `end_time`; no row of
/// `k` exceeds that time; and every row of `k` that carries it survives,
/// whichever workout of the tie owns it.
pub proof fn lemma_dense_rank_selection(rows: Seq<PreviousSetRow>, k: GroupKey)
    ensures
        forall|m: int|
            0 <= m < latest_rows(rows, k).len() ==> (#[trigger] latest_rows(rows, k)[m]).key() == k
                && latest_rows(rows, k)[m].end_time as int == max_end(with_key(rows, k)),
        forall|i: int|
            0 <= i < rows.len() && (#[trigger] rows[i]).key() == k ==> rows[i].end_time as int
                <= max_end(with_key(rows, k)),
        forall|i: int|
            0 <= i < rows.len() && (#[trigger] rows[i]).key() == k && rows[i].end_time as int
                == max_end(with_key(rows, k)) ==> latest_rows(rows, k).contains(rows[i]),
{
    let w = with_key(rows, k);
    let t = max_end(w);
    crate::grouping::lemma_with_key_members::<PreviousSetRow>(rows, k);
    lemma_max_end_is_max(w);
    lemma_rows_at_time_ensures(w, t);
    assert forall|m: int| 0 <= m < latest_rows(rows, k).len() implies (#[trigger] latest_rows(
        rows,
        k,
    )[m]).key() == k && latest_rows(rows, k)[m].end_time as int == t by {
        let r = latest_rows(rows, k)[m];
        assert(w.contains(r));
        let n = choose|n: int| 0 <= n < w.len() && w[n] == r;
        assert(w[n].key() == k);
    }
    assert forall|i: int| 0 <= i < rows.len() && (#[trigger] rows[i]).key() == k implies rows[i].end_time
        as int <= t by {
        crate::grouping::lemma_with_key_self::<PreviousSetRow>(rows, i);
        let n = choose|n: int| 0 <= n < w.len() && w[n] == rows[i];
        assert(w[n].end_time as int <= t);
    }
    assert forall|i: int|
        0 <= i < rows.len() && (#[trigger] rows[i]).key() == k && rows[i].end_time as int
            == t implies latest_rows(rows, k).contains(rows[i]) by {
        crate::grouping::lemma_with_key_self::<PreviousSetRow>(rows, i);
        let n = choose|n: int| 0 <= n < w.len() && w[n] == rows[i];
        assert(rows_at_time(w, t).contains(w[n]));
    }
}

/// Sparse mapping: a key that never occurs in the history has no entry in
/// the resolution.
pub proof fn lemma_sparse_mapping(
    entries: Seq<PreviousSetsEntry>,
    rows: Seq<PreviousSetRow>,
    k: GroupKey,
)
    requires
        is_resolution_of(entries, rows),
        forall|i: int| 0 <= i < rows.len() ==> (#[trigger] rows[i].key()) != k,
    ensures
        forall|i: int| 0 <= i < entries.len() ==> (#[trigger] entries[i]).key != k,
{
    crate::grouping::lemma_first_seen_contains::<PreviousSetRow>(rows, k);
    assert forall|i: int| 0 <= i < entries.len() implies (#[trigger] entries[i]).key != k by {
        if entries[i].key == k {
            assert(first_seen_keys(rows)[i] == k);
            assert(first_seen_keys(rows).contains(k));
        }
    }
}

/// Mapping completeness: every key that occurs in the history has an
/// entry in the resolution.
pub proof fn lemma_present_key_has_entry(
    entries: Seq<PreviousSetsEntry>,
    rows: Seq<PreviousSetRow>,
    i: int,
)
    requires
        is_resolution_of(entries, rows),
        0 <= i < rows.len(),
    ensures
        exists|j: int| 0 <= j < entries.len() && (#[trigger] entries[j]).key == rows[i].key(),
{
    crate::grouping::lemma_first_seen_contains::<PreviousSetRow>(rows, rows[i].key());
    assert(first_seen_keys(rows).contains(rows[i].key()));
    let j = choose|j: int|
        0 <= j < first_seen_keys(rows).len() && first_seen_keys(rows)[j] == rows[i].key();
    assert(entries[j].key == rows[i].key());
}

/// Determinism: any two resolutions of the same history agree entry by
/// entry — re-running the resolver on the same snapshot yields the same
/// mapping.
pub proof fn lemma_resolution_deterministic(
    rows: Seq<PreviousSetRow>,
    a: Seq<PreviousSetsEntry>,
    b: Seq<PreviousSetsEntry>,
)
    requires
        is_resolution_of(a, rows),
        is_resolution_of(b, rows),
    ensures
        a.len() == b.len(),
        forall|i: int|
            0 <= i < a.len() ==> (#[trigger] a[i]).key == b[i].key && a[i].sets@ == b[i].sets@,
{
}

/// One partition of the history: the rows of a single key, in input order.
struct RowPartition {
    key: GroupKey,
    rows: Vec<PreviousSetRow>,
}

/// Find the partition of key `k`, if one exists.
fn find_partition(parts: &Vec<RowPartition>, k: GroupKey) -> (r: Option<usize>)
    ensures
        match r {
            Some(j) => j < parts@.len() && parts@[j as int].key == k,
            None => forall|i: int| 0 <= i < parts@.len() ==> (#[trigger] parts@[i]).key != k,
        },
{
    let mut j: usize = 0;
    while j < parts.len()
        invariant
            j <= parts@.len(),
            forall|i: int| 0 <= i < j ==> (#[trigger] parts@[i]).key != k,
        decreases parts@.len() - j,
    {
        if parts[j].key == k {
            return Some(j);
        }
        j += 1;
    }
    None
}

/// The keys of a partition sequence, in order.
spec fn partition_keys(parts: Seq<RowPartition>) -> Seq<GroupKey> {
    parts.map_values(|p: RowPartition| p.key)
}

/// Partition the history rows by key, keys in first-seen order, each
/// partition holding exactly its key's rows in input order.
fn partition_rows(rows: Vec<PreviousSetRow>) -> (parts: Vec<RowPartition>)
    ensures
        parts@.len() == first_seen_keys(rows@).len(),
        forall|i: int|
            0 <= i < parts@.len() ==> (#[trigger] parts@[i]).key == first_seen_keys(rows@)[i],
        forall|i: int|
            0 <= i < parts@.len() ==> (#[trigger] parts@[i]).rows@ == with_key(
                rows@,
                parts@[i].key,
            ),
{
    let ghost all = rows@;
    let mut rows = rows;
    let mut parts: Vec<RowPartition> = Vec::new();
    let ghost i: int = 0;
    proof {
        assert(all.take(0) =~= Seq::<PreviousSetRow>::empty());
        assert(partition_keys(parts@) =~= Seq::<GroupKey>::empty());
        assert(first_seen_keys(all.take(0)) =~= Seq::<GroupKey>::empty());
    }
    while rows.len() > 0
        invariant
            0 <= i <= all.len(),
            rows@ == all.skip(i),
            partition_keys(parts@) == first_seen_keys(all.take(i)),
            forall|m: int|
                0 <= m < parts@.len() ==> (#[trigger] parts@[m]).key == first_seen_keys(
                    all.take(i),
                )[m],
            forall|m: int|
                0 <= m < parts@.len() ==> (#[trigger] parts@[m]).rows@ == with_key(
                    all.take(i),
                    parts@[m].key,
                ),
        decreases rows@.len(),
    {
        let row = rows.remove(0);
        proof {
            assert(row == all[i]);
            assert(all.skip(i).remove(0) =~= all.skip(i + 1));
            assert(all.take(i + 1).drop_last() =~= all.take(i));
            assert(all.take(i + 1).last() == all[i]);
        }
        let k = row.group_key();
        let ghost old_parts = parts@;
        match find_partition(&parts, k) {
            Some(j) => {
                let mut p = parts.remove(j);
                p.rows.push(row);
                parts.insert(j, p);
                proof {
                    assert(parts@ =~= old_parts.update(j as int, p));
                    assert(partition_keys(old_parts)[j as int] == k);
                    assert(partition_keys(old_parts).contains(k));
                    assert(first_seen_keys(all.take(i + 1)) == first_seen_keys(all.take(i)));
                    assert(partition_keys(parts@) =~= partition_keys(old_parts));
                    assert forall|m: int| 0 <= m < parts@.len() implies (#[trigger] parts@[m]).rows@
                        == with_key(all.take(i + 1), parts@[m].key) by {
                        if m == j {
                            assert(with_key(all.take(i + 1), k) == with_key(all.take(i), k).push(
                                row,
                            ));
                        } else {
                            assert(parts@[m] == old_parts[m]);
                            assert(partition_keys(old_parts)[m] == old_parts[m].key);
                            assert(old_parts[m].key != k) by {
                                crate::grouping::lemma_first_seen_distinct::<PreviousSetRow>(
                                    all.take(i),
                                );
                            }
                            assert(with_key(all.take(i + 1), old_parts[m].key) == with_key(
                                all.take(i),
                                old_parts[m].key,
                            ));
                        }
                    }
                }
            },
            None => {
                let mut first: Vec<PreviousSetRow> = Vec::new();
                first.push(row);
                let p = RowPartition { key: k, rows: first };
                parts.push(p);
                proof {
                    assert(!first_seen_keys(all.take(i)).contains(k)) by {
                        if first_seen_keys(all.take(i)).contains(k) {
                            let j = choose|j: int|
                                0 <= j < first_seen_keys(all.take(i)).len() && first_seen_keys(
                                    all.take(i),
                                )[j] == k;
                            assert(partition_keys(old_parts)[j] == old_parts[j].key);
                        }
                    }
                    assert(first_seen_keys(all.take(i + 1)) == first_seen_keys(all.take(i)).push(
                        k,
                    ));
                    assert(partition_keys(parts@) =~= partition_keys(old_parts).push(k));
                    crate::grouping::lemma_first_seen_contains::<PreviousSetRow>(all.take(i), k);
                    crate::grouping::lemma_with_key_empty::<PreviousSetRow>(all.take(i), k);
                    assert(with_key(all.take(i + 1), k) =~= seq![row]);
                    assert(p.rows@ =~= seq![row]);
                    assert forall|m: int| 0 <= m < parts@.len() implies (#[trigger] parts@[m]).rows@
                        == with_key(all.take(i + 1), parts@[m].key) by {
                        if m < old_parts.len() {
                            assert(parts@[m] == old_parts[m]);
                            assert(partition_keys(old_parts)[m] == old_parts[m].key);
                            assert(old_parts[m].key != k);
                            assert(with_key(all.take(i + 1), old_parts[m].key) == with_key(
                                all.take(i),
                                old_parts[m].key,
                            ));
                        } else {
                            assert(parts@[m] == p);
                        }
                    }
                }
            },
        }
        proof {
            i = i + 1;
        }
    }
    proof {
        assert(all.take(i) =~= all);
    }
    parts
}

/// Insert a row into a vector at its stable position by `created_at`.
fn insert_row(v: Vec<PreviousSetRow>, x: PreviousSetRow) -> (r: Vec<PreviousSetRow>)
    ensures
        r@ == insert_by_created(v@, x),
    decreases v@.len(),
{
    let mut v = v;
    if v.len() == 0 {
        v.push(x);
        proof {
            assert(v@ =~= seq![x]);
        }
        v
    } else {
        let n = v.len();
        if v[n - 1].created_at <= x.created_at {
            v.push(x);
            v
        } else {
            let ghost before = v@;
            let last = v.pop().unwrap();
            proof {
                assert(v@ =~= before.drop_last());
            }
            let mut r = insert_row(v, x);
            r.push(last);
            r
        }
    }
}

/// The surviving rows of one partition, sorted ascending by `created_at`
/// and projected to baselines.
fn baselines_of_partition(rows: Vec<PreviousSetRow>) -> (out: Vec<BootstrapPreviousSet>)
    ensures
        out@ == baselines_seq(sort_by_created(rows_at_time(rows@, max_end(rows@)))),
{
    let ghost all = rows@;
    let mut rows = rows;

    // find the latest end_time among the partition's rows
    let mut m: i64 = i64::MIN;
    let mut j: usize = 0;
    proof {
        assert(all.take(0) =~= Seq::<PreviousSetRow>::empty());
    }
    while j < rows.len()
        invariant
            rows@ == all,
            j <= all.len(),
            m as int == max_end(all.take(j as int)),
        decreases all.len() - j,
    {
        proof {
            assert(all.take(j + 1).drop_last() =~= all.take(j as int));
            assert(all.take(j + 1).last() == all[j as int]);
        }
        if rows[j].end_time > m {
            m = rows[j].end_time;
        }
        j += 1;
    }
    proof {
        assert(all.take(all.len() as int) =~= all);
    }

    // keep the rows owned by a latest workout, in stable created_at order
    let mut sorted: Vec<PreviousSetRow> = Vec::new();
    let ghost i: int = 0;
    proof {
        assert(all.take(0) =~= Seq::<PreviousSetRow>::empty());
        assert(sorted@ =~= sort_by_created(rows_at_time(all.take(0), m as int)));
    }
    while rows.len() > 0
        invariant
            0 <= i <= all.len(),
            rows@ == all.skip(i),
            sorted@ == sort_by_created(rows_at_time(all.take(i), m as int)),
        decreases rows@.len(),
    {
        let r = rows.remove(0);
        proof {
            assert(r == all[i]);
            assert(all.skip(i).remove(0) =~= all.skip(i + 1));
            assert(all.take(i + 1).drop_last() =~= all.take(i));
            assert(all.take(i + 1).last() == all[i]);
        }
        if r.end_time == m {
            let ghost p = rows_at_time(all.take(i), m as int);
            sorted = insert_row(sorted, r);
            proof {
                assert(rows_at_time(all.take(i + 1), m as int) == p.push(r));
                assert(p.push(r).drop_last() =~= p);
                assert(p.push(r).last() == r);
                assert(sort_by_created(p.push(r)) == insert_by_created(sort_by_created(p), r));
            }
        }
        proof {
            i = i + 1;
        }
    }
    proof {
        assert(all.take(i) =~= all);
    }

    // project the survivors to baselines
    let ghost ordered = sorted@;
    let mut sorted = sorted;
    let mut out: Vec<BootstrapPreviousSet> = Vec::new();
    let ghost i: int = 0;
    proof {
        assert(ordered.take(0) =~= Seq::<PreviousSetRow>::empty());
        assert(out@ =~= baselines_seq(ordered.take(0)));
    }
    while sorted.len() > 0
        invariant
            0 <= i <= ordered.len(),
            sorted@ == ordered.skip(i),
            out@ == baselines_seq(ordered.take(i)),
        decreases sorted@.len(),
    {
        let r = sorted.remove(0);
        proof {
            assert(r == ordered[i]);
            assert(ordered.skip(i).remove(0) =~= ordered.skip(i + 1));
        }
        out.push(r.into_baseline());
        proof {
            assert(baselines_seq(ordered.take(i + 1)) =~= baselines_seq(ordered.take(i)).push(
                baseline_of(ordered[i]),
            ));
            i = i + 1;
        }
    }
    proof {
        assert(ordered.take(i) =~= ordered);
    }
    out
}

/// Resolve a user's full set history to its previous-set baselines: one
/// entry per distinct exercise/profile key, in first-seen order, holding
/// the key's most recent workout's sets (all workouts tied for the latest
/// `end_time` included), ordered ascending by `created_at` and projected
/// to baselines.
pub fn resolve(rows: Vec<PreviousSetRow>) -> (entries: Vec<PreviousSetsEntry>)
    ensures
        is_resolution_of(entries@, rows@),
{
    let ghost all = rows@;
    let mut parts = partition_rows(rows);
    let ghost partsall = parts@;
    let mut entries: Vec<PreviousSetsEntry> = Vec::new();
    let ghost j: int = 0;
    while parts.len() > 0
        invariant
            0 <= j <= partsall.len(),
            parts@ == partsall.skip(j),
            partsall.len() == first_seen_keys(all).len(),
            forall|m: int|
                0 <= m < partsall.len() ==> (#[trigger] partsall[m]).key == first_seen_keys(all)[m],
            forall|m: int|
                0 <= m < partsall.len() ==> (#[trigger] partsall[m]).rows@ == with_key(
                    all,
                    partsall[m].key,
                ),
            entries@.len() == j,
            forall|m: int|
                0 <= m < j ==> (#[trigger] entries@[m]).key == first_seen_keys(all)[m],
            forall|m: int|
                0 <= m < j ==> (#[trigger] entries@[m]).sets@ == baselines_for(
                    all,
                    entries@[m].key,
                ),
        decreases parts@.len(),
    {
        let p = parts.remove(0);
        proof {
            assert(p == partsall[j]);
            assert(partsall.skip(j).remove(0) =~= partsall.skip(j + 1));
        }
        let key = p.key;
        let sets = baselines_of_partition(p.rows);
        entries.push(PreviousSetsEntry { key, sets });
        proof {
            j = j + 1;
        }
    }
    entries
}

} // verus!
