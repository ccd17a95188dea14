//! The set grouper: partitions a workout's time-ordered set list into
//! ordered groups keyed by exercise and profile, preserving the order in
//! which each key first appears and inferring a per-group unilateral flag.

use vstd::prelude::*;

use crate::records::{GroupKey, Keyed, UserSet, WorkoutExerciseGroup};

verus! {

/// The distinct keys of `s`, in the order each key first occurs.
pub open spec fn first_seen_keys<T: Keyed>(s: Seq<T>) -> Seq<GroupKey>
    decreases s.len(),
{
    if s.len() == 0 {
        Seq::empty()
    } else {
        let prev = first_seen_keys(s.drop_last());
        if prev.contains(s.last().key()) {
            prev
        } else {
            prev.push(s.last().key())
        }
    }
}

/// The subsequence of `s` whose records belong to key `k`, in input order.
pub open spec fn with_key<T: Keyed>(s: Seq<T>, k: GroupKey) -> Seq<T>
    decreases s.len(),
{
    if s.len() == 0 {
        Seq::empty()
    } else {
        let prev = with_key(s.drop_last(), k);
        if s.last().key() == k {
            prev.push(s.last())
        } else {
            prev
        }
    }
}

/// Whether any set of `sets` carries a side tag.
pub open spec fn has_side(sets: Seq<UserSet>) -> bool {
    exists|i: int| 0 <= i < sets.len() && sets[i].side is Some
}

/// No key occurs twice in `keys`.
pub open spec fn all_keys_distinct(keys: Seq<GroupKey>) -> bool {
    forall|i: int, j: int| 0 <= i < j < keys.len() ==> keys[i] != keys[j]
}

/// A key is among the first-seen keys of `s` exactly when some record of
/// `s` belongs to it.
pub proof fn lemma_first_seen_contains<T: Keyed>(s: Seq<T>, k: GroupKey)
    ensures
        first_seen_keys(s).contains(k) <==> (exists|i: int|
            0 <= i < s.len() && (#[trigger] s[i].key()) == k),
    decreases s.len(),
{
    if s.len() > 0 {
        let pre = s.drop_last();
        lemma_first_seen_contains::<T>(pre, k);
        let lk = s.last().key();
        let prev = first_seen_keys(pre);
        assert(forall|i: int| 0 <= i < pre.len() ==> pre[i] == s[i]);
        if first_seen_keys(s).contains(k) {
            if prev.contains(k) {
                let i = choose|i: int| 0 <= i < pre.len() && (#[trigger] pre[i].key()) == k;
                assert(s[i].key() == k);
            } else {
                // the containing index can only be the pushed last key
                let j = choose|j: int|
                    0 <= j < first_seen_keys(s).len() && first_seen_keys(s)[j] == k;
                assert(first_seen_keys(s) == prev.push(lk));
                if j < prev.len() {
                    assert(prev.contains(k));
                }
                assert(s[s.len() - 1].key() == k);
            }
        }
        if exists|i: int| 0 <= i < s.len() && (#[trigger] s[i].key()) == k {
            let i = choose|i: int| 0 <= i < s.len() && (#[trigger] s[i].key()) == k;
            if i < s.len() - 1 {
                assert(pre[i].key() == k);
                assert(prev.contains(k));
                if !prev.contains(lk) {
                    let j = choose|j: int| 0 <= j < prev.len() && prev[j] == k;
                    assert(prev.push(lk)[j] == k);
                }
                assert(first_seen_keys(s).contains(k));
            } else {
                assert(lk == k);
                if prev.contains(k) {
                } else {
                    assert(prev.push(lk)[prev.len() as int] == k);
                }
                assert(first_seen_keys(s).contains(k));
            }
        }
    }
}

/// A key to which no record of `s` belongs has an empty subsequence.
pub proof fn lemma_with_key_empty<T: Keyed>(s: Seq<T>, k: GroupKey)
    requires
        forall|i: int| 0 <= i < s.len() ==> (#[trigger] s[i].key()) != k,
    ensures
        with_key(s, k) == Seq::<T>::empty(),
    decreases s.len(),
{
    if s.len() > 0 {
        let pre = s.drop_last();
        assert(forall|i: int| 0 <= i < pre.len() ==> pre[i] == s[i]);
        lemma_with_key_empty::<T>(pre, k);
        assert(s[s.len() - 1].key() != k);
    }
}

/// Every record of `with_key(s, k)` belongs to `k`.
pub proof fn lemma_with_key_members<T: Keyed>(s: Seq<T>, k: GroupKey)
    ensures
        forall|i: int|
            0 <= i < with_key(s, k).len() ==> (#[trigger] with_key(s, k)[i]).key() == k,
    decreases s.len(),
{
    if s.len() > 0 {
        lemma_with_key_members::<T>(s.drop_last(), k);
    }
}

/// The first-seen key sequence never repeats a key.
pub proof fn lemma_first_seen_distinct<T: Keyed>(s: Seq<T>)
    ensures
        all_keys_distinct(first_seen_keys(s)),
    decreases s.len(),
{
    if s.len() > 0 {
        let pre = s.drop_last();
        lemma_first_seen_distinct::<T>(pre);
        let prev = first_seen_keys(pre);
        let lk = s.last().key();
        if !prev.contains(lk) {
            assert forall|i: int, j: int|
                0 <= i < j < prev.push(lk).len() implies prev.push(lk)[i] != prev.push(lk)[j] by {
                if j == prev.len() {
                    assert(prev[i] == prev.push(lk)[i]);
                    if prev[i] == lk {
                        assert(prev.contains(lk));
                    }
                }
            }
        }
    }
}

/// Appending a set keeps or raises the side flag: the extended list carries
/// a side tag exactly when the original did or the new set does.
pub proof fn lemma_has_side_push(sets: Seq<UserSet>, x: UserSet)
    ensures
        has_side(sets.push(x)) <==> (has_side(sets) || x.side is Some),
{
    let s2 = sets.push(x);
    if has_side(sets) {
        let i = choose|i: int| 0 <= i < sets.len() && sets[i].side is Some;
        assert(s2[i].side is Some);
    }
    if x.side is Some {
        assert(s2[sets.len() as int].side is Some);
    }
    if has_side(s2) {
        let i = choose|i: int| 0 <= i < s2.len() && s2[i].side is Some;
        if i < sets.len() {
            assert(sets[i].side is Some);
        } else {
            assert(x.side is Some);
        }
    }
}

/// The index of the first record of `s` that belongs to `k`; `s.len()`
/// when no record does.
pub open spec fn first_index_of<T: Keyed>(s: Seq<T>, k: GroupKey) -> int
    decreases s.len(),
{
    if s.len() == 0 {
        0
    } else if s.first().key() == k {
        0
    } else {
        1 + first_index_of(s.drop_first(), k)
    }
}

/// `first_index_of` points at the first occurrence: it is in range, its
/// record belongs to `k`, and every earlier record does not.
pub proof fn lemma_first_index_char<T: Keyed>(s: Seq<T>, k: GroupKey)
    requires
        exists|i: int| 0 <= i < s.len() && (#[trigger] s[i].key()) == k,
    ensures
        0 <= first_index_of(s, k) < s.len(),
        s[first_index_of(s, k)].key() == k,
        forall|m: int| 0 <= m < first_index_of(s, k) ==> (#[trigger] s[m].key()) != k,
    decreases s.len(),
{
    if s.first().key() == k {
    } else {
        let rest = s.drop_first();
        assert(forall|m: int| 0 <= m < rest.len() ==> rest[m] == s[m + 1]);
        let i = choose|i: int| 0 <= i < s.len() && (#[trigger] s[i].key()) == k;
        assert(rest[i - 1].key() == k);
        lemma_first_index_char::<T>(rest, k);
        assert forall|m: int| 0 <= m < first_index_of(s, k) implies (#[trigger] s[m].key()) != k by {
            if m > 0 {
                assert(rest[m - 1].key() != k);
            }
        }
    }
}

/// How the first occurrence index moves when a record is appended: an
/// already-present key keeps its index; a fresh key first occurs at the
/// new last position, or nowhere.
proof fn lemma_first_index_push<T: Keyed>(s: Seq<T>, x: T, k: GroupKey)
    ensures
        first_index_of(s.push(x), k) == if exists|i: int|
            0 <= i < s.len() && (#[trigger] s[i].key()) == k {
            first_index_of(s, k)
        } else if x.key() == k {
            s.len() as int
        } else {
            s.len() + 1int
        },
    decreases s.len(),
{
    let s2 = s.push(x);
    if s.len() == 0 {
        assert(s2.first() == x);
        if x.key() == k {
            assert(first_index_of(s2, k) == 0);
        } else {
            assert(s2.drop_first() =~= Seq::<T>::empty());
            assert(first_index_of(Seq::<T>::empty(), k) == 0);
            assert(first_index_of(s2, k) == 1);
        }
        assert(!(exists|i: int| 0 <= i < s.len() && (#[trigger] s[i].key()) == k));
    } else {
        assert(s2.first() == s.first());
        if s.first().key() == k {
            assert(first_index_of(s2, k) == 0);
            assert(first_index_of(s, k) == 0);
            assert(s[0].key() == k);
        } else {
            let rest = s.drop_first();
            assert(s2.drop_first() =~= rest.push(x));
            assert(first_index_of(s2, k) == 1 + first_index_of(rest.push(x), k));
            assert(first_index_of(s, k) == 1 + first_index_of(rest, k));
            lemma_first_index_push::<T>(rest, x, k);
            assert(forall|m: int| 0 <= m < rest.len() ==> rest[m] == s[m + 1]);
            if exists|i: int| 0 <= i < s.len() && (#[trigger] s[i].key()) == k {
                let i = choose|i: int| 0 <= i < s.len() && (#[trigger] s[i].key()) == k;
                assert(i != 0);
                assert(rest[i - 1].key() == k);
                assert(exists|i: int| 0 <= i < rest.len() && (#[trigger] rest[i].key()) == k);
                assert(first_index_of(rest.push(x), k) == first_index_of(rest, k));
            } else {
                assert(!(exists|i: int| 0 <= i < rest.len() && (#[trigger] rest[i].key()) == k))
                    by {
                    if exists|i: int| 0 <= i < rest.len() && (#[trigger] rest[i].key()) == k {
                        let i = choose|i: int|
                            0 <= i < rest.len() && (#[trigger] rest[i].key()) == k;
                        assert(s[i + 1].key() == k);
                    }
                }
                if x.key() == k {
                    assert(first_index_of(rest.push(x), k) == rest.len());
                } else {
                    assert(first_index_of(rest.push(x), k) == rest.len() + 1int);
                }
            }
        }
    }
}

/// Grouping order: the first-seen key sequence lists keys in strictly
/// increasing order of their first occurrence in the input.
pub proof fn lemma_first_seen_order<T: Keyed>(s: Seq<T>, i: int, j: int)
    requires
        0 <= i < j < first_seen_keys(s).len(),
    ensures
        first_index_of(s, first_seen_keys(s)[i]) < first_index_of(s, first_seen_keys(s)[j]),
    decreases s.len(),
{
    let pre = s.drop_last();
    let x = s.last();
    let prev = first_seen_keys(pre);
    let lk = x.key();
    assert(s =~= pre.push(x));
    lemma_first_seen_contains::<T>(pre, first_seen_keys(s)[i]);
    lemma_first_seen_contains::<T>(pre, first_seen_keys(s)[j]);
    if prev.contains(lk) {
        // key list unchanged; both keys occur in the shorter input
        assert(first_seen_keys(s) == prev);
        assert(prev[i] == first_seen_keys(s)[i] && prev.contains(prev[i]));
        assert(prev[j] == first_seen_keys(s)[j] && prev.contains(prev[j]));
        lemma_first_seen_order::<T>(pre, i, j);
        lemma_first_index_push::<T>(pre, x, first_seen_keys(s)[i]);
        lemma_first_index_push::<T>(pre, x, first_seen_keys(s)[j]);
    } else {
        assert(first_seen_keys(s) == prev.push(lk));
        if j < prev.len() {
            assert(prev[i] == first_seen_keys(s)[i] && prev.contains(prev[i]));
            assert(prev[j] == first_seen_keys(s)[j] && prev.contains(prev[j]));
            lemma_first_seen_order::<T>(pre, i, j);
            lemma_first_index_push::<T>(pre, x, first_seen_keys(s)[i]);
            lemma_first_index_push::<T>(pre, x, first_seen_keys(s)[j]);
        } else {
            // the appended key first occurs at the last position; the
            // other key occurs earlier
            assert(first_seen_keys(s)[j] == lk);
            let ki = first_seen_keys(s)[i];
            assert(prev[i] == ki && prev.contains(ki));
            lemma_first_index_push::<T>(pre, x, ki);
            lemma_first_index_push::<T>(pre, x, lk);
            lemma_first_seen_contains::<T>(pre, ki);
            lemma_first_index_char::<T>(pre, ki);
            lemma_first_seen_contains::<T>(pre, lk);
        }
    }
}

/// A record is collected under its own key.
pub proof fn lemma_with_key_self<T: Keyed>(s: Seq<T>, i: int)
    requires
        0 <= i < s.len(),
    ensures
        with_key(s, s[i].key()).contains(s[i]),
    decreases s.len(),
{
    let pre = s.drop_last();
    let k = s[i].key();
    if i == s.len() - 1 {
        let w = with_key(s, k);
        assert(w == with_key(pre, k).push(s.last()));
        assert(w[w.len() - 1] == s[i]);
    } else {
        assert(pre[i] == s[i]);
        lemma_with_key_self::<T>(pre, i);
        let wp = with_key(pre, k);
        let n = choose|n: int| 0 <= n < wp.len() && wp[n] == s[i];
        if s.last().key() == k {
            assert(wp.push(s.last())[n] == s[i]);
        }
    }
}

/// Partition completeness, membership half: every input record appears in
/// the group of its own key and in no other group.
pub proof fn lemma_record_in_one_group<T: Keyed>(s: Seq<T>, i: int)
    requires
        0 <= i < s.len(),
    ensures
        first_seen_keys(s).contains(s[i].key()),
        with_key(s, s[i].key()).contains(s[i]),
        forall|k: GroupKey| with_key(s, k).contains(s[i]) ==> k == s[i].key(),
{
    lemma_first_seen_contains::<T>(s, s[i].key());
    lemma_with_key_self::<T>(s, i);
    assert forall|k: GroupKey| with_key(s, k).contains(s[i]) implies k == s[i].key() by {
        lemma_with_key_members::<T>(s, k);
        let n = choose|n: int| 0 <= n < with_key(s, k).len() && with_key(s, k)[n] == s[i];
        assert(with_key(s, k)[n].key() == k);
    }
}

/// How a per-key subsequence grows when a record is appended.
pub proof fn lemma_with_key_push<T: Keyed>(s: Seq<T>, x: T, k: GroupKey)
    ensures
        with_key(s.push(x), k) == if x.key() == k {
            with_key(s, k).push(x)
        } else {
            with_key(s, k)
        },
{
    assert(s.push(x).drop_last() =~= s);
    assert(s.push(x).last() == x);
}

/// The total size of the per-key subsequences taken over `keys`.
pub open spec fn total_with_keys<T: Keyed>(s: Seq<T>, keys: Seq<GroupKey>) -> int
    decreases keys.len(),
{
    if keys.len() == 0 {
        0
    } else {
        total_with_keys(s, keys.drop_last()) + with_key(s, keys.last()).len()
    }
}

/// Appending a record to the input adds exactly one to the total when its
/// key is among the (distinct) keys summed over, and nothing otherwise.
proof fn lemma_total_with_keys_push<T: Keyed>(s: Seq<T>, x: T, keys: Seq<GroupKey>)
    requires
        all_keys_distinct(keys),
    ensures
        total_with_keys(s.push(x), keys) == total_with_keys(s, keys) + if keys.contains(x.key()) {
            1int
        } else {
            0int
        },
    decreases keys.len(),
{
    if keys.len() > 0 {
        let kp = keys.drop_last();
        let kl = keys.last();
        assert(forall|m: int| 0 <= m < kp.len() ==> kp[m] == keys[m]);
        lemma_total_with_keys_push::<T>(s, x, kp);
        lemma_with_key_push::<T>(s, x, kl);
        if kl == x.key() {
            assert(!kp.contains(x.key())) by {
                if kp.contains(x.key()) {
                    let m = choose|m: int| 0 <= m < kp.len() && kp[m] == x.key();
                    assert(keys[m] == keys[keys.len() - 1]);
                }
            }
            assert(keys.contains(x.key())) by {
                assert(keys[keys.len() - 1] == x.key());
            }
        } else {
            assert(keys.contains(x.key()) == kp.contains(x.key())) by {
                if keys.contains(x.key()) {
                    let m = choose|m: int| 0 <= m < keys.len() && keys[m] == x.key();
                    assert(kp[m] == x.key());
                }
                if kp.contains(x.key()) {
                    let m = choose|m: int| 0 <= m < kp.len() && kp[m] == x.key();
                    assert(keys[m] == x.key());
                }
            }
        }
    }
}

/// Partition completeness, count half: the group sizes over the first-seen
/// keys add up to the input length — no record is lost or duplicated.
pub proof fn lemma_grouping_counts<T: Keyed>(s: Seq<T>)
    ensures
        total_with_keys(s, first_seen_keys(s)) == s.len(),
    decreases s.len(),
{
    if s.len() > 0 {
        let pre = s.drop_last();
        let x = s.last();
        let prev = first_seen_keys(pre);
        let lk = x.key();
        assert(s =~= pre.push(x));
        lemma_grouping_counts::<T>(pre);
        lemma_first_seen_distinct::<T>(pre);
        if prev.contains(lk) {
            lemma_total_with_keys_push::<T>(pre, x, prev);
        } else {
            lemma_total_with_keys_push::<T>(pre, x, prev);
            assert(total_with_keys(pre.push(x), prev) == pre.len());
            let keys2 = prev.push(lk);
            assert(keys2.drop_last() =~= prev);
            assert(total_with_keys(s, keys2) == total_with_keys(s, prev) + with_key(s, lk).len());
            lemma_first_seen_contains::<T>(pre, lk);
            lemma_with_key_empty::<T>(pre, lk);
            lemma_with_key_push::<T>(pre, x, lk);
            assert(with_key(s, lk) =~= seq![x]);
        }
    }
}

/// The total number of sets held by a group sequence.
pub open spec fn total_group_sets(groups: Seq<WorkoutExerciseGroup>) -> int
    decreases groups.len(),
{
    if groups.len() == 0 {
        0
    } else {
        total_group_sets(groups.drop_last()) + groups.last().sets@.len()
    }
}

/// The partial sums of the group sizes match the partial sums of the
/// per-key subsequence sizes, group by group.
proof fn lemma_total_group_sets_take(
    s: Seq<UserSet>,
    groups: Seq<WorkoutExerciseGroup>,
    n: int,
)
    requires
        0 <= n <= groups.len(),
        forall|i: int|
            0 <= i < groups.len() ==> (#[trigger] groups[i]).sets@ == with_key(s, groups[i].key()),
    ensures
        total_group_sets(groups.take(n)) == total_with_keys(s, group_keys(groups).take(n)),
    decreases n,
{
    if n > 0 {
        lemma_total_group_sets_take(s, groups, n - 1);
        assert(groups.take(n).drop_last() =~= groups.take(n - 1));
        assert(groups.take(n).last() == groups[n - 1]);
        let keys = group_keys(groups);
        assert(keys.take(n).drop_last() =~= keys.take(n - 1));
        assert(keys.take(n).last() == keys[n - 1]);
        assert(keys[n - 1] == groups[n - 1].key());
    }
}

/// Partition completeness, count half, on the grouper's output: the group
/// sizes of any grouping of `s` add up to the length of `s`.
pub proof fn lemma_grouping_preserves_count(groups: Seq<WorkoutExerciseGroup>, s: Seq<UserSet>)
    requires
        is_grouping_of(groups, s),
    ensures
        total_group_sets(groups) == s.len(),
{
    lemma_grouping_counts::<UserSet>(s);
    lemma_total_group_sets_take(s, groups, groups.len() as int);
    assert(groups.take(groups.len() as int) =~= groups);
    assert(group_keys(groups).take(groups.len() as int) =~= group_keys(groups));
}

impl Keyed for WorkoutExerciseGroup {
    open spec fn key(&self) -> GroupKey {
        GroupKey { exercise_id: self.exercise_id, profile_id: self.profile_id }
    }
}

/// The keys of a group sequence, in order.
pub open spec fn group_keys(groups: Seq<WorkoutExerciseGroup>) -> Seq<GroupKey> {
    groups.map_values(|g: WorkoutExerciseGroup| g.key())
}

/// A group sequence `groups` is the grouping of the set list `s`: one group
/// per distinct key in first-seen order, each holding exactly the sets of
/// its key in input order, with the unilateral flag set exactly when some
/// member set carries a side tag.
pub open spec fn is_grouping_of(groups: Seq<WorkoutExerciseGroup>, s: Seq<UserSet>) -> bool {
    &&& group_keys(groups) == first_seen_keys(s)
    &&& forall|i: int|
        0 <= i < groups.len() ==> (#[trigger] groups[i]).sets@ == with_key(s, groups[i].key())
    &&& forall|i: int|
        0 <= i < groups.len() ==> (#[trigger] groups[i]).is_unilateral == has_side(groups[i].sets@)
}

/// Find the group of key `k`, if one exists.
fn find_group(groups: &Vec<WorkoutExerciseGroup>, k: GroupKey) -> (r: Option<usize>)
    ensures
        match r {
            Some(j) => j < groups@.len() && groups@[j as int].key() == k,
            None => forall|i: int| 0 <= i < groups@.len() ==> (#[trigger] groups@[i]).key() != k,
        },
{
    let mut j: usize = 0;
    while j < groups.len()
        invariant
            j <= groups@.len(),
            forall|i: int| 0 <= i < j ==> (#[trigger] groups@[i]).key() != k,
        decreases groups@.len() - j,
    {
        let gk = GroupKey {
            exercise_id: groups[j].exercise_id,
            profile_id: groups[j].profile_id,
        };
        if gk == k {
            return Some(j);
        }
        j += 1;
    }
    None
}

/// Group a flat, ascending-by-`created_at` list of sets into exercise
/// groups. Groups appear in the order their key first occurs in the input;
/// each group holds exactly its key's sets, in input order; a group is
/// unilateral exactly when one of its sets carries a side tag.
pub fn group_sets_by_exercise(sets: Vec<UserSet>) -> (groups: Vec<WorkoutExerciseGroup>)
    ensures
        is_grouping_of(groups@, sets@),
{
    let ghost all = sets@;
    let mut sets = sets;
    let mut groups: Vec<WorkoutExerciseGroup> = Vec::new();
    let ghost i: int = 0;
    proof {
        assert(all.take(0) =~= Seq::<UserSet>::empty());
        assert(group_keys(groups@) =~= Seq::<GroupKey>::empty());
        assert(first_seen_keys(all.take(0)) =~= Seq::<GroupKey>::empty());
    }
    while sets.len() > 0
        invariant
            0 <= i <= all.len(),
            sets@ == all.skip(i),
            is_grouping_of(groups@, all.take(i)),
        decreases sets@.len(),
    {
        let set = sets.remove(0);
        proof {
            assert(set == all[i]);
            assert(all.skip(i).remove(0) =~= all.skip(i + 1));
            assert(all.take(i + 1).drop_last() =~= all.take(i));
            assert(all.take(i + 1).last() == all[i]);
        }
        let k = set.group_key();
        let ghost old_groups = groups@;
        let has_new_side = set.side.is_some();
        match find_group(&groups, k) {
            Some(j) => {
                let mut g = groups.remove(j);
                if has_new_side {
                    g.is_unilateral = true;
                }
                let ghost old_g_sets = g.sets@;
                g.sets.push(set);
                groups.insert(j, g);
                proof {
                    assert(groups@ =~= old_groups.update(j as int, g));
                    assert(group_keys(old_groups)[j as int] == k);
                    assert(group_keys(old_groups).contains(k));
                    assert(first_seen_keys(all.take(i + 1)) == first_seen_keys(all.take(i)));
                    assert(group_keys(groups@) =~= group_keys(old_groups));
                    lemma_has_side_push(old_g_sets, set);
                    assert forall|m: int| 0 <= m < groups@.len() implies (#[trigger] groups@[m]).sets@
                        == with_key(all.take(i + 1), groups@[m].key()) by {
                        if m == j {
                            assert(with_key(all.take(i + 1), k) == with_key(all.take(i), k).push(
                                set,
                            ));
                        } else {
                            assert(groups@[m] == old_groups[m]);
                            assert(group_keys(old_groups)[m] == old_groups[m].key());
                            assert(old_groups[m].key() != k) by {
                                lemma_first_seen_distinct::<UserSet>(all.take(i));
                            }
                            assert(with_key(all.take(i + 1), old_groups[m].key()) == with_key(
                                all.take(i),
                                old_groups[m].key(),
                            ));
                        }
                    }
                }
            },
            None => {
                let is_unilateral = has_new_side;
                let mut first: Vec<UserSet> = Vec::new();
                first.push(set);
                let g = WorkoutExerciseGroup {
                    exercise_id: k.exercise_id,
                    profile_id: k.profile_id,
                    is_unilateral,
                    sets: first,
                };
                groups.push(g);
                proof {
                    assert(!first_seen_keys(all.take(i)).contains(k)) by {
                        if first_seen_keys(all.take(i)).contains(k) {
                            let j = choose|j: int|
                                0 <= j < first_seen_keys(all.take(i)).len()
                                    && first_seen_keys(all.take(i))[j] == k;
                            assert(group_keys(old_groups)[j] == old_groups[j].key());
                        }
                    }
                    assert(first_seen_keys(all.take(i + 1)) == first_seen_keys(all.take(i)).push(
                        k,
                    ));
                    assert(group_keys(groups@) =~= group_keys(old_groups).push(k));
                    lemma_first_seen_contains::<UserSet>(all.take(i), k);
                    lemma_with_key_empty::<UserSet>(all.take(i), k);
                    assert(with_key(all.take(i + 1), k) =~= seq![set]);
                    assert(g.sets@ =~= seq![set]);
                    lemma_has_side_push(Seq::<UserSet>::empty(), set);
                    assert(has_side(g.sets@) == (set.side is Some)) by {
                        assert(Seq::<UserSet>::empty().push(set) =~= g.sets@);
                        assert(!has_side(Seq::<UserSet>::empty()));
                    }
                    assert forall|m: int| 0 <= m < groups@.len() implies (#[trigger] groups@[m]).sets@
                        == with_key(all.take(i + 1), groups@[m].key()) by {
                        if m < old_groups.len() {
                            assert(groups@[m] == old_groups[m]);
                            assert(group_keys(old_groups)[m] == old_groups[m].key());
                            assert(old_groups[m].key() != k);
                            assert(with_key(all.take(i + 1), old_groups[m].key()) == with_key(
                                all.take(i),
                                old_groups[m].key(),
                            ));
                        } else {
                            assert(groups@[m] == g);
                            assert(g.key() == k);
                        }
                    }
                }
            },
        }
        proof {
            i = i + 1;
        }
    }
    proof {
        assert(all.take(i) =~= all);
    }
    groups
}

} // verus!
