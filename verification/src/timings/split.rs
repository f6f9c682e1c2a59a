//! Balancing timing records across a fixed number of buckets.
//!
//! The balancer is the classical greedy longest-processing-time-first
//! heuristic: records are sorted by descending duration with a stable sort,
//! then each in turn is appended to the bucket whose running total is
//! currently least, the leftmost such bucket on ties. Everything is a pure
//! function of the record order and the bucket count, so independent runs
//! agree on every bucket.

use crate::timings::FileTiming;
use crate::timings::InputRangeError;
use vstd::multiset::Multiset;
use vstd::prelude::*;

verus! {

// ---------------------------------------------------------------------------
// Stable descending sort
// ---------------------------------------------------------------------------

/// Stable insertion: the new record goes after every record whose time is
/// equal or larger.
pub open spec fn insert_desc(sorted: Seq<FileTiming>, x: FileTiming) -> Seq<FileTiming>
    decreases sorted.len()
{
    if sorted.len() == 0 {
        seq![x]
    } else if sorted.first().total_time >= x.total_time {
        seq![sorted.first()] + insert_desc(sorted.drop_first(), x)
    } else {
        seq![x] + sorted
    }
}

/// Stable sort by descending total time (insertion sort).
pub open spec fn sort_desc(s: Seq<FileTiming>) -> Seq<FileTiming>
    decreases s.len()
{
    if s.len() == 0 {
        Seq::empty()
    } else {
        insert_desc(sort_desc(s.drop_last()), s.last())
    }
}

proof fn lemma_insert_desc_at(s: Seq<FileTiming>, x: FileTiming, p: int)
    requires
        0 <= p <= s.len(),
        forall|l: int| 0 <= l < p ==> (#[trigger] s[l]).total_time >= x.total_time,
        p < s.len() ==> s[p].total_time < x.total_time,
    ensures
        insert_desc(s, x) == s.insert(p, x),
    decreases p,
{
    if p == 0 {
        if s.len() == 0 {
            assert(insert_desc(s, x) =~= s.insert(0, x));
        } else {
            assert(s.first().total_time < x.total_time);
            assert(insert_desc(s, x) =~= s.insert(0, x));
        }
    } else {
        assert(s.first() == s[0]);
        assert(s[0].total_time >= x.total_time);
        assert(forall|l: int| 0 <= l < s.len() - 1 ==> #[trigger] s.drop_first()[l] == s[l + 1]);
        lemma_insert_desc_at(s.drop_first(), x, p - 1);
        assert(insert_desc(s, x) =~= s.insert(p, x));
    }
}

pub proof fn lemma_sort_desc_len(s: Seq<FileTiming>)
    ensures
        sort_desc(s).len() == s.len(),
    decreases s.len(),
{
    if s.len() > 0 {
        lemma_sort_desc_len(s.drop_last());
        lemma_insert_desc_len(sort_desc(s.drop_last()), s.last());
    }
}

proof fn lemma_insert_desc_len(s: Seq<FileTiming>, x: FileTiming)
    ensures
        insert_desc(s, x).len() == s.len() + 1,
    decreases s.len(),
{
    if s.len() > 0 && s.first().total_time >= x.total_time {
        lemma_insert_desc_len(s.drop_first(), x);
    }
}

// ---------------------------------------------------------------------------
// Greedy assignment
// ---------------------------------------------------------------------------

/// One bucket while balancing: its records and its running total.
pub type BucketState = (Seq<FileTiming>, int);

/// The index of the leftmost bucket with the least running total.
pub open spec fn min_index(state: Seq<BucketState>) -> int
    decreases state.len()
{
    if state.len() <= 1 {
        0
    } else {
        let m = min_index(state.drop_last());
        if state.last().1 < state[m].1 {
            state.len() - 1
        } else {
            m
        }
    }
}

pub proof fn lemma_min_index(state: Seq<BucketState>)
    requires
        state.len() > 0,
    ensures
        0 <= min_index(state) < state.len(),
        forall|l: int| 0 <= l < state.len() ==> (#[trigger] state[l]).1 >= state[min_index(state)].1,
        forall|l: int| 0 <= l < min_index(state) ==> (#[trigger] state[l]).1 > state[min_index(
            state,
        )].1,
    decreases state.len(),
{
    if state.len() > 1 {
        lemma_min_index(state.drop_last());
        let prev = state.drop_last();
        let m1 = min_index(prev);
        assert(forall|l: int| 0 <= l < state.len() - 1 ==> #[trigger] prev[l] == state[l]);
        assert(state.last() == state[state.len() - 1]);
        if state.last().1 < state[m1].1 {
            assert(min_index(state) == state.len() - 1);
            assert forall|l: int| 0 <= l < state.len() - 1 implies (#[trigger] state[l]).1
                >= state[m1].1 by {
                assert(prev[l] == state[l]);
            }
        } else {
            assert(min_index(state) == m1);
            assert forall|l: int| 0 <= l < state.len() implies (#[trigger] state[l]).1
                >= state[m1].1 by {
                if l < state.len() - 1 {
                    assert(prev[l] == state[l]);
                }
            }
            assert forall|l: int| 0 <= l < m1 implies (#[trigger] state[l]).1 > state[m1].1 by {
                assert(prev[l] == state[l]);
            }
        }
    }
}

proof fn lemma_min_index_is(state: Seq<BucketState>, m: int)
    requires
        0 <= m < state.len(),
        forall|l: int| 0 <= l < state.len() ==> (#[trigger] state[l]).1 >= state[m].1,
        forall|l: int| 0 <= l < m ==> (#[trigger] state[l]).1 > state[m].1,
    ensures
        min_index(state) == m,
{
    lemma_min_index(state);
    let m0 = min_index(state);
    if m0 < m {
        assert(state[m0].1 > state[m].1);
        assert(state[m0].1 <= state[m].1);
    }
    if m < m0 {
        assert(state[m].1 > state[m0].1);
        assert(state[m].1 >= state[m0].1);
    }
}

/// Assigns each record in turn to the leftmost least-loaded bucket.
pub open spec fn assign_rec(state: Seq<BucketState>, rest: Seq<FileTiming>) -> Seq<BucketState>
    decreases rest.len()
{
    if rest.len() == 0 || state.len() == 0 {
        state
    } else {
        let m = min_index(state);
        let b = state[m];
        assign_rec(
            state.update(m, (b.0.push(rest.first()), b.1 + rest.first().total_time)),
            rest.drop_first(),
        )
    }
}

pub open spec fn empty_state(k: nat) -> Seq<BucketState> {
    Seq::new(k, |i: int| (Seq::<FileTiming>::empty(), 0int))
}

/// The balanced partition of `timings` into `k` buckets: records in stable
/// descending time order, each appended to the leftmost bucket whose total is
/// least. Zero buckets give an empty partition.
pub open spec fn split_model(timings: Seq<FileTiming>, k: nat) -> Seq<Seq<FileTiming>> {
    assign_rec(empty_state(k), sort_desc(timings)).map_values(|b: BucketState| b.0)
}

/// The bucket contents of a vector of buckets.
pub open spec fn buckets_model(bs: Seq<Vec<FileTiming>>) -> Seq<Seq<FileTiming>> {
    bs.map_values(|b: Vec<FileTiming>| b@)
}

// ---------------------------------------------------------------------------
// The balancer
// ---------------------------------------------------------------------------

/// Splits the records into exactly `total_splits` buckets (possibly empty),
/// balancing the per-bucket totals: the largest remaining record always joins
/// the leftmost least-loaded bucket. A pure function of its arguments, so
/// repeated and independent runs agree.
pub fn split_timings(timings: &Vec<FileTiming>, total_splits: u32) -> (r: Vec<Vec<FileTiming>>)
    ensures
        r@.len() == total_splits as int,
        buckets_model(r@) == split_model(timings@, total_splits as nat),
{
    if total_splits == 0 {
        let r: Vec<Vec<FileTiming>> = Vec::new();
        proof {
            assert(buckets_model(r@) =~= split_model(timings@, 0));
        }
        return r;
    }
    let k = total_splits as usize;
    let n = timings.len();

    // stable descending insertion sort
    let mut sorted: Vec<FileTiming> = Vec::new();
    let mut i: usize = 0;
    proof {
        assert(timings@.take(0) =~= Seq::<FileTiming>::empty());
    }
    while i < n
        invariant
            n == timings@.len(),
            i <= n,
            sorted@ == sort_desc(timings@.take(i as int)),
            sorted@.len() == i,
        decreases n - i,
    {
        let x = timings[i].clone();
        let mut p: usize = 0;
        while p < sorted.len() && sorted[p].total_time >= x.total_time
            invariant
                n == timings@.len(),
                i < n,
                p <= sorted@.len(),
                x == timings@[i as int],
                forall|l: int| 0 <= l < p ==> (#[trigger] sorted@[l]).total_time >= x.total_time,
            decreases sorted@.len() - p,
        {
            p = p + 1;
        }
        proof {
            lemma_insert_desc_at(sorted@, x, p as int);
            assert(timings@.take(i + 1).drop_last() =~= timings@.take(i as int));
            assert(timings@.take(i + 1).last() == timings@[i as int]);
        }
        sorted.insert(p, x);
        i = i + 1;
    }
    proof {
        assert(timings@.take(n as int) =~= timings@);
    }

    // k empty buckets
    let mut buckets: Vec<Vec<FileTiming>> = Vec::new();
    let mut totals: Vec<u128> = Vec::new();
    let mut b: usize = 0;
    while b < k
        invariant
            b <= k,
            buckets@.len() == b,
            totals@.len() == b,
            forall|l: int| 0 <= l < b ==> (#[trigger] buckets@[l])@ == Seq::<FileTiming>::empty(),
            forall|l: int| 0 <= l < b ==> (#[trigger] totals@[l]) == 0,
        decreases k - b,
    {
        buckets.push(Vec::new());
        totals.push(0);
        b = b + 1;
    }

    let ghost gstate = Seq::new(k as nat, |l: int| (buckets@[l]@, totals@[l] as int));
    proof {
        assert(gstate =~= empty_state(k as nat));
        assert(sorted@.skip(0) =~= sorted@);
    }

    // assign each record, largest first, to the leftmost least-loaded bucket
    let mut j: usize = 0;
    while j < n
        invariant
            1 <= k,
            n == sorted@.len(),
            j <= n,
            buckets@.len() == k,
            totals@.len() == k,
            forall|l: int|
                0 <= l < k ==> (#[trigger] totals@[l]) as int <= j * (u64::MAX as int),
            assign_rec(
                Seq::new(k as nat, |l: int| (buckets@[l]@, totals@[l] as int)),
                sorted@.skip(j as int),
            ) == assign_rec(empty_state(k as nat), sorted@),
        decreases n - j,
    {
        let ghost state = Seq::new(k as nat, |l: int| (buckets@[l]@, totals@[l] as int));
        // leftmost minimum total
        let mut m: usize = 0;
        let mut idx: usize = 1;
        while idx < k
            invariant
                1 <= k,
                totals@.len() == k,
                m < k,
                idx <= k,
                m < idx || (m == 0 && idx <= 1),
                forall|l: int| 0 <= l < idx ==> (#[trigger] totals@[l]) >= totals@[m as int],
                forall|l: int| 0 <= l < m ==> (#[trigger] totals@[l]) > totals@[m as int],
            decreases k - idx,
        {
            if totals[idx] < totals[m] {
                m = idx;
            }
            idx = idx + 1;
        }
        proof {
            assert(forall|l: int| 0 <= l < k ==> (#[trigger] state[l]).1 == totals@[l] as int);
            lemma_min_index_is(state, m as int);
        }
        let x = sorted[j].clone();
        proof {
            // the new total stays below j + 1 records' worth of time
            assert((j as int) * (u64::MAX as int) + (u64::MAX as int) == (j + 1) * (
            u64::MAX as int)) by (nonlinear_arith);
            assert((j + 1) * (u64::MAX as int) <= (usize::MAX as int) * (u64::MAX as int)) by (
            nonlinear_arith)
                requires
                    0 <= j + 1 <= usize::MAX as int,
            ;
        }
        let dt = x.total_time as u128;
        totals[m] = totals[m] + dt;
        buckets[m].push(x);
        proof {
            let state2 = Seq::new(k as nat, |l: int| (buckets@[l]@, totals@[l] as int));
            assert(state2 =~= state.update(
                m as int,
                (state[m as int].0.push(sorted@[j as int]), state[m as int].1 + sorted@[
                    j as int
                ].total_time as int),
            ));
            assert(sorted@.skip(j as int).first() == sorted@[j as int]);
            assert(sorted@.skip(j as int).drop_first() =~= sorted@.skip(j + 1));
        }
        j = j + 1;
    }
    proof {
        assert(sorted@.skip(n as int) =~= Seq::<FileTiming>::empty());
        let fstate = Seq::new(k as nat, |l: int| (buckets@[l]@, totals@[l] as int));
        assert(buckets_model(buckets@) =~= fstate.map_values(|p: BucketState| p.0));
    }
    buckets
}

// ---------------------------------------------------------------------------
// Choosing one bucket
// ---------------------------------------------------------------------------

/// Balances the records and hands out the bucket at `current_split`; an index
/// at or past `total_splits` is a user input error, reported without output.
pub fn select_split(timings: &Vec<FileTiming>, total_splits: u32, current_split: u32) -> (r: Result<
    Vec<FileTiming>,
    InputRangeError,
>)
    ensures
        match r {
            Ok(bucket) => current_split < total_splits && bucket@ == split_model(
                timings@,
                total_splits as nat,
            )[current_split as int],
            Err(e) => current_split >= total_splits && e == (InputRangeError {
                total_splits,
                current_split,
            }),
        },
{
    if current_split >= total_splits {
        return Err(InputRangeError { total_splits, current_split });
    }
    let mut buckets = split_timings(timings, total_splits);
    let ghost all = buckets@;
    let bucket = buckets.remove(current_split as usize);
    proof {
        assert(buckets_model(all)[current_split as int] == all[current_split as int]@);
    }
    Ok(bucket)
}

/// Hands out the bucket at `current_split` of an already-partitioned list of
/// file paths; an index past the partition is a user input error, reported
/// without output.
pub fn select_pre_bucketed_split(
    bucketed: &Vec<Vec<String>>,
    total_splits: u32,
    current_split: u32,
) -> (r: Result<Vec<String>, InputRangeError>)
    ensures
        match r {
            Ok(bucket) => current_split < bucketed@.len() && bucket@ == bucketed@[
                current_split as int
            ]@,
            Err(e) => current_split >= bucketed@.len() && e == (InputRangeError {
                total_splits,
                current_split,
            }),
        },
{
    let cur = current_split as usize;
    if cur >= bucketed.len() {
        return Err(InputRangeError { total_splits, current_split });
    }
    let n = bucketed[cur].len();
    let mut bucket: Vec<String> = Vec::new();
    let mut i: usize = 0;
    while i < n
        invariant
            cur < bucketed@.len(),
            n == bucketed@[cur as int]@.len(),
            i <= n,
            bucket@ == bucketed@[cur as int]@.take(i as int),
        decreases n - i,
    {
        bucket.push(bucketed[cur][i].clone());
        proof {
            assert(bucketed@[cur as int]@.take(i + 1).drop_last() =~= bucketed@[cur as int]@.take(
                i as int,
            ));
            assert(bucket@ =~= bucketed@[cur as int]@.take(i + 1));
        }
        i = i + 1;
    }
    proof {
        assert(bucketed@[cur as int]@.take(n as int) =~= bucketed@[cur as int]@);
    }
    Ok(bucket)
}

// ---------------------------------------------------------------------------
// Conservation of records
// ---------------------------------------------------------------------------

/// The number of records over all buckets.
pub open spec fn buckets_len_sum(bs: Seq<Seq<FileTiming>>) -> int
    decreases bs.len()
{
    if bs.len() == 0 {
        0
    } else {
        buckets_len_sum(bs.drop_last()) + bs.last().len()
    }
}

/// The number of records over a balancing state.
pub open spec fn state_count(state: Seq<BucketState>) -> int
    decreases state.len()
{
    if state.len() == 0 {
        0
    } else {
        state_count(state.drop_last()) + state.last().0.len()
    }
}

proof fn lemma_state_count_update(state: Seq<BucketState>, m: int, b: BucketState)
    requires
        0 <= m < state.len(),
    ensures
        state_count(state.update(m, b)) == state_count(state) - state[m].0.len() + b.0.len(),
    decreases state.len(),
{
    let up = state.update(m, b);
    if m == state.len() - 1 {
        assert(up.drop_last() =~= state.drop_last());
        assert(up.last() == b);
    } else {
        assert(up.drop_last() =~= state.drop_last().update(m, b));
        assert(up.last() == state.last());
        lemma_state_count_update(state.drop_last(), m, b);
    }
}

proof fn lemma_assign_len(state: Seq<BucketState>, rest: Seq<FileTiming>)
    ensures
        assign_rec(state, rest).len() == state.len(),
    decreases rest.len(),
{
    if rest.len() > 0 && state.len() > 0 {
        let m = min_index(state);
        lemma_min_index(state);
        let b = state[m];
        lemma_assign_len(
            state.update(m, (b.0.push(rest.first()), b.1 + rest.first().total_time)),
            rest.drop_first(),
        );
    }
}

proof fn lemma_assign_count(state: Seq<BucketState>, rest: Seq<FileTiming>)
    requires
        state.len() > 0,
    ensures
        state_count(assign_rec(state, rest)) == state_count(state) + rest.len(),
    decreases rest.len(),
{
    if rest.len() > 0 {
        let m = min_index(state);
        lemma_min_index(state);
        let b = state[m];
        let b2 = (b.0.push(rest.first()), b.1 + rest.first().total_time);
        lemma_state_count_update(state, m, b2);
        lemma_assign_count(state.update(m, b2), rest.drop_first());
    }
}

proof fn lemma_empty_state_count(k: nat)
    ensures
        state_count(empty_state(k)) == 0,
    decreases k,
{
    if k > 0 {
        assert(empty_state(k).drop_last() =~= empty_state((k - 1) as nat));
        lemma_empty_state_count((k - 1) as nat);
    }
}

proof fn lemma_map_count(state: Seq<BucketState>)
    ensures
        buckets_len_sum(state.map_values(|b: BucketState| b.0)) == state_count(state),
    decreases state.len(),
{
    if state.len() > 0 {
        let mapped = state.map_values(|b: BucketState| b.0);
        assert(mapped.drop_last() =~= state.drop_last().map_values(|b: BucketState| b.0));
        assert(mapped.last() == state.last().0);
        lemma_map_count(state.drop_last());
    }
}

/// Bucket count conservation: splitting into at least one bucket gives
/// exactly `k` buckets whose lengths sum to the number of records. (With
/// zero buckets nothing is handed out at all, so nonempty inputs are not
/// conserved there.)
pub proof fn lemma_split_count_conservation(timings: Seq<FileTiming>, k: nat)
    requires
        k >= 1,
    ensures
        split_model(timings, k).len() == k,
        buckets_len_sum(split_model(timings, k)) == timings.len(),
{
    lemma_sort_desc_len(timings);
    lemma_assign_len(empty_state(k), sort_desc(timings));
    lemma_empty_state_count(k);
    lemma_assign_count(empty_state(k), sort_desc(timings));
    lemma_map_count(assign_rec(empty_state(k), sort_desc(timings)));
}

// ---------------------------------------------------------------------------
// Conservation, record by record
// ---------------------------------------------------------------------------

/// All records over all buckets, as a multiset.
pub open spec fn buckets_multiset(bs: Seq<Seq<FileTiming>>) -> Multiset<FileTiming>
    decreases bs.len()
{
    if bs.len() == 0 {
        Multiset::empty()
    } else {
        buckets_multiset(bs.drop_last()).add(bs.last().to_multiset())
    }
}

/// All records over a balancing state, as a multiset.
pub open spec fn state_multiset(state: Seq<BucketState>) -> Multiset<FileTiming>
    decreases state.len()
{
    if state.len() == 0 {
        Multiset::empty()
    } else {
        state_multiset(state.drop_last()).add(state.last().0.to_multiset())
    }
}

proof fn lemma_insert_desc_multiset(s: Seq<FileTiming>, x: FileTiming)
    ensures
        insert_desc(s, x).to_multiset() == s.to_multiset().insert(x),
    decreases s.len(),
{
    broadcast use vstd::seq_lib::group_to_multiset_ensures;

    if s.len() == 0 || s.first().total_time < x.total_time {
        assert(insert_desc(s, x) =~= s.insert(0, x));
        vstd::seq_lib::to_multiset_insert(s, 0, x);
    } else {
        lemma_insert_desc_multiset(s.drop_first(), x);
        let inner = insert_desc(s.drop_first(), x);
        assert(insert_desc(s, x) =~= inner.insert(0, s.first()));
        vstd::seq_lib::to_multiset_insert(inner, 0, s.first());
        assert(s =~= s.drop_first().insert(0, s.first()));
        vstd::seq_lib::to_multiset_insert(s.drop_first(), 0, s.first());
        assert(inner.to_multiset().insert(s.first()) =~= s.drop_first().to_multiset().insert(
            s.first(),
        ).insert(x));
        assert(insert_desc(s, x).to_multiset() =~= s.to_multiset().insert(x));
    }
}

/// Sorting rearranges the records and nothing else.
pub proof fn lemma_sort_desc_multiset(s: Seq<FileTiming>)
    ensures
        sort_desc(s).to_multiset() == s.to_multiset(),
    decreases s.len(),
{
    broadcast use vstd::seq_lib::group_to_multiset_ensures;

    if s.len() > 0 {
        lemma_sort_desc_multiset(s.drop_last());
        lemma_insert_desc_multiset(sort_desc(s.drop_last()), s.last());
        assert(s =~= s.drop_last().push(s.last()));
    }
}

proof fn lemma_state_multiset_update(state: Seq<BucketState>, m: int, b: BucketState, r: FileTiming)
    requires
        0 <= m < state.len(),
        b.0 == state[m].0.push(r),
    ensures
        state_multiset(state.update(m, b)) == state_multiset(state).insert(r),
    decreases state.len(),
{
    broadcast use vstd::seq_lib::group_to_multiset_ensures;

    let up = state.update(m, b);
    if m == state.len() - 1 {
        assert(up.drop_last() =~= state.drop_last());
        assert(up.last() == b);
        assert(state_multiset(up) =~= state_multiset(state).insert(r));
    } else {
        assert(up.drop_last() =~= state.drop_last().update(m, b));
        assert(up.last() == state.last());
        lemma_state_multiset_update(state.drop_last(), m, b, r);
        assert(state_multiset(up) =~= state_multiset(state).insert(r));
    }
}

proof fn lemma_assign_multiset(state: Seq<BucketState>, rest: Seq<FileTiming>)
    requires
        state.len() > 0,
    ensures
        state_multiset(assign_rec(state, rest)) == state_multiset(state).add(rest.to_multiset()),
    decreases rest.len(),
{
    broadcast use vstd::seq_lib::group_to_multiset_ensures;

    if rest.len() == 0 {
        assert(forall|x: FileTiming| !rest.contains(x));
        assert(state_multiset(state).add(rest.to_multiset()) =~= state_multiset(state));
    } else {
        let m = min_index(state);
        lemma_min_index(state);
        let b = state[m];
        let b2 = (b.0.push(rest.first()), b.1 + rest.first().total_time);
        lemma_state_multiset_update(state, m, b2, rest.first());
        lemma_assign_multiset(state.update(m, b2), rest.drop_first());
        assert(rest =~= rest.drop_first().insert(0, rest.first()));
        vstd::seq_lib::to_multiset_insert(rest.drop_first(), 0, rest.first());
        assert(state_multiset(state).insert(rest.first()).add(rest.drop_first().to_multiset())
            =~= state_multiset(state).add(rest.to_multiset()));
    }
}

proof fn lemma_empty_state_multiset(k: nat)
    ensures
        state_multiset(empty_state(k)) == Multiset::<FileTiming>::empty(),
    decreases k,
{
    broadcast use vstd::seq_lib::group_to_multiset_ensures;

    if k > 0 {
        assert(empty_state(k).drop_last() =~= empty_state((k - 1) as nat));
        lemma_empty_state_multiset((k - 1) as nat);
        assert(forall|x: FileTiming| !empty_state(k).last().0.contains(x));
        assert(state_multiset(empty_state(k)) =~= Multiset::<FileTiming>::empty());
    }
}

proof fn lemma_buckets_multiset_map(state: Seq<BucketState>)
    ensures
        buckets_multiset(state.map_values(|b: BucketState| b.0)) == state_multiset(state),
    decreases state.len(),
{
    if state.len() > 0 {
        let mapped = state.map_values(|b: BucketState| b.0);
        assert(mapped.drop_last() =~= state.drop_last().map_values(|b: BucketState| b.0));
        assert(mapped.last() == state.last().0);
        lemma_buckets_multiset_map(state.drop_last());
    }
}

/// Record conservation: with at least one bucket, the buckets together hold
/// exactly the input records — none lost, none duplicated.
pub proof fn lemma_split_preserves_records(timings: Seq<FileTiming>, k: nat)
    requires
        k >= 1,
    ensures
        buckets_multiset(split_model(timings, k)) == timings.to_multiset(),
{
    lemma_sort_desc_multiset(timings);
    lemma_empty_state_multiset(k);
    lemma_assign_multiset(empty_state(k), sort_desc(timings));
    lemma_buckets_multiset_map(assign_rec(empty_state(k), sort_desc(timings)));
    assert(Multiset::<FileTiming>::empty().add(timings.to_multiset()) =~= timings.to_multiset());
}

} // verus!
