//! Merging of several record streams into one, by timestamp.
//!
//! The merge is greedy: at each step the pending head records of all the
//! streams are compared and the one that sorts first comes out. A record
//! with a timestamp sorts before one without; two records whose timestamps
//! are equal (or both missing) come out in the order of their streams.
use vstd::prelude::*;
use vstd::seq_lib::{lemma_multiset_commutative, to_multiset_insert};

use crate::record::{Record, RecordView};

verus! {

/// Timestamp `a` sorts strictly before timestamp `b`; a missing timestamp sorts last.
pub open spec fn ts_before(a: Option<i64>, b: Option<i64>) -> bool {
    match (a, b) {
        (Some(x), Some(y)) => x < y,
        (Some(_), None) => true,
        (None, _) => false,
    }
}

/// Timestamp `a` sorts no later than timestamp `b`.
pub open spec fn ts_le(a: Option<i64>, b: Option<i64>) -> bool {
    !ts_before(b, a)
}

/// The records of `s` are in timestamp order.
pub open spec fn ts_sorted(s: Seq<RecordView>) -> bool {
    forall|i: int, j: int| 0 <= i < j < s.len() ==> ts_le(#[trigger] s[i].ts, #[trigger] s[j].ts)
}

/// Among the first `n` streams, the one whose head comes out next: the
/// smallest index among the non-empty streams whose head sorts first; `-1`
/// when all of them are empty.
pub open spec fn next_stream_upto(streams: Seq<Seq<RecordView>>, n: int) -> int
    decreases n,
{
    if n <= 0 {
        -1
    } else {
        let b = next_stream_upto(streams, n - 1);
        if streams[n - 1].len() == 0 {
            b
        } else if b < 0 || ts_before(streams[n - 1][0].ts, streams[b][0].ts) {
            n - 1
        } else {
            b
        }
    }
}

/// The stream whose head comes out next, or `-1` when all streams are empty.
pub open spec fn next_stream(streams: Seq<Seq<RecordView>>) -> int {
    next_stream_upto(streams, streams.len() as int)
}

/// The number of records in all streams together.
pub open spec fn total_len(streams: Seq<Seq<RecordView>>) -> nat
    decreases streams.len(),
{
    if streams.len() == 0 {
        0
    } else {
        streams.last().len() + total_len(streams.drop_last())
    }
}

/// All streams, one after the other.
pub open spec fn concat_all(streams: Seq<Seq<RecordView>>) -> Seq<RecordView>
    decreases streams.len(),
{
    if streams.len() == 0 {
        Seq::empty()
    } else {
        concat_all(streams.drop_last()) + streams.last()
    }
}

/// The merged output, each record paired with the index of its stream.
pub open spec fn merge_tagged(streams: Seq<Seq<RecordView>>) -> Seq<(int, RecordView)>
    decreases total_len(streams),
{
    let b = next_stream(streams);
    // `next_stream` only ever names a non-empty stream (see `lemma_next_stream`);
    // the guard keeps the definition total without appealing to that lemma.
    if 0 <= b < streams.len() && streams[b].len() > 0 {
        proof {
            lemma_total_len_update(streams, b, streams[b].drop_first());
        }
        seq![(b, streams[b][0])] + merge_tagged(streams.update(b, streams[b].drop_first()))
    } else {
        Seq::empty()
    }
}

/// The merged output.
pub open spec fn merged(streams: Seq<Seq<RecordView>>) -> Seq<RecordView> {
    merge_tagged(streams).map_values(|p: (int, RecordView)| p.1)
}

/// The records of a tagged sequence that carry tag `k`, in order.
pub open spec fn from_stream(t: Seq<(int, RecordView)>, k: int) -> Seq<RecordView>
    decreases t.len(),
{
    if t.len() == 0 {
        Seq::empty()
    } else if t[0].0 == k {
        seq![t[0].1] + from_stream(t.drop_first(), k)
    } else {
        from_stream(t.drop_first(), k)
    }
}

/// `a` comes no later than `b` in the merge order: by timestamp, then by stream index.
pub open spec fn tagged_le(a: (int, RecordView), b: (int, RecordView)) -> bool {
    ts_before(a.1.ts, b.1.ts) || (a.1.ts == b.1.ts && a.0 <= b.0)
}

/// The views of a sequence of records.
pub open spec fn record_views(v: Seq<Record>) -> Seq<RecordView> {
    v.map_values(|r: Record| r@)
}

/// The views of a sequence of record streams.
pub open spec fn stream_views(v: Seq<Vec<Record>>) -> Seq<Seq<RecordView>> {
    v.map_values(|s: Vec<Record>| record_views(s@))
}

pub proof fn lemma_total_len_update(streams: Seq<Seq<RecordView>>, b: int, x: Seq<RecordView>)
    requires
        0 <= b < streams.len(),
    ensures
        total_len(streams.update(b, x)) == total_len(streams) - streams[b].len() + x.len(),
    decreases streams.len(),
{
    let u = streams.update(b, x);
    if b == streams.len() - 1 {
        assert(u.drop_last() =~= streams.drop_last());
    } else {
        assert(u.drop_last() =~= streams.drop_last().update(b, x));
        lemma_total_len_update(streams.drop_last(), b, x);
    }
}

/// What `next_stream_upto` picks: `-1` exactly when the first `n` streams
/// are empty; otherwise a non-empty stream whose head sorts first, and the
/// smallest such index on ties.
pub proof fn lemma_next_stream(streams: Seq<Seq<RecordView>>, n: int)
    requires
        0 <= n <= streams.len(),
    ensures
        ({
            let b = next_stream_upto(streams, n);
            &&& b == -1 <==> forall|i: int| 0 <= i < n ==> #[trigger] streams[i].len() == 0
            &&& b != -1 ==> 0 <= b < n && streams[b].len() > 0
            &&& b != -1 ==> forall|i: int|
                0 <= i < n && #[trigger] streams[i].len() > 0 ==> ts_le(
                    streams[b][0].ts,
                    streams[i][0].ts,
                ) && (streams[i][0].ts == streams[b][0].ts ==> b <= i)
        }),
    decreases n,
{
    if n > 0 {
        lemma_next_stream(streams, n - 1);
    }
}

/// Every record of the merge carries the index of a stream that holds it,
/// at a position at or after the stream's head.
pub proof fn lemma_merge_tagged_members(streams: Seq<Seq<RecordView>>)
    ensures
        forall|p: int|
            0 <= p < merge_tagged(streams).len() ==> {
                let (k, r) = #[trigger] merge_tagged(streams)[p];
                0 <= k < streams.len() && exists|j: int| 0 <= j < streams[k].len() && streams[k][j] == r
            },
    decreases total_len(streams),
{
    let b = next_stream(streams);
    if 0 <= b < streams.len() && streams[b].len() > 0 {
        let rest = streams.update(b, streams[b].drop_first());
        lemma_total_len_update(streams, b, streams[b].drop_first());
        lemma_merge_tagged_members(rest);
        let t = merge_tagged(streams);
        assert forall|p: int| 0 <= p < t.len() implies {
            let (k, r) = #[trigger] t[p];
            0 <= k < streams.len() && exists|j: int| 0 <= j < streams[k].len() && streams[k][j] == r
        } by {
            if p == 0 {
                assert(streams[b][0] == t[0].1);
            } else {
                let (k, r) = t[p];
                assert(t[p] == merge_tagged(rest)[p - 1]);
                let j = choose|j: int| 0 <= j < rest[k].len() && rest[k][j] == r;
                if k == b {
                    assert(streams[k][j + 1] == r);
                } else {
                    assert(streams[k][j] == r);
                }
            }
        }
    }
}

/// Law: each step of the merge takes, among the heads of the streams that
/// have records left, the one that sorts first: the smallest timestamp, a
/// missing one only when no head has one, the lower stream index on ties;
/// the merge then goes on with that stream's head taken off. It ends when
/// every stream is empty.
pub proof fn law_merge_takes_least_head(streams: Seq<Seq<RecordView>>)
    ensures
        merge_tagged(streams).len() == 0 <==> forall|i: int|
            0 <= i < streams.len() ==> #[trigger] streams[i].len() == 0,
        merge_tagged(streams).len() > 0 ==> ({
            let (b, h) = merge_tagged(streams)[0];
            &&& 0 <= b < streams.len() && streams[b].len() > 0 && h == streams[b][0]
            &&& forall|i: int|
                0 <= i < streams.len() && #[trigger] streams[i].len() > 0 ==> ts_le(
                    h.ts,
                    streams[i][0].ts,
                ) && (streams[i][0].ts == h.ts ==> b <= i)
            &&& merge_tagged(streams).drop_first() == merge_tagged(
                streams.update(b, streams[b].drop_first()),
            )
        }),
{
    lemma_next_stream(streams, streams.len() as int);
    let b = next_stream(streams);
    if 0 <= b < streams.len() && streams[b].len() > 0 {
        let rest = streams.update(b, streams[b].drop_first());
        assert(merge_tagged(streams).drop_first() =~= merge_tagged(rest));
    }
}

/// Law: the records that the merge takes from stream `k` are exactly the
/// records of stream `k`, in their order. No record is lost, duplicated or
/// reordered within its stream.
pub proof fn law_merge_keeps_each_stream(streams: Seq<Seq<RecordView>>, k: int)
    requires
        0 <= k < streams.len(),
    ensures
        from_stream(merge_tagged(streams), k) == streams[k],
    decreases total_len(streams),
{
    let b = next_stream(streams);
    lemma_next_stream(streams, streams.len() as int);
    if 0 <= b < streams.len() && streams[b].len() > 0 {
        let rest = streams.update(b, streams[b].drop_first());
        lemma_total_len_update(streams, b, streams[b].drop_first());
        law_merge_keeps_each_stream(rest, k);
        let t = merge_tagged(streams);
        assert(t.drop_first() =~= merge_tagged(rest));
        if b == k {
            assert(seq![streams[k][0]] + streams[k].drop_first() =~= streams[k]);
        }
    } else {
        assert(streams[k].len() == 0);
        assert(streams[k] =~= Seq::<RecordView>::empty());
    }
}

proof fn lemma_concat_all_update(streams: Seq<Seq<RecordView>>, b: int, x: Seq<RecordView>)
    requires
        0 <= b < streams.len(),
    ensures
        concat_all(streams.update(b, x)).to_multiset().add(streams[b].to_multiset())
            =~= concat_all(streams).to_multiset().add(x.to_multiset()),
    decreases streams.len(),
{
    broadcast use vstd::multiset::group_multiset_axioms;

    let u = streams.update(b, x);
    let last = streams.len() - 1;
    let cu = concat_all(u);
    let cs = concat_all(streams);
    assert(cu == concat_all(u.drop_last()) + u.last());
    assert(cs == concat_all(streams.drop_last()) + streams.last());
    lemma_multiset_commutative(concat_all(u.drop_last()), u.last());
    lemma_multiset_commutative(concat_all(streams.drop_last()), streams.last());
    if b == last {
        assert(u.drop_last() =~= streams.drop_last());
        assert(u.last() == x);
        assert forall|e: RecordView| #[trigger] cu.to_multiset().add(
            streams[b].to_multiset(),
        ).count(e) == cs.to_multiset().add(x.to_multiset()).count(e) by {}
    } else {
        let ud = streams.drop_last().update(b, x);
        assert(u.drop_last() =~= ud);
        assert(u.last() == streams.last());
        assert(streams.drop_last()[b] == streams[b]);
        lemma_concat_all_update(streams.drop_last(), b, x);
        assert forall|e: RecordView| #[trigger] cu.to_multiset().add(
            streams[b].to_multiset(),
        ).count(e) == cs.to_multiset().add(x.to_multiset()).count(e) by {
            assert(concat_all(ud).to_multiset().add(streams[b].to_multiset()).count(e)
                == concat_all(streams.drop_last()).to_multiset().add(x.to_multiset()).count(e));
        }
    }
}

/// Law: the merge neither loses nor invents records: its output is a
/// permutation of all input records taken together.
pub proof fn law_merge_is_permutation(streams: Seq<Seq<RecordView>>)
    ensures
        merged(streams).to_multiset() == concat_all(streams).to_multiset(),
    decreases total_len(streams),
{
    broadcast use vstd::multiset::group_multiset_axioms;

    let b = next_stream(streams);
    lemma_next_stream(streams, streams.len() as int);
    let t = merge_tagged(streams);
    if 0 <= b < streams.len() && streams[b].len() > 0 {
        let x = streams[b].drop_first();
        let rest = streams.update(b, x);
        lemma_total_len_update(streams, b, x);
        law_merge_is_permutation(rest);
        let h = streams[b][0];
        assert(merged(streams) =~= seq![h] + merged(rest));
        lemma_multiset_commutative(seq![h], merged(rest));
        lemma_concat_all_update(streams, b, x);
        assert(streams[b] =~= seq![h] + x);
        lemma_multiset_commutative(seq![h], x);
        let m = merged(streams);
        let c = concat_all(streams);
        assert(m =~= merged(rest).insert(0, h));
        to_multiset_insert(merged(rest), 0, h);
        assert(streams[b] =~= x.insert(0, h));
        to_multiset_insert(x, 0, h);
        assert(m.to_multiset() =~= merged(rest).to_multiset().insert(h));
        assert(streams[b].to_multiset() =~= x.to_multiset().insert(h));
        assert forall|e: RecordView| #[trigger] m.to_multiset().count(e) == c.to_multiset().count(
            e,
        ) by {
            assert(concat_all(rest).to_multiset().add(streams[b].to_multiset()).count(e)
                == c.to_multiset().add(x.to_multiset()).count(e));
        }
        assert(m.to_multiset() =~= c.to_multiset());
    } else {
        assert(merged(streams) =~= Seq::<RecordView>::empty());
        lemma_concat_all_empty(streams);
    }
}

proof fn lemma_concat_all_empty(streams: Seq<Seq<RecordView>>)
    requires
        forall|i: int| 0 <= i < streams.len() ==> #[trigger] streams[i].len() == 0,
    ensures
        concat_all(streams) =~= Seq::<RecordView>::empty(),
    decreases streams.len(),
{
    if streams.len() > 0 {
        lemma_concat_all_empty(streams.drop_last());
    }
}

/// Law: when every stream is in timestamp order, the merge is in timestamp
/// order; records with equal timestamps (or none) come out in the order of
/// their streams.
pub proof fn law_merge_sorted(streams: Seq<Seq<RecordView>>)
    requires
        forall|k: int| 0 <= k < streams.len() ==> ts_sorted(#[trigger] streams[k]),
    ensures
        forall|i: int, j: int|
            0 <= i < j < merge_tagged(streams).len() ==> tagged_le(
                #[trigger] merge_tagged(streams)[i],
                #[trigger] merge_tagged(streams)[j],
            ),
        ts_sorted(merged(streams)),
    decreases total_len(streams),
{
    let b = next_stream(streams);
    lemma_next_stream(streams, streams.len() as int);
    let t = merge_tagged(streams);
    if 0 <= b < streams.len() && streams[b].len() > 0 {
        let x = streams[b].drop_first();
        let rest = streams.update(b, x);
        lemma_total_len_update(streams, b, x);
        assert forall|k: int| 0 <= k < rest.len() implies ts_sorted(#[trigger] rest[k]) by {
            assert(ts_sorted(streams[k]));
            if k == b {
                assert forall|i: int, j: int| 0 <= i < j < rest[k].len() implies ts_le(
                    #[trigger] rest[k][i].ts,
                    #[trigger] rest[k][j].ts,
                ) by {
                    assert(ts_le(streams[k][i + 1].ts, streams[k][j + 1].ts));
                }
            }
        }
        law_merge_sorted(rest);
        lemma_merge_tagged_members(rest);
        let tr = merge_tagged(rest);
        assert(t.drop_first() =~= tr);
        assert forall|i: int, j: int| 0 <= i < j < t.len() implies tagged_le(
            #[trigger] t[i],
            #[trigger] t[j],
        ) by {
            if i == 0 {
                let (k, r) = tr[j - 1];
                assert(t[j] == tr[j - 1]);
                let jj = choose|jj: int| 0 <= jj < rest[k].len() && rest[k][jj] == r;
                if k == b {
                    assert(ts_le(streams[b][0].ts, streams[b][jj + 1].ts));
                } else {
                    assert(streams[k].len() > 0);
                    if jj > 0 {
                        assert(ts_le(streams[k][0].ts, streams[k][jj].ts));
                    }
                }
            } else {
                assert(t[i] == tr[i - 1] && t[j] == tr[j - 1]);
            }
        }
    }
    let m = merged(streams);
    assert forall|i: int, j: int| 0 <= i < j < m.len() implies ts_le(
        #[trigger] m[i].ts,
        #[trigger] m[j].ts,
    ) by {
        assert(tagged_le(t[i], t[j]));
    }
}

proof fn lemma_concat_all_split(streams: Seq<Seq<RecordView>>, b: int)
    requires
        0 <= b < streams.len(),
    ensures
        concat_all(streams) == concat_all(streams.take(b)) + streams[b] + concat_all(
            streams.skip(b + 1),
        ),
    decreases streams.len(),
{
    let last = streams.len() - 1;
    if b == last {
        assert(streams.take(b) =~= streams.drop_last());
        assert(streams.skip(b + 1) =~= Seq::<Seq<RecordView>>::empty());
        assert(concat_all(streams.skip(b + 1)) =~= Seq::<RecordView>::empty());
        assert(concat_all(streams) =~= concat_all(streams.take(b)) + streams[b] + concat_all(
            streams.skip(b + 1),
        ));
    } else {
        let d = streams.drop_last();
        lemma_concat_all_split(d, b);
        assert(d.take(b) =~= streams.take(b));
        assert(streams.skip(b + 1).drop_last() =~= d.skip(b + 1));
        assert(streams.skip(b + 1).last() == streams.last());
        assert(concat_all(streams) =~= concat_all(streams.take(b)) + streams[b] + concat_all(
            streams.skip(b + 1),
        ));
    }
}

/// Law: when no record has a timestamp, the merge is first-in first-out:
/// all of the first stream, then all of the second, and so on.
pub proof fn law_merge_without_timestamps_concatenates(streams: Seq<Seq<RecordView>>)
    requires
        forall|k: int, j: int|
            0 <= k < streams.len() && 0 <= j < streams[k].len() ==> (#[trigger] streams[k][j]).ts
                is None,
    ensures
        merged(streams) == concat_all(streams),
    decreases total_len(streams),
{
    let b = next_stream(streams);
    lemma_next_stream(streams, streams.len() as int);
    if 0 <= b < streams.len() && streams[b].len() > 0 {
        let x = streams[b].drop_first();
        let rest = streams.update(b, x);
        lemma_total_len_update(streams, b, x);
        assert forall|k: int, j: int|
            0 <= k < rest.len() && 0 <= j < rest[k].len() implies (#[trigger] rest[k][j]).ts
            is None by {
            if k == b {
                assert(rest[k][j] == streams[k][j + 1]);
            } else {
                assert(rest[k][j] == streams[k][j]);
            }
        }
        law_merge_without_timestamps_concatenates(rest);
        assert forall|i: int| 0 <= i < b implies #[trigger] streams[i].len() == 0 by {
            if streams[i].len() > 0 {
                assert(streams[i][0].ts is None && streams[b][0].ts is None);
            }
        }
        lemma_concat_all_split(streams, b);
        lemma_concat_all_split(rest, b);
        assert(streams.take(b) =~= rest.take(b));
        assert(streams.skip(b + 1) =~= rest.skip(b + 1));
        lemma_concat_all_empty(streams.take(b));
        assert(merged(streams) =~= seq![streams[b][0]] + merged(rest));
        assert(streams[b] =~= seq![streams[b][0]] + x);
        assert(merged(streams) =~= concat_all(streams));
    } else {
        assert(merged(streams) =~= Seq::<RecordView>::empty());
        lemma_concat_all_empty(streams);
    }
}

/// The records of stream `k`, each tagged with `k`.
pub open spec fn tag_stream(k: int, s: Seq<RecordView>) -> Seq<(int, RecordView)> {
    s.map_values(|r: RecordView| (k, r))
}

/// The first `n` streams one after the other, each record tagged with the
/// index of its stream.
pub open spec fn tagged_concat_upto(streams: Seq<Seq<RecordView>>, n: int) -> Seq<(int, RecordView)>
    decreases n,
{
    if n <= 0 {
        Seq::empty()
    } else {
        tagged_concat_upto(streams, n - 1) + tag_stream(n - 1, streams[n - 1])
    }
}

/// All streams one after the other, each record tagged with its stream's index.
pub open spec fn tagged_concat(streams: Seq<Seq<RecordView>>) -> Seq<(int, RecordView)> {
    tagged_concat_upto(streams, streams.len() as int)
}

/// `a` sorts strictly before `b`: by timestamp (a missing one last), then
/// by stream index.
pub open spec fn tagged_before(a: (int, RecordView), b: (int, RecordView)) -> bool {
    ts_before(a.1.ts, b.1.ts) || (a.1.ts == b.1.ts && a.0 < b.0)
}

/// `x` inserted into `s` after every element that does not sort strictly after it.
pub open spec fn insert_stable(s: Seq<(int, RecordView)>, x: (int, RecordView)) -> Seq<
    (int, RecordView),
>
    decreases s.len(),
{
    if s.len() == 0 {
        seq![x]
    } else if tagged_before(x, s.last()) {
        insert_stable(s.drop_last(), x).push(s.last())
    } else {
        s.push(x)
    }
}

/// `t` sorted by `tagged_before`, stably: elements that neither sorts before
/// the other keep their order in `t` (insertion sort).
pub open spec fn stable_sort(t: Seq<(int, RecordView)>) -> Seq<(int, RecordView)>
    decreases t.len(),
{
    if t.len() == 0 {
        Seq::empty()
    } else {
        insert_stable(stable_sort(t.drop_last()), t.last())
    }
}

proof fn lemma_insert_members(s: Seq<(int, RecordView)>, x: (int, RecordView))
    ensures
        insert_stable(s, x).len() == s.len() + 1,
        forall|e: (int, RecordView)| #[trigger] insert_stable(s, x).contains(e) ==> s.contains(e) || e == x,
    decreases s.len(),
{
    if s.len() > 0 && tagged_before(x, s.last()) {
        lemma_insert_members(s.drop_last(), x);
        let i = insert_stable(s, x);
        assert forall|e: (int, RecordView)| #[trigger] i.contains(e) implies s.contains(e) || e == x by {
            let k = choose|k: int| 0 <= k < i.len() && i[k] == e;
            if k < i.len() - 1 {
                assert(insert_stable(s.drop_last(), x).contains(e));
                if e != x {
                    let m = choose|m: int| 0 <= m < s.drop_last().len() && s.drop_last()[m] == e;
                    assert(s[m] == e);
                }
            } else {
                assert(s[s.len() - 1] == e);
            }
        }
    } else if s.len() > 0 {
        let i = insert_stable(s, x);
        assert forall|e: (int, RecordView)| #[trigger] i.contains(e) implies s.contains(e) || e == x by {
            let k = choose|k: int| 0 <= k < i.len() && i[k] == e;
            if k < s.len() {
                assert(s[k] == e);
            }
        }
    }
}

proof fn lemma_stable_sort_members(t: Seq<(int, RecordView)>)
    ensures
        stable_sort(t).len() == t.len(),
        forall|e: (int, RecordView)| #[trigger] stable_sort(t).contains(e) ==> t.contains(e),
    decreases t.len(),
{
    if t.len() > 0 {
        let d = t.drop_last();
        lemma_stable_sort_members(d);
        lemma_insert_members(stable_sort(d), t.last());
        assert forall|e: (int, RecordView)| #[trigger] stable_sort(t).contains(e) implies t.contains(e) by {
            if e == t.last() {
                assert(t[t.len() - 1] == e);
            } else {
                assert(stable_sort(d).contains(e));
                let m = choose|m: int| 0 <= m < d.len() && d[m] == e;
                assert(t[m] == e);
            }
        }
    }
}

proof fn lemma_insert_front(s: Seq<(int, RecordView)>, x: (int, RecordView))
    requires
        forall|i: int| 0 <= i < s.len() ==> tagged_before(x, #[trigger] s[i]),
    ensures
        insert_stable(s, x) == seq![x] + s,
    decreases s.len(),
{
    if s.len() > 0 {
        assert(tagged_before(x, s[s.len() - 1]));
        lemma_insert_front(s.drop_last(), x);
        assert((seq![x] + s.drop_last()).push(s.last()) =~= seq![x] + s);
    } else {
        assert(seq![x] + s =~= seq![x]);
    }
}

proof fn lemma_insert_after_head(m: (int, RecordView), t: Seq<(int, RecordView)>, x: (int, RecordView))
    requires
        !tagged_before(x, m),
    ensures
        insert_stable(seq![m] + t, x) == seq![m] + insert_stable(t, x),
    decreases t.len(),
{
    let s = seq![m] + t;
    if t.len() == 0 {
        assert(s =~= seq![m]);
        assert(s.last() == m);
        assert(s.push(x) =~= seq![m] + seq![x]);
    } else {
        assert(s.last() == t.last());
        assert(s.drop_last() =~= seq![m] + t.drop_last());
        if tagged_before(x, t.last()) {
            lemma_insert_after_head(m, t.drop_last(), x);
            assert((seq![m] + insert_stable(t.drop_last(), x)).push(t.last()) =~= seq![m]
                + insert_stable(t.drop_last(), x).push(t.last()));
        } else {
            assert(s.push(x) =~= seq![m] + t.push(x));
        }
    }
}

/// The stable sort puts first the earliest of the elements that sort first.
proof fn lemma_stable_sort_first(t: Seq<(int, RecordView)>, p: int)
    requires
        0 <= p < t.len(),
        forall|q: int| 0 <= q < p ==> tagged_before(t[p], #[trigger] t[q]),
        forall|q: int| p < q < t.len() ==> !tagged_before(#[trigger] t[q], t[p]),
    ensures
        stable_sort(t) == seq![t[p]] + stable_sort(t.remove(p)),
    decreases t.len(),
{
    let d = t.drop_last();
    let x = t.last();
    if p == t.len() - 1 {
        lemma_stable_sort_members(d);
        let sd = stable_sort(d);
        assert forall|i: int| 0 <= i < sd.len() implies tagged_before(x, #[trigger] sd[i]) by {
            assert(sd.contains(sd[i]));
            let q = choose|q: int| 0 <= q < d.len() && d[q] == sd[i];
            assert(t[q] == d[q]);
        }
        lemma_insert_front(sd, x);
        assert(t.remove(p) =~= d);
    } else {
        assert forall|q: int| 0 <= q < p implies tagged_before(d[p], #[trigger] d[q]) by {
            assert(t[q] == d[q]);
        }
        assert forall|q: int| p < q < d.len() implies !tagged_before(#[trigger] d[q], d[p]) by {
            assert(t[q] == d[q]);
        }
        lemma_stable_sort_first(d, p);
        assert(!tagged_before(x, t[p]));
        lemma_insert_after_head(t[p], stable_sort(d.remove(p)), x);
        let r = t.remove(p);
        assert(r.drop_last() =~= d.remove(p));
        assert(r.last() == x);
    }
}

proof fn lemma_tagged_concat_len(streams: Seq<Seq<RecordView>>, m: int, n: int)
    requires
        0 <= m <= n <= streams.len(),
    ensures
        tagged_concat_upto(streams, m).len() <= tagged_concat_upto(streams, n).len(),
        n > 0 ==> tagged_concat_upto(streams, n).len() == tagged_concat_upto(streams, n - 1).len()
            + streams[n - 1].len(),
    decreases n,
{
    if n > m {
        lemma_tagged_concat_len(streams, m, n - 1);
    }
}

/// Record `q` of the tagged concatenation is record `j` of stream `i`.
pub open spec fn concat_position(streams: Seq<Seq<RecordView>>, q: int, i: int, j: int) -> bool {
    &&& 0 <= i < streams.len()
    &&& 0 <= j < streams[i].len()
    &&& q == tagged_concat_upto(streams, i).len() + j
    &&& tagged_concat(streams)[q] == (i, streams[i][j])
}

proof fn lemma_tagged_concat_position_of(streams: Seq<Seq<RecordView>>, n: int, q: int)
    requires
        0 <= n <= streams.len(),
        0 <= q < tagged_concat_upto(streams, n).len(),
    ensures
        exists|i: int, j: int|
            i < n && 0 <= i < streams.len() && 0 <= j < streams[i].len() && q
                == tagged_concat_upto(streams, i).len() + j && tagged_concat_upto(streams, n)[q]
                == (i, #[trigger] streams[i][j]),
        n == streams.len() ==> exists|i: int, j: int|
            i < n && #[trigger] concat_position(streams, q, i, j),
    decreases n,
{
    let prev = tagged_concat_upto(streams, n - 1);
    let i = n - 1;
    if q < prev.len() {
        lemma_tagged_concat_position_of(streams, n - 1, q);
        let (a, b) = choose|a: int, b: int|
            a < n - 1 && 0 <= a < streams.len() && 0 <= b < streams[a].len() && q
                == tagged_concat_upto(streams, a).len() + b && tagged_concat_upto(streams, n - 1)[q]
                == (a, #[trigger] streams[a][b]);
        assert(tagged_concat_upto(streams, n)[q] == prev[q]);
        if n == streams.len() {
            assert(concat_position(streams, q, a, b));
        }
    } else {
        let j = q - prev.len();
        assert(tagged_concat_upto(streams, n)[q] == tag_stream(i, streams[i])[j]);
        assert(tagged_concat_upto(streams, n)[q] == (i, streams[i][j]));
        if n == streams.len() {
            assert(concat_position(streams, q, i, j));
        }
    }
}

proof fn lemma_tagged_concat_remove(streams: Seq<Seq<RecordView>>, b: int, n: int)
    requires
        0 <= b < streams.len(),
        streams[b].len() > 0,
        0 <= n <= streams.len(),
    ensures
        ({
            let rest = streams.update(b, streams[b].drop_first());
            &&& n <= b ==> tagged_concat_upto(rest, n) == tagged_concat_upto(streams, n)
            &&& n > b ==> tagged_concat_upto(streams, n).remove(
                tagged_concat_upto(streams, b).len() as int,
            ) == tagged_concat_upto(rest, n)
        }),
    decreases n,
{
    let rest = streams.update(b, streams[b].drop_first());
    if n > 0 {
        lemma_tagged_concat_remove(streams, b, n - 1);
        let a = tagged_concat_upto(streams, n - 1);
        let p = tagged_concat_upto(streams, b).len() as int;
        if n - 1 < b {
            assert(rest[n - 1] == streams[n - 1]);
        } else if n - 1 == b {
            let ts = tag_stream(b, streams[b]);
            assert(tag_stream(b, rest[b]) =~= ts.drop_first());
            assert((a + ts).remove(p) =~= a + ts.drop_first());
        } else {
            lemma_tagged_concat_len(streams, b + 1, n - 1);
            lemma_tagged_concat_len(streams, b, b + 1);
            assert(rest[n - 1] == streams[n - 1]);
            let ts = tag_stream(n - 1, streams[n - 1]);
            assert((a + ts).remove(p) =~= a.remove(p) + ts);
        }
    }
}

proof fn lemma_tagged_concat_empty(streams: Seq<Seq<RecordView>>, n: int)
    requires
        0 <= n <= streams.len(),
        forall|i: int| 0 <= i < streams.len() ==> #[trigger] streams[i].len() == 0,
    ensures
        tagged_concat_upto(streams, n) =~= Seq::<(int, RecordView)>::empty(),
    decreases n,
{
    if n > 0 {
        lemma_tagged_concat_empty(streams, n - 1);
        assert(streams[n - 1].len() == 0);
    }
}

/// Law: when every stream is in timestamp order, the merge is the stable
/// sort of all streams one after the other by timestamp (a missing one
/// last), then stream index: records with equal timestamps come out in the
/// order of their streams, and within a stream in their order.
pub proof fn law_merge_is_stable_sort(streams: Seq<Seq<RecordView>>)
    requires
        forall|k: int| 0 <= k < streams.len() ==> ts_sorted(#[trigger] streams[k]),
    ensures
        merge_tagged(streams) == stable_sort(tagged_concat(streams)),
        merged(streams) == stable_sort(tagged_concat(streams)).map_values(
            |p: (int, RecordView)| p.1,
        ),
    decreases total_len(streams),
{
    let b = next_stream(streams);
    let n = streams.len() as int;
    lemma_next_stream(streams, n);
    let l = tagged_concat(streams);
    if 0 <= b < streams.len() && streams[b].len() > 0 {
        let x = streams[b].drop_first();
        let rest = streams.update(b, x);
        let h = streams[b][0];
        lemma_total_len_update(streams, b, x);
        assert forall|k: int| 0 <= k < rest.len() implies ts_sorted(#[trigger] rest[k]) by {
            assert(ts_sorted(streams[k]));
            if k == b {
                assert forall|i: int, j: int| 0 <= i < j < rest[k].len() implies ts_le(
                    #[trigger] rest[k][i].ts,
                    #[trigger] rest[k][j].ts,
                ) by {
                    assert(ts_le(streams[k][i + 1].ts, streams[k][j + 1].ts));
                }
            }
        }
        law_merge_is_stable_sort(rest);
        let p = tagged_concat_upto(streams, b).len() as int;
        lemma_tagged_concat_len(streams, b, b + 1);
        lemma_tagged_concat_len(streams, b + 1, n);
        assert(l[p] == (b, h)) by {
            lemma_tagged_concat_position_of(streams, n, p);
            let (i, j) = choose|i: int, j: int| i < n && #[trigger] concat_position(streams, p, i, j);
            if i < b {
                lemma_tagged_concat_len(streams, i + 1, b);
                lemma_tagged_concat_len(streams, i, i + 1);
            } else if i > b {
                lemma_tagged_concat_len(streams, b + 1, i);
            }
        }
        assert forall|q: int| 0 <= q < p implies tagged_before(l[p], #[trigger] l[q]) by {
            lemma_tagged_concat_position_of(streams, n, q);
            let (i, j) = choose|i: int, j: int| i < n && #[trigger] concat_position(streams, q, i, j);
            if i >= b {
                lemma_tagged_concat_len(streams, b, i);
            }
            assert(i < b);
            assert(streams[i].len() > 0);
            assert(ts_sorted(streams[i]));
            if j > 0 {
                assert(ts_le(streams[i][0].ts, streams[i][j].ts));
            }
        }
        assert forall|q: int| p < q < l.len() implies !tagged_before(#[trigger] l[q], l[p]) by {
            lemma_tagged_concat_position_of(streams, n, q);
            let (i, j) = choose|i: int, j: int| i < n && #[trigger] concat_position(streams, q, i, j);
            if i < b {
                lemma_tagged_concat_len(streams, i + 1, b);
                lemma_tagged_concat_len(streams, i, i + 1);
                assert(false);
            }
            assert(ts_sorted(streams[i]));
            if i == b {
                assert(j > 0);
                assert(ts_le(streams[b][0].ts, streams[b][j].ts));
            } else {
                assert(streams[i].len() > 0);
                if j > 0 {
                    assert(ts_le(streams[i][0].ts, streams[i][j].ts));
                }
            }
        }
        lemma_stable_sort_first(l, p);
        lemma_tagged_concat_remove(streams, b, n);
        assert(rest.len() == n);
        assert(merge_tagged(streams) == seq![(b, h)] + merge_tagged(rest));
    } else {
        assert forall|i: int| 0 <= i < streams.len() implies #[trigger] streams[i].len() == 0 by {}
        lemma_tagged_concat_empty(streams, n);
        assert(merge_tagged(streams) =~= Seq::<(int, RecordView)>::empty());
    }
}

/// Law: timestamps sort by their numeric `i64` value, and a record without
/// a timestamp sorts after every record with one.
pub proof fn law_timestamps_sort_numerically(x: i64, y: i64)
    ensures
        ts_before(Some(x), Some(y)) <==> x < y,
        ts_before(Some(x), None),
        !ts_before(None, Some(y)),
        !ts_before(None, None::<i64>),
        ts_le(Some(x), Some(y)) <==> x <= y,
{
}

/// Law: when, within every stream, timestamps never decrease and no record
/// without a timestamp comes before one with, the merge has the same
/// property: for any two of its records, the earlier one's timestamp is
/// numerically no larger, and a record without a timestamp is followed only
/// by records without one.
pub proof fn law_merge_orders_timestamps_numerically(streams: Seq<Seq<RecordView>>)
    requires
        forall|k: int, i: int, j: int|
            0 <= k < streams.len() && 0 <= i < j < streams[k].len() ==> match (
                #[trigger] streams[k][i].ts,
                #[trigger] streams[k][j].ts,
            ) {
                (Some(a), Some(b)) => a <= b,
                (None, Some(_)) => false,
                _ => true,
            },
    ensures
        forall|i: int, j: int|
            0 <= i < j < merged(streams).len() ==> match (
                #[trigger] merged(streams)[i].ts,
                #[trigger] merged(streams)[j].ts,
            ) {
                (Some(a), Some(b)) => a <= b,
                (None, Some(_)) => false,
                _ => true,
            },
{
    assert forall|k: int| 0 <= k < streams.len() implies ts_sorted(#[trigger] streams[k]) by {
        assert forall|i: int, j: int| 0 <= i < j < streams[k].len() implies ts_le(
            #[trigger] streams[k][i].ts,
            #[trigger] streams[k][j].ts,
        ) by {}
    }
    law_merge_sorted(streams);
    let m = merged(streams);
    assert forall|i: int, j: int| 0 <= i < j < m.len() implies match (
        #[trigger] m[i].ts,
        #[trigger] m[j].ts,
    ) {
        (Some(a), Some(b)) => a <= b,
        (None, Some(_)) => false,
        _ => true,
    } by {
        assert(ts_le(m[i].ts, m[j].ts));
    }
}

/// The timestamp of a pending record, if there is one.
pub open spec fn head_ts(h: Option<RecordView>) -> Option<i64> {
    match h {
        Some(r) => r.ts,
        None => None,
    }
}

/// Among the first `n` pending records, the index of the one that comes out
/// next, or `-1` when none is pending (see `next_stream_upto`).
pub open spec fn next_head_upto(heads: Seq<Option<RecordView>>, n: int) -> int
    decreases n,
{
    if n <= 0 {
        -1
    } else {
        let b = next_head_upto(heads, n - 1);
        match heads[n - 1] {
            None => b,
            Some(r) => if b < 0 || ts_before(r.ts, head_ts(heads[b])) {
                n - 1
            } else {
                b
            },
        }
    }
}

/// The index of the pending record that comes out next, or `-1`.
pub open spec fn next_head(heads: Seq<Option<RecordView>>) -> int {
    next_head_upto(heads, heads.len() as int)
}

/// The next record of each stream, if it has one.
pub open spec fn stream_heads(streams: Seq<Seq<RecordView>>) -> Seq<Option<RecordView>> {
    Seq::new(
        streams.len(),
        |i: int|
            if streams[i].len() > 0 {
                Some(streams[i][0])
            } else {
                None
            },
    )
}

/// Choosing among the streams' next records is choosing among the streams.
pub proof fn lemma_next_head_is_next_stream(streams: Seq<Seq<RecordView>>, n: int)
    requires
        0 <= n <= streams.len(),
    ensures
        next_head_upto(stream_heads(streams), n) == next_stream_upto(streams, n),
    decreases n,
{
    if n > 0 {
        lemma_next_head_is_next_stream(streams, n - 1);
        lemma_next_stream(streams, n - 1);
    }
}

/// The records waiting to be merged: at most one per stream, the next one
/// that the stream offers.
pub struct MergeState {
    heads: Vec<Option<Record>>,
}

impl View for MergeState {
    type V = Seq<Option<RecordView>>;

    closed spec fn view(&self) -> Seq<Option<RecordView>> {
        self.heads@.map_values(
            |h: Option<Record>|
                match h {
                    Some(r) => Some(r@),
                    None => None,
                },
        )
    }
}

/// Whether timestamp `a` sorts strictly before timestamp `b`.
fn ts_before_exec(a: Option<i64>, b: Option<i64>) -> (r: bool)
    ensures
        r == ts_before(a, b),
{
    match (a, b) {
        (Some(x), Some(y)) => x < y,
        (Some(_), None) => true,
        (None, _) => false,
    }
}

impl MergeState {
    /// No record pending for any of `n` streams.
    pub fn new(n: usize) -> (s: MergeState)
        ensures
            s@ == Seq::new(n as nat, |i: int| None::<RecordView>),
    {
        let mut heads: Vec<Option<Record>> = Vec::new();
        let mut i: usize = 0;
        while i < n
            invariant
                i <= n,
                heads@.len() == i,
                forall|j: int| 0 <= j < i ==> (#[trigger] heads@[j]) is None,
            decreases n - i,
        {
            heads.push(None);
            i += 1;
        }
        let s = MergeState { heads };
        assert(s@ =~= Seq::new(n as nat, |i: int| None::<RecordView>));
        s
    }

    /// Records `record` as the next record of stream `source`.
    pub fn offer(&mut self, source: usize, record: Record)
        requires
            source < old(self)@.len(),
        ensures
            final(self)@ == old(self)@.update(source as int, Some(record@)),
    {
        let ghost r = record@;
        self.heads.set(source, Some(record));
        assert(self@ =~= old(self)@.update(source as int, Some(r)));
    }

    /// Takes out the pending record that comes out next (see `next_head`),
    /// with the index of its stream; `None` when no record is pending.
    pub fn take_next(&mut self) -> (r: Option<(usize, Record)>)
        ensures
            match r {
                Some((b, rec)) => {
                    &&& b == next_head(old(self)@)
                    &&& b < old(self)@.len()
                    &&& old(self)@[b as int] == Some(rec@)
                    &&& final(self)@ == old(self)@.update(b as int, None)
                },
                None => next_head(old(self)@) == -1 && final(self)@ == old(self)@,
            },
    {
        let ghost heads = self@;
        let n = self.heads.len();
        let mut best: Option<usize> = None;
        let mut i: usize = 0;
        while i < n
            invariant
                n == self.heads.len(),
                heads == self@,
                i <= n,
                match best {
                    Some(b) => b < i && b as int == next_head_upto(heads, i as int) && heads[b as int]
                        is Some,
                    None => next_head_upto(heads, i as int) == -1,
                },
            decreases n - i,
        {
            assert(heads[i as int] == match self.heads@[i as int] {
                Some(r) => Some(r@),
                None => None::<RecordView>,
            });
            match &self.heads[i] {
                None => {},
                Some(r) => {
                    match best {
                        None => {
                            best = Some(i);
                        },
                        Some(b) => {
                            assert(heads[b as int] == match self.heads@[b as int] {
                                Some(r) => Some(r@),
                                None => None::<RecordView>,
                            });
                            let b_ts = match &self.heads[b] {
                                Some(h) => h.ts,
                                None => None,
                            };
                            if ts_before_exec(r.ts, b_ts) {
                                best = Some(i);
                            }
                        },
                    }
                },
            }
            i += 1;
        }
        match best {
            None => None,
            Some(b) => {
                let mut taken: Option<Record> = None;
                std::mem::swap(&mut taken, &mut self.heads[b]);
                assert(self@ =~= heads.update(b as int, None));
                match taken {
                    Some(rec) => Some((b, rec)),
                    None => {
                        assert(false);
                        None
                    },
                }
            },
        }
    }
}

/// `h` as a sequence of zero or one records.
pub open spec fn head_seq(h: Option<RecordView>) -> Seq<RecordView> {
    match h {
        Some(r) => seq![r],
        None => Seq::empty(),
    }
}

/// The streams that remain: the pending record of each, then the rest of
/// it, which its stack holds reversed.
pub open spec fn remaining_streams(heads: Seq<Option<RecordView>>, stacks: Seq<Vec<Record>>) -> Seq<
    Seq<RecordView>,
> {
    Seq::new(heads.len(), |i: int| head_seq(heads[i]) + record_views(stacks[i]@).reverse())
}

/// `v` in reverse order.
fn reversed(v: Vec<Record>) -> (r: Vec<Record>)
    ensures
        record_views(r@) == record_views(v@).reverse(),
{
    let ghost orig = record_views(v@);
    let mut v = v;
    let mut r: Vec<Record> = Vec::new();
    while v.len() > 0
        invariant
            record_views(v@) == orig.take(v.len() as int),
            record_views(r@) == orig.skip(v.len() as int).reverse(),
            v.len() <= orig.len(),
        decreases v.len(),
    {
        let ghost n = v.len();
        let ghost old_v = v@;
        let ghost old_r = r@;
        let x = v.pop().unwrap();
        assert(x == old_v[n - 1]);
        assert(record_views(old_v)[n - 1] == orig[n - 1]);
        r.push(x);
        assert(orig.skip(n - 1) =~= seq![orig[n - 1]] + orig.skip(n as int));
        assert(record_views(r@) =~= record_views(old_r).push(x@));
        assert(record_views(v@) =~= orig.take(v.len() as int));
        assert(record_views(r@) =~= orig.skip(v.len() as int).reverse());
    }
    assert(record_views(r@) =~= orig.reverse());
    r
}

/// Moves the next record of stream `i`, if any, from its stack into `state`.
fn push_next(state: &mut MergeState, stacks: &mut Vec<Vec<Record>>, i: usize)
    requires
        i < old(stacks).len(),
        old(state)@.len() == old(stacks).len(),
        old(state)@[i as int] is None,
    ensures
        final(stacks).len() == old(stacks).len(),
        final(state)@.len() == old(state)@.len(),
        remaining_streams(final(state)@, final(stacks)@) == remaining_streams(
            old(state)@,
            old(stacks)@,
        ),
        forall|j: int|
            0 <= j < final(stacks).len() && j != i ==> #[trigger] final(state)@[j] == old(state)@[j],
        forall|j: int|
            0 <= j < final(stacks).len() && j != i ==> #[trigger] final(stacks)@[j] == old(stacks)@[j],
        final(state)@[i as int] is None ==> final(stacks)@[i as int].len() == 0,
{
    let mut stack: Vec<Record> = Vec::new();
    std::mem::swap(&mut stack, &mut stacks[i]);
    let ghost before = record_views(stack@);
    match stack.pop() {
        Some(r) => {
            assert(record_views(stack@).reverse() =~= before.reverse().drop_first());
            assert(r@ == before.reverse()[0]);
            state.offer(i, r);
            stacks.set(i, stack);
            assert(seq![before.reverse()[0]] + before.reverse().drop_first() =~= before.reverse());
        },
        None => {
            stacks.set(i, stack);
        },
    }
    assert(remaining_streams(state@, stacks@) =~= remaining_streams(old(state)@, old(stacks)@));
}

/// Merges `sources` into one sequence of records: repeatedly takes, among
/// the next records of all sources, the one that sorts first by timestamp
/// (records without a timestamp last, ties in source order).
pub fn merge(sources: Vec<Vec<Record>>) -> (out: Vec<Record>)
    ensures
        record_views(out@) == merged(stream_views(sources@)),
{
    let ghost input = stream_views(sources@);
    let n = sources.len();
    assert(input.len() == n);
    // Turn each source into a stack whose top is its next record.
    let mut pending = sources;
    let mut backwards: Vec<Vec<Record>> = Vec::new();
    while pending.len() > 0
        invariant
            pending.len() + backwards.len() == n,
            input.len() == n,
            stream_views(pending@) == input.take(pending.len() as int),
            forall|j: int|
                0 <= j < backwards.len() ==> record_views(#[trigger] backwards@[j]@).reverse()
                    == input[n - 1 - j],
        decreases pending.len(),
    {
        let ghost old_pending = pending@;
        let v = pending.pop().unwrap();
        assert(v == old_pending[pending.len() as int]);
        assert(stream_views(old_pending)[pending.len() as int] == input[pending.len() as int]);
        let r = reversed(v);
        backwards.push(r);
        assert(stream_views(pending@) =~= input.take(pending.len() as int));
    }
    let mut stacks: Vec<Vec<Record>> = Vec::new();
    while backwards.len() > 0
        invariant
            stacks.len() + backwards.len() == n,
            input.len() == n,
            forall|j: int|
                0 <= j < backwards.len() ==> record_views(#[trigger] backwards@[j]@).reverse()
                    == input[n - 1 - j],
            forall|j: int|
                0 <= j < stacks.len() ==> record_views(#[trigger] stacks@[j]@).reverse()
                    == input[j],
        decreases backwards.len(),
    {
        let ghost old_back = backwards@;
        let s = backwards.pop().unwrap();
        assert(s == old_back[backwards.len() as int]);
        stacks.push(s);
    }
    // Offer the first record of every source.
    let mut state = MergeState::new(n);
    let mut i: usize = 0;
    assert(remaining_streams(state@, stacks@) =~= input);
    while i < n
        invariant
            i <= n,
            stacks.len() == n,
            state@.len() == n,
            remaining_streams(state@, stacks@) == input,
            forall|j: int| i <= j < n ==> #[trigger] state@[j] is None,
            forall|j: int| 0 <= j < i ==> #[trigger] state@[j] is None ==> stacks@[j].len() == 0,
        decreases n - i,
    {
        push_next(&mut state, &mut stacks, i);
        i += 1;
    }
    let mut out: Vec<Record> = Vec::new();
    loop
        invariant
            stacks.len() == n,
            state@.len() == n,
            input == stream_views(sources@),
            forall|j: int| 0 <= j < n ==> #[trigger] state@[j] is None ==> stacks@[j].len() == 0,
            merged(input) == record_views(out@) + merged(remaining_streams(state@, stacks@)),
        decreases total_len(remaining_streams(state@, stacks@)),
    {
        let ghost cur = remaining_streams(state@, stacks@);
        proof {
            assert(stream_heads(cur) =~= state@) by {
                assert forall|j: int| 0 <= j < n implies #[trigger] stream_heads(cur)[j]
                    == state@[j] by {
                    if state@[j] is None {
                        assert(stacks@[j]@.len() == 0);
                        assert(cur[j] =~= Seq::<RecordView>::empty());
                    } else {
                        assert(cur[j][0] == state@[j].unwrap());
                    }
                }
            }
            lemma_next_head_is_next_stream(cur, n as int);
            lemma_next_stream(cur, n as int);
        }
        let ghost before = state@;
        match state.take_next() {
            None => {
                assert(merged(cur) =~= Seq::<RecordView>::empty());
                assert(record_views(out@) + merged(cur) =~= record_views(out@));
                return out;
            },
            Some((b, r)) => {
                proof {
                    lemma_total_len_update(cur, b as int, cur[b as int].drop_first());
                    assert(remaining_streams(state@, stacks@) =~= cur.update(
                        b as int,
                        cur[b as int].drop_first(),
                    )) by {
                        assert forall|j: int| 0 <= j < n implies #[trigger] remaining_streams(
                            state@,
                            stacks@,
                        )[j] == cur.update(b as int, cur[b as int].drop_first())[j] by {
                            if j == b {
                                assert(cur[j] == seq![r@] + record_views(stacks@[j]@).reverse());
                                assert((seq![r@] + record_views(stacks@[j]@).reverse()).drop_first()
                                    =~= record_views(stacks@[j]@).reverse());
                                assert(head_seq(state@[j]) =~= Seq::<RecordView>::empty());
                                assert(remaining_streams(state@, stacks@)[j] =~= record_views(
                                    stacks@[j]@,
                                ).reverse());
                            } else {
                                assert(state@[j] == before[j]);
                            }
                        }
                    }
                }
                push_next(&mut state, &mut stacks, b);
                let ghost rest = remaining_streams(state@, stacks@);
                assert(rest =~= cur.update(b as int, cur[b as int].drop_first()));
                assert(merged(cur) =~= seq![r@] + merged(rest));
                out.push(r);
                assert(record_views(out@) + merged(rest) =~= (record_views(out@).drop_last()
                    + merged(cur)));
            },
        }
    }
}

} // verus!
