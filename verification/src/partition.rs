//! Splitting a melody into clusters at its longest durations.
//!
//! A melody is a list of entries `(duration, pitch, velocity)`. Durations are
//! whole numbers of ticks; the length of a tick is the caller's choice.

use vstd::prelude::*;

verus! {

/// A range of indices with both ends included. It is empty where its start
/// lies behind its end.
#[derive(Copy, Clone, Debug, PartialEq, Eq, Structural)]
pub struct ClosedInterval {
    pub start: usize,
    pub end: usize,
}

impl Default for ClosedInterval {
    /// The interval that holds index 0 alone.
    fn default() -> (r: Self)
        ensures
            r == (ClosedInterval { start: 0, end: 0 }),
    {
        Self { start: 0, end: 0 }
    }
}

impl ClosedInterval {
    pub open spec fn spec_is_empty(&self) -> bool {
        self.start > self.end
    }

    /// The number of indices in the interval.
    pub open spec fn count(&self) -> nat {
        if self.start > self.end {
            0
        } else {
            (self.end - self.start + 1) as nat
        }
    }

    pub open spec fn spec_contains(&self, i: usize) -> bool {
        self.start <= i && i <= self.end
    }

    /// The indices of the interval in increasing order.
    pub open spec fn indices_seq(&self) -> Seq<usize> {
        Seq::new(self.count(), |k: int| (self.start + k) as usize)
    }

    /// The interval of all indices of a vector that is not empty.
    pub fn indices<T>(v: &Vec<T>) -> (r: Self)
        requires
            v.len() > 0,
        ensures
            r.start == 0,
            r.end == v.len() - 1,
    {
        Self { start: 0, end: v.len() - 1 }
    }

    /// The indices of the interval in increasing order.
    pub fn iter(&self) -> (r: Vec<usize>)
        ensures
            r@ == self.indices_seq(),
    {
        let mut r: Vec<usize> = Vec::new();
        if self.start <= self.end {
            let mut i = self.start;
            r.push(i);
            while i < self.end
                invariant
                    self.start <= i <= self.end,
                    r.len() == i - self.start + 1,
                    forall|k: int| 0 <= k < r.len() ==> r[k] == self.start + k,
                decreases self.end - i,
            {
                i = i + 1;
                r.push(i);
            }
        }
        assert(r@ =~= self.indices_seq());
        r
    }

    pub fn new(start: usize, end: usize) -> (r: Self)
        ensures
            r.start == start,
            r.end == end,
    {
        Self { start, end }
    }

    #[verifier::when_used_as_spec(spec_is_empty)]
    pub fn is_empty(&self) -> (r: bool)
        ensures
            r == self.spec_is_empty(),
    {
        self.start > self.end
    }

    /// The number of indices in the interval, where it fits into `usize`.
    pub fn len(&self) -> (r: usize)
        requires
            self.count() <= usize::MAX,
        ensures
            r == self.count(),
    {
        if self.is_empty() {
            0
        } else {
            self.end - self.start + 1
        }
    }

    #[verifier::when_used_as_spec(spec_contains)]
    pub fn contains(&self, i: usize) -> (r: bool)
        ensures
            r == self.spec_contains(i),
    {
        self.start <= i && i <= self.end
    }

    /// The two parts of the interval up to `division_end` and behind it.
    pub fn divided(&self, division_end: usize) -> (r: (Self, Self))
        requires
            self.start <= division_end < self.end,
        ensures
            r.0 == (ClosedInterval { start: self.start, end: division_end }),
            r.1 == (ClosedInterval { start: (division_end + 1) as usize, end: self.end }),
    {
        (
            Self { start: self.start, end: division_end },
            Self { start: division_end + 1, end: self.end },
        )
    }
}

/// The duration of entry `k`.
pub open spec fn duration_at(melody: Seq<(u64, u8, u8)>, k: int) -> u64 {
    melody[k].0
}

/// The index of the longest duration among entries `lo` to `hi`; of several
/// that are equally long, the last.
pub open spec fn last_longest(melody: Seq<(u64, u8, u8)>, lo: int, hi: int) -> int
    decreases hi - lo,
{
    if hi <= lo {
        lo
    } else {
        let before = last_longest(melody, lo, hi - 1);
        if duration_at(melody, hi) >= duration_at(melody, before) {
            hi
        } else {
            before
        }
    }
}

/// `last_longest` lies in its range, no entry of the range is longer, and
/// every entry behind it is shorter.
pub proof fn lemma_last_longest(melody: Seq<(u64, u8, u8)>, lo: int, hi: int)
    requires
        lo <= hi,
    ensures
        lo <= last_longest(melody, lo, hi) <= hi,
        forall|k: int|
            lo <= k <= hi ==> #[trigger] duration_at(melody, k) <= duration_at(
                melody,
                last_longest(melody, lo, hi),
            ),
        forall|k: int|
            last_longest(melody, lo, hi) < k <= hi ==> #[trigger] duration_at(melody, k)
                < duration_at(melody, last_longest(melody, lo, hi)),
    decreases hi - lo,
{
    if lo < hi {
        lemma_last_longest(melody, lo, hi - 1);
    }
}

/// The interval with its end moved one index up.
pub open spec fn extended(interval: ClosedInterval) -> ClosedInterval {
    ClosedInterval { start: interval.start, end: (interval.end + 1) as usize }
}

/// The clusters of `interval`. An interval of at most `stop_length` indices
/// is one cluster. A longer one is split behind its last longest duration
/// and both parts are partitioned in turn. Where that duration is the last
/// entry, the interval without it is partitioned, and the last cluster takes
/// the last entry in.
pub open spec fn partition(
    melody: Seq<(u64, u8, u8)>,
    interval: ClosedInterval,
    stop_length: nat,
) -> Seq<ClosedInterval>
    decreases interval.count(),
{
    if interval.count() <= stop_length || stop_length == 0 {
        seq![interval]
    } else {
        let longest = last_longest(melody, interval.start as int, interval.end as int);
        if interval.start <= longest < interval.end {
            partition(
                melody,
                ClosedInterval { start: interval.start, end: longest as usize },
                stop_length,
            ) + partition(
                melody,
                ClosedInterval { start: (longest + 1) as usize, end: interval.end },
                stop_length,
            )
        } else {
            let rest = partition(
                melody,
                ClosedInterval { start: interval.start, end: (interval.end - 1) as usize },
                stop_length,
            );
            rest.drop_last().push(extended(rest.last()))
        }
    }
}

/// Clusters tile an interval where the first starts at its start, the last
/// ends at its end, none is empty, and each starts right behind the one
/// before it.
pub open spec fn tiles(clusters: Seq<ClosedInterval>, interval: ClosedInterval) -> bool {
    &&& clusters.len() > 0
    &&& clusters[0].start == interval.start
    &&& clusters.last().end == interval.end
    &&& forall|i: int| 0 <= i < clusters.len() ==> (#[trigger] clusters[i]).start <= clusters[i].end
    &&& forall|i: int|
        0 <= i < clusters.len() - 1 ==> (#[trigger] clusters[i]).end + 1 == clusters[i + 1].start
}

/// A cluster outgrows `stop_length` only by entries that are at least as
/// long as every entry before them in the cluster.
pub open spec fn grown_by_longest(
    melody: Seq<(u64, u8, u8)>,
    cluster: ClosedInterval,
    stop_length: nat,
) -> bool {
    forall|k: int, j: int|
        cluster.start + stop_length <= k <= cluster.end && cluster.start <= j < k
            ==> #[trigger] duration_at(melody, j) <= #[trigger] duration_at(melody, k)
}

/// Every cluster of the list outgrows `stop_length` only by entries that
/// are at least as long as every entry before them in the cluster.
pub open spec fn all_grown_by_longest(
    melody: Seq<(u64, u8, u8)>,
    clusters: Seq<ClosedInterval>,
    stop_length: nat,
) -> bool {
    forall|i: int|
        0 <= i < clusters.len() ==> grown_by_longest(melody, #[trigger] clusters[i], stop_length)
}

/// Two tilings of neighbouring intervals, one after the other, tile both.
proof fn lemma_tiles_concat(
    a: Seq<ClosedInterval>,
    b: Seq<ClosedInterval>,
    left: ClosedInterval,
    right: ClosedInterval,
)
    requires
        tiles(a, left),
        tiles(b, right),
        left.end + 1 == right.start,
    ensures
        tiles(a + b, ClosedInterval { start: left.start, end: right.end }),
{
    let all = a + b;
    assert forall|i: int| 0 <= i < all.len() implies (#[trigger] all[i]).start <= all[i].end by {
        if i < a.len() {
            assert(all[i] == a[i]);
        } else {
            assert(all[i] == b[i - a.len()]);
        }
    }
    assert forall|i: int| 0 <= i < all.len() - 1 implies (#[trigger] all[i]).end + 1 == all[i
        + 1].start by {
        if i + 1 < a.len() {
            assert(all[i] == a[i]);
            assert(all[i + 1] == a[i + 1]);
        } else if i < a.len() {
            assert(all[i] == a.last());
            assert(all[i + 1] == b[0]);
        } else {
            assert(all[i] == b[i - a.len()]);
            assert(all[i + 1] == b[i - a.len() + 1]);
        }
    }
    assert(all[0] == a[0]);
    assert(all.last() == b.last());
}

/// A tiling whose last cluster takes one more index in tiles the interval
/// with that index.
proof fn lemma_tiles_extend(rest: Seq<ClosedInterval>, shorter: ClosedInterval)
    requires
        tiles(rest, shorter),
        shorter.end < usize::MAX,
    ensures
        tiles(rest.drop_last().push(extended(rest.last())), extended(shorter)),
{
    let all = rest.drop_last().push(extended(rest.last()));
    assert(all.len() == rest.len());
    assert forall|i: int| 0 <= i < all.len() implies (#[trigger] all[i]).start <= all[i].end by {
        if i < rest.len() - 1 {
            assert(all[i] == rest[i]);
        } else {
            assert(all[i] == extended(rest.last()));
        }
    }
    assert forall|i: int| 0 <= i < all.len() - 1 implies (#[trigger] all[i]).end + 1 == all[i
        + 1].start by {
        assert(all[i] == rest[i]);
        assert(all[i + 1].start == rest[i + 1].start);
    }
    assert(all[0].start == rest[0].start);
}

/// Both parts of a list keep to the growth rule where the whole list does.
proof fn lemma_grown_concat(
    melody: Seq<(u64, u8, u8)>,
    a: Seq<ClosedInterval>,
    b: Seq<ClosedInterval>,
    stop_length: nat,
)
    requires
        all_grown_by_longest(melody, a, stop_length),
        all_grown_by_longest(melody, b, stop_length),
    ensures
        all_grown_by_longest(melody, a + b, stop_length),
{
    let all = a + b;
    assert forall|i: int| 0 <= i < all.len() implies grown_by_longest(
        melody,
        #[trigger] all[i],
        stop_length,
    ) by {
        if i < a.len() {
            assert(all[i] == a[i]);
        } else {
            assert(all[i] == b[i - a.len()]);
        }
    }
}

/// The last cluster may take in the next entry where that entry is at least
/// as long as every entry of the cluster.
proof fn lemma_grown_extend(
    melody: Seq<(u64, u8, u8)>,
    rest: Seq<ClosedInterval>,
    stop_length: nat,
)
    requires
        rest.len() > 0,
        all_grown_by_longest(melody, rest, stop_length),
        rest.last().end < usize::MAX,
        forall|j: int|
            rest.last().start <= j <= rest.last().end ==> #[trigger] duration_at(melody, j)
                <= duration_at(melody, rest.last().end + 1),
    ensures
        all_grown_by_longest(melody, rest.drop_last().push(extended(rest.last())), stop_length),
{
    let all = rest.drop_last().push(extended(rest.last()));
    assert forall|i: int| 0 <= i < all.len() implies grown_by_longest(
        melody,
        #[trigger] all[i],
        stop_length,
    ) by {
        if i < rest.len() - 1 {
            assert(all[i] == rest[i]);
        } else {
            assert(all[i] == extended(rest.last()));
            assert(grown_by_longest(melody, rest.last(), stop_length));
        }
    }
}

/// The clusters of an interval that is not empty tile it, and each of them
/// has at most `stop_length` indices but for what the last entries of an
/// interval add to it where they are its longest.
pub proof fn lemma_partition(
    melody: Seq<(u64, u8, u8)>,
    interval: ClosedInterval,
    stop_length: nat,
)
    requires
        interval.start <= interval.end,
        stop_length >= 1,
    ensures
        tiles(partition(melody, interval, stop_length), interval),
        all_grown_by_longest(melody, partition(melody, interval, stop_length), stop_length),
    decreases interval.count(),
{
    let all = partition(melody, interval, stop_length);
    if interval.count() <= stop_length {
        assert(all[0] == interval);
    } else {
        let longest = last_longest(melody, interval.start as int, interval.end as int);
        lemma_last_longest(melody, interval.start as int, interval.end as int);
        if longest < interval.end {
            let left = ClosedInterval { start: interval.start, end: longest as usize };
            let right = ClosedInterval { start: (longest + 1) as usize, end: interval.end };
            lemma_partition(melody, left, stop_length);
            lemma_partition(melody, right, stop_length);
            let a = partition(melody, left, stop_length);
            let b = partition(melody, right, stop_length);
            assert(all == a + b);
            lemma_tiles_concat(a, b, left, right);
            lemma_grown_concat(melody, a, b, stop_length);
        } else {
            let shorter = ClosedInterval {
                start: interval.start,
                end: (interval.end - 1) as usize,
            };
            lemma_partition(melody, shorter, stop_length);
            let rest = partition(melody, shorter, stop_length);
            assert(all == rest.drop_last().push(extended(rest.last())));
            lemma_tiles_extend(rest, shorter);
            assert(extended(shorter) == interval);
            lemma_tiles_ordered(rest, shorter, rest.len() - 1);
            lemma_grown_extend(melody, rest, stop_length);
        }
    }
}

/// In a tiling, no cluster starts before the interval does.
pub proof fn lemma_tiles_ordered(clusters: Seq<ClosedInterval>, interval: ClosedInterval, i: int)
    requires
        tiles(clusters, interval),
        0 <= i < clusters.len(),
    ensures
        interval.start <= clusters[i].start,
        clusters[i].end <= interval.end,
    decreases clusters.len() - i, i,
{
    lemma_tiles_from_start(clusters, interval, i);
    lemma_tiles_to_end(clusters, interval, i);
}

proof fn lemma_tiles_from_start(clusters: Seq<ClosedInterval>, interval: ClosedInterval, i: int)
    requires
        tiles(clusters, interval),
        0 <= i < clusters.len(),
    ensures
        interval.start <= clusters[i].start,
    decreases i,
{
    if i > 0 {
        lemma_tiles_from_start(clusters, interval, i - 1);
        assert(clusters[i - 1].end + 1 == clusters[i].start);
    }
}

proof fn lemma_tiles_to_end(clusters: Seq<ClosedInterval>, interval: ClosedInterval, i: int)
    requires
        tiles(clusters, interval),
        0 <= i < clusters.len(),
    ensures
        clusters[i].end <= interval.end,
    decreases clusters.len() - i,
{
    if i < clusters.len() - 1 {
        lemma_tiles_to_end(clusters, interval, i + 1);
        assert(clusters[i].end + 1 == clusters[i + 1].start);
    }
}

/// No index lies in two clusters: each cluster ends before the next one
/// starts.
pub open spec fn apart(clusters: Seq<ClosedInterval>) -> bool {
    forall|i: int, j: int|
        0 <= i < j < clusters.len() ==> (#[trigger] clusters[i]).end < (
        #[trigger] clusters[j]).start
}

/// Every index of the interval lies in one of the clusters.
pub open spec fn covers(clusters: Seq<ClosedInterval>, interval: ClosedInterval) -> bool {
    forall|k: usize| #[trigger]
        interval.spec_contains(k) ==> exists|i: int|
            0 <= i < clusters.len() && #[trigger] clusters[i].spec_contains(k)
}

/// Whether the last entry of the cluster is at least as long as every entry
/// of it.
pub open spec fn ends_on_longest(melody: Seq<(u64, u8, u8)>, cluster: ClosedInterval) -> bool {
    forall|j: int|
        cluster.start <= j <= cluster.end ==> #[trigger] duration_at(melody, j) <= duration_at(
            melody,
            cluster.end as int,
        )
}

/// Every cluster has at most `stop_length` indices, or ends on an entry
/// that is at least as long as every entry of it.
pub open spec fn all_bounded(
    melody: Seq<(u64, u8, u8)>,
    clusters: Seq<ClosedInterval>,
    stop_length: nat,
) -> bool {
    forall|i: int|
        0 <= i < clusters.len() ==> (#[trigger] clusters[i]).count() <= stop_length
            || ends_on_longest(melody, clusters[i])
}

/// In a tiling, a cluster ends before every later one starts.
pub proof fn lemma_tiles_apart(
    clusters: Seq<ClosedInterval>,
    interval: ClosedInterval,
    i: int,
    j: int,
)
    requires
        tiles(clusters, interval),
        0 <= i < j < clusters.len(),
    ensures
        clusters[i].end < clusters[j].start,
    decreases j - i,
{
    if j > i + 1 {
        lemma_tiles_apart(clusters, interval, i, j - 1);
    }
    assert(clusters[j - 1].end + 1 == clusters[j].start);
    assert(clusters[j - 1].start <= clusters[j - 1].end);
}

/// In a tiling, an index of the interval that lies at or behind the start
/// of cluster `from` lies in that cluster or in a later one.
pub proof fn lemma_tiles_cover(
    clusters: Seq<ClosedInterval>,
    interval: ClosedInterval,
    k: usize,
    from: int,
) -> (i: int)
    requires
        tiles(clusters, interval),
        0 <= from < clusters.len(),
        clusters[from].start <= k <= interval.end,
    ensures
        from <= i < clusters.len(),
        clusters[i].spec_contains(k),
    decreases clusters.len() - from,
{
    if k <= clusters[from].end {
        from
    } else {
        assert(from < clusters.len() - 1);
        assert(clusters[from].end + 1 == clusters[from + 1].start);
        lemma_tiles_cover(clusters, interval, k, from + 1)
    }
}

/// The clusters of a tiling lie within the interval, no index lies in two
/// of them, and every index of the interval lies in one.
pub proof fn lemma_tiling_laws(clusters: Seq<ClosedInterval>, interval: ClosedInterval)
    requires
        tiles(clusters, interval),
    ensures
        apart(clusters),
        covers(clusters, interval),
        forall|i: int|
            0 <= i < clusters.len() ==> interval.start <= (#[trigger] clusters[i]).start
                && clusters[i].end <= interval.end,
        forall|i: int, j: int, k: usize|
            0 <= i < clusters.len() && 0 <= j < clusters.len() && #[trigger] clusters[i].spec_contains(
                k,
            ) && #[trigger] clusters[j].spec_contains(k) ==> i == j,
{
    assert forall|i: int, j: int| 0 <= i < j < clusters.len() implies (
    #[trigger] clusters[i]).end < (#[trigger] clusters[j]).start by {
        lemma_tiles_apart(clusters, interval, i, j);
    }
    assert forall|k: usize| #[trigger] interval.spec_contains(k) implies exists|i: int|
        0 <= i < clusters.len() && #[trigger] clusters[i].spec_contains(k) by {
        let i = lemma_tiles_cover(clusters, interval, k, 0);
        assert(clusters[i].spec_contains(k));
    }
    assert forall|i: int| 0 <= i < clusters.len() implies interval.start <= (
    #[trigger] clusters[i]).start && clusters[i].end <= interval.end by {
        lemma_tiles_ordered(clusters, interval, i);
    }
    assert forall|i: int, j: int, k: usize|
        0 <= i < clusters.len() && 0 <= j < clusters.len() && #[trigger] clusters[i].spec_contains(
            k,
        ) && #[trigger] clusters[j].spec_contains(k) implies i == j by {
        if i < j {
            lemma_tiles_apart(clusters, interval, i, j);
        } else if j < i {
            lemma_tiles_apart(clusters, interval, j, i);
        }
    }
}

/// Clusters that outgrow `stop_length` only by entries at least as long as
/// all before them are longer than `stop_length` only where they end on
/// their longest entry.
pub proof fn lemma_bounded(
    melody: Seq<(u64, u8, u8)>,
    clusters: Seq<ClosedInterval>,
    stop_length: nat,
)
    requires
        all_grown_by_longest(melody, clusters, stop_length),
    ensures
        all_bounded(melody, clusters, stop_length),
{
    assert forall|i: int| 0 <= i < clusters.len() implies (#[trigger] clusters[i]).count()
        <= stop_length || ends_on_longest(melody, clusters[i]) by {
        let c = clusters[i];
        assert(grown_by_longest(melody, c, stop_length));
        if c.count() > stop_length {
            assert forall|j: int| c.start <= j <= c.end implies #[trigger] duration_at(melody, j)
                <= duration_at(melody, c.end as int) by {
                if j < c.end {
                    assert(duration_at(melody, j) <= duration_at(melody, c.end as int));
                }
            }
        }
    }
}

/// The clusters of an interval that is not empty keep to every law of the
/// partition: they tile the interval, lie apart, cover it, and are bounded
/// in length but for what the longest last entries add.
pub proof fn lemma_partition_laws(
    melody: Seq<(u64, u8, u8)>,
    interval: ClosedInterval,
    stop_length: nat,
)
    requires
        interval.start <= interval.end,
        stop_length >= 1,
    ensures
        tiles(partition(melody, interval, stop_length), interval),
        apart(partition(melody, interval, stop_length)),
        covers(partition(melody, interval, stop_length), interval),
        all_grown_by_longest(melody, partition(melody, interval, stop_length), stop_length),
        all_bounded(melody, partition(melody, interval, stop_length), stop_length),
{
    lemma_partition(melody, interval, stop_length);
    lemma_tiling_laws(partition(melody, interval, stop_length), interval);
    lemma_bounded(melody, partition(melody, interval, stop_length), stop_length);
}

/// The index of the longest duration in `interval`; of several that are
/// equally long, the last.
fn last_longest_index(melody: &Vec<(u64, u8, u8)>, interval: ClosedInterval) -> (r: usize)
    requires
        interval.start <= interval.end < melody.len(),
    ensures
        r == last_longest(melody@, interval.start as int, interval.end as int),
        interval.start <= r <= interval.end,
{
    let mut best = interval.start;
    let mut i = interval.start;
    while i < interval.end
        invariant
            interval.start <= i <= interval.end < melody.len(),
            interval.start <= best <= i,
            best == last_longest(melody@, interval.start as int, i as int),
        decreases interval.end - i,
    {
        i = i + 1;
        if melody[i].0 >= melody[best].0 {
            best = i;
        }
    }
    best
}

/// The clusters with the end of the last one moved up by `extra`.
pub open spec fn with_last_extended(clusters: Seq<ClosedInterval>, extra: nat) -> Seq<ClosedInterval> {
    if clusters.len() == 0 {
        clusters
    } else {
        clusters.drop_last().push(
            ClosedInterval {
                start: clusters.last().start,
                end: (clusters.last().end + extra) as usize,
            },
        )
    }
}

/// The clusters that the intervals still to be partitioned will give, the
/// last of the list first. Each interval comes with the number of indices
/// that its last cluster is to take in behind it.
pub open spec fn pending(
    melody: Seq<(u64, u8, u8)>,
    waiting: Seq<(ClosedInterval, usize)>,
    stop_length: nat,
) -> Seq<ClosedInterval>
    decreases waiting.len(),
{
    if waiting.len() == 0 {
        Seq::empty()
    } else {
        with_last_extended(partition(melody, waiting.last().0, stop_length), waiting.last().1 as nat) + pending(
            melody,
            waiting.drop_last(),
            stop_length,
        )
    }
}

/// A bound on the steps that the intervals still to be partitioned take.
pub open spec fn steps_left(waiting: Seq<(ClosedInterval, usize)>) -> int
    decreases waiting.len(),
{
    if waiting.len() == 0 {
        0
    } else {
        steps_left(waiting.drop_last()) + 2 * waiting.last().0.count() - 1
    }
}

/// Every interval still to be partitioned is not empty and lies, with what
/// its last cluster takes in, below `limit`.
pub open spec fn all_within(waiting: Seq<(ClosedInterval, usize)>, limit: nat) -> bool {
    forall|k: int|
        0 <= k < waiting.len() ==> (#[trigger] waiting[k]).0.start <= waiting[k].0.end && waiting[k].0.end
            + waiting[k].1 < limit
}

/// What the last interval of the list adds to the clusters to come and to
/// the steps that are left.
proof fn lemma_waiting_last(
    melody: Seq<(u64, u8, u8)>,
    waiting: Seq<(ClosedInterval, usize)>,
    stop_length: nat,
    limit: nat,
)
    requires
        waiting.len() > 0,
        all_within(waiting, limit),
    ensures
        all_within(waiting.drop_last(), limit),
        waiting.last().0.start <= waiting.last().0.end,
        waiting.last().0.end + waiting.last().1 < limit,
        pending(melody, waiting, stop_length) == with_last_extended(
            partition(melody, waiting.last().0, stop_length),
            waiting.last().1 as nat,
        ) + pending(melody, waiting.drop_last(), stop_length),
        steps_left(waiting) == steps_left(waiting.drop_last()) + 2 * waiting.last().0.count() - 1,
        steps_left(waiting.drop_last()) >= 0,
{
    let rest = waiting.drop_last();
    assert(waiting.last() == waiting[waiting.len() - 1]);
    assert forall|k: int| 0 <= k < rest.len() implies (#[trigger] rest[k]).0.start
        <= rest[k].0.end && rest[k].0.end + rest[k].1 < limit by {
        assert(rest[k] == waiting[k]);
    }
    lemma_steps_left_not_negative(rest, limit);
}

proof fn lemma_steps_left_not_negative(waiting: Seq<(ClosedInterval, usize)>, limit: nat)
    requires
        all_within(waiting, limit),
    ensures
        steps_left(waiting) >= 0,
    decreases waiting.len(),
{
    if waiting.len() > 0 {
        let rest = waiting.drop_last();
        assert(waiting.last() == waiting[waiting.len() - 1]);
        assert forall|k: int| 0 <= k < rest.len() implies (#[trigger] rest[k]).0.start
            <= rest[k].0.end && rest[k].0.end + rest[k].1 < limit by {
            assert(rest[k] == waiting[k]);
        }
        lemma_steps_left_not_negative(rest, limit);
    }
}

/// One more interval on the list adds its clusters in front of those to
/// come, and its steps to those that are left.
proof fn lemma_waiting_push(
    melody: Seq<(u64, u8, u8)>,
    waiting: Seq<(ClosedInterval, usize)>,
    interval: ClosedInterval,
    extra: usize,
    stop_length: nat,
    limit: nat,
)
    requires
        all_within(waiting, limit),
        interval.start <= interval.end,
        interval.end + extra < limit,
    ensures
        all_within(waiting.push((interval, extra)), limit),
        pending(melody, waiting.push((interval, extra)), stop_length) == with_last_extended(
            partition(melody, interval, stop_length),
            extra as nat,
        ) + pending(melody, waiting, stop_length),
        steps_left(waiting.push((interval, extra))) == steps_left(waiting) + 2 * interval.count() - 1,
{
    let more = waiting.push((interval, extra));
    assert(more.drop_last() =~= waiting);
    assert(more.last() == (interval, extra));
    assert forall|k: int| 0 <= k < more.len() implies (#[trigger] more[k]).0.start
        <= more[k].0.end && more[k].0.end + more[k].1 < limit by {
        if k < waiting.len() {
            assert(more[k] == waiting[k]);
        }
    }
}

/// An interval that is split gives the clusters of its left part, then
/// those of its right part, whose last cluster is the one to grow.
proof fn lemma_extended_split(
    melody: Seq<(u64, u8, u8)>,
    current: ClosedInterval,
    extra: usize,
    stop_length: nat,
)
    requires
        current.start <= current.end,
        current.count() > stop_length >= 1,
        last_longest(melody, current.start as int, current.end as int) < current.end,
    ensures
        ({
            let longest = last_longest(melody, current.start as int, current.end as int);
            let left = ClosedInterval { start: current.start, end: longest as usize };
            let right = ClosedInterval { start: (longest + 1) as usize, end: current.end };
            &&& current.start <= longest
            &&& left.count() + right.count() == current.count()
            &&& with_last_extended(partition(melody, current, stop_length), extra as nat) == with_last_extended(
                partition(melody, left, stop_length),
                0,
            ) + with_last_extended(partition(melody, right, stop_length), extra as nat)
        }),
{
    let longest = last_longest(melody, current.start as int, current.end as int);
    lemma_last_longest(melody, current.start as int, current.end as int);
    let left = ClosedInterval { start: current.start, end: longest as usize };
    let right = ClosedInterval { start: (longest + 1) as usize, end: current.end };
    let a = partition(melody, left, stop_length);
    let b = partition(melody, right, stop_length);
    assert(partition(melody, current, stop_length) == a + b);
    assert(b.len() > 0) by {
        lemma_partition(melody, right, stop_length);
    }
    lemma_extended_concat(a, b, extra as nat);
    lemma_extended_by_nothing(a);
}

/// Where clusters follow others, the last of all is the last of those that
/// follow.
proof fn lemma_extended_concat(a: Seq<ClosedInterval>, b: Seq<ClosedInterval>, extra: nat)
    requires
        b.len() > 0,
    ensures
        with_last_extended(a + b, extra) == a + with_last_extended(b, extra),
{
    assert((a + b).last() == b.last());
    assert((a + b).drop_last() =~= a + b.drop_last());
    assert(with_last_extended(a + b, extra) =~= a + with_last_extended(b, extra));
}

/// Clusters grown by no index are as they were.
proof fn lemma_extended_by_nothing(a: Seq<ClosedInterval>)
    ensures
        with_last_extended(a, 0) == a,
{
    if a.len() > 0 {
        assert(with_last_extended(a, 0) =~= a);
    }
}

/// Clusters whose last has grown by one index, grown by more, have grown by
/// one more.
proof fn lemma_extended_twice(p: Seq<ClosedInterval>, extra: nat)
    requires
        p.len() > 0,
        p.last().end + 1 + extra <= usize::MAX,
    ensures
        with_last_extended(p.drop_last().push(extended(p.last())), extra) == with_last_extended(p, extra + 1),
{
    let once = p.drop_last().push(extended(p.last()));
    assert(once.drop_last() =~= p.drop_last());
    assert(with_last_extended(once, extra) =~= with_last_extended(p, extra + 1));
}

/// An interval whose last entry is its longest gives the clusters of the
/// interval without that entry, the last of them grown by one more index.
proof fn lemma_extended_merge(
    melody: Seq<(u64, u8, u8)>,
    current: ClosedInterval,
    extra: usize,
    stop_length: nat,
)
    requires
        current.start <= current.end,
        current.count() > stop_length >= 1,
        current.end + extra < usize::MAX,
        last_longest(melody, current.start as int, current.end as int) >= current.end,
    ensures
        ({
            let shorter = ClosedInterval { start: current.start, end: (current.end - 1) as usize };
            &&& current.start < current.end
            &&& with_last_extended(partition(melody, current, stop_length), extra as nat) == with_last_extended(
                partition(melody, shorter, stop_length),
                (extra + 1) as nat,
            )
        }),
{
    let shorter = ClosedInterval { start: current.start, end: (current.end - 1) as usize };
    lemma_last_longest(melody, current.start as int, current.end as int);
    let p = partition(melody, shorter, stop_length);
    assert(p.len() > 0 && p.last().end == shorter.end) by {
        lemma_partition(melody, shorter, stop_length);
    }
    assert(partition(melody, current, stop_length) == p.drop_last().push(extended(p.last())));
    lemma_extended_twice(p, extra as nat);
}

/// The clusters of `interval`. An interval of at most `stop_length`
/// indices, an empty one too, comes back whole, and the melody is not
/// looked at. The clusters of any other interval tile it, lie apart, cover
/// it, and each has at most `stop_length` indices or ends on an entry that
/// is at least as long as every entry of it.
pub fn pm_help(interval: ClosedInterval, melody: &Vec<(u64, u8, u8)>, stop_length: usize) -> (r:
    Vec<ClosedInterval>)
    requires
        stop_length >= 1,
        interval.count() <= stop_length || interval.end < melody.len(),
    ensures
        r@ == partition(melody@, interval, stop_length as nat),
        interval.count() <= stop_length ==> r@ == seq![interval],
        interval.start <= interval.end ==> tiles(r@, interval),
        interval.start <= interval.end ==> apart(r@),
        interval.start <= interval.end ==> covers(r@, interval),
        interval.start <= interval.end ==> all_grown_by_longest(
            melody@,
            r@,
            stop_length as nat,
        ),
        interval.start <= interval.end ==> all_bounded(melody@, r@, stop_length as nat),
{
    let r = if interval.len() <= stop_length {
        let whole = vec![interval];
        assert(whole@ =~= seq![interval]);
        whole
    } else {
        work_through(interval, melody, stop_length)
    };
    proof {
        if interval.start <= interval.end {
            lemma_partition_laws(melody@, interval, stop_length as nat);
        }
    }
    r
}

/// The clusters of an interval of the melody, found with a list of the
/// intervals still to be done in place of nested calls, so that a long
/// melody takes no deep stack.
fn work_through(interval: ClosedInterval, melody: &Vec<(u64, u8, u8)>, stop_length: usize) -> (r:
    Vec<ClosedInterval>)
    requires
        interval.start <= interval.end < melody.len(),
        stop_length >= 1,
    ensures
        r@ == partition(melody@, interval, stop_length as nat),
{
    let mut result: Vec<ClosedInterval> = Vec::new();
    let mut waiting: Vec<(ClosedInterval, usize)> = Vec::new();
    let n = melody.len();
    proof {
        assert(all_within(waiting@, n as nat));
        lemma_waiting_push(melody@, waiting@, interval, 0, stop_length as nat, n as nat);
        let all = partition(melody@, interval, stop_length as nat);
        lemma_partition(melody@, interval, stop_length as nat);
        assert(with_last_extended(all, 0) =~= all);
        assert(result@ + (all + pending(melody@, waiting@, stop_length as nat)) =~= all);
    }
    waiting.push((interval, 0));
    while waiting.len() > 0
        invariant
            stop_length >= 1,
            n == melody@.len(),
            all_within(waiting@, n as nat),
            result@ + pending(melody@, waiting@, stop_length as nat) == partition(
                melody@,
                interval,
                stop_length as nat,
            ),
        decreases steps_left(waiting@),
    {
        let ghost before = waiting@;
        let ghost done = result@;
        proof {
            lemma_waiting_last(melody@, before, stop_length as nat, n as nat);
        }
        let (current, extra) = waiting.pop().unwrap();
        let ghost rest = waiting@;
        let ghost later = pending(melody@, rest, stop_length as nat);
        let ghost here = with_last_extended(partition(melody@, current, stop_length as nat), extra as nat);
        assert(before.last() == (current, extra));
        assert(rest == before.drop_last());
        if current.len() <= stop_length {
            result.push(ClosedInterval { start: current.start, end: current.end + extra });
            assert(result@ + later =~= done + (here + later));
        } else {
            let longest = last_longest_index(melody, current);
            if longest < current.end {
                let (left, right) = current.divided(longest);
                proof {
                    lemma_extended_split(melody@, current, extra, stop_length as nat);
                    lemma_waiting_push(melody@, rest, right, extra, stop_length as nat, n as nat);
                    lemma_waiting_push(
                        melody@,
                        rest.push((right, extra)),
                        left,
                        0,
                        stop_length as nat,
                        n as nat,
                    );
                }
                waiting.push((right, extra));
                waiting.push((left, 0));
                assert(pending(melody@, waiting@, stop_length as nat) =~= here + later);
            } else {
                let shorter = ClosedInterval { start: current.start, end: current.end - 1 };
                proof {
                    lemma_extended_merge(melody@, current, extra, stop_length as nat);
                    lemma_waiting_push(
                        melody@,
                        rest,
                        shorter,
                        (extra + 1) as usize,
                        stop_length as nat,
                        n as nat,
                    );
                }
                waiting.push((shorter, extra + 1));
            }
        }
    }
    assert(result@ + Seq::<ClosedInterval>::empty() =~= result@);
    result
}

/// The clusters of the whole melody: they tile its indices, and each has at
/// most `stop_length` indices but for what the last entries of an interval
/// add to it where they are its longest.
pub fn partitioned_melody(melody: &Vec<(u64, u8, u8)>, stop_length: usize) -> (r: Vec<
    ClosedInterval,
>)
    requires
        melody.len() > 0,
        stop_length >= 1,
    ensures
        r@ == partition(
            melody@,
            ClosedInterval { start: 0, end: (melody.len() - 1) as usize },
            stop_length as nat,
        ),
        tiles(r@, ClosedInterval { start: 0, end: (melody.len() - 1) as usize }),
        apart(r@),
        covers(r@, ClosedInterval { start: 0, end: (melody.len() - 1) as usize }),
        all_grown_by_longest(melody@, r@, stop_length as nat),
        all_bounded(melody@, r@, stop_length as nat),
{
    let whole = ClosedInterval::indices(melody);
    pm_help(whole, melody, stop_length)
}

/// The durations of the entries of `interval`, in order.
pub open spec fn durations_of(melody: Seq<(u64, u8, u8)>, interval: ClosedInterval) -> Seq<u64> {
    Seq::new(interval.count(), |k: int| duration_at(melody, interval.start + k))
}

/// The durations of each cluster of the melody, cluster by cluster.
pub fn duration_clusters(melody: &Vec<(u64, u8, u8)>, stop_length: usize) -> (r: Vec<Vec<u64>>)
    requires
        melody.len() > 0,
        stop_length >= 1,
    ensures
        r.len() == partition(
            melody@,
            ClosedInterval { start: 0, end: (melody.len() - 1) as usize },
            stop_length as nat,
        ).len(),
        forall|i: int|
            0 <= i < r.len() ==> (#[trigger] r[i])@ == durations_of(
                melody@,
                partition(
                    melody@,
                    ClosedInterval { start: 0, end: (melody.len() - 1) as usize },
                    stop_length as nat,
                )[i],
            ),
{
    let partitioned = partitioned_melody(melody, stop_length);
    let ghost whole = ClosedInterval { start: 0, end: (melody.len() - 1) as usize };
    let mut result: Vec<Vec<u64>> = Vec::new();
    let mut n: usize = 0;
    while n < partitioned.len()
        invariant
            n <= partitioned.len(),
            result.len() == n,
            tiles(partitioned@, whole),
            whole.end < melody.len(),
            forall|i: int|
                0 <= i < n ==> (#[trigger] result[i])@ == durations_of(melody@, partitioned[i]),
        decreases partitioned.len() - n,
    {
        let interval = partitioned[n];
        proof {
            lemma_tiles_ordered(partitioned@, whole, n as int);
        }
        let mut durations: Vec<u64> = Vec::new();
        let mut i = interval.start;
        durations.push(melody[i].0);
        while i < interval.end
            invariant
                interval.start <= i <= interval.end < melody.len(),
                durations.len() == i - interval.start + 1,
                forall|k: int|
                    0 <= k < durations.len() ==> durations[k] == duration_at(
                        melody@,
                        interval.start + k,
                    ),
            decreases interval.end - i,
        {
            i = i + 1;
            durations.push(melody[i].0);
        }
        assert(durations@ =~= durations_of(melody@, interval));
        result.push(durations);
        n = n + 1;
    }
    result
}

/// The durations of entries `2k` and `2k + 1` together.
pub open spec fn pair_duration(entries: Seq<(u64, u8, u8)>, k: int) -> int {
    entries[2 * k].0 + entries[2 * k + 1].0
}

/// Each sounding entry merged with the rest behind it: entry `k` of the
/// result has the pitch and velocity of entry `2k` and the durations of
/// entries `2k` and `2k + 1` together.
pub fn consolidated_note_rest_times(durations_notes: &Vec<(u64, u8, u8)>) -> (r: Vec<
    (u64, u8, u8),
>)
    requires
        durations_notes.len() % 2 == 0,
        forall|k: int|
            0 <= k < durations_notes.len() / 2 ==> #[trigger] pair_duration(durations_notes@, k)
                <= u64::MAX,
    ensures
        r.len() == durations_notes.len() / 2,
        forall|k: int|
            0 <= k < r.len() ==> #[trigger] r[k] == (
                pair_duration(durations_notes@, k) as u64,
                durations_notes[2 * k].1,
                durations_notes[2 * k].2,
            ),
{
    let mut r: Vec<(u64, u8, u8)> = Vec::new();
    let mut i: usize = 0;
    while i < durations_notes.len()
        invariant
            i <= durations_notes.len(),
            i % 2 == 0,
            durations_notes.len() % 2 == 0,
            r.len() == i / 2,
            forall|k: int|
                0 <= k < durations_notes.len() / 2 ==> #[trigger] pair_duration(
                    durations_notes@,
                    k,
                ) <= u64::MAX,
            forall|k: int|
                0 <= k < r.len() ==> #[trigger] r[k] == (
                    pair_duration(durations_notes@, k) as u64,
                    durations_notes[2 * k].1,
                    durations_notes[2 * k].2,
                ),
        decreases durations_notes.len() - i,
    {
        assert(pair_duration(durations_notes@, (i / 2) as int) <= u64::MAX);
        r.push(
            (
                durations_notes[i].0 + durations_notes[i + 1].0,
                durations_notes[i].1,
                durations_notes[i].2,
            ),
        );
        i = i + 2;
    }
    r
}

} // verus!
