//! How waiting parties are grouped into a side: the tolerance that widens
//! with waiting, and the first-come-first-served filling of a side.

use vstd::prelude::*;

verus! {

/// Rating distance tolerated for a party that has just entered the queue.
pub const BASE_TOLERANCE: u64 = 50;

/// Points by which the tolerance grows for each full second of waiting.
pub const TOLERANCE_SLOPE: u64 = 20;

/// The tolerance never exceeds this.
pub const TOLERANCE_CAP: u64 = 400;

/// The tolerance window of a party that has waited `elapsed_ms` milliseconds.
pub open spec fn tolerance_of(elapsed_ms: int) -> int {
    let grown = BASE_TOLERANCE + (elapsed_ms / 1000) * TOLERANCE_SLOPE;
    if grown > TOLERANCE_CAP {
        TOLERANCE_CAP as int
    } else {
        grown
    }
}

/// The tolerance window of a party that has waited `elapsed_ms` milliseconds.
pub fn tolerance(elapsed_ms: u64) -> (w: u64)
    ensures
        w == tolerance_of(elapsed_ms as int),
        BASE_TOLERANCE <= w <= TOLERANCE_CAP,
{
    let seconds = elapsed_ms / 1000;
    if seconds >= 18 {
        assert((elapsed_ms as int / 1000) * 20 >= 360) by (nonlinear_arith)
            requires
                elapsed_ms as int / 1000 >= 18,
        ;
        TOLERANCE_CAP
    } else {
        BASE_TOLERANCE + seconds * TOLERANCE_SLOPE
    }
}

/// The distance between two ratings.
pub open spec fn distance(a: u32, b: u32) -> int {
    if a >= b {
        a - b
    } else {
        b - a
    }
}

/// Whether two ratings lie within `window` of each other.
pub fn within(a: u32, b: u32, window: u64) -> (r: bool)
    ensures
        r == (distance(a, b) <= window),
{
    let d: u32 = if a >= b {
        a - b
    } else {
        b - a
    };
    d as u64 <= window
}

/// The places taken by the parties chosen among the first `k`.
pub open spec fn load(sizes: Seq<usize>, picked: Seq<bool>, k: int) -> int
    decreases k,
{
    if k <= 0 {
        0
    } else {
        load(sizes, picked, k - 1) + if picked[k - 1] {
            sizes[k - 1] as int
        } else {
            0
        }
    }
}

/// Filling a side first come, first served: going through the first `k`
/// parties in order, a party is chosen if it is eligible and still fits
/// into what the parties chosen before it have left of `capacity`.
pub open spec fn greedy(sizes: Seq<usize>, eligible: Seq<bool>, capacity: int, k: int) -> Seq<bool>
    decreases k,
{
    if k <= 0 {
        Seq::empty()
    } else {
        let before = greedy(sizes, eligible, capacity, k - 1);
        before.push(eligible[k - 1] && sizes[k - 1] <= capacity - load(sizes, before, k - 1))
    }
}

/// The choice made among the first `k` parties has `k` answers, agrees with
/// every shorter choice, and never takes more than `capacity` places.
pub proof fn lemma_greedy(sizes: Seq<usize>, eligible: Seq<bool>, capacity: int, k: int)
    requires
        0 <= k,
        0 <= capacity,
    ensures
        greedy(sizes, eligible, capacity, k).len() == k,
        forall|j: int|
            0 <= j <= k ==> #[trigger] greedy(sizes, eligible, capacity, j) == greedy(
                sizes,
                eligible,
                capacity,
                k,
            ).take(j),
        forall|j: int|
            0 <= j <= k ==> #[trigger] load(sizes, greedy(sizes, eligible, capacity, k), j) == load(
                sizes,
                greedy(sizes, eligible, capacity, j),
                j,
            ),
        0 <= load(sizes, greedy(sizes, eligible, capacity, k), k) <= capacity,
    decreases k,
{
    let all = greedy(sizes, eligible, capacity, k);
    if k > 0 {
        lemma_greedy(sizes, eligible, capacity, k - 1);
        let before = greedy(sizes, eligible, capacity, k - 1);
        assert(all.take(k - 1) =~= before);
        assert(all.take(k) =~= all);
        lemma_load_prefix(sizes, all, before, k - 1);
        assert(all[k - 1] == (eligible[k - 1] && sizes[k - 1] <= capacity - load(
            sizes,
            before,
            k - 1,
        )));
        assert(load(sizes, all, k) == load(sizes, all, k - 1) + if all[k - 1] {
            sizes[k - 1] as int
        } else {
            0
        });
        assert forall|j: int| 0 <= j <= k implies #[trigger] greedy(sizes, eligible, capacity, j)
            == all.take(j) by {
            if j < k {
                assert(before.take(j) =~= all.take(j));
            }
        }
        assert forall|j: int| 0 <= j <= k implies #[trigger] load(sizes, all, j) == load(
            sizes,
            greedy(sizes, eligible, capacity, j),
            j,
        ) by {
            lemma_load_prefix(sizes, all, greedy(sizes, eligible, capacity, j), j);
        }
    } else {
        assert(all.take(0) =~= all);
    }
}

/// The load of the first `k` parties depends on the first `k` answers only.
pub proof fn lemma_load_prefix(sizes: Seq<usize>, a: Seq<bool>, b: Seq<bool>, k: int)
    requires
        0 <= k <= a.len(),
        b == a.take(k),
    ensures
        load(sizes, a, k) == load(sizes, b, k),
    decreases k,
{
    if k > 0 {
        assert(b.take(k - 1) =~= a.take(k - 1));
        lemma_load_prefix(sizes, a, a.take(k - 1), k - 1);
        lemma_load_prefix(sizes, b, b.take(k - 1), k - 1);
        assert(b[k - 1] == a[k - 1]);
    }
}

/// The load grows with the number of parties looked at.
pub proof fn lemma_load_grows(sizes: Seq<usize>, picked: Seq<bool>, i: int, j: int)
    requires
        0 <= i <= j,
    ensures
        0 <= load(sizes, picked, i) <= load(sizes, picked, j),
    decreases j,
{
    if i < j {
        lemma_load_grows(sizes, picked, i, j - 1);
    } else if j > 0 {
        lemma_load_grows(sizes, picked, i - 1, j - 1);
    }
}

/// Fills a side first come, first served.
pub fn pick_side(sizes: &Vec<usize>, eligible: &Vec<bool>, capacity: usize) -> (r: (Vec<bool>, usize))
    requires
        eligible@.len() == sizes@.len(),
    ensures
        r.0@ == greedy(sizes@, eligible@, capacity as int, sizes@.len() as int),
        r.1 == load(sizes@, r.0@, sizes@.len() as int),
        r.1 <= capacity,
{
    let n = sizes.len();
    let mut picked: Vec<bool> = Vec::new();
    let mut taken: usize = 0;
    let mut k: usize = 0;
    while k < n
        invariant
            n == sizes@.len(),
            n == eligible@.len(),
            k <= n,
            picked@ == greedy(sizes@, eligible@, capacity as int, k as int),
            taken == load(sizes@, picked@, k as int),
            taken <= capacity,
        decreases n - k,
    {
        let take = eligible[k] && sizes[k] <= capacity - taken;
        let ghost before = picked@;
        picked.push(take);
        proof {
            lemma_greedy(sizes@, eligible@, capacity as int, k as int);
            assert(picked@.take(k as int) =~= before);
            lemma_load_prefix(sizes@, picked@, before, k as int);
        }
        if take {
            taken = taken + sizes[k];
        }
        k = k + 1;
    }
    (picked, taken)
}

/// Of two eligible parties, the one that has waited longer is chosen no later
/// than the younger one, unless it is the larger of the two: whenever the
/// younger party is chosen and the older one is no larger, the older one is
/// chosen too.
pub proof fn older_party_first(
    sizes: Seq<usize>,
    eligible: Seq<bool>,
    capacity: int,
    i: int,
    j: int,
)
    requires
        0 <= capacity,
        0 <= i < j < sizes.len(),
        eligible.len() == sizes.len(),
        eligible[i],
        sizes[i] <= sizes[j],
        greedy(sizes, eligible, capacity, sizes.len() as int)[j],
    ensures
        greedy(sizes, eligible, capacity, sizes.len() as int)[i],
{
    let n = sizes.len() as int;
    let all = greedy(sizes, eligible, capacity, n);
    lemma_greedy(sizes, eligible, capacity, n);
    lemma_greedy(sizes, eligible, capacity, i + 1);
    lemma_greedy(sizes, eligible, capacity, j + 1);
    lemma_greedy(sizes, eligible, capacity, i);
    lemma_greedy(sizes, eligible, capacity, j);
    let gi = greedy(sizes, eligible, capacity, i);
    let gj = greedy(sizes, eligible, capacity, j);
    assert(greedy(sizes, eligible, capacity, i + 1) == all.take(i + 1));
    assert(greedy(sizes, eligible, capacity, j + 1) == all.take(j + 1));
    assert(all.take(i + 1)[i] == all[i]);
    assert(all.take(j + 1)[j] == all[j]);
    assert(all[j] == (eligible[j] && sizes[j] <= capacity - load(sizes, gj, j)));
    assert(all[i] == (eligible[i] && sizes[i] <= capacity - load(sizes, gi, i)));
    assert(load(sizes, all, i) == load(sizes, gi, i));
    assert(load(sizes, all, j) == load(sizes, gj, j));
    lemma_load_grows(sizes, all, i, j);
}

/// A side is filled as far as it goes: a party that is eligible and was not
/// chosen did not fit into what was left when its turn came.
pub proof fn passed_over_did_not_fit(
    sizes: Seq<usize>,
    eligible: Seq<bool>,
    capacity: int,
    i: int,
)
    requires
        0 <= capacity,
        0 <= i < sizes.len(),
        eligible.len() == sizes.len(),
        eligible[i],
        !greedy(sizes, eligible, capacity, sizes.len() as int)[i],
    ensures
        sizes[i] > capacity - load(
            sizes,
            greedy(sizes, eligible, capacity, sizes.len() as int),
            i,
        ),
{
    let n = sizes.len() as int;
    let all = greedy(sizes, eligible, capacity, n);
    lemma_greedy(sizes, eligible, capacity, n);
    lemma_greedy(sizes, eligible, capacity, i + 1);
    lemma_greedy(sizes, eligible, capacity, i);
    let gi = greedy(sizes, eligible, capacity, i);
    assert(greedy(sizes, eligible, capacity, i + 1) == all.take(i + 1));
    assert(all.take(i + 1)[i] == all[i]);
    assert(load(sizes, all, i) == load(sizes, gi, i));
}

} // verus!
