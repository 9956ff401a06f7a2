use vstd::prelude::*;

verus! {

/// The loads after one more danmaku has been placed on track `t`.
pub open spec fn loads_after_allocate(loads: Seq<u32>, t: int) -> Seq<u32> {
    loads.update(t, (loads[t] + 1) as u32)
}

/// The loads after one danmaku has left track `t`: its load drops by one
/// and stays at zero; a track number outside the system changes nothing.
pub open spec fn loads_after_release(loads: Seq<u32>, t: int) -> Seq<u32> {
    if 0 <= t < loads.len() {
        loads.update(t, if loads[t] > 0 { (loads[t] - 1) as u32 } else { 0u32 })
    } else {
        loads
    }
}

/// `t` is the first track whose load is not above the load of any track.
pub open spec fn is_least_loaded(loads: Seq<u32>, t: int) -> bool {
    &&& 0 <= t < loads.len()
    &&& forall|j: int| 0 <= j < loads.len() ==> loads[t] <= #[trigger] loads[j]
    &&& forall|j: int| 0 <= j < t ==> loads[t] < #[trigger] loads[j]
}

/// Some track can take one more danmaku without its load overflowing.
pub open spec fn has_headroom(loads: Seq<u32>) -> bool {
    exists|j: int| 0 <= j < loads.len() && #[trigger] loads[j] < u32::MAX
}

/// No two tracks differ in load by more than one.
pub open spec fn is_balanced(loads: Seq<u32>) -> bool {
    forall|i: int, j: int|
        0 <= i < loads.len() && 0 <= j < loads.len() ==> #[trigger] loads[i] <= #[trigger] loads[j]
            + 1
}

/// The number of tracks that a display band holding `rows` whole tracks is
/// divided into: at least one.
pub open spec fn track_count(rows: usize) -> nat {
    if rows == 0 {
        1
    } else {
        rows as nat
    }
}

/// The track an allocation picks is a track of the system whose load is at
/// most every other load, and strictly below the load of every track before
/// it: the first global minimum.
pub proof fn lemma_least_loaded_is_first_minimum(loads: Seq<u32>, t: int)
    requires
        is_least_loaded(loads, t),
    ensures
        0 <= t < loads.len(),
        forall|j: int| 0 <= j < loads.len() ==> loads[t] <= #[trigger] loads[j],
        forall|j: int| 0 <= j < t ==> loads[t] < #[trigger] loads[j],
{
}

/// Placing a danmaku raises the chosen track's load by one and leaves every
/// other track alone.
pub proof fn lemma_allocate_raises_one_track(loads: Seq<u32>, t: int)
    requires
        0 <= t < loads.len(),
        loads[t] < u32::MAX,
    ensures
        loads_after_allocate(loads, t).len() == loads.len(),
        loads_after_allocate(loads, t)[t] == loads[t] + 1,
        forall|j: int|
            0 <= j < loads.len() && j != t ==> #[trigger] loads_after_allocate(loads, t)[j]
                == loads[j],
{
}

/// A band holding `rows` whole tracks is divided into exactly `rows` tracks,
/// or one track when it holds none.
pub proof fn lemma_track_count_exact(rows: usize)
    ensures
        rows >= 1 ==> track_count(rows) == rows,
        rows == 0 ==> track_count(rows) == 1,
{
}

/// Taking a danmaku off the track it was just placed on gives back the
/// loads from before the placement.
pub proof fn lemma_release_undoes_allocate(loads: Seq<u32>, t: int)
    requires
        0 <= t < loads.len(),
        loads[t] < u32::MAX,
    ensures
        loads_after_release(loads_after_allocate(loads, t), t) == loads,
{
    assert(loads_after_release(loads_after_allocate(loads, t), t) =~= loads);
}

/// A freshly created track system is balanced.
pub proof fn lemma_empty_loads_balanced(loads: Seq<u32>)
    requires
        forall|i: int| 0 <= i < loads.len() ==> loads[i] == 0,
    ensures
        is_balanced(loads),
{
}

/// Placing a danmaku on the least-loaded track keeps the tracks balanced:
/// allocation alone never lets two tracks drift more than one apart.
pub proof fn lemma_allocate_keeps_balance(loads: Seq<u32>, t: int)
    requires
        is_balanced(loads),
        is_least_loaded(loads, t),
        loads[t] < u32::MAX,
    ensures
        is_balanced(loads_after_allocate(loads, t)),
{
    let after = loads_after_allocate(loads, t);
    assert forall|i: int, j: int|
        0 <= i < after.len() && 0 <= j < after.len() implies #[trigger] after[i] <= #[trigger] after[j]
            + 1 by {
        assert(loads[i] <= loads[j] + 1);
        assert(loads[t] <= loads[j]);
        assert(loads[i] <= loads[t] + 1);
    }
}

/// The loads of `k` tracks after `n` danmaku were placed, one at a time and
/// none released, starting from empty tracks: every track holds `n / k`, and
/// the first `n % k` tracks hold one more.
pub open spec fn round_robin_loads(k: nat, n: nat) -> Seq<u32> {
    Seq::new(k, |j: int| (n / k + if j < n % k { 1int } else { 0int }) as u32)
}

/// The number of danmaku counted over all tracks.
pub open spec fn total_load(loads: Seq<u32>) -> nat
    decreases loads.len(),
{
    if loads.len() == 0 {
        0
    } else {
        total_load(loads.drop_last()) + loads.last() as nat
    }
}

/// Empty tracks are the round-robin loads of no danmaku.
pub proof fn lemma_round_robin_start(k: nat, loads: Seq<u32>)
    requires
        k >= 1,
        loads.len() == k,
        forall|i: int| 0 <= i < loads.len() ==> loads[i] == 0,
    ensures
        loads == round_robin_loads(k, 0),
{
    vstd::arithmetic::div_mod::lemma_fundamental_div_mod_converse(0, k as int, 0, 0);
    assert(loads =~= round_robin_loads(k, 0));
}

/// Allocation goes round robin: from the loads of `n` placements the
/// least-loaded track is `n % k`, and placing there gives the loads of
/// `n + 1` placements. So, from fresh tracks and without releases, the
/// `n`-th allocation (counting from 0) returns track `n % k`.
pub proof fn lemma_round_robin_step(k: nat, n: nat)
    requires
        k >= 1,
        n / k + 1 < u32::MAX,
    ensures
        is_least_loaded(round_robin_loads(k, n), (n % k) as int),
        round_robin_loads(k, n)[(n % k) as int] < u32::MAX,
        loads_after_allocate(round_robin_loads(k, n), (n % k) as int) == round_robin_loads(
            k,
            n + 1,
        ),
{
    let q: int = (n / k) as int;
    let r: int = (n % k) as int;
    vstd::arithmetic::div_mod::lemma_fundamental_div_mod(n as int, k as int);
    assert(q * (k as int) == (k as int) * q) by (nonlinear_arith);
    assert((q + 1) * (k as int) == q * (k as int) + k) by (nonlinear_arith);
    if r + 1 < k {
        vstd::arithmetic::div_mod::lemma_fundamental_div_mod_converse(
            (n + 1) as int,
            k as int,
            q,
            r + 1,
        );
    } else {
        vstd::arithmetic::div_mod::lemma_fundamental_div_mod_converse(
            (n + 1) as int,
            k as int,
            q + 1,
            0,
        );
    }
    let before = round_robin_loads(k, n);
    assert(before[r] == q);
    assert(loads_after_allocate(before, r) =~= round_robin_loads(k, n + 1));
}

/// The track that an allocation picks: the first least-loaded one.
pub open spec fn first_least_loaded(loads: Seq<u32>) -> int {
    choose|t: int| is_least_loaded(loads, t)
}

/// The loads after `n` allocations in a row, each on the track that
/// `allocate_track` picks, with no release in between.
pub open spec fn loads_after_allocations(loads: Seq<u32>, n: nat) -> Seq<u32>
    decreases n,
{
    if n == 0 {
        loads
    } else {
        let before = loads_after_allocations(loads, (n - 1) as nat);
        loads_after_allocate(before, first_least_loaded(before))
    }
}

/// There is only one first least-loaded track, so the track that
/// `allocate_track` returns is `first_least_loaded` of the loads before.
pub proof fn lemma_least_loaded_unique(loads: Seq<u32>, t: int)
    requires
        is_least_loaded(loads, t),
    ensures
        first_least_loaded(loads) == t,
{
    let c = first_least_loaded(loads);
    assert(is_least_loaded(loads, c));
    if c < t {
        assert(loads[t] < loads[c]);
        assert(loads[c] <= loads[t]);
    } else if t < c {
        assert(loads[c] < loads[t]);
        assert(loads[t] <= loads[c]);
    }
}

/// Round robin over a whole run of allocations: starting from `k` empty
/// tracks, `n` allocations in a row leave the round-robin loads of `n`
/// (balanced, adding up to `n`), and the next allocation takes track
/// `n % k`.
pub proof fn lemma_round_robin_history(empty: Seq<u32>, n: nat)
    requires
        empty.len() >= 1,
        forall|i: int| 0 <= i < empty.len() ==> empty[i] == 0,
        n / empty.len() + 1 < u32::MAX,
    ensures
        loads_after_allocations(empty, n) == round_robin_loads(empty.len(), n),
        first_least_loaded(loads_after_allocations(empty, n)) == n % empty.len(),
        is_balanced(loads_after_allocations(empty, n)),
        total_load(loads_after_allocations(empty, n)) == n,
    decreases n,
{
    let k = empty.len();
    if n == 0 {
        lemma_round_robin_start(k, empty);
    } else {
        let m = (n - 1) as nat;
        assert(m / k <= n / k) by {
            vstd::arithmetic::div_mod::lemma_div_is_ordered(m as int, n as int, k as int);
        }
        lemma_round_robin_history(empty, m);
        lemma_round_robin_step(k, m);
    }
    lemma_round_robin_step(k, n);
    lemma_least_loaded_unique(round_robin_loads(k, n), (n % k) as int);
    lemma_round_robin_balanced_total(k, n);
}

proof fn lemma_total_update(loads: Seq<u32>, t: int, v: u32)
    requires
        0 <= t < loads.len(),
    ensures
        total_load(loads.update(t, v)) == total_load(loads) - loads[t] + v,
    decreases loads.len(),
{
    let after = loads.update(t, v);
    if t == loads.len() - 1 {
        assert(after.drop_last() =~= loads.drop_last());
    } else {
        lemma_total_update(loads.drop_last(), t, v);
        assert(after.drop_last() =~= loads.drop_last().update(t, v));
    }
}

/// Round-robin loads stay balanced, and they add up to the number of
/// danmaku placed.
pub proof fn lemma_round_robin_balanced_total(k: nat, n: nat)
    requires
        k >= 1,
        n / k + 1 < u32::MAX,
    ensures
        is_balanced(round_robin_loads(k, n)),
        total_load(round_robin_loads(k, n)) == n,
    decreases n,
{
    let loads = round_robin_loads(k, n);
    vstd::arithmetic::div_mod::lemma_fundamental_div_mod(n as int, k as int);
    assert(is_balanced(loads));
    if n == 0 {
        lemma_total_zero(loads);
    } else {
        let m = (n - 1) as nat;
        vstd::arithmetic::div_mod::lemma_fundamental_div_mod(m as int, k as int);
        assert(m / k <= n / k) by {
            vstd::arithmetic::div_mod::lemma_div_is_ordered(m as int, n as int, k as int);
        }
        lemma_round_robin_balanced_total(k, m);
        lemma_round_robin_step(k, m);
        let t = (m % k) as int;
        lemma_total_update(round_robin_loads(k, m), t, (round_robin_loads(k, m)[t] + 1) as u32);
    }
}

proof fn lemma_total_zero(loads: Seq<u32>)
    requires
        forall|i: int| 0 <= i < loads.len() ==> loads[i] == 0,
    ensures
        total_load(loads) == 0,
    decreases loads.len(),
{
    if loads.len() > 0 {
        lemma_total_zero(loads.drop_last());
    }
}

/// Horizontal lanes of the display band, each counting the danmaku that
/// currently scroll on it.
///
/// The view is the sequence of per-track loads; its length is the number of
/// tracks, which is never zero.
pub struct TrackSystem {
    num_tracks: usize,
    track_counts: Vec<u32>,
}

impl View for TrackSystem {
    type V = Seq<u32>;

    closed spec fn view(&self) -> Seq<u32> {
        self.track_counts@
    }
}

impl TrackSystem {
    #[verifier::type_invariant]
    spec fn well_formed(self) -> bool {
        &&& self.track_counts@.len() == self.num_tracks
        &&& self.num_tracks >= 1
    }

    /// Creates a track system for a band that holds `rows` whole tracks
    /// (the band height divided by the track height, rounded down).
    /// A band too low for one track still gets one track. All loads start
    /// at zero.
    pub fn new(rows: usize) -> (ts: Self)
        ensures
            ts@.len() == track_count(rows),
            rows >= 1 ==> ts@.len() == rows,
            rows == 0 ==> ts@.len() == 1,
            forall|i: int| 0 <= i < ts@.len() ==> ts@[i] == 0,
    {
        let num_tracks: usize = if rows == 0 {
            1
        } else {
            rows
        };
        let mut track_counts: Vec<u32> = Vec::new();
        let mut i: usize = 0;
        while i < num_tracks
            invariant
                i <= num_tracks,
                track_counts@.len() == i,
                forall|j: int| 0 <= j < i ==> track_counts@[j] == 0,
            decreases num_tracks - i,
        {
            track_counts.push(0);
            i = i + 1;
        }
        TrackSystem { num_tracks, track_counts }
    }

    /// Places one more danmaku on the least-loaded track (the first such
    /// track when several tie) and returns it. A track system always has a
    /// track, so this never returns `None`.
    pub fn allocate_track(&mut self) -> (res: Option<usize>)
        requires
            has_headroom(old(self)@),
        ensures
            res is Some,
            is_least_loaded(old(self)@, res->0 as int),
            res->0 as int == first_least_loaded(old(self)@),
            final(self)@ == loads_after_allocate(old(self)@, res->0 as int),
            res->0 < old(self)@.len(),
            forall|j: int| 0 <= j < old(self)@.len() ==> old(self)@[res->0 as int] <= #[trigger] old(
                self,
            )@[j],
            forall|j: int| 0 <= j < res->0 ==> old(self)@[res->0 as int] < #[trigger] old(self)@[j],
            final(self)@.len() == old(self)@.len(),
            final(self)@[res->0 as int] == old(self)@[res->0 as int] + 1,
            forall|j: int|
                0 <= j < old(self)@.len() && j != res->0 ==> #[trigger] final(self)@[j] == old(
                    self,
                )@[j],
        no_unwind
    {
        proof {
            use_type_invariant(&*self);
        }
        let n: usize = self.track_counts.len();
        let mut best: usize = 0;
        let mut i: usize = 1;
        while i < n
            invariant
                n == self.track_counts@.len(),
                n >= 1,
                1 <= i <= n,
                best < i,
                forall|j: int| 0 <= j < i ==> self.track_counts@[best as int] <= #[trigger] self.track_counts@[j],
                forall|j: int| 0 <= j < best ==> self.track_counts@[best as int] < #[trigger] self.track_counts@[j],
            decreases n - i,
        {
            if self.track_counts[i] < self.track_counts[best] {
                best = i;
            }
            i = i + 1;
        }
        proof {
            let w = choose|j: int| 0 <= j < self.track_counts@.len() && #[trigger] self.track_counts@[j] < u32::MAX;
            assert(self.track_counts@[best as int] <= self.track_counts@[w]);
            lemma_least_loaded_unique(self.track_counts@, best as int);
        }
        let load: u32 = self.track_counts[best];
        self.track_counts[best] = load + 1;
        Some(best)
    }

    /// Takes one danmaku off `track`. The load never drops below zero, and a
    /// track number outside the system is ignored.
    pub fn release_track(&mut self, track: usize)
        ensures
            final(self)@ == loads_after_release(old(self)@, track as int),
            final(self)@.len() == old(self)@.len(),
            track < old(self)@.len() ==> final(self)@[track as int] == if old(self)@[track as int]
                > 0 {
                old(self)@[track as int] - 1
            } else {
                0
            },
            forall|j: int|
                0 <= j < old(self)@.len() && j != track ==> #[trigger] final(self)@[j] == old(
                    self,
                )@[j],
        no_unwind
    {
        proof {
            use_type_invariant(&*self);
        }
        if track < self.track_counts.len() {
            let load: u32 = self.track_counts[track];
            self.track_counts[track] = if load > 0 {
                load - 1
            } else {
                0
            };
        }
    }

    /// Sets the load of every track to zero; the number of tracks is kept.
    pub fn release_all(&mut self)
        ensures
            final(self)@.len() == old(self)@.len(),
            forall|i: int| 0 <= i < final(self)@.len() ==> final(self)@[i] == 0,
        no_unwind
    {
        proof {
            use_type_invariant(&*self);
        }
        let n: usize = self.track_counts.len();
        let mut i: usize = 0;
        while i < n
            invariant
                n == self.track_counts@.len(),
                n == old(self)@.len(),
                n == self.num_tracks,
                i <= n,
                forall|j: int| 0 <= j < i ==> self.track_counts@[j] == 0,
            decreases n - i,
        {
            self.track_counts[i] = 0;
            i = i + 1;
        }
    }

    /// The number of tracks.
    pub fn num_tracks(&self) -> (n: usize)
        ensures
            n == self@.len(),
            n >= 1,
    {
        proof {
            use_type_invariant(self);
        }
        self.num_tracks
    }

    /// The load of every track, in track order.
    pub fn track_counts(&self) -> (counts: &[u32])
        ensures
            counts@ == self@,
    {
        self.track_counts.as_slice()
    }
}

} // verus!
