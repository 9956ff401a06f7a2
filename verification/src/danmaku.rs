use vstd::prelude::*;

use crate::track::{
    has_headroom, is_least_loaded, loads_after_allocate, track_count, TrackSystem,
};

verus! {

/// One scrolling danmaku: what the caller draws (`content`), the track it was
/// placed on, and whether it is still on screen.
pub struct DanmakuItem<C> {
    /// What is drawn: text segments, images, position and speed.
    pub content: C,
    /// The track the danmaku was placed on.
    pub track: usize,
    /// Whether the danmaku is still on screen.
    pub alive: bool,
}

/// Whether a manager limited to `limit` danmaku (0: no limit) that holds
/// `len` of them takes one more.
pub open spec fn admits(limit: usize, len: nat) -> bool {
    limit == 0 || len < limit
}

/// The danmaku that stay on screen after one frame.
///
/// `moved[i]` is the content of `items[i]` after this frame's motion, or
/// `None` when the danmaku has scrolled completely off the left edge.
/// Live danmaku with a new position are kept, in order, with that content;
/// the others are dropped.
pub open spec fn survivors<C>(items: Seq<DanmakuItem<C>>, moved: Seq<Option<C>>) -> Seq<
    DanmakuItem<C>,
>
    decreases items.len(),
{
    if items.len() == 0 {
        Seq::empty()
    } else {
        let rest = survivors(items.drop_last(), moved.drop_last());
        let last = items.last();
        if last.alive {
            match moved.last() {
                Some(c) => rest.push(DanmakuItem { content: c, track: last.track, alive: true }),
                None => rest,
            }
        } else {
            rest
        }
    }
}

/// How many live danmaku on track `t` leave the screen in this frame.
pub open spec fn departures<C>(items: Seq<DanmakuItem<C>>, moved: Seq<Option<C>>, t: int) -> nat
    decreases items.len(),
{
    if items.len() == 0 {
        0
    } else {
        let last = items.last();
        departures(items.drop_last(), moved.drop_last(), t) + if last.alive && moved.last() is None
            && last.track == t {
            1nat
        } else {
            0nat
        }
    }
}

/// The track loads after every departing danmaku has released its track;
/// a load never goes below zero.
pub open spec fn loads_after_departures<C>(
    loads: Seq<u32>,
    items: Seq<DanmakuItem<C>>,
    moved: Seq<Option<C>>,
) -> Seq<u32> {
    Seq::new(
        loads.len(),
        |t: int|
            if loads[t] >= departures(items, moved, t) {
                (loads[t] - departures(items, moved, t)) as u32
            } else {
                0u32
            },
    )
}

/// How many live danmaku scroll on track `t`.
pub open spec fn occupancy<C>(items: Seq<DanmakuItem<C>>, t: int) -> nat
    decreases items.len(),
{
    if items.len() == 0 {
        0
    } else {
        occupancy(items.drop_last(), t) + if items.last().alive && items.last().track == t {
            1nat
        } else {
            0nat
        }
    }
}

/// No track records more danmaku than actually scroll on it.
pub open spec fn loads_within_occupancy<C>(loads: Seq<u32>, items: Seq<DanmakuItem<C>>) -> bool {
    forall|t: int| 0 <= t < loads.len() ==> #[trigger] loads[t] <= occupancy(items, t)
}

/// A render-thread command that changes the danmaku without any geometry.
pub enum ControlCommand {
    /// Remove every danmaku and release every track.
    ClearAll,
    /// Stop the animation.
    Pause,
    /// Restart the animation.
    Resume,
    /// Set the most danmaku on screen at once (0: no limit).
    SetMaxDanmaku(usize),
    /// Leave the render loop.
    Quit,
}

/// Keeps every danmaku on screen, assigns new ones to tracks and retires
/// those that have scrolled away.
///
/// `C` is what the caller draws for one danmaku; the manager carries it
/// along without looking inside.
pub struct DanmakuManager<C> {
    items: Vec<DanmakuItem<C>>,
    track_system: TrackSystem,
    max_items: usize,
    paused: bool,
}

impl<C> DanmakuManager<C> {
    /// The danmaku on screen, oldest first.
    pub closed spec fn items_view(&self) -> Seq<DanmakuItem<C>> {
        self.items@
    }

    /// The load of every track.
    pub closed spec fn loads_view(&self) -> Seq<u32> {
        self.track_system@
    }

    /// The most danmaku on screen at once; 0 means no limit.
    pub closed spec fn limit_view(&self) -> usize {
        self.max_items
    }

    /// Whether the animation is paused.
    pub closed spec fn paused_view(&self) -> bool {
        self.paused
    }

    /// Creates an empty, running, unlimited manager whose display band holds
    /// `rows` whole tracks (at least one track is made).
    pub fn new(rows: usize) -> (m: Self)
        ensures
            m.items_view().len() == 0,
            m.loads_view().len() == track_count(rows),
            rows >= 1 ==> m.loads_view().len() == rows,
            rows == 0 ==> m.loads_view().len() == 1,
            forall|i: int| 0 <= i < m.loads_view().len() ==> m.loads_view()[i] == 0,
            m.limit_view() == 0,
            !m.paused_view(),
            loads_within_occupancy(m.loads_view(), m.items_view()),
    {
        DanmakuManager {
            items: Vec::new(),
            track_system: TrackSystem::new(rows),
            max_items: 0,
            paused: false,
        }
    }

    /// Adds a danmaku, carrying `content`, on the least-loaded track (the
    /// first one when several tie).
    ///
    /// When a limit is set and already reached, the danmaku is dropped and
    /// nothing changes.
    pub fn add_inline(&mut self, content: C)
        requires
            admits(old(self).limit_view(), old(self).items_view().len()) ==> has_headroom(
                old(self).loads_view(),
            ),
        ensures
            final(self).limit_view() == old(self).limit_view(),
            final(self).paused_view() == old(self).paused_view(),
            !admits(old(self).limit_view(), old(self).items_view().len()) ==> {
                &&& final(self).items_view() == old(self).items_view()
                &&& final(self).loads_view() == old(self).loads_view()
            },
            admits(old(self).limit_view(), old(self).items_view().len()) ==> {
                let t = final(self).items_view().last().track;
                &&& final(self).items_view() == old(self).items_view().push(
                    DanmakuItem { content, track: t, alive: true },
                )
                &&& is_least_loaded(old(self).loads_view(), t as int)
                &&& final(self).loads_view() == loads_after_allocate(
                    old(self).loads_view(),
                    t as int,
                )
                &&& t < old(self).loads_view().len()
                &&& forall|j: int|
                    0 <= j < old(self).loads_view().len() ==> old(self).loads_view()[t as int]
                        <= #[trigger] old(self).loads_view()[j]
                &&& forall|j: int|
                    0 <= j < t ==> old(self).loads_view()[t as int] < #[trigger] old(self).loads_view()[j]
                &&& final(self).loads_view().len() == old(self).loads_view().len()
                &&& final(self).loads_view()[t as int] == old(self).loads_view()[t as int] + 1
                &&& forall|j: int|
                    0 <= j < old(self).loads_view().len() && j != t ==> #[trigger] final(self).loads_view()[j] == old(self).loads_view()[j]
            },
            old(self).limit_view() == 0 ==> final(self).items_view().len() == old(self).items_view().len() + 1,
            old(self).limit_view() > 0 ==> (final(self).items_view().len() == old(self).items_view().len() + 1 <==> old(self).items_view().len() < old(self).limit_view()),
            final(self).items_view().len() == old(self).items_view().len() || final(self).items_view().len() == old(self).items_view().len() + 1,
            final(self).limit_view() > 0 ==> final(self).items_view().len() <= if old(self).items_view().len() > final(self).limit_view() {
                old(self).items_view().len()
            } else {
                final(self).limit_view() as nat
            },
            loads_within_occupancy(old(self).loads_view(), old(self).items_view())
                ==> loads_within_occupancy(final(self).loads_view(), final(self).items_view()),
    {
        if self.max_items > 0 && self.items.len() >= self.max_items {
            return ;
        }
        let track: usize = match self.track_system.allocate_track() {
            Some(t) => t,
            None => {
                return ;
            },
        };
        proof {
            if loads_within_occupancy(old(self).loads_view(), old(self).items_view()) {
                lemma_add_keeps_occupancy(
                    old(self).loads_view(),
                    old(self).items_view(),
                    content,
                    track,
                );
            }
        }
        self.items.push(DanmakuItem { content, track, alive: true });
    }

    /// Advances one frame.
    ///
    /// `moved[i]` is the content of the `i`-th danmaku after this frame's
    /// motion, or `None` when it has scrolled completely off the left edge.
    /// When paused nothing changes (the moved contents are discarded) and the
    /// result tells whether any danmaku is on screen. Otherwise departing
    /// danmaku release their tracks and are removed, the rest take their new
    /// content, and the result tells whether any danmaku is left.
    #[verifier::spinoff_prover]
    #[verifier::rlimit(40)]
    pub fn update(&mut self, moved: Vec<Option<C>>) -> (any_alive: bool)
        requires
            moved@.len() == old(self).items_view().len(),
        ensures
            final(self).limit_view() == old(self).limit_view(),
            final(self).paused_view() == old(self).paused_view(),
            old(self).paused_view() ==> {
                &&& final(self).items_view() == old(self).items_view()
                &&& final(self).loads_view() == old(self).loads_view()
                &&& any_alive == (old(self).items_view().len() > 0)
            },
            !old(self).paused_view() ==> {
                &&& final(self).items_view() == survivors(old(self).items_view(), moved@)
                &&& final(self).loads_view() == loads_after_departures(
                    old(self).loads_view(),
                    old(self).items_view(),
                    moved@,
                )
                &&& any_alive == (final(self).items_view().len() > 0)
            },
            !old(self).paused_view() ==> final(self).loads_view().len() == old(self).loads_view().len(),
            !old(self).paused_view() ==> final(self).items_view().len() == Set::new(
                |i: int|
                    0 <= i < old(self).items_view().len() && old(self).items_view()[i].alive
                        && moved@[i] is Some,
            ).len(),
            !old(self).paused_view() ==> forall|k: int|
                0 <= k < final(self).items_view().len() ==> #[trigger] final(self).items_view()[k].alive,
            !old(self).paused_view() ==> forall|k: int|
                0 <= k < final(self).items_view().len() ==> exists|i: int|
                    #![trigger old(self).items_view()[i]]
                    0 <= i < old(self).items_view().len() && old(self).items_view()[i].alive
                        && moved@[i] == Some(#[trigger] final(self).items_view()[k].content)
                        && old(self).items_view()[i].track == final(self).items_view()[k].track,
            !old(self).paused_view() ==> forall|t: int|
                0 <= t < old(self).loads_view().len() ==> {
                    let gone = Set::new(
                        |i: int|
                            0 <= i < old(self).items_view().len() && old(self).items_view()[i].alive
                                && moved@[i] is None && old(self).items_view()[i].track == t,
                    ).len();
                    #[trigger] final(self).loads_view()[t] as int == if old(self).loads_view()[t]
                        >= gone {
                        old(self).loads_view()[t] - gone
                    } else {
                        0
                    }
                },
            loads_within_occupancy(old(self).loads_view(), old(self).items_view())
                ==> loads_within_occupancy(final(self).loads_view(), final(self).items_view()),
    {
        if self.paused {
            return self.items.len() > 0;
        }
        let ghost items0 = self.items@;
        let ghost loads0 = self.track_system@;
        let ghost moved0 = moved@;
        let mut moved = moved;
        let mut kept: Vec<DanmakuItem<C>> = Vec::new();
        let mut any_alive = false;
        let n: usize = moved.len();
        let mut i: usize = 0;
        proof {
            assert(items0.take(0) =~= Seq::<DanmakuItem<C>>::empty());
            assert(moved0.take(0) =~= Seq::<Option<C>>::empty());
            assert(loads_after_departures(loads0, items0.take(0), moved0.take(0)) =~= loads0);
        }
        while i < n
            invariant
                n == moved0.len(),
                n == items0.len(),
                self.items@ == items0,
                !self.paused,
                self.max_items == old(self).limit_view(),
                i <= n,
                moved@.len() == n,
                forall|j: int| i <= j < n ==> #[trigger] moved@[j] == moved0[j],
                kept@ == survivors(items0.take(i as int), moved0.take(i as int)),
                self.track_system@ == loads_after_departures(
                    loads0,
                    items0.take(i as int),
                    moved0.take(i as int),
                ),
                any_alive == (kept@.len() > 0),
            decreases n - i,
        {
            let track: usize = self.items[i].track;
            let alive: bool = self.items[i].alive;
            let step: Option<C> = moved[i].take();
            proof {
                assert(step == moved0[i as int]);
                lemma_frame_step(items0, moved0, i as int);
            }
            if alive {
                match step {
                    Some(c) => {
                        kept.push(DanmakuItem { content: c, track, alive: true });
                        any_alive = true;
                    },
                    None => {
                        self.track_system.release_track(track);
                    },
                }
            }
            proof {
                let after = loads_after_departures(
                    loads0,
                    items0.take(i + 1),
                    moved0.take(i + 1),
                );
                assert(self.track_system@ =~= after);
            }
            i = i + 1;
        }
        proof {
            assert(items0.take(n as int) =~= items0);
            assert(moved0.take(n as int) =~= moved0);
            if loads_within_occupancy(loads0, items0) {
                lemma_update_keeps_occupancy(loads0, items0, moved0);
            }
            lemma_frame_outcome(loads0, items0, moved0);
        }
        self.items = kept;
        proof {
            assert(self.items@ == survivors(items0, moved0));
            assert(self.track_system@ == loads_after_departures(loads0, items0, moved0));
        }
        any_alive
    }

    /// The danmaku on screen, oldest first.
    pub fn active_items(&self) -> (items: &[DanmakuItem<C>])
        ensures
            items@ == self.items_view(),
    {
        self.items.as_slice()
    }

    /// The most danmaku on screen at once; 0 means no limit.
    pub fn max_danmaku(&self) -> (max: usize)
        ensures
            max == self.limit_view(),
    {
        self.max_items
    }

    /// Whether the animation is paused.
    pub fn is_paused(&self) -> (paused: bool)
        ensures
            paused == self.paused_view(),
    {
        self.paused
    }

    /// Carries out one render-thread command; the result tells whether the
    /// render loop keeps running, which is false only for `Quit`.
    pub fn apply_control(&mut self, command: ControlCommand) -> (keep_running: bool)
        ensures
            keep_running == !(command is Quit),
            command is ClearAll ==> {
                &&& final(self).items_view().len() == 0
                &&& final(self).loads_view().len() == old(self).loads_view().len()
                &&& forall|i: int|
                    0 <= i < final(self).loads_view().len() ==> final(self).loads_view()[i] == 0
                &&& final(self).limit_view() == old(self).limit_view()
                &&& final(self).paused_view() == old(self).paused_view()
            },
            !(command is ClearAll) ==> {
                &&& final(self).items_view() == old(self).items_view()
                &&& final(self).loads_view() == old(self).loads_view()
            },
            command is Pause ==> final(self).paused_view(),
            command is Resume ==> !final(self).paused_view(),
            !(command is Pause || command is Resume) ==> final(self).paused_view() == old(self).paused_view(),
            command matches ControlCommand::SetMaxDanmaku(max) ==> final(self).limit_view() == max,
            !(command is SetMaxDanmaku) ==> final(self).limit_view() == old(self).limit_view(),
    {
        match command {
            ControlCommand::ClearAll => self.clear_danmaku(),
            ControlCommand::Pause => self.pause(),
            ControlCommand::Resume => self.resume(),
            ControlCommand::SetMaxDanmaku(max) => self.set_max_danmaku(max),
            ControlCommand::Quit => {
                return false;
            },
        }
        true
    }

    /// The track system, for reading the per-track loads.
    pub fn track_system(&self) -> (ts: &TrackSystem)
        ensures
            ts@ == self.loads_view(),
    {
        &self.track_system
    }

    /// Replaces the track system with a fresh one for a band that holds
    /// `rows` whole tracks. Danmaku already on screen keep their tracks.
    pub fn rebuild_tracks(&mut self, rows: usize)
        ensures
            final(self).items_view() == old(self).items_view(),
            final(self).loads_view().len() == track_count(rows),
            rows >= 1 ==> final(self).loads_view().len() == rows,
            rows == 0 ==> final(self).loads_view().len() == 1,
            forall|i: int|
                0 <= i < final(self).loads_view().len() ==> final(self).loads_view()[i] == 0,
            final(self).limit_view() == old(self).limit_view(),
            final(self).paused_view() == old(self).paused_view(),
            loads_within_occupancy(final(self).loads_view(), final(self).items_view()),
    {
        self.track_system = TrackSystem::new(rows);
    }

    /// Removes every danmaku and releases every track.
    pub fn clear_danmaku(&mut self)
        ensures
            final(self).items_view().len() == 0,
            final(self).loads_view().len() == old(self).loads_view().len(),
            forall|i: int|
                0 <= i < final(self).loads_view().len() ==> final(self).loads_view()[i] == 0,
            final(self).limit_view() == old(self).limit_view(),
            final(self).paused_view() == old(self).paused_view(),
            loads_within_occupancy(final(self).loads_view(), final(self).items_view()),
    {
        self.track_system.release_all();
        self.items.clear();
    }

    /// Sets the most danmaku on screen at once; 0 means no limit. Danmaku
    /// already on screen stay.
    pub fn set_max_danmaku(&mut self, max: usize)
        ensures
            final(self).limit_view() == max,
            final(self).items_view() == old(self).items_view(),
            final(self).loads_view() == old(self).loads_view(),
            final(self).paused_view() == old(self).paused_view(),
    {
        self.max_items = max;
    }

    /// Stops the animation: danmaku keep their positions.
    pub fn pause(&mut self)
        ensures
            final(self).paused_view(),
            final(self).items_view() == old(self).items_view(),
            final(self).loads_view() == old(self).loads_view(),
            final(self).limit_view() == old(self).limit_view(),
    {
        self.paused = true;
    }

    /// Restarts the animation.
    pub fn resume(&mut self)
        ensures
            !final(self).paused_view(),
            final(self).items_view() == old(self).items_view(),
            final(self).loads_view() == old(self).loads_view(),
            final(self).limit_view() == old(self).limit_view(),
    {
        self.paused = false;
    }
}

/// After a frame every remaining danmaku is alive, and no danmaku appears.
pub proof fn lemma_survivors_alive<C>(items: Seq<DanmakuItem<C>>, moved: Seq<Option<C>>)
    ensures
        survivors(items, moved).len() <= items.len(),
        forall|i: int|
            0 <= i < survivors(items, moved).len() ==> #[trigger] survivors(items, moved)[i].alive,
    decreases items.len(),
{
    if items.len() > 0 {
        lemma_survivors_alive(items.drop_last(), moved.drop_last());
    }
}

/// The danmaku that depart from track `t` in a frame are counted one each:
/// `departures` is the number of positions `i` whose danmaku is live, has no
/// new position and sits on track `t`.
pub proof fn lemma_departures_count<C>(items: Seq<DanmakuItem<C>>, moved: Seq<Option<C>>, t: int)
    requires
        items.len() == moved.len(),
    ensures
        Set::new(
            |i: int| 0 <= i < items.len() && items[i].alive && moved[i] is None && items[i].track == t,
        ).finite(),
        departures(items, moved, t) == Set::new(
            |i: int| 0 <= i < items.len() && items[i].alive && moved[i] is None && items[i].track == t,
        ).len(),
    decreases items.len(),
{
    let gone = Set::new(
        |i: int| 0 <= i < items.len() && items[i].alive && moved[i] is None && items[i].track == t,
    );
    if items.len() == 0 {
        assert(gone =~= Set::<int>::empty());
    } else {
        let n = items.len() - 1;
        let (pi, pm) = (items.drop_last(), moved.drop_last());
        lemma_departures_count(pi, pm, t);
        let before = Set::new(
            |i: int| 0 <= i < pi.len() && pi[i].alive && pm[i] is None && pi[i].track == t,
        );
        if items[n].alive && moved[n] is None && items[n].track == t {
            assert(gone =~= before.insert(n));
            assert(!before.contains(n));
        } else {
            assert(gone =~= before);
        }
    }
}

/// After a frame, the remaining danmaku are exactly one per live danmaku
/// that got a new position: their number is the number of such positions,
/// each is alive, and each carries the new content and the track of one
/// such danmaku.
pub proof fn lemma_survivors_count_and_origin<C>(items: Seq<DanmakuItem<C>>, moved: Seq<Option<C>>)
    requires
        items.len() == moved.len(),
    ensures
        Set::new(|i: int| 0 <= i < items.len() && items[i].alive && moved[i] is Some).finite(),
        survivors(items, moved).len() == Set::new(
            |i: int| 0 <= i < items.len() && items[i].alive && moved[i] is Some,
        ).len(),
        forall|k: int|
            0 <= k < survivors(items, moved).len() ==> #[trigger] survivors(items, moved)[k].alive,
        forall|k: int|
            0 <= k < survivors(items, moved).len() ==> exists|i: int|
                #![trigger items[i]]
                0 <= i < items.len() && items[i].alive && moved[i] == Some(
                    #[trigger] survivors(items, moved)[k].content,
                ) && items[i].track == survivors(items, moved)[k].track,
    decreases items.len(),
{
    let kept = Set::new(|i: int| 0 <= i < items.len() && items[i].alive && moved[i] is Some);
    if items.len() == 0 {
        assert(kept =~= Set::<int>::empty());
    } else {
        let n = items.len() - 1;
        let (pi, pm) = (items.drop_last(), moved.drop_last());
        lemma_survivors_count_and_origin(pi, pm);
        let before = Set::new(|i: int| 0 <= i < pi.len() && pi[i].alive && pm[i] is Some);
        let rest = survivors(pi, pm);
        let surv = survivors(items, moved);
        if items[n].alive && moved[n] is Some {
            assert(kept =~= before.insert(n));
            assert(!before.contains(n));
            assert(surv == rest.push(
                DanmakuItem { content: moved[n]->0, track: items[n].track, alive: true },
            ));
        } else {
            assert(kept =~= before);
            assert(surv == rest);
        }
        assert forall|k: int| 0 <= k < surv.len() implies exists|i: int|
            #![trigger items[i]]
            0 <= i < items.len() && items[i].alive && moved[i] == Some(#[trigger] surv[k].content)
                && items[i].track == surv[k].track by {
            if k < rest.len() {
                assert(surv[k] == rest[k]);
                let c = rest[k].content;
                let i = choose|i: int|
                    #![trigger pi[i]]
                    0 <= i < pi.len() && pi[i].alive && pm[i] == Some(c) && pi[i].track
                        == rest[k].track;
                assert(items[i] == pi[i] && moved[i] == pm[i]);
            } else {
                assert(items[n].alive);
                assert(items[n] == items[n]);
            }
        }
    }
}

/// What a frame leaves, stated position by position: one remaining danmaku
/// per live danmaku that got a new position (alive, with that content and
/// its track), and on every track the load less the danmaku that departed
/// from it, never below zero.
pub proof fn lemma_frame_outcome<C>(
    loads: Seq<u32>,
    items: Seq<DanmakuItem<C>>,
    moved: Seq<Option<C>>,
)
    requires
        items.len() == moved.len(),
    ensures
        loads_after_departures(loads, items, moved).len() == loads.len(),
        survivors(items, moved).len() == Set::new(
            |i: int| 0 <= i < items.len() && items[i].alive && moved[i] is Some,
        ).len(),
        forall|k: int|
            0 <= k < survivors(items, moved).len() ==> #[trigger] survivors(items, moved)[k].alive,
        forall|k: int|
            0 <= k < survivors(items, moved).len() ==> exists|i: int|
                #![trigger items[i]]
                0 <= i < items.len() && items[i].alive && moved[i] == Some(
                    #[trigger] survivors(items, moved)[k].content,
                ) && items[i].track == survivors(items, moved)[k].track,
        forall|t: int|
            0 <= t < loads.len() ==> {
                let gone = Set::new(
                    |i: int|
                        0 <= i < items.len() && items[i].alive && moved[i] is None && items[i].track
                            == t,
                ).len();
                #[trigger] loads_after_departures(loads, items, moved)[t] as int == if loads[t]
                    >= gone {
                    loads[t] - gone
                } else {
                    0
                }
            },
{
    lemma_survivors_count_and_origin(items, moved);
    assert forall|t: int| 0 <= t < loads.len() implies {
        let gone = Set::new(
            |i: int| 0 <= i < items.len() && items[i].alive && moved[i] is None && items[i].track == t,
        ).len();
        #[trigger] loads_after_departures(loads, items, moved)[t] as int == if loads[t] >= gone {
            loads[t] - gone
        } else {
            0
        }
    } by {
        lemma_departures_count(items, moved, t);
    }
}

/// Whether a manager takes another danmaku: always when no limit is set,
/// and with a limit exactly while fewer danmaku than the limit are on screen.
pub proof fn lemma_admits_exactly(limit: usize, len: nat)
    ensures
        limit == 0 ==> admits(limit, len),
        limit > 0 ==> (admits(limit, len) <==> len < limit),
{
}

/// A frame takes one load off a track for each danmaku that departs from it
/// (never going below zero); tracks keep the load of danmaku that stay.
pub proof fn lemma_frame_release_per_track<C>(
    loads: Seq<u32>,
    items: Seq<DanmakuItem<C>>,
    moved: Seq<Option<C>>,
    t: int,
)
    requires
        items.len() == moved.len(),
        0 <= t < loads.len(),
    ensures
        loads_after_departures(loads, items, moved).len() == loads.len(),
        ({
            let gone = Set::new(
                |i: int|
                    0 <= i < items.len() && items[i].alive && moved[i] is None && items[i].track
                        == t,
            ).len();
            loads_after_departures(loads, items, moved)[t] as int == if loads[t] >= gone {
                loads[t] - gone
            } else {
                0
            }
        }),
{
    lemma_departures_count(items, moved, t);
}

/// A frame in which no danmaku leaves the screen releases no track and keeps
/// every live danmaku.
pub proof fn lemma_no_departures<C>(items: Seq<DanmakuItem<C>>, moved: Seq<Option<C>>, loads: Seq<
    u32,
>)
    requires
        items.len() == moved.len(),
        forall|i: int| 0 <= i < moved.len() ==> #[trigger] moved[i] is Some,
        forall|i: int| 0 <= i < items.len() ==> #[trigger] items[i].alive,
    ensures
        loads_after_departures(loads, items, moved) == loads,
        survivors(items, moved).len() == items.len(),
    decreases items.len(),
{
    if items.len() > 0 {
        let (pi, pm) = (items.drop_last(), moved.drop_last());
        assert(forall|i: int| 0 <= i < pm.len() ==> #[trigger] pm[i] == moved[i]);
        assert(forall|i: int| 0 <= i < pi.len() ==> #[trigger] pi[i] == items[i]);
        lemma_no_departures(pi, pm, loads);
        assert(moved[moved.len() - 1] is Some);
        assert(items[items.len() - 1].alive);
    }
    assert forall|t: int| 0 <= t < loads.len() implies #[trigger] departures(items, moved, t) == 0 by {
        lemma_departures_zero(items, moved, t);
    }
    assert(loads_after_departures(loads, items, moved) =~= loads);
}

proof fn lemma_departures_zero<C>(items: Seq<DanmakuItem<C>>, moved: Seq<Option<C>>, t: int)
    requires
        items.len() == moved.len(),
        forall|i: int| 0 <= i < moved.len() ==> #[trigger] moved[i] is Some,
    ensures
        departures(items, moved, t) == 0,
    decreases items.len(),
{
    if items.len() > 0 {
        let (pi, pm) = (items.drop_last(), moved.drop_last());
        assert(forall|i: int| 0 <= i < pm.len() ==> #[trigger] pm[i] == moved[i]);
        lemma_departures_zero(pi, pm, t);
        assert(moved[moved.len() - 1] is Some);
    }
}

/// Every live danmaku on a track either stays on it or departs from it.
pub proof fn lemma_occupancy_split<C>(items: Seq<DanmakuItem<C>>, moved: Seq<Option<C>>, t: int)
    requires
        items.len() == moved.len(),
    ensures
        occupancy(items, t) == occupancy(survivors(items, moved), t) + departures(items, moved, t),
    decreases items.len(),
{
    if items.len() > 0 {
        let rest = survivors(items.drop_last(), moved.drop_last());
        lemma_occupancy_split(items.drop_last(), moved.drop_last(), t);
        let last = items.last();
        if last.alive {
            if let Some(c) = moved.last() {
                let x = DanmakuItem { content: c, track: last.track, alive: true };
                assert(rest.push(x).drop_last() =~= rest);
            }
        }
    }
}

/// A track never holds more danmaku than there are.
pub proof fn lemma_occupancy_bounded<C>(items: Seq<DanmakuItem<C>>, t: int)
    ensures
        occupancy(items, t) <= items.len(),
    decreases items.len(),
{
    if items.len() > 0 {
        lemma_occupancy_bounded(items.drop_last(), t);
    }
}

/// Tracks with no load are within any occupancy: a new manager, a cleared
/// one and one whose tracks were rebuilt all keep loads within occupancy.
pub proof fn lemma_zero_loads_within_occupancy<C>(loads: Seq<u32>, items: Seq<DanmakuItem<C>>)
    requires
        forall|i: int| 0 <= i < loads.len() ==> loads[i] == 0,
    ensures
        loads_within_occupancy(loads, items),
{
}

/// Adding a danmaku on the track that the track system chose keeps every
/// track's load within the danmaku on it.
pub proof fn lemma_add_keeps_occupancy<C>(
    loads: Seq<u32>,
    items: Seq<DanmakuItem<C>>,
    content: C,
    t: usize,
)
    requires
        loads_within_occupancy(loads, items),
        t < loads.len(),
        loads[t as int] < u32::MAX,
    ensures
        loads_within_occupancy(
            loads_after_allocate(loads, t as int),
            items.push(DanmakuItem { content, track: t, alive: true }),
        ),
{
    let x = DanmakuItem { content, track: t, alive: true };
    assert(items.push(x).drop_last() =~= items);
    let after = loads_after_allocate(loads, t as int);
    assert forall|u: int| 0 <= u < after.len() implies #[trigger] after[u] <= occupancy(
        items.push(x),
        u,
    ) by {
        assert(loads[u] <= occupancy(items, u));
        assert(occupancy(items.push(x), u) == occupancy(items, u) + if u == t {
            1nat
        } else {
            0nat
        });
    }
}

/// A frame keeps every track's load within the danmaku left on it: a
/// departing danmaku always gives its track back.
pub proof fn lemma_update_keeps_occupancy<C>(
    loads: Seq<u32>,
    items: Seq<DanmakuItem<C>>,
    moved: Seq<Option<C>>,
)
    requires
        loads_within_occupancy(loads, items),
        items.len() == moved.len(),
    ensures
        loads_within_occupancy(
            loads_after_departures(loads, items, moved),
            survivors(items, moved),
        ),
{
    let after = loads_after_departures(loads, items, moved);
    assert forall|t: int| 0 <= t < after.len() implies #[trigger] after[t] <= occupancy(
        survivors(items, moved),
        t,
    ) by {
        assert(loads[t] <= occupancy(items, t));
        lemma_occupancy_split(items, moved, t);
    }
}

/// While loads stay within occupancy, a manager with fewer than `u32::MAX`
/// danmaku can always place one more without a load overflowing.
pub proof fn lemma_headroom_below_u32_max<C>(loads: Seq<u32>, items: Seq<DanmakuItem<C>>)
    requires
        loads_within_occupancy(loads, items),
        loads.len() >= 1,
        items.len() < u32::MAX,
    ensures
        has_headroom(loads),
{
    lemma_occupancy_bounded(items, 0);
    assert(loads[0] <= occupancy(items, 0));
}

/// One more danmaku of the frame: the specs over the first `i + 1` danmaku
/// extend those over the first `i`.
proof fn lemma_frame_step<C>(items: Seq<DanmakuItem<C>>, moved: Seq<Option<C>>, i: int)
    requires
        0 <= i < items.len(),
        items.len() == moved.len(),
    ensures
        survivors(items.take(i + 1), moved.take(i + 1)) == if items[i].alive {
            match moved[i] {
                Some(c) => survivors(items.take(i), moved.take(i)).push(
                    DanmakuItem { content: c, track: items[i].track, alive: true },
                ),
                None => survivors(items.take(i), moved.take(i)),
            }
        } else {
            survivors(items.take(i), moved.take(i))
        },
        forall|t: int|
            #[trigger] departures(items.take(i + 1), moved.take(i + 1), t) == departures(
                items.take(i),
                moved.take(i),
                t,
            ) + if items[i].alive && moved[i] is None && items[i].track == t {
                1nat
            } else {
                0nat
            },
{
    assert(items.take(i + 1).drop_last() =~= items.take(i));
    assert(moved.take(i + 1).drop_last() =~= moved.take(i));
}

} // verus!
