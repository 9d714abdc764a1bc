//! From a track's events to the notes it plays.
//!
//! The notes still sounding are kept per pitch, as a table of 256 stacks of
//! start ticks indexed by the pitch, latest start on top. At the end of the
//! track the table is walked by pitch, so the notes never closed come out in
//! ascending pitch, each pitch's in the order they were struck.
use vstd::prelude::*;
use vstd::multiset::Multiset;
use crate::track::{Event, EventType};

verus! {

/// A note: its pitch, the tick it starts at, and how many ticks it lasts.
#[derive(Debug, Clone, Copy, PartialEq, Eq, Structural)]
pub struct NoteEvent {
    pub pitch: u8,
    pub start: u32,
    pub duration: u32,
}

impl NoteEvent {
    /// The tick at which the note ends.
    pub open spec fn end(self) -> int {
        self.start + self.duration
    }
}

/// The ticks from the start of the track to its last event.
pub open spec fn elapsed(evs: Seq<Event>) -> int
    decreases evs.len(),
{
    if evs.len() == 0 {
        0
    } else {
        elapsed(evs.drop_last()) + evs.last().deltatime
    }
}

/// The number of note-on events.
pub open spec fn count_on(evs: Seq<Event>) -> int
    decreases evs.len(),
{
    if evs.len() == 0 {
        0
    } else {
        count_on(evs.drop_last()) + if evs.last().tp is MidiOn { 1int } else { 0int }
    }
}

/// Where the reading of a track's events stands: the current tick, the
/// shortest note closed so far, the notes closed so far, and for each
/// pitch the start ticks of its notes still sounding, latest last.
pub struct NoteState {
    pub time: int,
    pub lowest: u32,
    pub notes: Seq<NoteEvent>,
    pub pending: Seq<Seq<u32>>,
}

/// The state before any event.
pub open spec fn initial_state() -> NoteState {
    NoteState {
        time: 0,
        lowest: u32::MAX,
        notes: Seq::empty(),
        pending: Seq::new(256, |i: int| Seq::<u32>::empty()),
    }
}

/// One event: the clock advances by its delta time; a note-on opens a note
/// of its pitch; a note-off closes the latest open note of its pitch (and is
/// ignored if there is none); every other event changes nothing else.
pub open spec fn note_step(st: NoteState, ev: Event) -> NoteState {
    let time = st.time + ev.deltatime;
    match ev.tp {
        EventType::MidiOn(n) => NoteState {
            time,
            pending: st.pending.update(n as int, st.pending[n as int].push(time as u32)),
            ..st
        },
        EventType::MidiOff(n) => {
            let open = st.pending[n as int];
            if open.len() == 0 {
                NoteState { time, ..st }
            } else {
                let start = open.last();
                let duration = (time - start) as u32;
                NoteState {
                    time,
                    lowest: if duration < st.lowest { duration } else { st.lowest },
                    notes: st.notes.push(NoteEvent { pitch: n, start, duration }),
                    pending: st.pending.update(n as int, open.drop_last()),
                }
            }
        },
        _ => NoteState { time, ..st },
    }
}

/// The state after all of `evs`.
pub open spec fn run_events(evs: Seq<Event>) -> NoteState
    decreases evs.len(),
{
    if evs.len() == 0 {
        initial_state()
    } else {
        note_step(run_events(evs.drop_last()), evs.last())
    }
}

/// The notes still open at the end, closed at tick `time`: pitch by pitch
/// from `k` up, each pitch's in the order they were struck.
pub open spec fn leftover_notes(pending: Seq<Seq<u32>>, time: int, k: int) -> Seq<NoteEvent>
    decreases 256 - k,
{
    if k < 0 || k >= 256 {
        Seq::empty()
    } else {
        pending[k].map_values(|t: u32| NoteEvent { pitch: k as u8, start: t, duration: (time - t) as u32 })
            + leftover_notes(pending, time, k + 1)
    }
}

/// The notes of a track: those closed by a note-off, in the order they were
/// closed, then those never closed, ending at the last tick.
pub open spec fn track_notes(evs: Seq<Event>) -> Seq<NoteEvent> {
    let st = run_events(evs);
    st.notes + leftover_notes(st.pending, st.time, 0)
}

/// Part of the events never takes longer than all of them.
pub proof fn lemma_elapsed_prefix(evs: Seq<Event>, i: int)
    requires
        0 <= i <= evs.len(),
    ensures
        elapsed(evs.take(i)) <= elapsed(evs),
        elapsed(evs.take(i)) >= 0,
    decreases evs.len() - i,
{
    if i < evs.len() {
        lemma_elapsed_prefix(evs, i + 1);
        assert(evs.take(i + 1).drop_last() =~= evs.take(i));
    } else {
        assert(evs.take(i) =~= evs);
    }
    lemma_elapsed_nonneg(evs.take(i));
}

/// Delta times never add up below zero.
pub proof fn lemma_elapsed_nonneg(evs: Seq<Event>)
    ensures
        elapsed(evs) >= 0,
    decreases evs.len(),
{
    if evs.len() > 0 {
        lemma_elapsed_nonneg(evs.drop_last());
    }
}

/// The clock of the state is the sum of the delta times; there is one stack per pitch.
pub proof fn lemma_run_time(evs: Seq<Event>)
    ensures
        run_events(evs).time == elapsed(evs),
        run_events(evs).pending.len() == 256,
    decreases evs.len(),
{
    if evs.len() > 0 {
        lemma_run_time(evs.drop_last());
    }
}

/// What holds of the state at every point: one stack per pitch, every open
/// note started no later than now, every closed note ended no later than now.
pub open spec fn state_ok(st: NoteState) -> bool {
    &&& st.pending.len() == 256
    &&& st.time <= u32::MAX
    &&& forall|j: int, m: int| 0 <= j < 256 && 0 <= m < st.pending[j].len()
        ==> #[trigger] st.pending[j][m] <= st.time
    &&& forall|i: int| 0 <= i < st.notes.len() ==> (#[trigger] st.notes[i]).end() <= st.time
}

/// What holds of the state after any events whose ticks fit in a `u32`.
pub proof fn lemma_run_state_ok(evs: Seq<Event>)
    requires
        elapsed(evs) <= u32::MAX,
    ensures
        state_ok(run_events(evs)),
        run_events(evs).time == elapsed(evs),
    decreases evs.len(),
{
    lemma_elapsed_nonneg(evs);
    if evs.len() > 0 {
        let prev_evs = evs.drop_last();
        lemma_elapsed_nonneg(prev_evs);
        lemma_run_state_ok(prev_evs);
        let st = run_events(prev_evs);
        let ev = evs.last();
        let next = run_events(evs);
        assert(next == note_step(st, ev));
        match ev.tp {
            EventType::MidiOn(n) => {
                assert forall|j: int, m: int| 0 <= j < 256 && 0 <= m < next.pending[j].len()
                    implies #[trigger] next.pending[j][m] <= next.time by {
                    if j == n as int && m == st.pending[j].len() {
                    } else {
                        assert(next.pending[j][m] == st.pending[j][m]);
                    }
                }
            },
            EventType::MidiOff(n) => {
                if st.pending[n as int].len() > 0 {
                    assert forall|j: int, m: int| 0 <= j < 256 && 0 <= m < next.pending[j].len()
                        implies #[trigger] next.pending[j][m] <= next.time by {
                        assert(next.pending[j][m] == st.pending[j][m]);
                    }
                    assert forall|i: int| 0 <= i < next.notes.len() implies (#[trigger] next.notes[i]).end() <= next.time by {
                        if i < st.notes.len() {
                            assert(next.notes[i] == st.notes[i]);
                        } else {
                            let open = st.pending[n as int];
                            assert(open.last() == open[open.len() - 1]);
                        }
                    }
                }
            },
            _ => {},
        }
    }
}

/// The number of open notes of the pitches from `k` up.
pub open spec fn open_count(pending: Seq<Seq<u32>>, k: int) -> int
    decreases 256 - k,
{
    if k < 0 || k >= 256 {
        0
    } else {
        pending[k].len() + open_count(pending, k + 1)
    }
}

proof fn lemma_open_count_update(pending: Seq<Seq<u32>>, n: int, x: Seq<u32>, k: int)
    requires
        0 <= n < 256,
        pending.len() == 256,
        0 <= k,
    ensures
        open_count(pending.update(n, x), k) == open_count(pending, k)
            + if k <= n { x.len() - pending[n].len() } else { 0 },
    decreases 256 - k,
{
    if k < 256 {
        lemma_open_count_update(pending, n, x, k + 1);
    }
}

proof fn lemma_leftover_len(pending: Seq<Seq<u32>>, time: int, k: int)
    requires
        0 <= k,
    ensures
        leftover_notes(pending, time, k).len() == open_count(pending, k),
    decreases 256 - k,
{
    if k < 256 {
        lemma_leftover_len(pending, time, k + 1);
    }
}

proof fn lemma_open_count_initial(k: int)
    requires
        0 <= k,
    ensures
        open_count(initial_state().pending, k) == 0,
    decreases 256 - k,
{
    if k < 256 {
        lemma_open_count_initial(k + 1);
    }
}

proof fn lemma_run_counts(evs: Seq<Event>)
    ensures
        run_events(evs).notes.len() + open_count(run_events(evs).pending, 0) == count_on(evs),
        run_events(evs).pending.len() == 256,
    decreases evs.len(),
{
    if evs.len() == 0 {
        lemma_open_count_initial(0);
    } else {
        lemma_run_counts(evs.drop_last());
        let st = run_events(evs.drop_last());
        match evs.last().tp {
            EventType::MidiOn(n) => {
                lemma_open_count_update(st.pending, n as int, st.pending[n as int].push(0), 0);
                let t = (st.time + evs.last().deltatime) as u32;
                lemma_open_count_update(st.pending, n as int, st.pending[n as int].push(t), 0);
            },
            EventType::MidiOff(n) => {
                if st.pending[n as int].len() > 0 {
                    lemma_open_count_update(st.pending, n as int, st.pending[n as int].drop_last(), 0);
                }
            },
            _ => {},
        }
    }
}

/// Every note-on gives exactly one note: the notes of a track are as many as
/// its note-on events.
pub proof fn law_one_note_per_note_on(evs: Seq<Event>)
    ensures
        track_notes(evs).len() == count_on(evs),
{
    let st = run_events(evs);
    lemma_run_counts(evs);
    lemma_leftover_len(st.pending, st.time, 0);
}

proof fn lemma_leftover_ends(pending: Seq<Seq<u32>>, time: int, k: int)
    requires
        pending.len() == 256,
        0 <= k,
        time <= u32::MAX,
        forall|j: int, m: int| 0 <= j < 256 && 0 <= m < pending[j].len() ==> #[trigger] pending[j][m] <= time,
    ensures
        forall|i: int| 0 <= i < leftover_notes(pending, time, k).len()
            ==> (#[trigger] leftover_notes(pending, time, k)[i]).end() == time,
    decreases 256 - k,
{
    if k < 256 {
        lemma_leftover_ends(pending, time, k + 1);
        let here = pending[k].map_values(|t: u32| NoteEvent { pitch: k as u8, start: t, duration: (time - t) as u32 });
        let all = leftover_notes(pending, time, k);
        assert(all == here + leftover_notes(pending, time, k + 1));
        assert forall|i: int| 0 <= i < all.len() implies (#[trigger] all[i]).end() == time by {
            if i < here.len() {
                assert(pending[k][i] <= time);
            } else {
                assert(all[i] == leftover_notes(pending, time, k + 1)[i - here.len()]);
            }
        }
    }
}

/// Every note ends by the last tick of the track: notes closed by a note-off
/// end when it comes, and notes never closed end exactly at the last tick.
pub proof fn law_notes_end_by_last_tick(evs: Seq<Event>)
    requires
        elapsed(evs) <= u32::MAX,
    ensures
        forall|i: int| 0 <= i < track_notes(evs).len() ==> (#[trigger] track_notes(evs)[i]).end() <= elapsed(evs),
        forall|i: int| run_events(evs).notes.len() <= i < track_notes(evs).len()
            ==> (#[trigger] track_notes(evs)[i]).end() == elapsed(evs),
{
    let st = run_events(evs);
    lemma_run_state_ok(evs);
    lemma_leftover_ends(st.pending, st.time, 0);
    let all = track_notes(evs);
    assert forall|i: int| 0 <= i < all.len() implies (#[trigger] all[i]).end() <= elapsed(evs) by {
        if i < st.notes.len() {
            assert(all[i] == st.notes[i]);
        } else {
            assert(all[i] == leftover_notes(st.pending, st.time, 0)[i - st.notes.len()]);
        }
    }
    assert forall|i: int| st.notes.len() <= i < all.len() implies (#[trigger] all[i]).end() == elapsed(evs) by {
        assert(all[i] == leftover_notes(st.pending, st.time, 0)[i - st.notes.len()]);
    }
}

/// The shortest duration reported is that of the shortest note closed by a
/// note-off, or `u32::MAX` when none is.
pub proof fn law_lowest_is_shortest_closed(evs: Seq<Event>)
    ensures
        forall|i: int| 0 <= i < run_events(evs).notes.len()
            ==> run_events(evs).lowest <= (#[trigger] run_events(evs).notes[i]).duration,
        run_events(evs).lowest == u32::MAX || exists|i: int| 0 <= i < run_events(evs).notes.len()
            && (#[trigger] run_events(evs).notes[i]).duration == run_events(evs).lowest,
    decreases evs.len(),
{
    if evs.len() > 0 {
        law_lowest_is_shortest_closed(evs.drop_last());
        let st = run_events(evs.drop_last());
        let next = run_events(evs);
        if next.notes.len() > st.notes.len() {
            assert forall|i: int| 0 <= i < next.notes.len() implies next.lowest <= (#[trigger] next.notes[i]).duration by {
                if i < st.notes.len() {
                    assert(next.notes[i] == st.notes[i]);
                }
            }
            if next.lowest != st.lowest {
                assert(next.notes[next.notes.len() - 1].duration == next.lowest);
            } else if st.lowest != u32::MAX {
                let w = choose|i: int| 0 <= i < st.notes.len() && (#[trigger] st.notes[i]).duration == st.lowest;
                assert(next.notes[w] == st.notes[w]);
            }
        }
    }
}

/// The tick of the `j`-th event.
pub open spec fn tick_of(evs: Seq<Event>, j: int) -> int {
    elapsed(evs.take(j + 1))
}

/// A note closed by a note-off ends at the tick of a note-off of its pitch.
pub proof fn law_closed_notes_end_at_note_off(evs: Seq<Event>)
    requires
        elapsed(evs) <= u32::MAX,
    ensures
        forall|i: int| 0 <= i < run_events(evs).notes.len() ==> exists|j: int| 0 <= j < evs.len()
            && (#[trigger] evs[j]).tp == EventType::MidiOff((#[trigger] run_events(evs).notes[i]).pitch)
            && run_events(evs).notes[i].end() == tick_of(evs, j),
    decreases evs.len(),
{
    if evs.len() > 0 {
        let d = evs.drop_last();
        lemma_elapsed_nonneg(d);
        lemma_elapsed_prefix(evs, evs.len() - 1);
        assert(evs.take(evs.len() - 1) =~= d);
        law_closed_notes_end_at_note_off(d);
        lemma_run_state_ok(d);
        lemma_run_state_ok(evs);
        let prev = run_events(d);
        let next = run_events(evs);
        assert forall|i: int| 0 <= i < next.notes.len() implies exists|j: int| 0 <= j < evs.len()
            && (#[trigger] evs[j]).tp == EventType::MidiOff((#[trigger] next.notes[i]).pitch)
            && next.notes[i].end() == tick_of(evs, j) by {
            if i < prev.notes.len() {
                assert(next.notes[i] == prev.notes[i]);
                let j = choose|j: int| 0 <= j < d.len() && (#[trigger] d[j]).tp == EventType::MidiOff((#[trigger] prev.notes[i]).pitch)
                    && prev.notes[i].end() == tick_of(d, j);
                assert(evs[j] == d[j]);
                assert(evs.take(j + 1) =~= d.take(j + 1));
            } else {
                let j = evs.len() - 1;
                assert(evs.take(j + 1) =~= evs);
                if let EventType::MidiOff(n) = evs.last().tp {
                    let open = prev.pending[n as int];
                    assert(open.len() > 0);
                    assert(open.last() == open[open.len() - 1]);
                    assert(open[open.len() - 1] <= prev.time);
                }
                assert(evs[j] == evs.last());
            }
        }
    }
}

/// `js` gives, for each note closed by a note-off, the index of that
/// note-off: the indices rise in the order of the notes, each event is a
/// note-off of the note's pitch, and the note ends at its tick.
pub open spec fn closed_at(evs: Seq<Event>, notes: Seq<NoteEvent>, js: Seq<int>) -> bool {
    &&& js.len() == notes.len()
    &&& forall|i: int| 0 <= i < js.len() ==> 0 <= #[trigger] js[i] < evs.len()
        && evs[js[i]].tp == EventType::MidiOff(notes[i].pitch)
        && notes[i].end() == tick_of(evs, js[i])
    &&& forall|i: int, k: int| 0 <= i < k < js.len() ==> #[trigger] js[i] < #[trigger] js[k]
}

proof fn lemma_closing_indices(evs: Seq<Event>) -> (js: Seq<int>)
    requires
        elapsed(evs) <= u32::MAX,
    ensures
        closed_at(evs, run_events(evs).notes, js),
    decreases evs.len(),
{
    if evs.len() == 0 {
        Seq::empty()
    } else {
        let d = evs.drop_last();
        lemma_elapsed_nonneg(d);
        lemma_elapsed_prefix(evs, evs.len() - 1);
        assert(evs.take(evs.len() - 1) =~= d);
        let pjs = lemma_closing_indices(d);
        lemma_run_state_ok(d);
        lemma_run_state_ok(evs);
        let prev = run_events(d);
        let next = run_events(evs);
        assert forall|i: int| 0 <= i < pjs.len() implies evs[#[trigger] pjs[i]] == d[pjs[i]]
            && tick_of(evs, pjs[i]) == tick_of(d, pjs[i]) by {
            assert(evs.take(pjs[i] + 1) =~= d.take(pjs[i] + 1));
        }
        if next.notes.len() == prev.notes.len() {
            assert(next.notes == prev.notes);
            pjs
        } else {
            let j = evs.len() - 1;
            let js = pjs.push(j);
            assert(evs.take(j + 1) =~= evs);
            if let EventType::MidiOff(n) = evs.last().tp {
                let open = prev.pending[n as int];
                assert(open.last() == open[open.len() - 1]);
                assert(open[open.len() - 1] <= prev.time);
            }
            assert forall|i: int| 0 <= i < js.len() implies 0 <= #[trigger] js[i] < evs.len()
                && evs[js[i]].tp == EventType::MidiOff(next.notes[i].pitch)
                && next.notes[i].end() == tick_of(evs, js[i]) by {
                if i < pjs.len() {
                    assert(js[i] == pjs[i]);
                    assert(next.notes[i] == prev.notes[i]);
                }
            }
            js
        }
    }
}

/// Where each note ends. The notes closed by a note-off come first, in the
/// order of their note-offs, each ending at the tick of a note-off of its
/// pitch; the notes never closed come after them and end at the last tick.
pub proof fn law_where_notes_end(evs: Seq<Event>)
    requires
        elapsed(evs) <= u32::MAX,
    ensures
        exists|js: Seq<int>| #[trigger] closed_at(evs, track_notes(evs).take(run_events(evs).notes.len() as int), js),
        forall|i: int| run_events(evs).notes.len() <= i < track_notes(evs).len()
            ==> (#[trigger] track_notes(evs)[i]).end() == elapsed(evs),
{
    let js = lemma_closing_indices(evs);
    let st = run_events(evs);
    assert(track_notes(evs).take(st.notes.len() as int) =~= st.notes);
    assert(closed_at(evs, track_notes(evs).take(st.notes.len() as int), js));
    law_notes_end_by_last_tick(evs);
}

/// The pitch and start tick of each note, each as often as it occurs.
pub open spec fn note_keys(ns: Seq<NoteEvent>) -> Multiset<(u8, int)> {
    ns.map_values(|n: NoteEvent| (n.pitch, n.start as int)).to_multiset()
}

/// The pitch and tick of each note-on event.
pub open spec fn note_on_ticks(evs: Seq<Event>) -> Multiset<(u8, int)>
    decreases evs.len(),
{
    if evs.len() == 0 {
        Multiset::empty()
    } else {
        let rest = note_on_ticks(evs.drop_last());
        match evs.last().tp {
            EventType::MidiOn(p) => rest.insert((p, elapsed(evs))),
            _ => rest,
        }
    }
}

/// The pitch and start tick of the open notes of pitch `k`.
pub open spec fn stack_keys(k: int, v: Seq<u32>) -> Multiset<(u8, int)> {
    v.map_values(|t: u32| (k as u8, t as int)).to_multiset()
}

/// The pitch and start tick of the open notes of the pitches from `k` up.
pub open spec fn pending_keys(pending: Seq<Seq<u32>>, k: int) -> Multiset<(u8, int)>
    decreases 256 - k,
{
    if k < 0 || k >= 256 {
        Multiset::empty()
    } else {
        stack_keys(k, pending[k]).add(pending_keys(pending, k + 1))
    }
}

proof fn lemma_pending_keys_update(pending: Seq<Seq<u32>>, n: int, x: Seq<u32>, k: int)
    requires
        0 <= n < 256,
        pending.len() == 256,
        0 <= k <= n,
    ensures
        pending_keys(pending.update(n, x), k).add(stack_keys(n, pending[n]))
            == pending_keys(pending, k).add(stack_keys(n, x)),
    decreases 256 - k,
{
    broadcast use vstd::multiset::group_multiset_axioms;
    let u = pending.update(n, x);
    assert(pending_keys(u, k) == stack_keys(k, u[k]).add(pending_keys(u, k + 1)));
    assert(pending_keys(pending, k) == stack_keys(k, pending[k]).add(pending_keys(pending, k + 1)));
    if k < n {
        lemma_pending_keys_update(pending, n, x, k + 1);
        assert(u[k] == pending[k]);
    } else {
        assert(pending_keys(u, k + 1) == pending_keys(pending, k + 1)) by {
            lemma_pending_keys_same_above(pending, u, k + 1);
        }
        assert(u[k] == x);
    }
    let lhs = pending_keys(u, k).add(stack_keys(n, pending[n]));
    let rhs = pending_keys(pending, k).add(stack_keys(n, x));
    assert forall|v: (u8, int)| #[trigger] lhs.count(v) == rhs.count(v) by {
        if k < n {
            assert(pending_keys(u, k + 1).add(stack_keys(n, pending[n])).count(v)
                == pending_keys(pending, k + 1).add(stack_keys(n, x)).count(v));
        }
    }
    assert(lhs =~= rhs);
}

proof fn lemma_pending_keys_same_above(a: Seq<Seq<u32>>, b: Seq<Seq<u32>>, k: int)
    requires
        forall|j: int| k <= j < 256 ==> a[j] == b[j],
    ensures
        pending_keys(a, k) == pending_keys(b, k),
    decreases 256 - k,
{
    if 0 <= k < 256 {
        lemma_pending_keys_same_above(a, b, k + 1);
    }
}

proof fn lemma_pending_keys_initial(k: int)
    requires
        0 <= k,
    ensures
        pending_keys(initial_state().pending, k) == Multiset::<(u8, int)>::empty(),
    decreases 256 - k,
{
    broadcast use vstd::multiset::group_multiset_axioms;
    broadcast use vstd::seq_lib::group_to_multiset_ensures;
    if k < 256 {
        lemma_pending_keys_initial(k + 1);
        assert(initial_state().pending[k].map_values(|t: u32| (k as u8, t as int)) =~= Seq::<(u8, int)>::empty());
        assert(pending_keys(initial_state().pending, k) =~= Multiset::<(u8, int)>::empty());
    }
}

proof fn lemma_run_keys(evs: Seq<Event>)
    requires
        elapsed(evs) <= u32::MAX,
    ensures
        note_keys(run_events(evs).notes).add(pending_keys(run_events(evs).pending, 0)) == note_on_ticks(evs),
    decreases evs.len(),
{
    broadcast use vstd::multiset::group_multiset_axioms;
    broadcast use vstd::seq_lib::group_to_multiset_ensures;
    if evs.len() == 0 {
        lemma_pending_keys_initial(0);
        assert(note_keys(Seq::<NoteEvent>::empty()) =~= Multiset::<(u8, int)>::empty()) by {
            assert(Seq::<NoteEvent>::empty().map_values(|n: NoteEvent| (n.pitch, n.start as int)) =~= Seq::<(u8, int)>::empty());
        }
        assert(note_keys(run_events(evs).notes).add(pending_keys(run_events(evs).pending, 0)) =~= note_on_ticks(evs));
    } else {
        let d = evs.drop_last();
        lemma_elapsed_nonneg(d);
        lemma_elapsed_prefix(evs, evs.len() - 1);
        assert(evs.take(evs.len() - 1) =~= d);
        lemma_run_keys(d);
        lemma_run_state_ok(d);
        lemma_run_state_ok(evs);
        let prev = run_events(d);
        let next = run_events(evs);
        let f = |n: NoteEvent| (n.pitch, n.start as int);
        match evs.last().tp {
            EventType::MidiOn(n) => {
                let t = next.time as u32;
                let x = prev.pending[n as int].push(t);
                lemma_pending_keys_update(prev.pending, n as int, x, 0);
                prev.pending[n as int].lemma_push_map_commute(|t: u32| (n, t as int), t);
                assert(prev.pending[n as int].map_values(|t: u32| ((n as int) as u8, t as int))
                    =~= prev.pending[n as int].map_values(|t: u32| (n, t as int)));
                assert(x.map_values(|t: u32| ((n as int) as u8, t as int))
                    =~= x.map_values(|t: u32| (n, t as int)));
                assert(next.pending == prev.pending.update(n as int, x));
                let sk_old = stack_keys(n as int, prev.pending[n as int]);
                let e = (n, elapsed(evs));
                assert(t as int == elapsed(evs));
                assert(stack_keys(n as int, x) == sk_old.insert(e));
                let a = pending_keys(next.pending, 0);
                let b = pending_keys(prev.pending, 0);
                assert(a.add(sk_old) == b.add(sk_old.insert(e)));
                assert forall|v: (u8, int)| #[trigger] a.count(v) == b.insert(e).count(v) by {
                    assert(a.add(sk_old).count(v) == b.add(sk_old.insert(e)).count(v));
                }
                assert(a =~= b.insert(e));
                assert(note_keys(next.notes).add(pending_keys(next.pending, 0)) =~= note_on_ticks(evs));
            },
            EventType::MidiOff(n) => {
                let open = prev.pending[n as int];
                if open.len() > 0 {
                    let x = open.drop_last();
                    let st = open.last();
                    assert(x.push(st) =~= open);
                    lemma_pending_keys_update(prev.pending, n as int, x, 0);
                    x.lemma_push_map_commute(|t: u32| (n, t as int), st);
                    assert(open.map_values(|t: u32| ((n as int) as u8, t as int)) =~= open.map_values(|t: u32| (n, t as int)));
                    assert(x.map_values(|t: u32| ((n as int) as u8, t as int)) =~= x.map_values(|t: u32| (n, t as int)));
                    let note = NoteEvent { pitch: n, start: st, duration: (next.time - st) as u32 };
                    assert(next.notes == prev.notes.push(note));
                    prev.notes.lemma_push_map_commute(f, note);
                    let e = (n, st as int);
                    let sk_x = stack_keys(n as int, x);
                    assert(stack_keys(n as int, open) == sk_x.insert(e));
                    assert(next.pending == prev.pending.update(n as int, x));
                    let a = pending_keys(next.pending, 0);
                    let b = pending_keys(prev.pending, 0);
                    assert(a.add(sk_x.insert(e)) == b.add(sk_x));
                    assert forall|v: (u8, int)| #[trigger] a.insert(e).count(v) == b.count(v) by {
                        assert(a.add(sk_x.insert(e)).count(v) == b.add(sk_x).count(v));
                    }
                    assert(a.insert(e) =~= b);
                    assert(note_keys(next.notes) =~= note_keys(prev.notes).insert((n, st as int)));
                    assert(note_keys(next.notes).add(pending_keys(next.pending, 0)) =~= note_on_ticks(evs));
                }
            },
            _ => {},
        }
    }
}

proof fn lemma_leftover_keys(pending: Seq<Seq<u32>>, time: int, k: int)
    requires
        0 <= k,
    ensures
        note_keys(leftover_notes(pending, time, k)) == pending_keys(pending, k),
    decreases 256 - k,
{
    broadcast use vstd::multiset::group_multiset_axioms;
    broadcast use vstd::seq_lib::group_to_multiset_ensures;
    let f = |n: NoteEvent| (n.pitch, n.start as int);
    if k < 256 {
        lemma_leftover_keys(pending, time, k + 1);
        let a = pending[k].map_values(|t: u32| NoteEvent { pitch: k as u8, start: t, duration: (time - t) as u32 });
        let b = leftover_notes(pending, time, k + 1);
        assert((a + b).map_values(f) =~= a.map_values(f) + b.map_values(f));
        vstd::seq_lib::lemma_multiset_commutative(a.map_values(f), b.map_values(f));
        assert(a.map_values(f) =~= pending[k].map_values(|t: u32| (k as u8, t as int)));
    } else {
        assert(leftover_notes(pending, time, k).map_values(f) =~= Seq::<(u8, int)>::empty());
        assert(note_keys(leftover_notes(pending, time, k)) =~= Multiset::<(u8, int)>::empty());
    }
}

/// Each note comes from one note-on: the pitches and start ticks of the
/// notes are those of the note-on events, each as often.
pub proof fn law_notes_match_note_ons(evs: Seq<Event>)
    requires
        elapsed(evs) <= u32::MAX,
    ensures
        note_keys(track_notes(evs)) == note_on_ticks(evs),
{
    broadcast use vstd::multiset::group_multiset_axioms;
    let st = run_events(evs);
    let f = |n: NoteEvent| (n.pitch, n.start as int);
    lemma_run_keys(evs);
    lemma_leftover_keys(st.pending, st.time, 0);
    let l = leftover_notes(st.pending, st.time, 0);
    assert((st.notes + l).map_values(f) =~= st.notes.map_values(f) + l.map_values(f));
    vstd::seq_lib::lemma_multiset_commutative(st.notes.map_values(f), l.map_values(f));
}

/// Collects the notes of a track's events. Returns the shortest duration of
/// a note closed by a note-off (`u32::MAX` if there is none) and the notes.
pub fn events_to_notes(track: Vec<Event>) -> (res: (u32, Vec<NoteEvent>))
    requires
        elapsed(track@) <= u32::MAX,
    ensures
        res.0 == run_events(track@).lowest,
        res.1@ == track_notes(track@),
        res.1@.len() == count_on(track@),
        forall|i: int| 0 <= i < res.1@.len() ==> (#[trigger] res.1@[i]).end() <= elapsed(track@),
{
    proof {
        law_one_note_per_note_on(track@);
        law_notes_end_by_last_tick(track@);
    }
    let n = track.len();
    let mut time: u32 = 0;
    let mut lowest_duration: u32 = u32::MAX;
    let mut lane: Vec<NoteEvent> = Vec::new();
    let mut pending_notes: Vec<Vec<u32>> = Vec::new();
    let mut k: usize = 0;
    while k < 256
        invariant
            k <= 256,
            pending_notes@.len() == k,
            forall|j: int| 0 <= j < k ==> (#[trigger] pending_notes@[j])@ == Seq::<u32>::empty(),
        decreases 256 - k,
    {
        pending_notes.push(Vec::new());
        k = k + 1;
    }
    let mut i: usize = 0;
    while i < n
        invariant
            n == track@.len(),
            elapsed(track@) <= u32::MAX,
            i <= n,
            pending_notes@.len() == 256,
            ({
                let st = run_events(track@.take(i as int));
                &&& state_ok(st)
                &&& st.time == time
                &&& st.lowest == lowest_duration
                &&& st.notes == lane@
                &&& st.pending.len() == 256
                &&& forall|j: int| 0 <= j < 256 ==> (#[trigger] pending_notes@[j])@ == st.pending[j]
            }),
        decreases n - i,
    {
        let event = track[i];
        proof {
            assert(track@.take(i + 1).drop_last() =~= track@.take(i as int));
            assert(track@.take(i + 1).last() == event);
            lemma_elapsed_prefix(track@, i + 1);
            lemma_run_time(track@.take(i + 1));
            lemma_run_state_ok(track@.take(i + 1));
            lemma_elapsed_prefix(track@, i as int);
            lemma_run_state_ok(track@.take(i as int));
        }
        let ghost prev = run_events(track@.take(i as int));
        let ghost next = run_events(track@.take(i + 1));
        assert(next == note_step(prev, event));
        time = time + event.deltatime;
        match event.tp {
            EventType::MidiOn(note) => {
                let mut starts: Vec<u32> = Vec::new();
                pending_notes.set_and_swap(note as usize, &mut starts);
                starts.push(time);
                pending_notes.set_and_swap(note as usize, &mut starts);
            },
            EventType::MidiOff(note) => {
                if pending_notes[note as usize].len() == 0 {
                    // A note-off with no note of its pitch open is ignored.
                } else {
                    let mut starts: Vec<u32> = Vec::new();
                    pending_notes.set_and_swap(note as usize, &mut starts);
                    let start = starts.pop().unwrap();
                    pending_notes.set_and_swap(note as usize, &mut starts);
                    let duration = time - start;
                    if duration < lowest_duration {
                        lowest_duration = duration;
                    }
                    lane.push(NoteEvent { pitch: note, start, duration });
                }
            },
            _ => {},
        }
        i = i + 1;
    }
    assert(track@.take(n as int) =~= track@);
    let ghost st = run_events(track@);
    proof {
        lemma_run_state_ok(track@);
    }
    let ghost before_leftovers = lane@;
    let mut key: usize = 0;
    while key < 256
        invariant
            n == track@.len(),
            st == run_events(track@),
            st.time == time,
            state_ok(st),
            pending_notes@.len() == 256,
            forall|j: int| 0 <= j < 256 ==> (#[trigger] pending_notes@[j])@ == st.pending[j],
            key <= 256,
            lane@ + leftover_notes(st.pending, st.time, key as int) == before_leftovers
                + leftover_notes(st.pending, st.time, 0),
        decreases 256 - key,
    {
        let starts = &pending_notes[key];
        let m = starts.len();
        let ghost base = lane@;
        let mut j: usize = 0;
        while j < m
            invariant
                m == starts@.len(),
                key < 256,
                starts@ == st.pending[key as int],
                state_ok(st),
                st.time == time,
                j <= m,
                lane@ == base + starts@.take(j as int).map_values(
                    |t: u32| NoteEvent { pitch: key as u8, start: t, duration: (time - t) as u32 }),
            decreases m - j,
        {
            let t = starts[j];
            assert(t <= time);
            lane.push(NoteEvent { pitch: key as u8, start: t, duration: time - t });
            j = j + 1;
            assert(starts@.take(j as int) =~= starts@.take(j - 1).push(t));
            assert(lane@ =~= base + starts@.take(j as int).map_values(
                |t: u32| NoteEvent { pitch: key as u8, start: t, duration: (time - t) as u32 }));
        }
        proof {
            assert(starts@.take(m as int) =~= starts@);
            assert(leftover_notes(st.pending, st.time, key as int) == starts@.map_values(
                |t: u32| NoteEvent { pitch: key as u8, start: t, duration: (st.time - t) as u32 })
                + leftover_notes(st.pending, st.time, key + 1));
            assert(lane@ + leftover_notes(st.pending, st.time, key + 1) =~= base + leftover_notes(st.pending, st.time, key as int));
        }
        key = key + 1;
    }
    assert(lane@ + leftover_notes(st.pending, st.time, 256) =~= lane@);
    (lowest_duration, lane)
}

/// The stacks keep their start ticks in order, and no open note started
/// strictly inside a closed note of its pitch; closed notes of one pitch nest.
spec fn nest_ok(st: NoteState) -> bool {
    &&& forall|k: int, m1: int, m2: int| 0 <= k < 256 && 0 <= m1 < m2 < st.pending[k].len()
        ==> #[trigger] st.pending[k][m1] <= #[trigger] st.pending[k][m2]
    &&& forall|i: int, m: int| 0 <= i < st.notes.len() && 0 <= m < st.pending[st.notes[i].pitch as int].len()
        ==> #[trigger] st.pending[(#[trigger] st.notes[i]).pitch as int][m] <= st.notes[i].start
            || st.pending[st.notes[i].pitch as int][m] >= st.notes[i].end()
    &&& forall|i: int, j: int| 0 <= i < st.notes.len() && 0 <= j < st.notes.len()
        && (#[trigger] st.notes[i]).pitch == (#[trigger] st.notes[j]).pitch
        && st.notes[i].start < st.notes[j].start < st.notes[i].end()
        ==> st.notes[j].end() <= st.notes[i].end()
}

proof fn lemma_run_nest(evs: Seq<Event>)
    requires
        elapsed(evs) <= u32::MAX,
    ensures
        nest_ok(run_events(evs)),
    decreases evs.len(),
{
    if evs.len() > 0 {
        let d = evs.drop_last();
        lemma_elapsed_nonneg(d);
        lemma_elapsed_prefix(evs, evs.len() - 1);
        assert(evs.take(evs.len() - 1) =~= d);
        lemma_run_nest(d);
        lemma_run_state_ok(d);
        lemma_run_state_ok(evs);
        let st = run_events(d);
        let ev = evs.last();
        let next = run_events(evs);
        assert(next == note_step(st, ev));
        match ev.tp {
            EventType::MidiOn(n) => {
                assert forall|k: int, m1: int, m2: int| 0 <= k < 256 && 0 <= m1 < m2 < next.pending[k].len()
                    implies #[trigger] next.pending[k][m1] <= #[trigger] next.pending[k][m2] by {
                    assert(next.pending[k][m1] == st.pending[k][m1]);
                    if !(k == n as int && m2 == st.pending[k].len()) {
                        assert(next.pending[k][m2] == st.pending[k][m2]);
                    }
                }
                assert forall|i: int, m: int| 0 <= i < next.notes.len() && 0 <= m < next.pending[next.notes[i].pitch as int].len()
                    implies #[trigger] next.pending[(#[trigger] next.notes[i]).pitch as int][m] <= next.notes[i].start
                        || next.pending[next.notes[i].pitch as int][m] >= next.notes[i].end() by {
                    let k = next.notes[i].pitch as int;
                    assert(next.notes[i] == st.notes[i]);
                    if !(k == n as int && m == st.pending[k].len()) {
                        assert(next.pending[k][m] == st.pending[k][m]);
                    }
                }
            },
            EventType::MidiOff(n) => {
                let open = st.pending[n as int];
                if open.len() > 0 {
                    let s = open.last();
                    let c = next.notes.last();
                    assert(open.last() == open[open.len() - 1]);
                    assert(c.end() == next.time);
                    assert forall|k: int, m1: int, m2: int| 0 <= k < 256 && 0 <= m1 < m2 < next.pending[k].len()
                        implies #[trigger] next.pending[k][m1] <= #[trigger] next.pending[k][m2] by {
                        assert(next.pending[k][m1] == st.pending[k][m1]);
                        assert(next.pending[k][m2] == st.pending[k][m2]);
                    }
                    assert forall|i: int, m: int| 0 <= i < next.notes.len() && 0 <= m < next.pending[next.notes[i].pitch as int].len()
                        implies #[trigger] next.pending[(#[trigger] next.notes[i]).pitch as int][m] <= next.notes[i].start
                            || next.pending[next.notes[i].pitch as int][m] >= next.notes[i].end() by {
                        let k = next.notes[i].pitch as int;
                        assert(next.pending[k][m] == st.pending[k][m]);
                        if i < st.notes.len() {
                            assert(next.notes[i] == st.notes[i]);
                        } else {
                            assert(k == n as int);
                            assert(st.pending[k][m] <= st.pending[k][open.len() - 1]);
                        }
                    }
                    assert forall|i: int, j: int| 0 <= i < next.notes.len() && 0 <= j < next.notes.len()
                        && (#[trigger] next.notes[i]).pitch == (#[trigger] next.notes[j]).pitch
                        && next.notes[i].start < next.notes[j].start < next.notes[i].end()
                        implies next.notes[j].end() <= next.notes[i].end() by {
                        let last = st.notes.len() as int;
                        if i < last && j < last {
                            assert(next.notes[i] == st.notes[i]);
                            assert(next.notes[j] == st.notes[j]);
                        } else if i < last {
                            assert(next.notes[i] == st.notes[i]);
                            assert(j == last);
                            assert(st.pending[st.notes[i].pitch as int][open.len() - 1] == s);
                        } else if j < last {
                            assert(next.notes[j] == st.notes[j]);
                            assert(st.notes[j].end() <= st.time);
                        }
                    }
                }
            },
            _ => {
                assert forall|i: int, m: int| 0 <= i < next.notes.len() && 0 <= m < next.pending[next.notes[i].pitch as int].len()
                    implies #[trigger] next.pending[(#[trigger] next.notes[i]).pitch as int][m] <= next.notes[i].start
                        || next.pending[next.notes[i].pitch as int][m] >= next.notes[i].end() by {
                    assert(next.notes[i] == st.notes[i]);
                }
            },
        }
    }
}

proof fn lemma_leftover_members(pending: Seq<Seq<u32>>, time: int, k: int)
    requires
        pending.len() == 256,
        0 <= k,
    ensures
        forall|i: int| 0 <= i < leftover_notes(pending, time, k).len()
            ==> pending[(#[trigger] leftover_notes(pending, time, k)[i]).pitch as int].contains(
                leftover_notes(pending, time, k)[i].start),
    decreases 256 - k,
{
    if k < 256 {
        lemma_leftover_members(pending, time, k + 1);
        let here = pending[k].map_values(|t: u32| NoteEvent { pitch: k as u8, start: t, duration: (time - t) as u32 });
        let all = leftover_notes(pending, time, k);
        let rest = leftover_notes(pending, time, k + 1);
        assert(all == here + rest);
        assert forall|i: int| 0 <= i < all.len() implies pending[(#[trigger] all[i]).pitch as int].contains(all[i].start) by {
            if i < here.len() {
                assert(all[i].pitch as int == k);
                assert(pending[k][i] == all[i].start);
            } else {
                assert(all[i] == rest[i - here.len()]);
            }
        }
    }
}

/// A note-off closes the latest note of its pitch still sounding, so notes of
/// one pitch never cross: a note struck while another of its pitch sounds
/// ends no later than that one.
pub proof fn law_same_pitch_notes_nest(evs: Seq<Event>)
    requires
        elapsed(evs) <= u32::MAX,
    ensures
        forall|a: int, b: int| 0 <= a < track_notes(evs).len() && 0 <= b < track_notes(evs).len()
            && (#[trigger] track_notes(evs)[a]).pitch == (#[trigger] track_notes(evs)[b]).pitch
            && track_notes(evs)[a].start < track_notes(evs)[b].start < track_notes(evs)[a].end()
            ==> track_notes(evs)[b].end() <= track_notes(evs)[a].end(),
{
    let st = run_events(evs);
    let ns = track_notes(evs);
    let left = leftover_notes(st.pending, st.time, 0);
    lemma_run_state_ok(evs);
    lemma_run_nest(evs);
    law_notes_end_by_last_tick(evs);
    lemma_leftover_members(st.pending, st.time, 0);
    assert forall|a: int, b: int| 0 <= a < ns.len() && 0 <= b < ns.len()
        && (#[trigger] ns[a]).pitch == (#[trigger] ns[b]).pitch
        && ns[a].start < ns[b].start < ns[a].end()
        implies ns[b].end() <= ns[a].end() by {
        let c = st.notes.len() as int;
        if a < c && b < c {
            assert(ns[a] == st.notes[a]);
            assert(ns[b] == st.notes[b]);
        } else if a < c {
            assert(ns[a] == st.notes[a]);
            assert(ns[b] == left[b - c]);
            let l = left[b - c];
            assert(st.pending[l.pitch as int].contains(l.start));
            let m = choose|m: int| 0 <= m < st.pending[l.pitch as int].len() && st.pending[l.pitch as int][m] == l.start;
            assert(st.pending[st.notes[a].pitch as int][m] == l.start);
        } else {
            assert(ns[a].end() == elapsed(evs));
        }
    }
}

proof fn lemma_leftover_order(pending: Seq<Seq<u32>>, time: int, k: int)
    requires
        pending.len() == 256,
        0 <= k,
        forall|j: int, m1: int, m2: int| 0 <= j < 256 && 0 <= m1 < m2 < pending[j].len()
            ==> #[trigger] pending[j][m1] <= #[trigger] pending[j][m2],
    ensures
        forall|i: int| 0 <= i < leftover_notes(pending, time, k).len()
            ==> (#[trigger] leftover_notes(pending, time, k)[i]).pitch >= k,
        forall|a: int, b: int| 0 <= a < b < leftover_notes(pending, time, k).len() ==> {
            let x = #[trigger] leftover_notes(pending, time, k)[a];
            let y = #[trigger] leftover_notes(pending, time, k)[b];
            x.pitch < y.pitch || (x.pitch == y.pitch && x.start <= y.start)
        },
    decreases 256 - k,
{
    if k < 256 {
        lemma_leftover_order(pending, time, k + 1);
        let here = pending[k].map_values(|t: u32| NoteEvent { pitch: k as u8, start: t, duration: (time - t) as u32 });
        let all = leftover_notes(pending, time, k);
        let rest = leftover_notes(pending, time, k + 1);
        assert(all == here + rest);
        assert forall|i: int| 0 <= i < all.len() implies (#[trigger] all[i]).pitch >= k by {
            if i >= here.len() {
                assert(all[i] == rest[i - here.len()]);
            }
        }
        assert forall|a: int, b: int| 0 <= a < b < all.len() implies {
            let x = #[trigger] all[a];
            let y = #[trigger] all[b];
            x.pitch < y.pitch || (x.pitch == y.pitch && x.start <= y.start)
        } by {
            if b < here.len() {
                assert(pending[k][a] <= pending[k][b]);
            } else if a < here.len() {
                assert(all[b] == rest[b - here.len()]);
                assert(all[a].pitch as int == k);
            } else {
                assert(all[a] == rest[a - here.len()]);
                assert(all[b] == rest[b - here.len()]);
            }
        }
    }
}

/// The notes that no note-off closes come after all the others, in
/// ascending pitch, and notes of one pitch in the order they were struck.
pub proof fn law_open_notes_by_pitch(evs: Seq<Event>)
    requires
        elapsed(evs) <= u32::MAX,
    ensures
        forall|a: int, b: int| run_events(evs).notes.len() <= a < b < track_notes(evs).len() ==> {
            let x = #[trigger] track_notes(evs)[a];
            let y = #[trigger] track_notes(evs)[b];
            x.pitch < y.pitch || (x.pitch == y.pitch && x.start <= y.start)
        },
{
    let st = run_events(evs);
    let ns = track_notes(evs);
    let left = leftover_notes(st.pending, st.time, 0);
    lemma_run_state_ok(evs);
    lemma_run_nest(evs);
    lemma_leftover_order(st.pending, st.time, 0);
    let c = st.notes.len() as int;
    assert forall|a: int, b: int| c <= a < b < ns.len() implies {
        let x = #[trigger] ns[a];
        let y = #[trigger] ns[b];
        x.pitch < y.pitch || (x.pitch == y.pitch && x.start <= y.start)
    } by {
        assert(ns[a] == left[a - c]);
        assert(ns[b] == left[b - c]);
    }
}

} // verus!
