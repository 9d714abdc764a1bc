//! Spreading notes over lanes so that no two notes of a lane overlap.
use vstd::prelude::*;
use vstd::multiset::Multiset;
use crate::notes::NoteEvent;

verus! {

/// `x` put into `sorted` after every note that starts no later than it.
pub open spec fn insert_by_start(sorted: Seq<NoteEvent>, x: NoteEvent) -> Seq<NoteEvent>
    decreases sorted.len(),
{
    if sorted.len() == 0 {
        seq![x]
    } else if sorted.last().start <= x.start {
        sorted.push(x)
    } else {
        insert_by_start(sorted.drop_last(), x).push(sorted.last())
    }
}

/// The notes ordered by start; notes with the same start keep their order.
pub open spec fn sort_by_start(s: Seq<NoteEvent>) -> Seq<NoteEvent>
    decreases s.len(),
{
    if s.len() == 0 {
        Seq::empty()
    } else {
        insert_by_start(sort_by_start(s.drop_last()), s.last())
    }
}

/// Ordered by start.
pub open spec fn starts_ascending(s: Seq<NoteEvent>) -> bool {
    forall|i: int, j: int| 0 <= i <= j < s.len() ==> #[trigger] s[i].start <= #[trigger] s[j].start
}

/// The notes that start at tick `k`.
pub open spec fn starting_at(k: u32) -> spec_fn(NoteEvent) -> bool {
    |n: NoteEvent| n.start == k
}

proof fn lemma_insert_stable(sorted: Seq<NoteEvent>, x: NoteEvent, k: u32)
    ensures
        insert_by_start(sorted, x).filter(starting_at(k)) == if x.start == k {
            sorted.filter(starting_at(k)).push(x)
        } else {
            sorted.filter(starting_at(k))
        },
    decreases sorted.len(),
{
    let f = starting_at(k);
    if sorted.len() == 0 {
        Seq::<NoteEvent>::empty().lemma_filter_push(x, f);
        assert(seq![x] =~= Seq::<NoteEvent>::empty().push(x));
    } else if sorted.last().start <= x.start {
        sorted.lemma_filter_push(x, f);
    } else {
        let d = sorted.drop_last();
        let last = sorted.last();
        lemma_insert_stable(d, x, k);
        insert_by_start(d, x).lemma_filter_push(last, f);
        d.lemma_filter_push(last, f);
        assert(d.push(last) =~= sorted);
        if x.start == k {
            assert(!f(last));
        }
    }
}

/// Sorting is stable: the notes that start at the same tick come out in the
/// order they came in.
pub proof fn law_sort_stable(s: Seq<NoteEvent>, k: u32)
    ensures
        sort_by_start(s).filter(starting_at(k)) == s.filter(starting_at(k)),
    decreases s.len(),
{
    if s.len() > 0 {
        let d = s.drop_last();
        law_sort_stable(d, k);
        lemma_insert_stable(sort_by_start(d), s.last(), k);
        d.lemma_filter_push(s.last(), starting_at(k));
        assert(d.push(s.last()) =~= s);
    } else {
        reveal(Seq::filter);
    }
}

proof fn lemma_insert_at(sorted: Seq<NoteEvent>, x: NoteEvent, j: int)
    requires
        0 <= j <= sorted.len(),
        forall|k: int| j <= k < sorted.len() ==> (#[trigger] sorted[k]).start > x.start,
        j > 0 ==> sorted[j - 1].start <= x.start,
    ensures
        insert_by_start(sorted, x) == sorted.insert(j, x),
    decreases sorted.len(),
{
    if sorted.len() == 0 {
        assert(sorted.insert(j, x) =~= seq![x]);
    } else if sorted.last().start <= x.start {
        assert(j == sorted.len());
        assert(sorted.insert(j, x) =~= sorted.push(x));
    } else {
        lemma_insert_at(sorted.drop_last(), x, j);
        assert(sorted.drop_last().insert(j, x).push(sorted.last()) =~= sorted.insert(j, x));
    }
}

/// Sorts the notes by start with insertion, keeping the order of notes
/// that start together.
pub fn sort_notes_by_start(notes: Vec<NoteEvent>) -> (res: Vec<NoteEvent>)
    ensures
        res@ == sort_by_start(notes@),
{
    let n = notes.len();
    let mut sorted: Vec<NoteEvent> = Vec::new();
    let mut i: usize = 0;
    while i < n
        invariant
            n == notes@.len(),
            i <= n,
            sorted@ == sort_by_start(notes@.take(i as int)),
            starts_ascending(sorted@),
        decreases n - i,
    {
        let x = notes[i];
        let mut j = sorted.len();
        while j > 0 && sorted[j - 1].start > x.start
            invariant
                j <= sorted@.len(),
                forall|k: int| j <= k < sorted@.len() ==> (#[trigger] sorted@[k]).start > x.start,
            decreases j,
        {
            j = j - 1;
        }
        proof {
            lemma_insert_at(sorted@, x, j as int);
            assert(notes@.take(i + 1).drop_last() =~= notes@.take(i as int));
        }
        let ghost before = sorted@;
        sorted.insert(j, x);
        assert forall|a: int, b: int| 0 <= a <= b < sorted@.len() implies #[trigger] sorted@[a].start <= #[trigger] sorted@[b].start by {
            if a < j && b < j {
                assert(sorted@[a] == before[a] && sorted@[b] == before[b]);
            } else if a < j && b == j {
                assert(sorted@[a] == before[a]);
                assert(before[a].start <= before[j - 1].start);
            } else if a < j {
                assert(sorted@[a] == before[a] && sorted@[b] == before[b - 1]);
            } else if a == j && b > j {
                assert(sorted@[b] == before[b - 1]);
            } else if a > j {
                assert(sorted@[a] == before[a - 1] && sorted@[b] == before[b - 1]);
            }
        }
        i = i + 1;
    }
    assert(notes@.take(n as int) =~= notes@);
    sorted
}

/// Lane `i` is the one a note starting at `start` goes to: its last note has
/// ended by then, no such lane ended later, and every such lane before it
/// ended earlier.
pub open spec fn is_best_lane(ends: Seq<u32>, start: u32, i: int) -> bool {
    &&& 0 <= i < ends.len()
    &&& ends[i] <= start
    &&& forall|j: int| 0 <= j < ends.len() && ends[j] <= start ==> #[trigger] ends[j] <= ends[i]
    &&& forall|j: int| 0 <= j < i && ends[j] <= start ==> #[trigger] ends[j] < ends[i]
}

/// The lane for a note starting at `start`: of the lanes free by then, the
/// first of those that became free latest; `None` if no lane is free.
pub open spec fn best_lane(ends: Seq<u32>, start: u32) -> Option<int> {
    if exists|i: int| is_best_lane(ends, start, i) {
        Some(choose|i: int| is_best_lane(ends, start, i))
    } else {
        None
    }
}

proof fn lemma_best_lane_unique(ends: Seq<u32>, start: u32, i: int, j: int)
    requires
        is_best_lane(ends, start, i),
        is_best_lane(ends, start, j),
    ensures
        i == j,
{
    if i < j {
        assert(ends[i] < ends[j]);
        assert(ends[j] <= ends[i]);
    } else if j < i {
        assert(ends[j] < ends[i]);
        assert(ends[i] <= ends[j]);
    }
}

/// The lanes so far and the tick at which each lane's last note ends.
pub type LaneState = (Seq<Seq<NoteEvent>>, Seq<u32>);

/// One note placed: into its best lane, or into a new lane if none is free.
pub open spec fn place_note(st: LaneState, n: NoteEvent) -> LaneState {
    match best_lane(st.1, n.start) {
        Some(i) => (st.0.update(i, st.0[i].push(n)), st.1.update(i, n.end() as u32)),
        None => (st.0.push(seq![n]), st.1.push(n.end() as u32)),
    }
}

/// The notes placed one after the other, in the given order.
pub open spec fn place_all(notes: Seq<NoteEvent>) -> LaneState
    decreases notes.len(),
{
    if notes.len() == 0 {
        (Seq::empty(), Seq::empty())
    } else {
        place_note(place_all(notes.drop_last()), notes.last())
    }
}

/// The lanes of a set of notes: the notes taken in order of start.
pub open spec fn lanes_of(notes: Seq<NoteEvent>) -> Seq<Seq<NoteEvent>> {
    place_all(sort_by_start(notes)).0
}

/// No note ends past the last tick a `u32` holds.
pub open spec fn ends_fit(notes: Seq<NoteEvent>) -> bool {
    forall|i: int| 0 <= i < notes.len() ==> (#[trigger] notes[i]).end() <= u32::MAX
}

/// Finds the lane for a note starting at `start`.
fn find_best_lane(ends: &Vec<u32>, start: u32) -> (res: Option<usize>)
    ensures
        match res {
            Some(b) => best_lane(ends@, start) == Some(b as int),
            None => best_lane(ends@, start) is None,
        },
{
    let n = ends.len();
    let mut best_lane: Option<usize> = None;
    let mut best_end: Option<u32> = None;
    let mut i: usize = 0;
    while i < n
        invariant
            n == ends@.len(),
            i <= n,
            best_lane is Some <==> best_end is Some,
            best_lane matches Some(b) ==> b < i && best_end == Some(ends@[b as int]) && ends@[b as int] <= start
                && (forall|j: int| 0 <= j < i && ends@[j] <= start ==> #[trigger] ends@[j] <= ends@[b as int])
                && (forall|j: int| 0 <= j < b && ends@[j] <= start ==> #[trigger] ends@[j] < ends@[b as int]),
            best_lane is None ==> forall|j: int| 0 <= j < i ==> #[trigger] ends@[j] > start,
        decreases n - i,
    {
        let lane_end = ends[i];
        if lane_end <= start && (best_end.is_none() || lane_end > best_end.unwrap()) {
            best_lane = Some(i);
            best_end = Some(lane_end);
        }
        i = i + 1;
    }
    proof {
        match best_lane {
            Some(b) => {
                assert(is_best_lane(ends@, start, b as int));
                let c = choose|c: int| is_best_lane(ends@, start, c);
                lemma_best_lane_unique(ends@, start, b as int, c);
            },
            None => {
                assert(!exists|c: int| is_best_lane(ends@, start, c));
            },
        }
    }
    best_lane
}

/// Spreads the notes over lanes: taken in order of start, each note goes to
/// the free lane that became free latest (the first such), or to a new lane
/// when every lane is still sounding.
pub fn assign_lanes(notes: Vec<NoteEvent>) -> (res: Vec<Vec<NoteEvent>>)
    requires
        ends_fit(notes@),
    ensures
        res@.map_values(|l: Vec<NoteEvent>| l@) == lanes_of(notes@),
{
    let ghost input = notes@;
    let sorted = sort_notes_by_start(notes);
    proof {
        lemma_sort_keeps_notes(input);
        lemma_same_notes_fit(input, sorted@);
    }
    let n = sorted.len();
    let mut lanes: Vec<Vec<NoteEvent>> = Vec::new();
    let mut lanes_end: Vec<u32> = Vec::new();
    let mut k: usize = 0;
    while k < n
        invariant
            n == sorted@.len(),
            sorted@ == sort_by_start(input),
            ends_fit(sorted@),
            k <= n,
            lanes@.map_values(|l: Vec<NoteEvent>| l@) == place_all(sorted@.take(k as int)).0,
            lanes_end@ == place_all(sorted@.take(k as int)).1,
            lanes@.len() == lanes_end@.len(),
        decreases n - k,
    {
        let note = sorted[k];
        proof {
            assert(sorted@.take(k + 1).drop_last() =~= sorted@.take(k as int));
            assert(sorted@.take(k + 1).last() == note);
        }
        let ghost prev = place_all(sorted@.take(k as int));
        assert(place_all(sorted@.take(k + 1)) == place_note(prev, note));
        let ghost old_lanes = lanes@;
        assert(note.end() <= u32::MAX);
        let end = note.start + note.duration;
        match find_best_lane(&lanes_end, note.start) {
            Some(b) => {
                lanes_end.set(b, end);
                let mut lane: Vec<NoteEvent> = Vec::new();
                lanes.set_and_swap(b, &mut lane);
                lane.push(note);
                lanes.set_and_swap(b, &mut lane);
                proof {
                    assert(best_lane(prev.1, note.start) == Some(b as int));
                    assert(place_note(prev, note) == (prev.0.update(b as int, prev.0[b as int].push(note)),
                        prev.1.update(b as int, note.end() as u32)));
                    assert(lanes_end@ =~= prev.1.update(b as int, note.end() as u32));
                    assert(lanes@.map_values(|l: Vec<NoteEvent>| l@) =~= prev.0.update(b as int, prev.0[b as int].push(note))) by {
                        assert(old_lanes.map_values(|l: Vec<NoteEvent>| l@)[b as int] == prev.0[b as int]);
                    }
                }
            },
            None => {
                let mut lane: Vec<NoteEvent> = Vec::new();
                lane.push(note);
                lanes.push(lane);
                lanes_end.push(end);
                proof {
                    assert(best_lane(prev.1, note.start) is None);
                    assert(place_note(prev, note) == (prev.0.push(seq![note]), prev.1.push(note.end() as u32)));
                    assert(lanes_end@ =~= prev.1.push(note.end() as u32));
                    assert(lanes@.map_values(|l: Vec<NoteEvent>| l@) =~= prev.0.push(seq![note]));
                }
            },
        }
        k = k + 1;
    }
    assert(sorted@.take(n as int) =~= sorted@);
    lanes
}

proof fn lemma_place_all_members(s: Seq<NoteEvent>)
    ensures
        place_all(s).0.len() == place_all(s).1.len(),
        forall|i: int, j: int| 0 <= i < place_all(s).0.len() && 0 <= j < place_all(s).0[i].len()
            ==> s.contains(#[trigger] place_all(s).0[i][j]),
    decreases s.len(),
{
    if s.len() > 0 {
        let prev_s = s.drop_last();
        lemma_place_all_members(prev_s);
        let prev = place_all(prev_s);
        let next = place_all(s);
        let x = s.last();
        assert(next == place_note(prev, x));
        assert forall|i: int, j: int| 0 <= i < next.0.len() && 0 <= j < next.0[i].len()
            implies s.contains(#[trigger] next.0[i][j]) by {
            let y = next.0[i][j];
            if y == x {
                assert(s[s.len() - 1] == x);
            } else {
                match best_lane(prev.1, x.start) {
                    Some(b) => {
                        if i == b {
                            assert(j < prev.0[i].len());
                            assert(y == prev.0[i][j]);
                        } else {
                            assert(y == prev.0[i][j]);
                        }
                    },
                    None => {
                        if i < prev.0.len() {
                            assert(y == prev.0[i][j]);
                        }
                    },
                }
                assert(prev_s.contains(y));
                let k = choose|k: int| 0 <= k < prev_s.len() && prev_s[k] == y;
                assert(s[k] == y);
            }
        }
    }
}

/// A lane holds only notes that were given: every note of every lane is one
/// of the notes.
pub proof fn law_lanes_hold_given_notes(notes: Seq<NoteEvent>)
    ensures
        forall|i: int, j: int| 0 <= i < lanes_of(notes).len() && 0 <= j < lanes_of(notes)[i].len()
            ==> notes.contains(#[trigger] lanes_of(notes)[i][j]),
{
    broadcast use vstd::seq_lib::group_to_multiset_ensures;
    let sorted = sort_by_start(notes);
    lemma_sort_keeps_notes(notes);
    lemma_place_all_members(sorted);
    assert forall|i: int, j: int| 0 <= i < lanes_of(notes).len() && 0 <= j < lanes_of(notes)[i].len()
        implies notes.contains(#[trigger] lanes_of(notes)[i][j]) by {
        let y = lanes_of(notes)[i][j];
        assert(sorted.contains(y));
        assert(sorted.to_multiset().count(y) > 0);
    }
}

proof fn lemma_insert_ascending(sorted: Seq<NoteEvent>, x: NoteEvent)
    requires
        starts_ascending(sorted),
    ensures
        starts_ascending(insert_by_start(sorted, x)),
        forall|i: int| 0 <= i < insert_by_start(sorted, x).len() ==> (#[trigger] insert_by_start(sorted, x)[i]).start
            <= if sorted.len() == 0 || sorted.last().start <= x.start { x.start } else { sorted.last().start },
    decreases sorted.len(),
{
    lemma_insert_keeps_notes(sorted, x);
    if sorted.len() == 0 {
    } else if sorted.last().start <= x.start {
        let r = sorted.push(x);
        assert forall|i: int| 0 <= i < r.len() implies (#[trigger] r[i]).start <= x.start by {
            if i < sorted.len() {
                assert(sorted[i].start <= sorted[sorted.len() - 1].start);
            }
        }
    } else {
        let d = sorted.drop_last();
        assert(starts_ascending(d)) by {
            assert forall|i: int, j: int| 0 <= i <= j < d.len() implies #[trigger] d[i].start <= #[trigger] d[j].start by {
                assert(d[i] == sorted[i] && d[j] == sorted[j]);
            }
        }
        lemma_insert_ascending(d, x);
        let r0 = insert_by_start(d, x);
        let last = sorted.last();
        let r = r0.push(last);
        assert forall|i: int| 0 <= i < r0.len() implies (#[trigger] r0[i]).start <= last.start by {
            if d.len() > 0 {
                assert(d.last() == sorted[sorted.len() - 2]);
            }
        }
        assert forall|i: int, j: int| 0 <= i <= j < r.len() implies #[trigger] r[i].start <= #[trigger] r[j].start by {
            if j == r.len() - 1 {
                if i < r0.len() {
                    assert(r[i] == r0[i]);
                }
            } else {
                assert(r[i] == r0[i] && r[j] == r0[j]);
            }
        }
    }
}

/// The notes in order of start: sorting leaves no note before one that
/// starts earlier.
pub proof fn law_sort_ascending(s: Seq<NoteEvent>)
    ensures
        starts_ascending(sort_by_start(s)),
    decreases s.len(),
{
    if s.len() > 0 {
        law_sort_ascending(s.drop_last());
        lemma_insert_ascending(sort_by_start(s.drop_last()), s.last());
    }
}

/// All the notes of all the lanes, each as often as it occurs.
pub open spec fn lanes_multiset(lanes: Seq<Seq<NoteEvent>>) -> Multiset<NoteEvent>
    decreases lanes.len(),
{
    if lanes.len() == 0 {
        Multiset::empty()
    } else {
        lanes_multiset(lanes.drop_last()).add(lanes.last().to_multiset())
    }
}

proof fn lemma_lanes_multiset_update(lanes: Seq<Seq<NoteEvent>>, i: int, x: NoteEvent)
    requires
        0 <= i < lanes.len(),
    ensures
        lanes_multiset(lanes.update(i, lanes[i].push(x))) == lanes_multiset(lanes).insert(x),
    decreases lanes.len(),
{
    broadcast use vstd::seq_lib::group_to_multiset_ensures;
    let u = lanes.update(i, lanes[i].push(x));
    if i == lanes.len() - 1 {
        assert(u.drop_last() =~= lanes.drop_last());
        assert(u.last() == lanes.last().push(x));
        assert(lanes_multiset(u) =~= lanes_multiset(lanes).insert(x));
    } else {
        lemma_lanes_multiset_update(lanes.drop_last(), i, x);
        assert(u.drop_last() =~= lanes.drop_last().update(i, lanes[i].push(x)));
        assert(lanes_multiset(u) =~= lanes_multiset(lanes).insert(x));
    }
}

proof fn lemma_lanes_multiset_push(lanes: Seq<Seq<NoteEvent>>, x: NoteEvent)
    ensures
        lanes_multiset(lanes.push(seq![x])) == lanes_multiset(lanes).insert(x),
{
    broadcast use vstd::seq_lib::group_to_multiset_ensures;
    let u = lanes.push(seq![x]);
    assert(u.drop_last() =~= lanes);
    assert(seq![x] =~= Seq::<NoteEvent>::empty().push(x));
    assert(lanes_multiset(u) =~= lanes_multiset(lanes).insert(x));
}

/// What holds of the lanes after each note: each lane has a note, the tick
/// it is free from is its last note's end, its notes follow one another
/// without overlap, and together the lanes hold the notes placed so far.
pub open spec fn lanes_ok(st: LaneState, placed: Seq<NoteEvent>) -> bool {
    &&& st.0.len() == st.1.len()
    &&& forall|i: int| 0 <= i < st.0.len() ==> (#[trigger] st.0[i]).len() > 0 && st.1[i] == st.0[i].last().end()
    &&& forall|i: int, a: int, b: int| 0 <= i < st.0.len() && 0 <= a < b < st.0[i].len()
        ==> #[trigger] st.0[i][a].end() <= #[trigger] st.0[i][b].start
    &&& lanes_multiset(st.0) == placed.to_multiset()
}

proof fn lemma_ends_fit_prefix(s: Seq<NoteEvent>)
    requires
        ends_fit(s),
        s.len() > 0,
    ensures
        ends_fit(s.drop_last()),
        s.last().end() <= u32::MAX,
{
    assert forall|i: int| 0 <= i < s.drop_last().len() implies (#[trigger] s.drop_last()[i]).end() <= u32::MAX by {
        assert(s.drop_last()[i] == s[i]);
    }
    assert(s.last() == s[s.len() - 1]);
}

proof fn lemma_place_all_ok(s: Seq<NoteEvent>)
    requires
        ends_fit(s),
    ensures
        lanes_ok(place_all(s), s),
    decreases s.len(),
{
    broadcast use vstd::seq_lib::group_to_multiset_ensures;
    if s.len() == 0 {
        assert(lanes_multiset(Seq::<Seq<NoteEvent>>::empty()) =~= s.to_multiset());
    } else {
        lemma_ends_fit_prefix(s);
        lemma_place_all_ok(s.drop_last());
        let prev = place_all(s.drop_last());
        let x = s.last();
        let next = place_all(s);
        assert(next == place_note(prev, x));
        assert(s.drop_last().push(x) =~= s);
        assert(s.to_multiset() == s.drop_last().to_multiset().insert(x));
        match best_lane(prev.1, x.start) {
            Some(b) => {
                let c = choose|c: int| is_best_lane(prev.1, x.start, c);
                assert(is_best_lane(prev.1, x.start, c));
                lemma_lanes_multiset_update(prev.0, b, x);
                assert forall|i: int, a: int, k: int| 0 <= i < next.0.len() && 0 <= a < k < next.0[i].len()
                    implies #[trigger] next.0[i][a].end() <= #[trigger] next.0[i][k].start by {
                    if i == b && k == next.0[i].len() - 1 {
                        let lane = prev.0[i];
                        assert(next.0[i][a] == lane[a]);
                        if a < lane.len() - 1 {
                            assert(lane[a].end() <= lane[lane.len() - 1].start);
                        }
                    } else if i == b {
                        assert(next.0[i][a] == prev.0[i][a] && next.0[i][k] == prev.0[i][k]);
                    }
                }
            },
            None => {
                lemma_lanes_multiset_push(prev.0, x);
                assert forall|i: int, a: int, k: int| 0 <= i < next.0.len() && 0 <= a < k < next.0[i].len()
                    implies #[trigger] next.0[i][a].end() <= #[trigger] next.0[i][k].start by {
                    if i < prev.0.len() {
                        assert(next.0[i] == prev.0[i]);
                    }
                }
            },
        }
    }
}

/// The notes of a lane follow one another: each ends before (or when) any
/// later note of its lane starts, so no two notes of a lane overlap.
pub proof fn law_lanes_never_overlap(notes: Seq<NoteEvent>)
    requires
        ends_fit(notes),
    ensures
        forall|i: int, a: int, b: int| 0 <= i < lanes_of(notes).len() && 0 <= a < b < lanes_of(notes)[i].len()
            ==> #[trigger] lanes_of(notes)[i][a].end() <= #[trigger] lanes_of(notes)[i][b].start,
        forall|i: int| 0 <= i < lanes_of(notes).len() ==> (#[trigger] lanes_of(notes)[i]).len() > 0,
{
    lemma_sort_keeps_notes(notes);
    lemma_same_notes_fit(notes, sort_by_start(notes));
    lemma_place_all_ok(sort_by_start(notes));
}

/// Every note lands in exactly one lane: together the lanes hold each note
/// as often as it was given.
pub proof fn law_lanes_partition_notes(notes: Seq<NoteEvent>)
    requires
        ends_fit(notes),
    ensures
        lanes_multiset(lanes_of(notes)) == notes.to_multiset(),
{
    lemma_sort_keeps_notes(notes);
    lemma_same_notes_fit(notes, sort_by_start(notes));
    lemma_place_all_ok(sort_by_start(notes));
}

/// Whether a note sounds at tick `t`.
pub open spec fn sounds_at(n: NoteEvent, t: int) -> bool {
    n.start <= t < n.end()
}

/// Some `k` of the notes (each counted as often as it occurs) sound together
/// at one tick.
pub open spec fn k_sound_together(notes: Multiset<NoteEvent>, k: int) -> bool {
    exists|w: Multiset<NoteEvent>, t: int|
        w.len() == k && w.subset_of(notes) && #[trigger] all_sound_at(w, t)
}

/// Every note of `w` sounds at tick `t`.
pub open spec fn all_sound_at(w: Multiset<NoteEvent>, t: int) -> bool {
    forall|x: NoteEvent| #[trigger] w.count(x) > 0 ==> sounds_at(x, t)
}

/// The last note of each lane.
pub open spec fn lane_lasts(lanes: Seq<Seq<NoteEvent>>) -> Multiset<NoteEvent>
    decreases lanes.len(),
{
    if lanes.len() == 0 {
        Multiset::empty()
    } else {
        lane_lasts(lanes.drop_last()).insert(lanes.last().last())
    }
}

proof fn lemma_lane_lasts(lanes: Seq<Seq<NoteEvent>>)
    requires
        forall|i: int| 0 <= i < lanes.len() ==> (#[trigger] lanes[i]).len() > 0,
    ensures
        lane_lasts(lanes).len() == lanes.len(),
        lane_lasts(lanes).subset_of(lanes_multiset(lanes)),
        forall|y: NoteEvent| #[trigger] lane_lasts(lanes).count(y) > 0
            ==> exists|i: int| 0 <= i < lanes.len() && (#[trigger] lanes[i]).last() == y,
    decreases lanes.len(),
{
    broadcast use vstd::seq_lib::group_to_multiset_ensures;
    broadcast use vstd::multiset::group_multiset_axioms;
    if lanes.len() > 0 {
        let d = lanes.drop_last();
        assert forall|i: int| 0 <= i < d.len() implies (#[trigger] d[i]).len() > 0 by {
            assert(d[i] == lanes[i]);
        }
        lemma_lane_lasts(d);
        let l = lanes.last();
        assert(l.len() > 0);
        assert(l.contains(l.last())) by {
            assert(l[l.len() - 1] == l.last());
        }
        assert(l.to_multiset().count(l.last()) > 0);
        assert forall|y: NoteEvent| #[trigger] lane_lasts(lanes).count(y) > 0
            implies exists|i: int| 0 <= i < lanes.len() && (#[trigger] lanes[i]).last() == y by {
            if y == l.last() {
                assert(lanes[lanes.len() - 1].last() == y);
            } else {
                assert(lane_lasts(d).count(y) > 0);
                let i = choose|i: int| 0 <= i < d.len() && (#[trigger] d[i]).last() == y;
                assert(lanes[i] == d[i]);
            }
        }
        assert forall|y: NoteEvent| #[trigger] lane_lasts(lanes).count(y) <= lanes_multiset(lanes).count(y) by {
            assert(lane_lasts(d).count(y) <= lanes_multiset(d).count(y));
        }
    }
}

proof fn lemma_place_all_witness(s: Seq<NoteEvent>)
    requires
        ends_fit(s),
        starts_ascending(s),
        forall|i: int| 0 <= i < s.len() ==> (#[trigger] s[i]).duration > 0,
    ensures
        place_all(s).0.len() == 0 || k_sound_together(s.to_multiset(), place_all(s).0.len() as int),
    decreases s.len(),
{
    broadcast use vstd::seq_lib::group_to_multiset_ensures;
    broadcast use vstd::multiset::group_multiset_axioms;
    if s.len() > 0 {
        let d = s.drop_last();
        lemma_ends_fit_prefix(s);
        assert(starts_ascending(d)) by {
            assert forall|i: int, j: int| 0 <= i <= j < d.len() implies #[trigger] d[i].start <= #[trigger] d[j].start by {
                assert(d[i] == s[i] && d[j] == s[j]);
            }
        }
        assert forall|i: int| 0 <= i < d.len() implies (#[trigger] d[i]).duration > 0 by {
            assert(d[i] == s[i]);
        }
        lemma_place_all_witness(d);
        lemma_place_all_ok(d);
        let prev = place_all(d);
        let x = s.last();
        let next = place_all(s);
        assert(next == place_note(prev, x));
        assert(d.push(x) =~= s);
        assert(s.to_multiset() == d.to_multiset().insert(x));
        assert(x == s[s.len() - 1]);
        match best_lane(prev.1, x.start) {
            Some(b) => {
                if prev.0.len() > 0 {
                    let (w, t) = choose|w: Multiset<NoteEvent>, t: int|
                        w.len() == prev.0.len() as int && w.subset_of(d.to_multiset())
                            && #[trigger] all_sound_at(w, t);
                    assert(w.subset_of(s.to_multiset()));
                    assert(k_sound_together(s.to_multiset(), next.0.len() as int));
                }
            },
            None => {
                assert forall|i: int| 0 <= i < prev.1.len() implies #[trigger] prev.1[i] > x.start by {
                    if prev.1[i] <= x.start {
                        lemma_some_best_lane(prev.1, x.start, i);
                    }
                }
                lemma_lane_lasts(prev.0);
                let w = lane_lasts(prev.0).insert(x);
                let t = x.start as int;
                assert(w.len() == next.0.len());
                assert(w.subset_of(s.to_multiset()));
                assert forall|y: NoteEvent| #[trigger] w.count(y) > 0 implies sounds_at(y, t) by {
                    if y != x {
                        assert(lane_lasts(prev.0).count(y) > 0);
                        let i = choose|i: int| 0 <= i < prev.0.len() && (#[trigger] prev.0[i]).last() == y;
                        assert(prev.1[i] > x.start);
                        assert(d.to_multiset().count(y) > 0);
                        assert(d.contains(y));
                        let k = choose|k: int| 0 <= k < d.len() && d[k] == y;
                        assert(s[k] == y);
                        assert(s[k].start <= s[s.len() - 1].start);
                    }
                }
                assert(all_sound_at(w, t));
                assert(k_sound_together(s.to_multiset(), next.0.len() as int));
            },
        }
    }
}

proof fn lemma_some_best_lane(ends: Seq<u32>, start: u32, i: int)
    requires
        0 <= i < ends.len(),
        ends[i] <= start,
    ensures
        best_lane(ends, start) is Some,
    decreases ends.len(),
{
    lemma_choose_best(ends, start, ends.len() as int);
    let b = choose_best(ends, start, ends.len() as int);
    assert(is_best_lane(ends, start, b));
}

/// The best free lane among the first `k`, if any is free.
spec fn choose_best(ends: Seq<u32>, start: u32, k: int) -> int
    decreases k,
{
    if k <= 0 {
        -1
    } else {
        let b = choose_best(ends, start, k - 1);
        if ends[k - 1] <= start && (b < 0 || ends[k - 1] > ends[b]) { k - 1 } else { b }
    }
}

proof fn lemma_choose_best(ends: Seq<u32>, start: u32, k: int)
    requires
        0 <= k <= ends.len(),
    ensures
        ({
            let b = choose_best(ends, start, k);
            &&& -1 <= b < k
            &&& b < 0 <==> forall|j: int| 0 <= j < k ==> #[trigger] ends[j] > start
            &&& b >= 0 ==> ends[b] <= start
                && (forall|j: int| 0 <= j < k && ends[j] <= start ==> #[trigger] ends[j] <= ends[b])
                && (forall|j: int| 0 <= j < b && ends[j] <= start ==> #[trigger] ends[j] < ends[b])
        }),
    decreases k,
{
    if k > 0 {
        lemma_choose_best(ends, start, k - 1);
    }
}

/// No more lanes than needed: when every note lasts at least one tick, there
/// is a tick at which as many notes sound together as there are lanes, so no
/// spreading of the notes without overlap makes do with fewer lanes.
pub proof fn law_lanes_minimal(notes: Seq<NoteEvent>)
    requires
        ends_fit(notes),
        forall|i: int| 0 <= i < notes.len() ==> (#[trigger] notes[i]).duration > 0,
    ensures
        lanes_of(notes).len() == 0 || k_sound_together(notes.to_multiset(), lanes_of(notes).len() as int),
{
    broadcast use vstd::seq_lib::group_to_multiset_ensures;
    let sorted = sort_by_start(notes);
    lemma_sort_keeps_notes(notes);
    lemma_same_notes_fit(notes, sorted);
    law_sort_ascending(notes);
    assert forall|i: int| 0 <= i < sorted.len() implies (#[trigger] sorted[i]).duration > 0 by {
        assert(sorted.contains(sorted[i]));
        assert(sorted.to_multiset().count(sorted[i]) > 0);
        assert(notes.contains(sorted[i]));
    }
    lemma_place_all_witness(sorted);
}

/// The notes of a lane follow one another without overlap.
pub open spec fn lane_in_order(l: Seq<NoteEvent>) -> bool {
    forall|a: int, b: int| 0 <= a < b < l.len() ==> #[trigger] l[a].end() <= #[trigger] l[b].start
}

proof fn lemma_one_sounding_per_lane(l: Seq<NoteEvent>, w: Multiset<NoteEvent>, t: int)
    requires
        lane_in_order(l),
        w.subset_of(l.to_multiset()),
        all_sound_at(w, t),
    ensures
        w.len() <= 1,
    decreases l.len(),
{
    broadcast use vstd::seq_lib::group_to_multiset_ensures;
    broadcast use vstd::multiset::group_multiset_axioms;
    if l.len() == 0 {
        assert(w =~= Multiset::empty());
    } else {
        let d = l.drop_last();
        let x = l.last();
        assert(d.push(x) =~= l);
        assert(l.to_multiset() == d.to_multiset().insert(x));
        assert(lane_in_order(d)) by {
            assert forall|a: int, b: int| 0 <= a < b < d.len() implies #[trigger] d[a].end() <= #[trigger] d[b].start by {
                assert(d[a] == l[a] && d[b] == l[b]);
            }
        }
        if w.count(x) == 0 {
            assert(w.subset_of(d.to_multiset()));
            lemma_one_sounding_per_lane(d, w, t);
        } else {
            assert(sounds_at(x, t));
            // Every earlier note of the lane has ended by the time `x` starts.
            assert forall|y: NoteEvent| d.contains(y) implies !sounds_at(y, t) by {
                let a = choose|a: int| 0 <= a < d.len() && d[a] == y;
                assert(l[a] == y && l[l.len() - 1] == x);
            }
            assert(!d.contains(x));
            assert(d.to_multiset().count(x) == 0);
            assert forall|y: NoteEvent| y != x implies #[trigger] w.count(y) == 0 by {
                if w.count(y) > 0 {
                    assert(sounds_at(y, t));
                    assert(d.to_multiset().count(y) > 0);
                    assert(d.contains(y));
                }
            }
            assert(w =~= Multiset::singleton(x));
        }
    }
}

proof fn lemma_sounding_bounded(lanes: Seq<Seq<NoteEvent>>, w: Multiset<NoteEvent>, t: int)
    requires
        forall|i: int| 0 <= i < lanes.len() ==> lane_in_order(#[trigger] lanes[i]),
        w.subset_of(lanes_multiset(lanes)),
        all_sound_at(w, t),
    ensures
        w.len() <= lanes.len(),
    decreases lanes.len(),
{
    broadcast use vstd::multiset::group_multiset_axioms;
    broadcast use vstd::multiset::lemma_intersection_count;
    if lanes.len() == 0 {
        assert(w =~= Multiset::empty());
    } else {
        let d = lanes.drop_last();
        let l = lanes.last();
        assert(lane_in_order(l)) by {
            assert(l == lanes[lanes.len() - 1]);
        }
        assert forall|i: int| 0 <= i < d.len() implies lane_in_order(#[trigger] d[i]) by {
            assert(d[i] == lanes[i]);
        }
        let wl = w.intersection_with(l.to_multiset());
        let wd = w.sub(wl);
        assert(wl.subset_of(w));
        assert(wl.subset_of(l.to_multiset()));
        assert(all_sound_at(wl, t));
        assert(wd.subset_of(lanes_multiset(d)));
        assert(all_sound_at(wd, t));
        lemma_one_sounding_per_lane(l, wl, t);
        lemma_sounding_bounded(d, wd, t);
        assert(wd.len() == w.len() - wl.len());
    }
}

/// Never too few lanes: however many notes sound together at one tick, there
/// are at least as many lanes.
pub proof fn law_lanes_enough(notes: Seq<NoteEvent>, w: Multiset<NoteEvent>, t: int)
    requires
        ends_fit(notes),
        w.subset_of(notes.to_multiset()),
        all_sound_at(w, t),
    ensures
        w.len() <= lanes_of(notes).len(),
{
    lemma_sort_keeps_notes(notes);
    lemma_same_notes_fit(notes, sort_by_start(notes));
    lemma_place_all_ok(sort_by_start(notes));
    let lanes = lanes_of(notes);
    assert forall|i: int| 0 <= i < lanes.len() implies lane_in_order(#[trigger] lanes[i]) by {
        assert forall|a: int, b: int| 0 <= a < b < lanes[i].len() implies #[trigger] lanes[i][a].end() <= #[trigger] lanes[i][b].start by {
        }
    }
    lemma_sounding_bounded(lanes, w, t);
}

proof fn lemma_place_all_opening_order(s: Seq<NoteEvent>)
    requires
        ends_fit(s),
        starts_ascending(s),
    ensures
        place_all(s).0.len() == 0 <==> s.len() == 0,
        forall|i: int, j: int| 0 <= i < j < place_all(s).0.len()
            ==> (#[trigger] place_all(s).0[i])[0].start <= (#[trigger] place_all(s).0[j])[0].start,
    decreases s.len(),
{
    lemma_place_all_ok(s);
    if s.len() > 0 {
        let d = s.drop_last();
        lemma_ends_fit_prefix(s);
        assert(starts_ascending(d)) by {
            assert forall|i: int, j: int| 0 <= i <= j < d.len() implies #[trigger] d[i].start <= #[trigger] d[j].start by {
                assert(d[i] == s[i] && d[j] == s[j]);
            }
        }
        lemma_place_all_opening_order(d);
        lemma_place_all_ok(d);
        lemma_place_all_members(d);
        let prev = place_all(d);
        let x = s.last();
        let next = place_all(s);
        assert(next == place_note(prev, x));
        match best_lane(prev.1, x.start) {
            Some(b) => {
                let c = choose|c: int| is_best_lane(prev.1, x.start, c);
                assert(is_best_lane(prev.1, x.start, c));
                assert forall|i: int| 0 <= i < next.0.len() implies (#[trigger] next.0[i])[0] == prev.0[i][0] by {
                    assert(prev.0[i].len() > 0);
                }
            },
            None => {
                assert forall|i: int, j: int| 0 <= i < j < next.0.len()
                    implies (#[trigger] next.0[i])[0].start <= (#[trigger] next.0[j])[0].start by {
                    assert(next.0[i] == prev.0[i]);
                    if j == next.0.len() - 1 {
                        assert(next.0[j] == seq![x]);
                        assert(prev.0[i].len() > 0);
                        let y = prev.0[i][0];
                        assert(d.contains(y));
                        let k = choose|k: int| 0 <= k < d.len() && d[k] == y;
                        assert(s[k] == y && s[s.len() - 1] == x);
                    } else {
                        assert(next.0[j] == prev.0[j]);
                    }
                }
            },
        }
    }
}

/// Lanes come in the order they were opened: each lane's first note starts
/// no later than the next lane's first note; there are lanes exactly when
/// there are notes.
pub proof fn law_lanes_in_opening_order(notes: Seq<NoteEvent>)
    requires
        ends_fit(notes),
    ensures
        lanes_of(notes).len() == 0 <==> notes.len() == 0,
        forall|i: int, j: int| 0 <= i < j < lanes_of(notes).len()
            ==> (#[trigger] lanes_of(notes)[i])[0].start <= (#[trigger] lanes_of(notes)[j])[0].start,
{
    lemma_sort_keeps_notes(notes);
    lemma_same_notes_fit(notes, sort_by_start(notes));
    law_sort_ascending(notes);
    lemma_place_all_opening_order(sort_by_start(notes));
}

proof fn lemma_same_notes_fit(a: Seq<NoteEvent>, b: Seq<NoteEvent>)
    requires
        ends_fit(a),
        a.to_multiset() == b.to_multiset(),
    ensures
        ends_fit(b),
{
    broadcast use vstd::seq_lib::group_to_multiset_ensures;
    assert forall|i: int| 0 <= i < b.len() implies (#[trigger] b[i]).end() <= u32::MAX by {
        assert(b.contains(b[i]));
        assert(b.to_multiset().count(b[i]) > 0);
        assert(a.contains(b[i]));
    }
}

/// Sorting keeps the notes: each occurs as often before as after.
pub proof fn lemma_sort_keeps_notes(s: Seq<NoteEvent>)
    ensures
        sort_by_start(s).to_multiset() == s.to_multiset(),
        sort_by_start(s).len() == s.len(),
    decreases s.len(),
{
    broadcast use vstd::seq_lib::group_to_multiset_ensures;
    if s.len() > 0 {
        lemma_sort_keeps_notes(s.drop_last());
        lemma_insert_keeps_notes(sort_by_start(s.drop_last()), s.last());
        assert(s.drop_last().push(s.last()) =~= s);
    }
}

proof fn lemma_insert_keeps_notes(sorted: Seq<NoteEvent>, x: NoteEvent)
    ensures
        insert_by_start(sorted, x).to_multiset() == sorted.to_multiset().insert(x),
        insert_by_start(sorted, x).len() == sorted.len() + 1,
    decreases sorted.len(),
{
    broadcast use vstd::seq_lib::group_to_multiset_ensures;
    if sorted.len() == 0 {
        assert(seq![x] =~= Seq::<NoteEvent>::empty().push(x));
    } else if sorted.last().start <= x.start {
    } else {
        lemma_insert_keeps_notes(sorted.drop_last(), x);
        assert(sorted.drop_last().push(sorted.last()) =~= sorted);
        assert(sorted.drop_last().to_multiset().insert(x).insert(sorted.last())
            =~= sorted.drop_last().to_multiset().insert(sorted.last()).insert(x));
    }
}

} // verus!
