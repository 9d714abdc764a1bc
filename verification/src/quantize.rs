//! Lanes of notes laid out on a grid of equal steps.
use vstd::prelude::*;
use crate::{ceil_div, div_ceil};
use crate::notes::NoteEvent;
use crate::lanes::{ends_fit, lane_in_order};

verus! {

/// What a lane does during one step.
#[derive(Debug, Clone, Copy, PartialEq, Eq, Structural)]
pub enum QuantizedNote {
    Note(u8),
    Rest,
    Hold,
}

/// The tick at which the last note of a lane ends (0 for an empty lane).
pub open spec fn lane_end(lane: Seq<NoteEvent>) -> int
    decreases lane.len(),
{
    if lane.len() == 0 {
        0
    } else {
        let prev = lane_end(lane.drop_last());
        if prev >= lane.last().end() { prev } else { lane.last().end() }
    }
}

/// The number of steps of a lane: its end, in steps rounded up.
pub open spec fn step_count(lane: Seq<NoteEvent>, division: int) -> int {
    ceil_div(lane_end(lane), division)
}

/// The step at which a note starts.
pub open spec fn note_start_step(n: NoteEvent, division: int) -> int {
    ceil_div(n.start as int, division)
}

/// The number of steps a note lasts.
pub open spec fn note_duration_steps(n: NoteEvent, division: int) -> int {
    ceil_div(n.duration as int, division)
}

/// One note written onto the steps: its pitch at its first step, holds on
/// the steps after it that it lasts, the other steps unchanged.
pub open spec fn paint(steps: Seq<QuantizedNote>, n: NoteEvent, division: int) -> Seq<QuantizedNote> {
    let s0 = note_start_step(n, division);
    let d = note_duration_steps(n, division);
    Seq::new(
        steps.len(),
        |i: int|
            if i == s0 {
                QuantizedNote::Note(n.pitch)
            } else if s0 < i < s0 + d {
                QuantizedNote::Hold
            } else {
                steps[i]
            },
    )
}

/// `total` rests with the notes of the lane written over them in order.
pub open spec fn paint_all(lane: Seq<NoteEvent>, division: int, total: int) -> Seq<QuantizedNote>
    decreases lane.len(),
{
    if lane.len() == 0 {
        Seq::new(total as nat, |i: int| QuantizedNote::Rest)
    } else {
        paint(paint_all(lane.drop_last(), division, total), lane.last(), division)
    }
}

/// A lane on the grid.
pub open spec fn quantize_lane(lane: Seq<NoteEvent>, division: int) -> Seq<QuantizedNote> {
    paint_all(lane, division, step_count(lane, division))
}

/// Every note of the lane starts on a step within the lane.
pub open spec fn lane_fits(lane: Seq<NoteEvent>, division: int) -> bool {
    forall|i: int| 0 <= i < lane.len() ==> note_start_step(#[trigger] lane[i], division) < step_count(lane, division)
}

/// Every lane can be laid out on a grid of `division` ticks per step.
pub open spec fn lanes_quantizable(lanes: Seq<Seq<NoteEvent>>, division: int) -> bool {
    &&& division > 0
    &&& forall|i: int| 0 <= i < lanes.len() ==> ends_fit(#[trigger] lanes[i])
    &&& forall|i: int| 0 <= i < lanes.len() ==> lane_fits(#[trigger] lanes[i], division)
}

proof fn lemma_lane_end_bounds(lane: Seq<NoteEvent>)
    ensures
        lane_end(lane) >= 0,
        forall|i: int| 0 <= i < lane.len() ==> (#[trigger] lane[i]).end() <= lane_end(lane),
        ends_fit(lane) ==> lane_end(lane) <= u32::MAX,
    decreases lane.len(),
{
    if lane.len() > 0 {
        lemma_lane_end_bounds(lane.drop_last());
        assert forall|i: int| 0 <= i < lane.len() implies (#[trigger] lane[i]).end() <= lane_end(lane) by {
            if i < lane.len() - 1 {
                assert(lane[i] == lane.drop_last()[i]);
            }
        }
        if ends_fit(lane) {
            assert(ends_fit(lane.drop_last())) by {
                assert forall|i: int| 0 <= i < lane.drop_last().len() implies (#[trigger] lane.drop_last()[i]).end() <= u32::MAX by {
                    assert(lane.drop_last()[i] == lane[i]);
                }
            }
            assert(lane[lane.len() - 1].end() <= u32::MAX);
        }
    }
}

proof fn lemma_paint_all_len(lane: Seq<NoteEvent>, division: int, total: int)
    requires
        total >= 0,
    ensures
        paint_all(lane, division, total).len() == total,
    decreases lane.len(),
{
    if lane.len() > 0 {
        lemma_paint_all_len(lane.drop_last(), division, total);
    }
}

/// The tick at which the last note of a lane ends.
pub fn lane_end_tick(lane: &Vec<NoteEvent>) -> (max_end_tick: u32)
    requires
        ends_fit(lane@),
    ensures
        max_end_tick == lane_end(lane@),
{
    let n = lane.len();
    let mut max_end_tick: u32 = 0;
    let mut k: usize = 0;
    while k < n
        invariant
            n == lane@.len(),
            ends_fit(lane@),
            k <= n,
            max_end_tick == lane_end(lane@.take(k as int)),
        decreases n - k,
    {
        let note = lane[k];
        assert(lane@.take(k + 1).drop_last() =~= lane@.take(k as int));
        assert(note.end() <= u32::MAX);
        let end = note.start + note.duration;
        max_end_tick = if max_end_tick >= end { max_end_tick } else { end };
        k = k + 1;
    }
    assert(lane@.take(n as int) =~= lane@);
    max_end_tick
}

/// Whether every note of every lane starts on a step within its lane.
pub fn lanes_fit(lanes: &Vec<Vec<NoteEvent>>, smallest_division: u32) -> (res: bool)
    requires
        smallest_division > 0,
        forall|i: int| 0 <= i < lanes@.len() ==> ends_fit(#[trigger] lanes@[i]@),
    ensures
        res == forall|i: int| 0 <= i < lanes@.len() ==> lane_fits(#[trigger] lanes@[i]@, smallest_division as int),
{
    let ghost sd = smallest_division as int;
    let n = lanes.len();
    let mut k: usize = 0;
    while k < n
        invariant
            n == lanes@.len(),
            smallest_division > 0,
            sd == smallest_division as int,
            forall|i: int| 0 <= i < lanes@.len() ==> ends_fit(#[trigger] lanes@[i]@),
            k <= n,
            forall|i: int| 0 <= i < k ==> lane_fits(#[trigger] lanes@[i]@, sd),
        decreases n - k,
    {
        let lane = &lanes[k];
        assert(ends_fit(lane@));
        let total_steps = div_ceil(lane_end_tick(lane), smallest_division);
        let m = lane.len();
        let mut j: usize = 0;
        while j < m
            invariant
                m == lane@.len(),
                smallest_division > 0,
                sd == smallest_division as int,
                total_steps as int == step_count(lane@, sd),
                lane@ == lanes@[k as int]@,
                k < n,
                n == lanes@.len(),
                j <= m,
                forall|x: int| 0 <= x < j ==> note_start_step(#[trigger] lane@[x], sd) < step_count(lane@, sd),
            decreases m - j,
        {
            if div_ceil(lane[j].start, smallest_division) >= total_steps {
                proof {
                    assert(!lane_fits(lane@, sd)) by {
                        assert(note_start_step(lane@[j as int], sd) >= step_count(lane@, sd));
                    }
                }
                return false;
            }
            j = j + 1;
        }
        k = k + 1;
    }
    true
}

/// Whether a note takes up step `i`: its first step or a step it is held.
pub open spec fn covers(n: NoteEvent, i: int, division: int) -> bool {
    i == note_start_step(n, division) || note_start_step(n, division) < i < note_start_step(n, division)
        + note_duration_steps(n, division)
}

proof fn lemma_paint_all_marks(lane: Seq<NoteEvent>, division: int, total: int)
    requires
        total >= 0,
    ensures
        paint_all(lane, division, total).len() == total,
        forall|i: int| 0 <= i < total ==> {
            let q = #[trigger] paint_all(lane, division, total)[i];
            &&& (q == QuantizedNote::Rest <==> forall|k: int| 0 <= k < lane.len() ==> !covers(#[trigger] lane[k], i, division))
            &&& (q matches QuantizedNote::Note(p) ==> exists|k: int| 0 <= k < lane.len()
                && i == note_start_step(#[trigger] lane[k], division) && lane[k].pitch == p)
            &&& (q == QuantizedNote::Hold ==> exists|k: int| 0 <= k < lane.len()
                && note_start_step(#[trigger] lane[k], division) < i < note_start_step(lane[k], division)
                + note_duration_steps(lane[k], division))
        },
    decreases lane.len(),
{
    lemma_paint_all_len(lane, division, total);
    if lane.len() > 0 {
        let d = lane.drop_last();
        let n = lane.last();
        lemma_paint_all_marks(d, division, total);
        let before = paint_all(d, division, total);
        let after = paint_all(lane, division, total);
        assert forall|i: int| 0 <= i < total implies {
            let q = #[trigger] after[i];
            &&& (q == QuantizedNote::Rest <==> forall|k: int| 0 <= k < lane.len() ==> !covers(#[trigger] lane[k], i, division))
            &&& (q matches QuantizedNote::Note(p) ==> exists|k: int| 0 <= k < lane.len()
                && i == note_start_step(#[trigger] lane[k], division) && lane[k].pitch == p)
            &&& (q == QuantizedNote::Hold ==> exists|k: int| 0 <= k < lane.len()
                && note_start_step(#[trigger] lane[k], division) < i < note_start_step(lane[k], division)
                + note_duration_steps(lane[k], division))
        } by {
            let last = lane.len() - 1;
            assert(lane[last] == n);
            assert(forall|k: int| 0 <= k < d.len() ==> #[trigger] d[k] == lane[k]);
            if covers(n, i, division) {
                assert(after[i] != QuantizedNote::Rest);
                assert(covers(lane[last], i, division));
            } else {
                assert(after[i] == before[i]);
                if before[i] == QuantizedNote::Rest {
                    assert forall|k: int| 0 <= k < lane.len() implies !covers(#[trigger] lane[k], i, division) by {
                        if k < d.len() {
                            assert(!covers(d[k], i, division));
                        }
                    }
                } else {
                    let k0 = choose|k: int| 0 <= k < d.len() && covers(#[trigger] d[k], i, division);
                    assert(covers(lane[k0], i, division));
                }
                if let QuantizedNote::Note(p) = before[i] {
                    let k0 = choose|k: int| 0 <= k < d.len() && i == note_start_step(#[trigger] d[k], division)
                        && d[k].pitch == p;
                    assert(lane[k0] == d[k0]);
                }
                if before[i] == QuantizedNote::Hold {
                    let k0 = choose|k: int| 0 <= k < d.len() && note_start_step(#[trigger] d[k], division) < i
                        < note_start_step(d[k], division) + note_duration_steps(d[k], division);
                    assert(lane[k0] == d[k0]);
                }
            }
        }
    }
}

/// What the grid of a lane shows: a step is a rest exactly when no note of
/// the lane takes it up; a step showing a pitch is the first step of a note
/// of that pitch; a held step lies within a note's steps after its first.
pub proof fn law_grid_shows_lane(lane: Seq<NoteEvent>, division: int)
    requires
        division > 0,
    ensures
        quantize_lane(lane, division).len() == step_count(lane, division),
        forall|i: int| 0 <= i < step_count(lane, division) ==> {
            let q = #[trigger] quantize_lane(lane, division)[i];
            &&& (q == QuantizedNote::Rest <==> forall|k: int| 0 <= k < lane.len() ==> !covers(#[trigger] lane[k], i, division))
            &&& (q matches QuantizedNote::Note(p) ==> exists|k: int| 0 <= k < lane.len()
                && i == note_start_step(#[trigger] lane[k], division) && lane[k].pitch == p)
            &&& (q == QuantizedNote::Hold ==> exists|k: int| 0 <= k < lane.len()
                && note_start_step(#[trigger] lane[k], division) < i < note_start_step(lane[k], division)
                + note_duration_steps(lane[k], division))
        },
{
    lemma_lane_end_bounds(lane);
    assert(step_count(lane, division) >= 0) by (nonlinear_arith)
        requires lane_end(lane) >= 0, division > 0, step_count(lane, division) == ceil_div(lane_end(lane), division);
    lemma_paint_all_marks(lane, division, step_count(lane, division));
}

proof fn lemma_multiple_steps(x: int, sd: int)
    requires
        sd > 0,
        x >= 0,
        x % sd == 0,
    ensures
        ceil_div(x, sd) * sd == x,
        ceil_div(x, sd) >= 0,
{
    assert(x / sd * sd == x && x / sd >= 0) by (nonlinear_arith)
        requires sd > 0, x >= 0, x % sd == 0;
}

proof fn lemma_scale(a: int, k: int, sd: int)
    requires
        sd > 0,
    ensures
        a < k <==> a * sd < k * sd,
        a == k <==> a * sd == k * sd,
{
    assert(a < k <==> a * sd < k * sd) by (nonlinear_arith) requires sd > 0;
    assert(a == k <==> a * sd == k * sd) by (nonlinear_arith) requires sd > 0;
}

/// Two different notes of a lane in order never sound at one tick.
proof fn lemma_never_together(lane: Seq<NoteEvent>, i: int, j: int, t: int)
    requires
        lane_in_order(lane),
        0 <= i < lane.len(),
        0 <= j < lane.len(),
        i != j,
    ensures
        !(lane[i].start <= t < lane[i].end() && lane[j].start <= t < lane[j].end()),
{
    if i < j {
        assert(lane[i].end() <= lane[j].start);
    } else {
        assert(lane[j].end() <= lane[i].start);
    }
}

/// A note that starts and lasts whole steps covers step `k` exactly when it
/// sounds at tick `k * division`.
proof fn lemma_covers_exact(n: NoteEvent, k: int, sd: int)
    requires
        sd > 0,
        n.start as int % sd == 0,
        n.duration as int % sd == 0,
        n.duration > 0,
    ensures
        covers(n, k, sd) <==> n.start <= k * sd < n.end(),
        note_start_step(n, sd) == k <==> n.start == k * sd,
        note_start_step(n, sd) < k < note_start_step(n, sd) + note_duration_steps(n, sd)
            <==> n.start < k * sd < n.end(),
{
    lemma_multiple_steps(n.start as int, sd);
    lemma_multiple_steps(n.duration as int, sd);
    let a = note_start_step(n, sd);
    let b = note_duration_steps(n, sd);
    assert((a + b) * sd == a * sd + b * sd) by (nonlinear_arith);
    assert(b >= 1) by (nonlinear_arith) requires b * sd == n.duration, n.duration > 0, sd > 0, b >= 0;
    lemma_scale(a, k, sd);
    lemma_scale(k, a + b, sd);
}

/// Where every note starts and lasts a whole number of steps, lasts at
/// least one, and no two notes of the lane overlap, the grid is exact: the
/// step at tick `k * division` shows the pitch of the note that starts
/// there, a hold where a note started earlier still sounds, and a rest
/// where no note sounds.
pub proof fn law_grid_exact(lane: Seq<NoteEvent>, division: int)
    requires
        division > 0,
        lane_in_order(lane),
        forall|i: int| 0 <= i < lane.len() ==> (#[trigger] lane[i]).start as int % division == 0
            && lane[i].duration as int % division == 0 && lane[i].duration > 0,
    ensures
        forall|k: int, i: int| 0 <= k < step_count(lane, division) && 0 <= i < lane.len()
            && (#[trigger] lane[i]).start == k * division
            ==> #[trigger] quantize_lane(lane, division)[k] == QuantizedNote::Note(lane[i].pitch),
        forall|k: int, i: int| 0 <= k < step_count(lane, division) && 0 <= i < lane.len()
            && (#[trigger] lane[i]).start < k * division < lane[i].end()
            ==> #[trigger] quantize_lane(lane, division)[k] == QuantizedNote::Hold,
        forall|k: int| 0 <= k < step_count(lane, division)
            && (forall|i: int| 0 <= i < lane.len() ==> !((#[trigger] lane[i]).start <= k * division < lane[i].end()))
            ==> #[trigger] quantize_lane(lane, division)[k] == QuantizedNote::Rest,
{
    let sd = division;
    law_grid_shows_lane(lane, sd);
    let g = quantize_lane(lane, sd);
    assert forall|k: int, i: int| 0 <= k < step_count(lane, sd) && 0 <= i < lane.len()
        && (#[trigger] lane[i]).start == k * sd implies #[trigger] g[k] == QuantizedNote::Note(lane[i].pitch) by {
        lemma_covers_exact(lane[i], k, sd);
        assert(covers(lane[i], k, sd));
        match g[k] {
            QuantizedNote::Note(p) => {
                let m = choose|m: int| 0 <= m < lane.len() && k == note_start_step(#[trigger] lane[m], sd) && lane[m].pitch == p;
                lemma_covers_exact(lane[m], k, sd);
                if m != i {
                    lemma_never_together(lane, m, i, k * sd);
                }
            },
            QuantizedNote::Hold => {
                let m = choose|m: int| 0 <= m < lane.len() && note_start_step(#[trigger] lane[m], sd) < k
                    < note_start_step(lane[m], sd) + note_duration_steps(lane[m], sd);
                lemma_covers_exact(lane[m], k, sd);
                lemma_never_together(lane, m, i, k * sd);
            },
            QuantizedNote::Rest => {},
        }
    }
    assert forall|k: int, i: int| 0 <= k < step_count(lane, sd) && 0 <= i < lane.len()
        && (#[trigger] lane[i]).start < k * sd < lane[i].end() implies #[trigger] g[k] == QuantizedNote::Hold by {
        lemma_covers_exact(lane[i], k, sd);
        assert(covers(lane[i], k, sd));
        if let QuantizedNote::Note(p) = g[k] {
            let m = choose|m: int| 0 <= m < lane.len() && k == note_start_step(#[trigger] lane[m], sd) && lane[m].pitch == p;
            lemma_covers_exact(lane[m], k, sd);
            lemma_never_together(lane, m, i, k * sd);
        }
    }
    assert forall|k: int| 0 <= k < step_count(lane, sd)
        && (forall|i: int| 0 <= i < lane.len() ==> !((#[trigger] lane[i]).start <= k * sd < lane[i].end()))
        implies #[trigger] g[k] == QuantizedNote::Rest by {
        assert forall|i: int| 0 <= i < lane.len() implies !covers(#[trigger] lane[i], k, sd) by {
            lemma_covers_exact(lane[i], k, sd);
            assert(!(lane[i].start <= k * sd < lane[i].end()));
        }
    }
}

/// Lays one lane out on the grid.
fn quantize_lane_exec(lane: &Vec<NoteEvent>, smallest_division: u32) -> (res: Vec<QuantizedNote>)
    requires
        smallest_division > 0,
        ends_fit(lane@),
        lane_fits(lane@, smallest_division as int),
    ensures
        res@ == quantize_lane(lane@, smallest_division as int),
{
    let ghost sd = smallest_division as int;
    let n = lane.len();
    let max_end_tick = lane_end_tick(lane);
    let total_steps = div_ceil(max_end_tick, smallest_division) as usize;
    let mut steps: Vec<QuantizedNote> = Vec::new();
    let mut j: usize = 0;
    while j < total_steps
        invariant
            j <= total_steps,
            steps@ == Seq::new(j as nat, |i: int| QuantizedNote::Rest),
        decreases total_steps - j,
    {
        steps.push(QuantizedNote::Rest);
        j = j + 1;
        assert(steps@ =~= Seq::new(j as nat, |i: int| QuantizedNote::Rest));
    }
    let ghost total = total_steps as int;
    assert(total == step_count(lane@, sd));
    let mut k: usize = 0;
    while k < n
        invariant
            n == lane@.len(),
            ends_fit(lane@),
            lane_fits(lane@, sd),
            sd == smallest_division as int,
            smallest_division > 0,
            total == total_steps as int,
            total == step_count(lane@, sd),
            k <= n,
            steps@ == paint_all(lane@.take(k as int), sd, total),
        decreases n - k,
    {
        let note = lane[k];
        proof {
            assert(lane@.take(k + 1).drop_last() =~= lane@.take(k as int));
            assert(lane@.take(k + 1).last() == note);
            lemma_paint_all_len(lane@.take(k as int), sd, total);
            assert(note_start_step(lane@[k as int], sd) < step_count(lane@, sd));
        }
        let ghost before = steps@;
        let start_step = div_ceil(note.start, smallest_division) as usize;
        let duration_steps = div_ceil(note.duration, smallest_division) as usize;
        steps.set(start_step, QuantizedNote::Note(note.pitch));
        let mut i: usize = 1;
        while i < duration_steps && i < total_steps - start_step
            invariant
                start_step < total_steps,
                steps@.len() == total_steps,
                before.len() == total_steps,
                1 <= i,
                i == 1 || i <= duration_steps,
                forall|x: int| 0 <= x < total_steps ==> #[trigger] steps@[x] == if x == start_step {
                    QuantizedNote::Note(note.pitch)
                } else if start_step < x < start_step + i {
                    QuantizedNote::Hold
                } else {
                    before[x]
                },
            decreases total_steps - i,
        {
            let idx = start_step + i;
            if idx < total_steps {
                steps.set(idx, QuantizedNote::Hold);
            }
            i = i + 1;
        }
        assert(start_step as int == note_start_step(note, sd));
        assert(duration_steps as int == note_duration_steps(note, sd));
        assert(i >= duration_steps || i >= total_steps - start_step);
        assert forall|x: int| 0 <= x < steps@.len() implies #[trigger] steps@[x] == paint(before, note, sd)[x] by {
            let p = paint(before, note, sd);
            if x == start_step {
                assert(p[x] == QuantizedNote::Note(note.pitch));
            } else if start_step < x < start_step + duration_steps {
                assert(x < start_step + i);
                assert(p[x] == QuantizedNote::Hold);
            } else {
                assert(p[x] == before[x]);
            }
        }
        assert(steps@ =~= paint(before, note, sd));
        k = k + 1;
    }
    assert(lane@.take(n as int) =~= lane@);
    steps
}

/// Lays every lane out on a grid of `smallest_division` ticks per step, and
/// gives how many steps make up `hdr_division` ticks, rounded up.
pub fn quantize_lanes(lanes: Vec<Vec<NoteEvent>>, smallest_division: u32, hdr_division: u32) -> (res: (u32, Vec<Vec<QuantizedNote>>))
    requires
        lanes_quantizable(lanes@.map_values(|l: Vec<NoteEvent>| l@), smallest_division as int),
    ensures
        res.0 == ceil_div(hdr_division as int, smallest_division as int),
        res.1@.map_values(|q: Vec<QuantizedNote>| q@)
            == lanes@.map_values(|l: Vec<NoteEvent>| quantize_lane(l@, smallest_division as int)),
{
    let ghost views = lanes@.map_values(|l: Vec<NoteEvent>| l@);
    let speed_mod = div_ceil(hdr_division, smallest_division);
    let mut quantized_lanes: Vec<Vec<QuantizedNote>> = Vec::new();
    let n = lanes.len();
    let mut k: usize = 0;
    while k < n
        invariant
            n == lanes@.len(),
            views == lanes@.map_values(|l: Vec<NoteEvent>| l@),
            lanes_quantizable(views, smallest_division as int),
            k <= n,
            quantized_lanes@.len() == k,
            forall|i: int| 0 <= i < k ==> (#[trigger] quantized_lanes@[i])@
                == quantize_lane(lanes@[i]@, smallest_division as int),
        decreases n - k,
    {
        assert(views[k as int] == lanes@[k as int]@);
        let steps = quantize_lane_exec(&lanes[k], smallest_division);
        quantized_lanes.push(steps);
        k = k + 1;
    }
    assert(quantized_lanes@.map_values(|q: Vec<QuantizedNote>| q@)
        =~= lanes@.map_values(|l: Vec<NoteEvent>| quantize_lane(l@, smallest_division as int)));
    (speed_mod, quantized_lanes)
}

/// A track laid out on the grid: its lanes, its name, and the number of
/// steps per quarter note.
#[derive(Debug)]
pub struct QuantizedTrack {
    pub lanes: Vec<Vec<QuantizedNote>>,
    pub name: Vec<char>,
    pub speed_mod: u32,
}

/// The end of a lane is the latest end of its notes, and 0 for no notes.
pub proof fn law_lane_end_is_latest(lane: Seq<NoteEvent>)
    ensures
        forall|i: int| 0 <= i < lane.len() ==> (#[trigger] lane[i]).end() <= lane_end(lane),
        lane.len() == 0 ==> lane_end(lane) == 0,
        lane.len() > 0 ==> exists|i: int| 0 <= i < lane.len() && (#[trigger] lane[i]).end() == lane_end(lane),
    decreases lane.len(),
{
    lemma_lane_end_bounds(lane);
    if lane.len() > 0 {
        let d = lane.drop_last();
        law_lane_end_is_latest(d);
        if lane_end(d) >= lane.last().end() && d.len() > 0 {
            let i = choose|i: int| 0 <= i < d.len() && (#[trigger] d[i]).end() == lane_end(d);
            assert(lane[i] == d[i]);
        } else {
            assert(lane[lane.len() - 1] == lane.last());
        }
    }
}

} // verus!
