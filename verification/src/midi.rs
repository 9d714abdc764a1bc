//! A whole MIDI file: from its bytes to its tracks laid out on the grid.
use vstd::prelude::*;
use crate::ceil_div;
use crate::stream::reversed_bytes;
use crate::chunks::{Chunk, HeaderData, be16, is_header_tag, chunk_layout, try_parse_chunks, process_header_chunk};
use crate::track::{Event, Track, ChunkProcessingResult, is_track_tag, track_from, try_process_chunk};
use crate::notes::{NoteEvent, lemma_elapsed_prefix, elapsed, run_events, track_notes, events_to_notes, law_notes_end_by_last_tick};
use crate::lanes::{lanes_of, ends_fit, assign_lanes, law_lanes_hold_given_notes};
use crate::quantize::{
    law_grid_shows_lane, QuantizedNote, QuantizedTrack, lane_fits, quantize_lane, quantize_lanes, lanes_fit, step_count,
    lane_end, note_start_step,
};

verus! {

/// Why a file could not be read.
#[derive(Debug, Clone, Copy, PartialEq, Eq, Structural)]
pub enum MidiError {
    /// The file ends inside a chunk.
    TruncatedChunk,
    /// The file has fewer than two chunks.
    InvalidChunkCount,
    /// The first chunk is not a header chunk of length 6.
    InvalidHeader,
    /// The header gives format 2, which is not supported.
    UnsupportedFormat,
    /// The header gives a format above 2.
    InvalidFormat,
    /// A track chunk ends inside an event.
    TruncatedTrack,
    /// The delta times of a track add up past `u32::MAX`.
    TimeOverflow,
    /// A note closed by a note-off lasts zero ticks, so the grid has no step.
    ZeroDivision,
    /// A note starts on a step past the end of its lane.
    StepOutOfRange,
}

/// The header data of a header chunk's body.
pub open spec fn header_of(body: Seq<u8>) -> HeaderData {
    HeaderData {
        format: be16(body, 0) as u16,
        ntrks: be16(body, 2) as u16,
        division: be16(body, 4) as u16,
    }
}

/// The tracks among the chunks, in order; chunks of other types are passed
/// over. `None` if a track chunk ends inside an event.
pub open spec fn tracks_of(cs: Seq<(Seq<u8>, Seq<u8>)>) -> Option<Seq<(Seq<Event>, Seq<char>)>>
    decreases cs.len(),
{
    if cs.len() == 0 {
        Some(Seq::empty())
    } else {
        match tracks_of(cs.drop_last()) {
            None => None,
            Some(ts) => {
                let c = cs.last();
                if !is_track_tag(c.0) {
                    Some(ts)
                } else {
                    match track_from(c.1, 0) {
                        None => None,
                        Some(t) => Some(ts.push(t)),
                    }
                }
            },
        }
    }
}

/// A track laid out: the notes spread over lanes, each lane on a grid whose
/// step is the shortest note closed by a note-off, and the number of steps
/// per quarter note.
pub open spec fn lay_out(evs: Seq<Event>, division: u16) -> Result<(u32, Seq<Seq<QuantizedNote>>), MidiError> {
    if elapsed(evs) > u32::MAX {
        Err(MidiError::TimeOverflow)
    } else {
        let sd = run_events(evs).lowest as int;
        let lanes = lanes_of(track_notes(evs));
        if sd == 0 {
            Err(MidiError::ZeroDivision)
        } else if !(forall|i: int| 0 <= i < lanes.len() ==> lane_fits(#[trigger] lanes[i], sd)) {
            Err(MidiError::StepOutOfRange)
        } else {
            Ok((ceil_div(division as int, sd) as u32, lanes.map_values(|l: Seq<NoteEvent>| quantize_lane(l, sd))))
        }
    }
}

/// A laid-out track as its lanes, its name and its steps per quarter note.
pub type TrackModel = (Seq<Seq<QuantizedNote>>, Seq<char>, u32);

/// The tracks laid out one after the other; the first that fails decides.
pub open spec fn lay_out_all(ts: Seq<(Seq<Event>, Seq<char>)>, division: u16) -> Result<Seq<TrackModel>, MidiError>
    decreases ts.len(),
{
    if ts.len() == 0 {
        Ok(Seq::empty())
    } else {
        match lay_out_all(ts.drop_last(), division) {
            Err(e) => Err(e),
            Ok(qs) => match lay_out(ts.last().0, division) {
                Err(e) => Err(e),
                Ok(q) => Ok(qs.push((q.1, ts.last().1, q.0))),
            },
        }
    }
}

/// What reading a file gives: its header and its tracks laid out, or why it
/// cannot be read.
pub open spec fn midi_result(file: Seq<u8>) -> Result<(HeaderData, Seq<TrackModel>), MidiError> {
    match chunk_layout(file, 0) {
        None => Err(MidiError::TruncatedChunk),
        Some(cs) => {
            if cs.len() < 2 {
                Err(MidiError::InvalidChunkCount)
            } else if !(is_header_tag(cs[0].0) && cs[0].1.len() == 6) {
                Err(MidiError::InvalidHeader)
            } else {
                let hdr = header_of(cs[0].1);
                if hdr.format == 2 {
                    Err(MidiError::UnsupportedFormat)
                } else if hdr.format > 2 {
                    Err(MidiError::InvalidFormat)
                } else {
                    match tracks_of(cs.drop_first()) {
                        None => Err(MidiError::TruncatedTrack),
                        Some(ts) => match lay_out_all(ts, hdr.division) {
                            Err(e) => Err(e),
                            Ok(qs) => Ok((hdr, qs)),
                        },
                    }
                }
            }
        }
    }
}

impl QuantizedTrack {
    pub open spec fn model(&self) -> TrackModel {
        (self.lanes@.map_values(|l: Vec<QuantizedNote>| l@), self.name@, self.speed_mod)
    }
}

/// The sum of the delta times, if it fits in a `u32`.
pub fn total_ticks(events: &Vec<Event>) -> (res: Option<u32>)
    ensures
        match res {
            Some(t) => t == elapsed(events@),
            None => elapsed(events@) > u32::MAX,
        },
{
    let n = events.len();
    let mut time: u32 = 0;
    let mut i: usize = 0;
    while i < n
        invariant
            n == events@.len(),
            i <= n,
            time == elapsed(events@.take(i as int)),
        decreases n - i,
    {
        assert(events@.take(i + 1).drop_last() =~= events@.take(i as int));
        match time.checked_add(events[i].deltatime) {
            Some(t) => time = t,
            None => {
                proof {
                    lemma_elapsed_prefix(events@, i + 1);
                }
                return None;
            },
        }
        i = i + 1;
    }
    assert(events@.take(n as int) =~= events@);
    Some(time)
}

/// Lays one track out on the grid.
pub fn lay_out_track(events: Vec<Event>, division: u16) -> (res: Result<(u32, Vec<Vec<QuantizedNote>>), MidiError>)
    ensures
        match lay_out(events@, division) {
            Err(e) => res == Err::<(u32, Vec<Vec<QuantizedNote>>), MidiError>(e),
            Ok(q) => res matches Ok(r) && r.0 == q.0 && r.1@.map_values(|l: Vec<QuantizedNote>| l@) == q.1,
        },
{
    let ghost evs = events@;
    if total_ticks(&events).is_none() {
        return Err(MidiError::TimeOverflow);
    }
    let (smallest_division, note_events) = events_to_notes(events);
    proof {
        law_notes_end_by_last_tick(evs);
    }
    let ghost notes = note_events@;
    let lanes = assign_lanes(note_events);
    let ghost lv = lanes@.map_values(|l: Vec<NoteEvent>| l@);
    assert(lv == lanes_of(notes));
    proof {
        law_lanes_hold_given_notes(notes);
        assert forall|i: int| 0 <= i < lanes@.len() implies ends_fit(#[trigger] lanes@[i]@) by {
            assert(lanes@[i]@ == lv[i]);
            assert forall|j: int| 0 <= j < lv[i].len() implies (#[trigger] lv[i][j]).end() <= u32::MAX by {
                assert(notes.contains(lv[i][j]));
            }
        }
    }
    if smallest_division == 0 {
        return Err(MidiError::ZeroDivision);
    }
    if !lanes_fit(&lanes, smallest_division) {
        proof {
            let k = choose|k: int| 0 <= k < lanes@.len() && !lane_fits(#[trigger] lanes@[k]@, smallest_division as int);
            assert(lv[k] == lanes@[k]@);
        }
        return Err(MidiError::StepOutOfRange);
    }
    proof {
        assert forall|i: int| 0 <= i < lv.len() implies lane_fits(#[trigger] lv[i], smallest_division as int) by {
            assert(lv[i] == lanes@[i]@);
        }
    }
    let (speed_mod, quantized_lanes) = quantize_lanes(lanes, smallest_division, division as u32);
    assert(quantized_lanes@.map_values(|l: Vec<QuantizedNote>| l@)
        =~= lv.map_values(|l: Seq<NoteEvent>| quantize_lane(l, smallest_division as int)));
    Ok((speed_mod, quantized_lanes))
}

/// Reads a MIDI file: its header, then each track spread over lanes and laid
/// out on the grid.
pub fn parse_midi(data: Vec<u8>) -> (res: Result<(HeaderData, Vec<QuantizedTrack>), MidiError>)
    ensures
        match midi_result(data@) {
            Err(e) => res == Err::<(HeaderData, Vec<QuantizedTrack>), MidiError>(e),
            Ok(r) => res matches Ok(out) && out.0 == r.0
                && out.1@.map_values(|t: QuantizedTrack| t.model()) == r.1,
        },
{
    let reversed = reversed_bytes(&data);
    let chunks = match try_parse_chunks(&reversed) {
        Some(c) => c,
        None => return Err(MidiError::TruncatedChunk),
    };
    let ghost cs = chunk_layout(data@, 0).unwrap();
    assert(chunks@.len() == cs.len());
    if chunks.len() < 2 {
        return Err(MidiError::InvalidChunkCount);
    }
    assert(chunks@[0].model() == cs[0]);
    let hdr_data = match process_header_chunk(&chunks[0]) {
        Ok(h) => h,
        Err(_) => return Err(MidiError::InvalidHeader),
    };
    if hdr_data.format == 2 {
        return Err(MidiError::UnsupportedFormat);
    }
    if hdr_data.format > 2 {
        return Err(MidiError::InvalidFormat);
    }
    let ghost rest = cs.drop_first();
    assert(chunks@[0].wf());
    assert(midi_result(data@) == match tracks_of(rest) {
        None => Err(MidiError::TruncatedTrack),
        Some(ts) => match lay_out_all(ts, hdr_data.division) {
            Err(e) => Err(e),
            Ok(qs) => Ok((hdr_data, qs)),
        },
    });
    assert(rest.take(0) =~= Seq::<(Seq<u8>, Seq<u8>)>::empty());
    let mut tracks: Vec<Track> = Vec::new();
    let mut k: usize = 1;
    let m = chunks.len();
    while k < m
        invariant
            m == chunks@.len(),
            chunks@.map_values(|c: Chunk| c.model()) == cs,
            rest == cs.drop_first(),
            midi_result(data@) == match tracks_of(rest) {
                None => Err(MidiError::TruncatedTrack),
                Some(ts) => match lay_out_all(ts, hdr_data.division) {
                    Err(e) => Err(e),
                    Ok(qs) => Ok((hdr_data, qs)),
                },
            },
            1 <= k <= m,
            tracks_of(rest.take(k - 1)) == Some(tracks@.map_values(|t: Track| (t.events@, t.name@))),
        decreases m - k,
    {
        assert(rest.take(k as int).drop_last() =~= rest.take(k - 1));
        assert(rest.take(k as int).last() == chunks@[k as int].model());
        match try_process_chunk(&chunks[k]) {
            None => {
                proof {
                    assert(tracks_of(rest.take(k as int)) is None);
                    lemma_tracks_of_prefix_none(rest, k as int);
                }
                return Err(MidiError::TruncatedTrack);
            },
            Some(ChunkProcessingResult::UnknownChunkType) => {},
            Some(ChunkProcessingResult::ValidTrack(track)) => {
                let ghost before = tracks@;
                tracks.push(track);
                assert(tracks@.map_values(|t: Track| (t.events@, t.name@))
                    =~= before.map_values(|t: Track| (t.events@, t.name@)).push((track.events@, track.name@)));
            },
        }
        k = k + 1;
    }
    assert(rest.take(m - 1) =~= rest);
    let ghost ts = tracks@.map_values(|t: Track| (t.events@, t.name@));
    assert(ts.take(0) =~= Seq::<(Seq<Event>, Seq<char>)>::empty());
    assert(midi_result(data@) == match lay_out_all(ts, hdr_data.division) {
        Err(e) => Err(e),
        Ok(qs) => Ok((hdr_data, qs)),
    });
    let mut laned_tracks: Vec<QuantizedTrack> = Vec::new();
    assert(laned_tracks@.map_values(|q: QuantizedTrack| q.model()) =~= Seq::<TrackModel>::empty());
    assert(lay_out_all(ts.take(0), hdr_data.division) == Ok::<Seq<TrackModel>, MidiError>(Seq::empty()));
    let nt = tracks.len();
    let mut t: usize = 0;
    while t < nt
        invariant
            nt == tracks@.len(),
            ts.len() == nt,
            forall|j: int| t <= j < nt ==> (#[trigger] tracks@[j]).events@ == ts[j].0 && tracks@[j].name@ == ts[j].1,
            midi_result(data@) == match lay_out_all(ts, hdr_data.division) {
                Err(e) => Err(e),
                Ok(qs) => Ok((hdr_data, qs)),
            },
            t <= nt,
            lay_out_all(ts.take(t as int), hdr_data.division)
                == Ok::<Seq<TrackModel>, MidiError>(laned_tracks@.map_values(|q: QuantizedTrack| q.model())),
        decreases nt - t,
    {
        assert(ts.take(t + 1).drop_last() =~= ts.take(t as int));
        let mut track = Track { events: Vec::new(), name: Vec::new() };
        tracks.set_and_swap(t, &mut track);
        assert(ts.take(t + 1).last() == (track.events@, track.name@));
        let ghost name = track.name@;
        match lay_out_track(track.events, hdr_data.division) {
            Err(e) => {
                proof {
                    lemma_lay_out_all_prefix_err(ts, hdr_data.division, t + 1);
                }
                return Err(e);
            },
            Ok((speed_mod, quantized_lanes)) => {
                let ghost before = laned_tracks@;
                let q = QuantizedTrack { lanes: quantized_lanes, name: track.name, speed_mod };
                laned_tracks.push(q);
                assert(laned_tracks@.map_values(|q: QuantizedTrack| q.model())
                    =~= before.map_values(|q: QuantizedTrack| q.model()).push(q.model()));
            },
        }
        t = t + 1;
    }
    assert(ts.take(nt as int) =~= ts);
    Ok((hdr_data, laned_tracks))
}

/// Whether a chunk is a track chunk.
pub open spec fn is_track_chunk() -> spec_fn((Seq<u8>, Seq<u8>)) -> bool {
    |c: (Seq<u8>, Seq<u8>)| is_track_tag(c.0)
}

proof fn lemma_tracks_of_filter(cs: Seq<(Seq<u8>, Seq<u8>)>)
    ensures
        tracks_of(cs) matches Some(ts) ==> {
            let tcs = cs.filter(is_track_chunk());
            &&& ts.len() == tcs.len()
            &&& forall|i: int| 0 <= i < ts.len() ==> track_from((#[trigger] tcs[i]).1, 0) == Some(ts[i])
        },
    decreases cs.len(),
{
    if cs.len() == 0 {
        reveal(Seq::filter);
    } else {
        let d = cs.drop_last();
        lemma_tracks_of_filter(d);
        d.lemma_filter_push(cs.last(), is_track_chunk());
        assert(d.push(cs.last()) =~= cs);
        if let Some(ts) = tracks_of(cs) {
            let pts = tracks_of(d).unwrap();
            let tcs = cs.filter(is_track_chunk());
            let dcs = d.filter(is_track_chunk());
            assert forall|i: int| 0 <= i < ts.len() implies track_from((#[trigger] tcs[i]).1, 0) == Some(ts[i]) by {
                if i < pts.len() {
                    assert(tcs[i] == dcs[i]);
                    assert(ts[i] == pts[i]);
                }
            }
        }
    }
}

proof fn lemma_lay_out_all_each(ts: Seq<(Seq<Event>, Seq<char>)>, division: u16)
    ensures
        lay_out_all(ts, division) matches Ok(qs) ==> {
            &&& qs.len() == ts.len()
            &&& forall|i: int| 0 <= i < ts.len() ==> lay_out((#[trigger] ts[i]).0, division)
                == Ok::<(u32, Seq<Seq<QuantizedNote>>), MidiError>((qs[i].2, qs[i].0)) && qs[i].1 == ts[i].1
        },
    decreases ts.len(),
{
    if ts.len() > 0 {
        let d = ts.drop_last();
        lemma_lay_out_all_each(d, division);
        if let Ok(qs) = lay_out_all(ts, division) {
            let pqs = lay_out_all(d, division).unwrap();
            assert forall|i: int| 0 <= i < ts.len() implies lay_out((#[trigger] ts[i]).0, division)
                == Ok::<(u32, Seq<Seq<QuantizedNote>>), MidiError>((qs[i].2, qs[i].0)) && qs[i].1 == ts[i].1 by {
                if i < d.len() {
                    assert(ts[i] == d[i]);
                    assert(qs[i] == pqs[i]);
                }
            }
        }
    }
}

/// Reading a file is the composition of its parts. When it succeeds, the
/// header is that of the first chunk, of format 0 or 1; there is one track
/// per track chunk after it, in order; and each track's grid step is the
/// shortest of its notes closed by a note-off, its steps per quarter note
/// the division over that step rounded up, and its lanes those of its notes,
/// each laid out with one entry per step of the grid.
pub proof fn law_file_is_composition(file: Seq<u8>)
    requires
        midi_result(file) is Ok,
    ensures
        ({
            let (h, qs) = midi_result(file).unwrap();
            let cs = chunk_layout(file, 0).unwrap();
            let tcs = cs.drop_first().filter(is_track_chunk());
            &&& chunk_layout(file, 0) is Some
            &&& cs.len() >= 2
            &&& h == header_of(cs[0].1)
            &&& h.format <= 1
            &&& qs.len() == tcs.len()
            &&& forall|i: int| 0 <= i < qs.len() ==> ({
                let evs = track_from((#[trigger] tcs[i]).1, 0).unwrap().0;
                let sd = run_events(evs).lowest as int;
                let lanes = lanes_of(track_notes(evs));
                &&& track_from(tcs[i].1, 0) is Some
                &&& qs[i].1 == track_from(tcs[i].1, 0).unwrap().1
                &&& sd > 0
                &&& qs[i].2 == ceil_div(h.division as int, sd)
                &&& qs[i].0 == lanes.map_values(|l: Seq<NoteEvent>| quantize_lane(l, sd))
                &&& forall|k: int| 0 <= k < lanes.len() ==> (#[trigger] qs[i].0[k]).len() == step_count(lanes[k], sd)
            })
        }),
{
    let (h, qs) = midi_result(file).unwrap();
    let cs = chunk_layout(file, 0).unwrap();
    let ts = tracks_of(cs.drop_first()).unwrap();
    let tcs = cs.drop_first().filter(is_track_chunk());
    lemma_tracks_of_filter(cs.drop_first());
    lemma_lay_out_all_each(ts, h.division);
    assert forall|i: int| 0 <= i < qs.len() implies ({
        let evs = track_from((#[trigger] tcs[i]).1, 0).unwrap().0;
        let sd = run_events(evs).lowest as int;
        let lanes = lanes_of(track_notes(evs));
        &&& track_from(tcs[i].1, 0) is Some
        &&& qs[i].1 == track_from(tcs[i].1, 0).unwrap().1
        &&& sd > 0
        &&& qs[i].2 == ceil_div(h.division as int, sd)
        &&& qs[i].0 == lanes.map_values(|l: Seq<NoteEvent>| quantize_lane(l, sd))
        &&& forall|k: int| 0 <= k < lanes.len() ==> (#[trigger] qs[i].0[k]).len() == step_count(lanes[k], sd)
    }) by {
        assert(track_from(tcs[i].1, 0) == Some(ts[i]));
        let evs = ts[i].0;
        let sd = run_events(evs).lowest as int;
        let lanes = lanes_of(track_notes(evs));
        assert(lay_out(evs, h.division) == Ok::<(u32, Seq<Seq<QuantizedNote>>), MidiError>((qs[i].2, qs[i].0)));
        assert forall|k: int| 0 <= k < lanes.len() implies (#[trigger] qs[i].0[k]).len() == step_count(lanes[k], sd) by {
            law_grid_shows_lane(lanes[k], sd);
        }
        assert(ceil_div(h.division as int, sd) >= 0) by (nonlinear_arith)
            requires sd > 0, h.division >= 0, ceil_div(h.division as int, sd) == if h.division as int % sd == 0 { h.division as int / sd } else { h.division as int / sd + 1 };
        assert(ceil_div(h.division as int, sd) <= u32::MAX) by (nonlinear_arith)
            requires sd > 0, h.division <= 0xFFFF, ceil_div(h.division as int, sd) == if h.division as int % sd == 0 { h.division as int / sd } else { h.division as int / sd + 1 };
    }
}

proof fn lemma_tracks_of_prefix_none(cs: Seq<(Seq<u8>, Seq<u8>)>, k: int)
    requires
        0 <= k <= cs.len(),
        tracks_of(cs.take(k)) is None,
    ensures
        tracks_of(cs) is None,
    decreases cs.len() - k,
{
    if k < cs.len() {
        assert(cs.take(k + 1).drop_last() =~= cs.take(k));
        lemma_tracks_of_prefix_none(cs, k + 1);
    } else {
        assert(cs.take(k) =~= cs);
    }
}

proof fn lemma_lay_out_all_prefix_err(ts: Seq<(Seq<Event>, Seq<char>)>, division: u16, k: int)
    requires
        0 <= k <= ts.len(),
        lay_out_all(ts.take(k), division) is Err,
    ensures
        lay_out_all(ts, division) == lay_out_all(ts.take(k), division),
    decreases ts.len() - k,
{
    if k < ts.len() {
        assert(ts.take(k + 1).drop_last() =~= ts.take(k));
        lemma_lay_out_all_prefix_err(ts, division, k + 1);
    } else {
        assert(ts.take(k) =~= ts);
    }
}

/// The tracks that reading reaches, in order: each track is read before it is
/// laid out, so these are the tracks up to and including the first that
/// cannot be laid out.
pub open spec fn tracks_reached(ts: Seq<(Seq<Event>, Seq<char>)>, division: u16) -> Seq<(Seq<Event>, Seq<char>)>
    decreases ts.len(),
{
    if ts.len() == 0 {
        Seq::empty()
    } else if lay_out_all(ts.drop_last(), division) is Err {
        tracks_reached(ts.drop_last(), division)
    } else {
        tracks_reached(ts.drop_last(), division).push(ts.last())
    }
}

/// The tracks of a file that reading reaches before it lays them out: none
/// where the chunks, their count, the header or a track cut off inside an
/// event stop the reading first.
pub open spec fn file_tracks_reached(file: Seq<u8>) -> Seq<(Seq<Event>, Seq<char>)> {
    match chunk_layout(file, 0) {
        None => Seq::empty(),
        Some(cs) => {
            if cs.len() < 2 || !(is_header_tag(cs[0].0) && cs[0].1.len() == 6) || header_of(cs[0].1).format >= 2 {
                Seq::empty()
            } else {
                match tracks_of(cs.drop_first()) {
                    None => Seq::empty(),
                    Some(ts) => tracks_reached(ts, header_of(cs[0].1).division),
                }
            }
        },
    }
}

proof fn lemma_tracks_reached_stop(ts: Seq<(Seq<Event>, Seq<char>)>, division: u16, k: int)
    requires
        0 <= k <= ts.len(),
        lay_out_all(ts.take(k), division) is Err,
    ensures
        tracks_reached(ts, division) == tracks_reached(ts.take(k), division),
    decreases ts.len() - k,
{
    if k < ts.len() {
        assert(ts.take(k + 1).drop_last() =~= ts.take(k));
        lemma_tracks_reached_stop(ts, division, k + 1);
    } else {
        assert(ts.take(k) =~= ts);
    }
}

/// The tracks of a file, given in file order, that reading reaches before it
/// lays them out.
pub fn midi_tracks(data: &Vec<u8>) -> (res: Vec<Track>)
    ensures
        res@.map_values(|t: Track| (t.events@, t.name@)) == file_tracks_reached(data@),
{
    let reversed = reversed_bytes(data);
    let chunks = match try_parse_chunks(&reversed) {
        Some(c) => c,
        None => return Vec::new(),
    };
    let ghost cs = chunk_layout(data@, 0).unwrap();
    assert(chunks@.len() == cs.len());
    if chunks.len() < 2 {
        return Vec::new();
    }
    assert(chunks@[0].model() == cs[0]);
    let hdr = match process_header_chunk(&chunks[0]) {
        Ok(h) => h,
        Err(_) => return Vec::new(),
    };
    if hdr.format >= 2 {
        return Vec::new();
    }
    let ghost rest = cs.drop_first();
    assert(chunks@[0].wf());
    assert(hdr == header_of(cs[0].1));
    assert(rest.take(0) =~= Seq::<(Seq<u8>, Seq<u8>)>::empty());
    let mut tracks: Vec<Track> = Vec::new();
    let mut k: usize = 1;
    let m = chunks.len();
    while k < m
        invariant
            m == chunks@.len(),
            chunks@.map_values(|c: Chunk| c.model()) == cs,
            rest == cs.drop_first(),
            file_tracks_reached(data@) == match tracks_of(rest) {
                None => Seq::empty(),
                Some(ts) => tracks_reached(ts, hdr.division),
            },
            1 <= k <= m,
            tracks_of(rest.take(k - 1)) == Some(tracks@.map_values(|t: Track| (t.events@, t.name@))),
        decreases m - k,
    {
        assert(rest.take(k as int).drop_last() =~= rest.take(k - 1));
        assert(rest.take(k as int).last() == chunks@[k as int].model());
        match try_process_chunk(&chunks[k]) {
            None => {
                proof {
                    assert(tracks_of(rest.take(k as int)) is None);
                    lemma_tracks_of_prefix_none(rest, k as int);
                }
                return Vec::new();
            },
            Some(ChunkProcessingResult::UnknownChunkType) => {},
            Some(ChunkProcessingResult::ValidTrack(track)) => {
                let ghost done = tracks@;
                tracks.push(track);
                assert(tracks@.map_values(|t: Track| (t.events@, t.name@))
                    =~= done.map_values(|t: Track| (t.events@, t.name@)).push((track.events@, track.name@)));
            },
        }
        k = k + 1;
    }
    assert(rest.take(m - 1) =~= rest);
    let ghost ts = tracks@.map_values(|t: Track| (t.events@, t.name@));
    assert(ts.take(0) =~= Seq::<(Seq<Event>, Seq<char>)>::empty());
    let mut reached: Vec<Track> = Vec::new();
    assert(reached@.map_values(|t: Track| (t.events@, t.name@)) =~= tracks_reached(ts.take(0), hdr.division));
    let nt = tracks.len();
    let mut t: usize = 0;
    while t < nt
        invariant
            nt == tracks@.len(),
            ts.len() == nt,
            forall|j: int| t <= j < nt ==> (#[trigger] tracks@[j]).events@ == ts[j].0 && tracks@[j].name@ == ts[j].1,
            file_tracks_reached(data@) == tracks_reached(ts, hdr.division),
            t <= nt,
            lay_out_all(ts.take(t as int), hdr.division) is Ok,
            reached@.map_values(|t: Track| (t.events@, t.name@)) == tracks_reached(ts.take(t as int), hdr.division),
        decreases nt - t,
    {
        assert(ts.take(t + 1).drop_last() =~= ts.take(t as int));
        let mut track = Track { events: Vec::new(), name: Vec::new() };
        tracks.set_and_swap(t, &mut track);
        assert(ts.take(t + 1).last() == (track.events@, track.name@));
        let events = track.events.clone();
        assert(events@ =~= track.events@);
        let laid = lay_out_track(events, hdr.division);
        let ghost done = reached@;
        reached.push(track);
        assert(reached@.map_values(|t: Track| (t.events@, t.name@))
            =~= done.map_values(|t: Track| (t.events@, t.name@)).push(ts.take(t + 1).last()));
        match laid {
            Err(_) => {
                proof {
                    lemma_tracks_reached_stop(ts, hdr.division, t + 1);
                }
                return reached;
            },
            Ok(_) => {},
        }
        t = t + 1;
    }
    assert(ts.take(nt as int) =~= ts);
    reached
}

/// Once the ticks fit in a `u32` and the shortest note closed by a note-off
/// lasts at least one tick, a track is refused only for a note that starts
/// on a step at or past the end of its lane: the lane's steps are its latest
/// note end over the grid step, rounded up, and a note starts on its start
/// tick over the grid step, rounded up. A note whose holds run past the end
/// of its lane is not refused.
pub proof fn law_lay_out_refuses_only_starts_past_lane(evs: Seq<Event>, division: u16)
    requires
        elapsed(evs) <= u32::MAX,
        run_events(evs).lowest > 0,
    ensures
        ({
            let sd = run_events(evs).lowest as int;
            let lanes = lanes_of(track_notes(evs));
            let past = exists|i: int, j: int|
                0 <= i < lanes.len() && 0 <= j < lanes[i].len()
                    && #[trigger] ceil_div(lanes[i][j].start as int, sd) >= ceil_div(lane_end(lanes[i]), sd);
            &&& (lay_out(evs, division) == Err::<(u32, Seq<Seq<QuantizedNote>>), MidiError>(MidiError::StepOutOfRange)) == past
            &&& (lay_out(evs, division) is Ok) == !past
        }),
{
    let sd = run_events(evs).lowest as int;
    let lanes = lanes_of(track_notes(evs));
    if exists|i: int, j: int|
        0 <= i < lanes.len() && 0 <= j < lanes[i].len()
            && #[trigger] ceil_div(lanes[i][j].start as int, sd) >= ceil_div(lane_end(lanes[i]), sd) {
        let (i, j) = choose|i: int, j: int|
            0 <= i < lanes.len() && 0 <= j < lanes[i].len()
                && #[trigger] ceil_div(lanes[i][j].start as int, sd) >= ceil_div(lane_end(lanes[i]), sd);
        assert(!lane_fits(lanes[i], sd)) by {
            assert(note_start_step(lanes[i][j], sd) >= step_count(lanes[i], sd));
        }
    } else {
        assert forall|i: int| 0 <= i < lanes.len() implies lane_fits(#[trigger] lanes[i], sd) by {
            assert forall|j: int| 0 <= j < lanes[i].len() implies note_start_step(#[trigger] lanes[i][j], sd)
                < step_count(lanes[i], sd) by {
                assert(!(ceil_div(lanes[i][j].start as int, sd) >= ceil_div(lane_end(lanes[i]), sd)));
            }
        }
    }
}

} // verus!
