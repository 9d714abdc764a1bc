//! The warnings met while reading a file, as values, in the order they are
//! met: events that are passed over or cannot be kept, chunks of unknown
//! type, note-offs with no note to close, and notes never closed.
use vstd::prelude::*;
use crate::stream::{pop_order, byte_at, reversed_bytes};
use crate::chunks::{Chunk, chunk_layout, is_header_tag, try_parse_chunks, process_header_chunk};
use crate::midi::{header_of, tracks_of, lay_out_all, lay_out_track, tracks_reached};
use crate::vlq::{vlq_end, vlq_value, read_vlq, lemma_vlq_end_bounds};
use crate::track::{
    Event, EventType, Track, ChunkProcessingResult, event_at, meta_event, is_track_tag, lemma_event_at_bounds,
    read_event, try_process_chunk,
};
use crate::notes::{
    NoteEvent, NoteState, elapsed, run_events, leftover_notes, track_notes, note_step, state_ok, lemma_elapsed_prefix,
    lemma_elapsed_nonneg, lemma_run_time, lemma_run_state_ok,
};

verus! {

/// Something the reader passed over.
#[derive(Debug, Clone, Copy, PartialEq, Eq, Structural)]
pub enum Warning {
    /// A tempo event (FF 51) whose length byte is not 03.
    TempoLength,
    /// A time signature event (FF 58) whose length byte is not 04.
    TimeSigLength,
    /// A key signature event (FF 59) whose length byte is not 02.
    KeySigLength,
    /// A meta event (FF) of a type that is not known.
    InvalidMeta(u8),
    /// A byte below 0x80 where a status byte belongs.
    InvalidEvent(u8),
    /// A chunk that is neither a header nor a track.
    UnknownChunk,
    /// A time signature, which notes do not use yet.
    TimeSigIgnored,
    /// A key signature, which notes do not use yet.
    KeySigIgnored,
    /// A tempo change, which notes do not use yet.
    TempoIgnored,
    /// A note-off with no note of its pitch open.
    UnmatchedOff,
    /// A note (pitch, start tick) never closed, closed at the last tick.
    ImpliedOff(u8, u32),
}

/// Zero or one warning as a sequence.
pub open spec fn opt_warning(w: Option<Warning>) -> Seq<Warning> {
    match w {
        Some(x) => seq![x],
        None => Seq::empty(),
    }
}

/// The warning for one event as the notes are collected.
pub open spec fn step_warning(st: NoteState, ev: Event) -> Option<Warning> {
    match ev.tp {
        EventType::SetTimeSig(_, _, _, _) => Some(Warning::TimeSigIgnored),
        EventType::SetKeySig(_, _) => Some(Warning::KeySigIgnored),
        EventType::SetTempo(_) => Some(Warning::TempoIgnored),
        EventType::MidiOff(n) => if st.pending[n as int].len() == 0 { Some(Warning::UnmatchedOff) } else { None },
        EventType::MidiOn(_) => None,
    }
}

/// The warnings for the events, one after the other.
pub open spec fn event_warnings(evs: Seq<Event>) -> Seq<Warning>
    decreases evs.len(),
{
    if evs.len() == 0 {
        Seq::empty()
    } else {
        event_warnings(evs.drop_last()) + opt_warning(step_warning(run_events(evs.drop_last()), evs.last()))
    }
}

/// The warning for a note never closed.
pub open spec fn implied_off(n: NoteEvent) -> Warning {
    Warning::ImpliedOff(n.pitch, n.start)
}

/// The number of leading events whose delta times add up within a `u32`.
pub open spec fn fit_len(evs: Seq<Event>) -> int
    decreases evs.len(),
{
    if evs.len() == 0 || elapsed(evs) <= u32::MAX {
        evs.len() as int
    } else {
        fit_len(evs.drop_last())
    }
}

/// The warnings met while collecting the notes of a track: one per event
/// passed over or note-off with nothing to close, then one per note never
/// closed. Where the ticks run past `u32::MAX`, collecting stops before the
/// event that does so, with the warnings met until then.
pub open spec fn note_warnings_of(evs: Seq<Event>) -> Seq<Warning> {
    if elapsed(evs) <= u32::MAX {
        let st = run_events(evs);
        event_warnings(evs) + leftover_notes(st.pending, st.time, 0).map_values(|n: NoteEvent| implied_off(n))
    } else {
        event_warnings(evs.take(fit_len(evs)))
    }
}

proof fn lemma_fit_len(evs: Seq<Event>, i: int, m: int)
    requires
        0 <= i < m <= evs.len(),
        elapsed(evs.take(i)) <= u32::MAX,
        elapsed(evs.take(i + 1)) > u32::MAX,
    ensures
        fit_len(evs.take(m)) == i,
    decreases m,
{
    let tm = evs.take(m);
    lemma_elapsed_prefix(tm, i + 1);
    assert(tm.take(i + 1) =~= evs.take(i + 1));
    assert(elapsed(tm) > u32::MAX);
    assert(tm.drop_last() =~= evs.take(m - 1));
    assert(fit_len(tm) == fit_len(evs.take(m - 1)));
    if m == i + 1 {
        assert(evs.take(i).len() == i);
        assert(fit_len(evs.take(i)) == i);
    } else {
        lemma_fit_len(evs, i, m - 1);
    }
}

/// The warnings met while collecting the notes of a track.
pub fn note_warnings(events: &Vec<Event>) -> (res: Vec<Warning>)
    ensures
        res@ == note_warnings_of(events@),
{
    let n = events.len();
    let mut time: u32 = 0;
    let mut warnings: Vec<Warning> = Vec::new();
    let mut pending_notes: Vec<Vec<u32>> = Vec::new();
    let mut k: usize = 0;
    while k < 256
        invariant
            k <= 256,
            pending_notes@.len() == k,
            forall|j: int| 0 <= j < k ==> (#[trigger] pending_notes@[j])@ == Seq::<u32>::empty(),
        decreases 256 - k,
    {
        pending_notes.push(Vec::new());
        k = k + 1;
    }
    let mut i: usize = 0;
    while i < n
        invariant
            n == events@.len(),
            i <= n,
            pending_notes@.len() == 256,
            elapsed(events@.take(i as int)) <= u32::MAX,
            warnings@ == event_warnings(events@.take(i as int)),
            ({
                let st = run_events(events@.take(i as int));
                &&& state_ok(st)
                &&& st.time == time
                &&& forall|j: int| 0 <= j < 256 ==> (#[trigger] pending_notes@[j])@ == st.pending[j]
            }),
        decreases n - i,
    {
        let event = events[i];
        proof {
            assert(events@.take(i + 1).drop_last() =~= events@.take(i as int));
            assert(events@.take(i + 1).last() == event);
        }
        let t = match time.checked_add(event.deltatime) {
            Some(t) => t,
            None => {
                proof {
                    lemma_run_time(events@.take(i as int));
                    assert(elapsed(events@.take(i + 1)) == time + event.deltatime);
                    lemma_elapsed_prefix(events@, i + 1);
                    lemma_fit_len(events@, i as int, n as int);
                    assert(events@.take(n as int) =~= events@);
                }
                return warnings;
            },
        };
        proof {
            lemma_run_time(events@.take(i + 1));
            lemma_run_state_ok(events@.take(i + 1));
        }
        let ghost prev = run_events(events@.take(i as int));
        let ghost next = run_events(events@.take(i + 1));
        assert(next == note_step(prev, event));
        time = t;
        match event.tp {
            EventType::SetTimeSig(_, _, _, _) => warnings.push(Warning::TimeSigIgnored),
            EventType::SetKeySig(_, _) => warnings.push(Warning::KeySigIgnored),
            EventType::SetTempo(_) => warnings.push(Warning::TempoIgnored),
            EventType::MidiOn(note) => {
                let mut starts: Vec<u32> = Vec::new();
                pending_notes.set_and_swap(note as usize, &mut starts);
                starts.push(time);
                pending_notes.set_and_swap(note as usize, &mut starts);
            },
            EventType::MidiOff(note) => {
                if pending_notes[note as usize].len() == 0 {
                    warnings.push(Warning::UnmatchedOff);
                } else {
                    let mut starts: Vec<u32> = Vec::new();
                    pending_notes.set_and_swap(note as usize, &mut starts);
                    let _ = starts.pop();
                    pending_notes.set_and_swap(note as usize, &mut starts);
                }
            },
        }
        i = i + 1;
        assert(warnings@ =~= event_warnings(events@.take(i as int)));
    }
    assert(events@.take(n as int) =~= events@);
    let ghost st = run_events(events@);
    let ghost before = warnings@;
    let mut key: usize = 0;
    proof {
        lemma_run_state_ok(events@);
    }
    while key < 256
        invariant
            n == events@.len(),
            st == run_events(events@),
            state_ok(st),
            st.time == time,
            pending_notes@.len() == 256,
            forall|j: int| 0 <= j < 256 ==> (#[trigger] pending_notes@[j])@ == st.pending[j],
            key <= 256,
            warnings@ + leftover_notes(st.pending, st.time, key as int).map_values(|x: NoteEvent| implied_off(x))
                == before + leftover_notes(st.pending, st.time, 0).map_values(|x: NoteEvent| implied_off(x)),
        decreases 256 - key,
    {
        let starts = &pending_notes[key];
        let m = starts.len();
        let ghost base = warnings@;
        let mut j: usize = 0;
        while j < m
            invariant
                m == starts@.len(),
                key < 256,
                st.pending.len() == 256,
                starts@ == st.pending[key as int],
                j <= m,
                warnings@ == base + starts@.take(j as int).map_values(|t: u32| Warning::ImpliedOff(key as u8, t)),
            decreases m - j,
        {
            let t = starts[j];
            warnings.push(Warning::ImpliedOff(key as u8, t));
            j = j + 1;
            assert(starts@.take(j as int) =~= starts@.take(j - 1).push(t));
            assert(warnings@ =~= base + starts@.take(j as int).map_values(|t: u32| Warning::ImpliedOff(key as u8, t)));
        }
        proof {
            assert(starts@.take(m as int) =~= starts@);
            let here = st.pending[key as int].map_values(
                |t: u32| NoteEvent { pitch: key as u8, start: t, duration: (st.time - t) as u32 });
            assert(leftover_notes(st.pending, st.time, key as int) == here + leftover_notes(st.pending, st.time, key + 1));
            assert(here.map_values(|x: NoteEvent| implied_off(x)) =~= starts@.map_values(|t: u32| Warning::ImpliedOff(key as u8, t)));
            assert((here + leftover_notes(st.pending, st.time, key + 1)).map_values(|x: NoteEvent| implied_off(x))
                =~= here.map_values(|x: NoteEvent| implied_off(x)) + leftover_notes(st.pending, st.time, key + 1).map_values(|x: NoteEvent| implied_off(x)));
            assert(warnings@ + leftover_notes(st.pending, st.time, key + 1).map_values(|x: NoteEvent| implied_off(x))
                =~= base + leftover_notes(st.pending, st.time, key as int).map_values(|x: NoteEvent| implied_off(x)));
        }
        key = key + 1;
    }
    assert(leftover_notes(st.pending, st.time, 256).map_values(|x: NoteEvent| implied_off(x)) =~= Seq::<Warning>::empty());
    assert(warnings@ =~= before + leftover_notes(st.pending, st.time, 0).map_values(|x: NoteEvent| implied_off(x)));
    warnings
}

/// Whether a meta event type is one the reader knows.
pub open spec fn known_meta(mt: u8) -> bool {
    mt == 0x00 || (0x01 <= mt && mt < 0x0F) || mt == 0x20 || mt == 0x2F || mt == 0x51 || mt == 0x54
        || mt == 0x58 || mt == 0x59 || mt == 0x7F
}

/// The warning for the event that starts at `p`, read from its bytes: a
/// tempo, time or key signature event with the wrong length byte, a meta
/// event of unknown type, or a byte below 0x80 where the status byte belongs.
pub open spec fn warning_at(s: Seq<u8>, p: int) -> Option<Warning> {
    let r = vlq_end(s, p).unwrap();
    let b = s[r];
    if b == 0xFF {
        let mt = s[r + 1];
        if mt == 0x51 && s[r + 2] != 0x03 {
            Some(Warning::TempoLength)
        } else if mt == 0x58 && s[r + 2] != 0x04 {
            Some(Warning::TimeSigLength)
        } else if mt == 0x59 && s[r + 2] != 0x02 {
            Some(Warning::KeySigLength)
        } else if !known_meta(mt) {
            Some(Warning::InvalidMeta(mt))
        } else {
            None
        }
    } else if b < 0x80 {
        Some(Warning::InvalidEvent(b))
    } else {
        None
    }
}

/// The warnings of a track body from position `p` on, event by event; where
/// the body ends inside an event, those of the events before it.
pub open spec fn track_warnings_from(s: Seq<u8>, p: int) -> Seq<Warning>
    decreases s.len() - p,
{
    if p < 0 || p >= s.len() {
        Seq::empty()
    } else {
        match event_at(s, p) {
            None => Seq::empty(),
            Some(step) => if step.2 <= p || step.2 > s.len() {
                Seq::empty()
            } else {
                opt_warning(warning_at(s, p)) + track_warnings_from(s, step.2)
            },
        }
    }
}

/// The warning for the complete event at `p`.
fn event_warning(data: &Vec<u8>, p: usize) -> (res: Option<Warning>)
    requires
        event_at(pop_order(data@), p as int) is Some,
    ensures
        res == warning_at(pop_order(data@), p as int),
{
    let ghost s = pop_order(data@);
    proof {
        lemma_vlq_end_bounds(s, p as int);
    }
    let read = read_vlq(data, p);
    let r: usize = match read {
        Some((_, q)) => q,
        None => return None,
    };
    let len = data.len();
    assert(vlq_end(s, p as int) == Some(r as int));
    assert(r < len);
    let b = byte_at(data, r);
    if b == 0xFF {
        assert(event_at(s, p as int) == meta_event(s, r + 1, vlq_value(s, p as int, r as int)));
        let mt = byte_at(data, r + 1);
        if mt == 0x51 || mt == 0x58 || mt == 0x59 {
            assert(r + 2 < data@.len());
            let len_byte = byte_at(data, r + 2);
            if mt == 0x51 && len_byte != 0x03 {
                return Some(Warning::TempoLength);
            } else if mt == 0x58 && len_byte != 0x04 {
                return Some(Warning::TimeSigLength);
            } else if mt == 0x59 && len_byte != 0x02 {
                return Some(Warning::KeySigLength);
            }
        }
        if !(mt == 0x00 || (0x01 <= mt && mt < 0x0F) || mt == 0x20 || mt == 0x2F || mt == 0x51 || mt == 0x54
            || mt == 0x58 || mt == 0x59 || mt == 0x7F) {
            Some(Warning::InvalidMeta(mt))
        } else {
            None
        }
    } else if b < 0x80 {
        Some(Warning::InvalidEvent(b))
    } else {
        None
    }
}

/// The warnings met while reading a track body kept back to front.
pub fn track_warnings(data: &Vec<u8>) -> (res: Vec<Warning>)
    ensures
        res@ == track_warnings_from(pop_order(data@), 0),
{
    let ghost s = pop_order(data@);
    let len = data.len();
    let mut warnings: Vec<Warning> = Vec::new();
    let mut scratch: Vec<char> = Vec::new();
    let mut p: usize = 0;
    while p < len
        invariant
            s == pop_order(data@),
            len == data@.len(),
            p <= len,
            track_warnings_from(s, 0) == warnings@ + track_warnings_from(s, p as int),
        decreases len - p,
    {
        proof {
            lemma_event_at_bounds(s, p as int);
        }
        let next = match read_event(data, p, &mut scratch) {
            Some((_, next)) => next,
            None => {
                assert(warnings@ + track_warnings_from(s, p as int) =~= warnings@);
                return warnings;
            },
        };
        let ghost before = warnings@;
        match event_warning(data, p) {
            Some(w) => warnings.push(w),
            None => {},
        }
        proof {
            assert(warnings@ =~= before + opt_warning(warning_at(s, p as int)));
            assert(before + (opt_warning(warning_at(s, p as int)) + track_warnings_from(s, next as int))
                =~= warnings@ + track_warnings_from(s, next as int));
        }
        p = next;
    }
    assert(warnings@ + track_warnings_from(s, p as int) =~= warnings@);
    warnings
}

/// Each note that no note-off closes gives one warning, naming its pitch and
/// start tick, after the warnings of the events and in the order in which
/// those notes come among the notes of the track.
pub proof fn law_one_warning_per_note_never_closed(evs: Seq<Event>)
    requires
        elapsed(evs) <= u32::MAX,
    ensures
        note_warnings_of(evs) == event_warnings(evs)
            + track_notes(evs).skip(run_events(evs).notes.len() as int).map_values(|n: NoteEvent| implied_off(n)),
{
    let st = run_events(evs);
    assert(track_notes(evs).skip(st.notes.len() as int) =~= leftover_notes(st.pending, st.time, 0));
}

/// The warnings of one chunk after the header: an unknown chunk is passed
/// over with a warning, a track chunk gives the warnings of its events.
pub open spec fn chunk_warning_list(c: (Seq<u8>, Seq<u8>)) -> Seq<Warning> {
    if is_track_tag(c.0) {
        track_warnings_from(c.1, 0)
    } else {
        seq![Warning::UnknownChunk]
    }
}

/// The warnings of the chunks after the header, chunk by chunk, up to and
/// including the first track chunk that ends inside an event.
pub open spec fn chunk_warnings(cs: Seq<(Seq<u8>, Seq<u8>)>) -> Seq<Warning>
    decreases cs.len(),
{
    if cs.len() == 0 {
        Seq::empty()
    } else if tracks_of(cs.drop_last()) is None {
        chunk_warnings(cs.drop_last())
    } else {
        chunk_warnings(cs.drop_last()) + chunk_warning_list(cs.last())
    }
}

/// The warnings met while laying the tracks out, track by track, up to and
/// including the first track that cannot be laid out.
pub open spec fn layout_warnings(ts: Seq<(Seq<Event>, Seq<char>)>, division: u16) -> Seq<Warning>
    decreases ts.len(),
{
    if ts.len() == 0 {
        Seq::empty()
    } else if lay_out_all(ts.drop_last(), division) is Err {
        layout_warnings(ts.drop_last(), division)
    } else {
        layout_warnings(ts.drop_last(), division) + note_warnings_of(ts.last().0)
    }
}

/// The warnings met while laying the tracks out are, track by track, those
/// of collecting the notes of each track that reading reaches.
pub proof fn law_layout_warnings_per_track(ts: Seq<(Seq<Event>, Seq<char>)>, division: u16)
    ensures
        layout_warnings(ts, division)
            == tracks_reached(ts, division).map_values(|t: (Seq<Event>, Seq<char>)| note_warnings_of(t.0)).flatten(),
    decreases ts.len(),
{
    let f = |t: (Seq<Event>, Seq<char>)| note_warnings_of(t.0);
    if ts.len() == 0 {
        assert(tracks_reached(ts, division).map_values(f) =~= Seq::<Seq<Warning>>::empty());
    } else {
        law_layout_warnings_per_track(ts.drop_last(), division);
        if lay_out_all(ts.drop_last(), division) is Ok {
            let before = tracks_reached(ts.drop_last(), division);
            assert(before.push(ts.last()).map_values(f) =~= before.map_values(f).push(note_warnings_of(ts.last().0)));
            before.map_values(f).lemma_flatten_push(note_warnings_of(ts.last().0));
        }
    }
}

/// The warnings met while reading a whole file, in the order they are met:
/// none where the chunks, their count or the header stop the reading before
/// the tracks; else those of the chunks, then those of laying the tracks out.
pub open spec fn midi_warnings_of(file: Seq<u8>) -> Seq<Warning> {
    match chunk_layout(file, 0) {
        None => Seq::empty(),
        Some(cs) => {
            if cs.len() < 2 || !(is_header_tag(cs[0].0) && cs[0].1.len() == 6) || header_of(cs[0].1).format >= 2 {
                Seq::empty()
            } else {
                chunk_warnings(cs.drop_first()) + match tracks_of(cs.drop_first()) {
                    None => Seq::empty(),
                    Some(ts) => layout_warnings(ts, header_of(cs[0].1).division),
                }
            }
        },
    }
}

proof fn lemma_chunk_warnings_stop(cs: Seq<(Seq<u8>, Seq<u8>)>, k: int)
    requires
        0 <= k <= cs.len(),
        tracks_of(cs.take(k)) is None,
    ensures
        chunk_warnings(cs) == chunk_warnings(cs.take(k)),
        tracks_of(cs) is None,
    decreases cs.len() - k,
{
    if k < cs.len() {
        assert(cs.take(k + 1).drop_last() =~= cs.take(k));
        lemma_chunk_warnings_stop(cs, k + 1);
    } else {
        assert(cs.take(k) =~= cs);
    }
}

proof fn lemma_layout_warnings_stop(ts: Seq<(Seq<Event>, Seq<char>)>, division: u16, k: int)
    requires
        0 <= k <= ts.len(),
        lay_out_all(ts.take(k), division) is Err,
    ensures
        layout_warnings(ts, division) == layout_warnings(ts.take(k), division),
    decreases ts.len() - k,
{
    if k < ts.len() {
        assert(ts.take(k + 1).drop_last() =~= ts.take(k));
        lemma_layout_warnings_stop(ts, division, k + 1);
    } else {
        assert(ts.take(k) =~= ts);
    }
}

/// The warnings met while reading a whole file, given in file order.
pub fn midi_warnings(data: &Vec<u8>) -> (res: Vec<Warning>)
    ensures
        res@ == midi_warnings_of(data@),
{
    let reversed = reversed_bytes(data);
    let chunks = match try_parse_chunks(&reversed) {
        Some(c) => c,
        None => return Vec::new(),
    };
    let ghost cs = chunk_layout(data@, 0).unwrap();
    assert(chunks@.len() == cs.len());
    if chunks.len() < 2 {
        return Vec::new();
    }
    assert(chunks@[0].model() == cs[0]);
    let hdr = match process_header_chunk(&chunks[0]) {
        Ok(h) => h,
        Err(_) => return Vec::new(),
    };
    if hdr.format >= 2 {
        return Vec::new();
    }
    let ghost rest = cs.drop_first();
    assert(chunks@[0].wf());
    assert(hdr == header_of(cs[0].1));
    assert(midi_warnings_of(data@) == chunk_warnings(rest) + match tracks_of(rest) {
        None => Seq::empty(),
        Some(ts) => layout_warnings(ts, hdr.division),
    });
    assert(rest.take(0) =~= Seq::<(Seq<u8>, Seq<u8>)>::empty());
    let mut warnings: Vec<Warning> = Vec::new();
    let mut tracks: Vec<Track> = Vec::new();
    let mut k: usize = 1;
    let m = chunks.len();
    while k < m
        invariant
            m == chunks@.len(),
            chunks@.map_values(|c: Chunk| c.model()) == cs,
            rest == cs.drop_first(),
            midi_warnings_of(data@) == chunk_warnings(rest) + match tracks_of(rest) {
                None => Seq::empty(),
                Some(ts) => layout_warnings(ts, hdr.division),
            },
            1 <= k <= m,
            tracks_of(rest.take(k - 1)) == Some(tracks@.map_values(|t: Track| (t.events@, t.name@))),
            warnings@ == chunk_warnings(rest.take(k - 1)),
        decreases m - k,
    {
        assert(rest.take(k as int).drop_last() =~= rest.take(k - 1));
        assert(rest.take(k as int).last() == chunks@[k as int].model());
        let ghost before = warnings@;
        match try_process_chunk(&chunks[k]) {
            None => {
                let mut more = track_warnings(&chunks[k].data);
                warnings.append(&mut more);
                proof {
                    assert(tracks_of(rest.take(k as int)) is None);
                    lemma_chunk_warnings_stop(rest, k as int);
                }
                return warnings;
            },
            Some(ChunkProcessingResult::UnknownChunkType) => {
                warnings.push(Warning::UnknownChunk);
                assert(warnings@ =~= before + seq![Warning::UnknownChunk]);
            },
            Some(ChunkProcessingResult::ValidTrack(track)) => {
                let mut more = track_warnings(&chunks[k].data);
                warnings.append(&mut more);
                let ghost done = tracks@;
                tracks.push(track);
                assert(tracks@.map_values(|t: Track| (t.events@, t.name@))
                    =~= done.map_values(|t: Track| (t.events@, t.name@)).push((track.events@, track.name@)));
            },
        }
        k = k + 1;
    }
    assert(rest.take(m - 1) =~= rest);
    let ghost ts = tracks@.map_values(|t: Track| (t.events@, t.name@));
    assert(ts.take(0) =~= Seq::<(Seq<Event>, Seq<char>)>::empty());
    let ghost head = warnings@;
    assert(warnings@ =~= head + layout_warnings(ts.take(0), hdr.division));
    let nt = tracks.len();
    let mut t: usize = 0;
    while t < nt
        invariant
            nt == tracks@.len(),
            ts.len() == nt,
            forall|j: int| t <= j < nt ==> (#[trigger] tracks@[j]).events@ == ts[j].0,
            midi_warnings_of(data@) == head + layout_warnings(ts, hdr.division),
            t <= nt,
            lay_out_all(ts.take(t as int), hdr.division) is Ok,
            warnings@ == head + layout_warnings(ts.take(t as int), hdr.division),
        decreases nt - t,
    {
        assert(ts.take(t + 1).drop_last() =~= ts.take(t as int));
        let mut track = Track { events: Vec::new(), name: Vec::new() };
        tracks.set_and_swap(t, &mut track);
        assert(ts.take(t + 1).last().0 == track.events@);
        let mut more = note_warnings(&track.events);
        warnings.append(&mut more);
        assert(warnings@ =~= head + layout_warnings(ts.take(t + 1), hdr.division));
        match lay_out_track(track.events, hdr.division) {
            Err(_) => {
                proof {
                    lemma_layout_warnings_stop(ts, hdr.division, t + 1);
                }
                return warnings;
            },
            Ok(_) => {},
        }
        t = t + 1;
    }
    assert(ts.take(nt as int) =~= ts);
    warnings
}

} // verus!
