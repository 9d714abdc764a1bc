//! Track chunks: the events of a track and the text it carries.
use vstd::prelude::*;
use crate::stream::{pop_order, byte_at};
use crate::chunks::Chunk;
use crate::vlq::{vlq_end, vlq_value, base128, read_vlq, lemma_vlq_end_bounds};

verus! {

/// The kinds of event that are kept.
#[derive(Debug, Clone, Copy, PartialEq, Eq, Structural)]
pub enum EventType {
    /// (note)
    MidiOn(u8),
    /// (note)
    MidiOff(u8),
    /// (us_per_quarter_note)
    SetTempo(u32),
    /// (numerator, denominator_as_exp_of_2, clocks_per_metronome_click, notated_32nds_per_quarter)
    SetTimeSig(u8, u8, u8, u8),
    /// (sf, is_minor) - sf is amount of accidentals, neg for flats, pos for sharp
    SetKeySig(i8, u8),
}

/// An event with the ticks that passed since the one before it.
#[derive(Debug, Clone, Copy, PartialEq, Eq, Structural)]
pub struct Event {
    pub deltatime: u32,
    pub tp: EventType,
}

/// The events of a track and the characters of its text events.
#[derive(Debug)]
pub struct Track {
    pub events: Vec<Event>,
    pub name: Vec<char>,
}

/// What a chunk turned out to be.
#[derive(Debug)]
pub enum ChunkProcessingResult {
    UnknownChunkType,
    ValidTrack(Track),
}

/// What one event contributes: the event kept (if any), the characters
/// added to the track's text, and the position after it.
pub type EventStep = (Option<Event>, Seq<char>, int);

/// `k` bytes from position `a` that carry nothing kept.
pub open spec fn skip_bytes(s: Seq<u8>, a: int, k: int) -> Option<EventStep> {
    if a + k <= s.len() {
        Some((None, Seq::empty(), a + k))
    } else {
        None
    }
}

/// Bytes read as characters, each byte its own code point.
pub open spec fn latin1(b: Seq<u8>) -> Seq<char> {
    b.map_values(|x: u8| x as char)
}

/// A length byte at `a`, then that many bytes.
pub open spec fn counted_end(s: Seq<u8>, a: int) -> Option<int> {
    if a < s.len() && a + 1 + s[a] <= s.len() {
        Some(a + 1 + s[a])
    } else {
        None
    }
}

/// A meta event (after 0xFF) whose type byte is at `r`.
pub open spec fn meta_event(s: Seq<u8>, r: int, dt: u32) -> Option<EventStep> {
    if r >= s.len() {
        None
    } else {
        let mt = s[r];
        let a = r + 1;
        if mt == 0x00 {
            skip_bytes(s, a, 1)
        } else if 0x01 <= mt && mt < 0x0F {
            match counted_end(s, a) {
                Some(e) => Some((None, latin1(s.subrange(a + 1, e)), e)),
                None => None,
            }
        } else if mt == 0x20 {
            skip_bytes(s, a, 2)
        } else if mt == 0x2F {
            skip_bytes(s, a, 1)
        } else if mt == 0x51 {
            if a >= s.len() {
                None
            } else if s[a] != 0x03 {
                Some((None, Seq::empty(), a + 1))
            } else if a + 4 > s.len() {
                None
            } else {
                let tempo = s[a + 1] * 0x1_0000 + s[a + 2] * 0x100 + s[a + 3];
                Some((Some(Event { deltatime: dt, tp: EventType::SetTempo(tempo as u32) }), Seq::empty(), a + 4))
            }
        } else if mt == 0x54 {
            skip_bytes(s, a, 6)
        } else if mt == 0x58 {
            if a >= s.len() {
                None
            } else if s[a] != 0x04 {
                Some((None, Seq::empty(), a + 1))
            } else if a + 5 > s.len() {
                None
            } else {
                let tp = EventType::SetTimeSig(s[a + 1], s[a + 2], s[a + 3], s[a + 4]);
                Some((Some(Event { deltatime: dt, tp }), Seq::empty(), a + 5))
            }
        } else if mt == 0x59 {
            if a >= s.len() {
                None
            } else if s[a] != 0x02 {
                Some((None, Seq::empty(), a + 1))
            } else if a + 3 > s.len() {
                None
            } else {
                let tp = EventType::SetKeySig(s[a + 1] as i8, s[a + 2]);
                Some((Some(Event { deltatime: dt, tp }), Seq::empty(), a + 3))
            }
        } else if mt == 0x7F {
            match counted_end(s, a) {
                Some(e) => Some((None, Seq::empty(), e)),
                None => None,
            }
        } else {
            Some((None, Seq::empty(), a))
        }
    }
}

/// The position just past the first 0xF7 at or after `r`.
pub open spec fn sysex_end(s: Seq<u8>, r: int) -> Option<int>
    decreases s.len() - r,
{
    if r < 0 || r >= s.len() {
        None
    } else if s[r] == 0xF7 {
        Some(r + 1)
    } else {
        sysex_end(s, r + 1)
    }
}

/// A channel or system event with status byte `id`, its data from `r` on.
pub open spec fn channel_event(s: Seq<u8>, r: int, id: u8, dt: u32) -> Option<EventStep> {
    let upper = id / 16;
    let lower = id % 16;
    if upper == 0x8 {
        if r + 2 <= s.len() {
            Some((Some(Event { deltatime: dt, tp: EventType::MidiOff(s[r]) }), Seq::empty(), r + 2))
        } else {
            None
        }
    } else if upper == 0x9 {
        if r + 2 <= s.len() {
            Some((Some(Event { deltatime: dt, tp: EventType::MidiOn(s[r]) }), Seq::empty(), r + 2))
        } else {
            None
        }
    } else if upper == 0xA || upper == 0xB || upper == 0xE {
        skip_bytes(s, r, 2)
    } else if upper == 0xC || upper == 0xD {
        skip_bytes(s, r, 1)
    } else if upper == 0xF {
        if lower == 0x0 {
            match sysex_end(s, r) {
                Some(e) => Some((None, Seq::empty(), e)),
                None => None,
            }
        } else if lower == 0x2 {
            skip_bytes(s, r, 2)
        } else if lower == 0x3 {
            skip_bytes(s, r, 1)
        } else {
            Some((None, Seq::empty(), r))
        }
    } else {
        Some((None, Seq::empty(), r))
    }
}

/// The event at `p`: a delta time, a status byte, and what that status
/// byte is followed by. `None` where the bytes run out inside it.
pub open spec fn event_at(s: Seq<u8>, p: int) -> Option<EventStep> {
    match vlq_end(s, p) {
        None => None,
        Some(q) => {
            if q >= s.len() {
                None
            } else {
                let dt = vlq_value(s, p, q);
                if s[q] == 0xFF {
                    meta_event(s, q + 1, dt)
                } else {
                    channel_event(s, q + 1, s[q], dt)
                }
            }
        },
    }
}

/// An optional event as a sequence of zero or one events.
pub open spec fn opt_seq(e: Option<Event>) -> Seq<Event> {
    match e {
        Some(x) => seq![x],
        None => Seq::empty(),
    }
}

/// The events and text of a track body from position `p` to its end;
/// `None` where the body ends inside an event.
pub open spec fn track_from(s: Seq<u8>, p: int) -> Option<(Seq<Event>, Seq<char>)>
    decreases s.len() - p,
{
    if p < 0 || p >= s.len() {
        Some((Seq::empty(), Seq::empty()))
    } else {
        match event_at(s, p) {
            None => None,
            Some(step) => {
                if step.2 <= p || step.2 > s.len() {
                    None
                } else {
                    match track_from(s, step.2) {
                        None => None,
                        Some(rest) => Some((opt_seq(step.0) + rest.0, step.1 + rest.1)),
                    }
                }
            },
        }
    }
}

/// The type bytes of a track chunk, "MTrk".
pub open spec fn is_track_tag(tp: Seq<u8>) -> bool {
    tp == seq![0x4Du8, 0x54u8, 0x72u8, 0x6Bu8]
}

/// A sysex message ends after its start and within the bytes.
pub proof fn lemma_sysex_end_bounds(s: Seq<u8>, r: int)
    ensures
        sysex_end(s, r) matches Some(e) ==> r < e <= s.len(),
    decreases s.len() - r,
{
    if 0 <= r < s.len() && s[r] != 0xF7 {
        lemma_sysex_end_bounds(s, r + 1);
    }
}

/// Every event takes at least one byte and stays within the bytes.
pub proof fn lemma_event_at_bounds(s: Seq<u8>, p: int)
    ensures
        event_at(s, p) matches Some(step) ==> p < step.2 <= s.len(),
{
    lemma_vlq_end_bounds(s, p);
    if let Some(q) = vlq_end(s, p) {
        if q < s.len() {
            lemma_sysex_end_bounds(s, q + 1);
        }
    }
}

/// Reads `n` bytes from position `a` onto `name`, each as a character.
fn push_text(data: &Vec<u8>, a: usize, n: usize, name: &mut Vec<char>)
    requires
        a + n <= data@.len(),
    ensures
        final(name)@ == old(name)@ + latin1(pop_order(data@).subrange(a as int, (a + n) as int)),
{
    let ghost s = pop_order(data@);
    let ghost start = old(name)@;
    let len = data.len();
    let mut k: usize = 0;
    while k < n
        invariant
            s == pop_order(data@),
            a + n <= data@.len(),
            len == data@.len(),
            k <= n,
            name@ == start + latin1(s.subrange(a as int, (a + k) as int)),
        decreases n - k,
    {
        let b = byte_at(data, a + k);
        name.push(b as char);
        k = k + 1;
        assert(name@ =~= start + latin1(s.subrange(a as int, (a + k) as int)));
    }
}

/// Reads the meta event whose type byte is at `r`.
fn read_meta(data: &Vec<u8>, r: usize, dt: u32, name: &mut Vec<char>) -> (res: Option<(Option<Event>, usize)>)
    requires
        r <= data@.len(),
    ensures
        match meta_event(pop_order(data@), r as int, dt) {
            None => res is None,
            Some(step) => res == Some((step.0, step.2 as usize)) && final(name)@ == old(name)@ + step.1,
        },
{
    let ghost s = pop_order(data@);
    let len = data.len();
    if r >= len {
        return None;
    }
    let mt = byte_at(data, r);
    let a = r + 1;
    if mt == 0x00 {
        if len - a < 1 { None } else { Some((None, a + 1)) }
    } else if 0x01 <= mt && mt < 0x0F {
        if a >= len {
            return None;
        }
        let n = byte_at(data, a) as usize;
        if n > len - a - 1 {
            return None;
        }
        push_text(data, a + 1, n, name);
        Some((None, a + 1 + n))
    } else if mt == 0x20 {
        if len - a < 2 { None } else { Some((None, a + 2)) }
    } else if mt == 0x2F {
        if len - a < 1 { None } else { Some((None, a + 1)) }
    } else if mt == 0x51 {
        if a >= len {
            None
        } else if byte_at(data, a) != 0x03 {
            Some((None, a + 1))
        } else if len - a < 4 {
            None
        } else {
            let tempo: u32 = (byte_at(data, a + 1) as u32) * 0x1_0000 + (byte_at(data, a + 2) as u32) * 0x100
                + byte_at(data, a + 3) as u32;
            Some((Some(Event { deltatime: dt, tp: EventType::SetTempo(tempo) }), a + 4))
        }
    } else if mt == 0x54 {
        if len - a < 6 { None } else { Some((None, a + 6)) }
    } else if mt == 0x58 {
        if a >= len {
            None
        } else if byte_at(data, a) != 0x04 {
            Some((None, a + 1))
        } else if len - a < 5 {
            None
        } else {
            let nn = byte_at(data, a + 1);
            let dd = byte_at(data, a + 2);
            let cc = byte_at(data, a + 3);
            let bb = byte_at(data, a + 4);
            Some((Some(Event { deltatime: dt, tp: EventType::SetTimeSig(nn, dd, cc, bb) }), a + 5))
        }
    } else if mt == 0x59 {
        if a >= len {
            None
        } else if byte_at(data, a) != 0x02 {
            Some((None, a + 1))
        } else if len - a < 3 {
            None
        } else {
            let sf = byte_at(data, a + 1);
            let mi = byte_at(data, a + 2);
            Some((Some(Event { deltatime: dt, tp: EventType::SetKeySig(sf as i8, mi) }), a + 3))
        }
    } else if mt == 0x7F {
        if a >= len {
            return None;
        }
        let n = byte_at(data, a) as usize;
        if n > len - a - 1 {
            return None;
        }
        Some((None, a + 1 + n))
    } else {
        Some((None, a))
    }
}

/// The position just past the first 0xF7 at or after `r`.
fn find_sysex_end(data: &Vec<u8>, r: usize) -> (res: Option<usize>)
    ensures
        match sysex_end(pop_order(data@), r as int) {
            None => res is None,
            Some(e) => res == Some(e as usize),
        },
{
    let ghost s = pop_order(data@);
    let len = data.len();
    let mut i = r;
    while i < len
        invariant
            s == pop_order(data@),
            len == data@.len(),
            r <= i,
            sysex_end(s, r as int) == sysex_end(s, i as int),
        decreases len - i,
    {
        if byte_at(data, i) == 0xF7 {
            return Some(i + 1);
        }
        i = i + 1;
    }
    None
}

/// Reads the channel or system event with status byte `id`, its data from `r` on.
fn read_channel(data: &Vec<u8>, r: usize, id: u8, dt: u32) -> (res: Option<(Option<Event>, usize)>)
    requires
        r <= data@.len(),
    ensures
        match channel_event(pop_order(data@), r as int, id, dt) {
            None => res is None,
            Some(step) => res == Some((step.0, step.2 as usize)) && step.1 == Seq::<char>::empty(),
        },
{
    let len = data.len();
    let upper = (id & 0b11110000) >> 4;
    let lower = id & 0b1111;
    assert(upper == id / 16 && lower == id % 16) by (bit_vector)
        requires upper == (id & 0b11110000) >> 4, lower == id & 0b1111;
    if upper == 0b1000 {
        if len - r < 2 {
            None
        } else {
            let note_number = byte_at(data, r);
            Some((Some(Event { deltatime: dt, tp: EventType::MidiOff(note_number) }), r + 2))
        }
    } else if upper == 0b1001 {
        if len - r < 2 {
            None
        } else {
            let note_number = byte_at(data, r);
            Some((Some(Event { deltatime: dt, tp: EventType::MidiOn(note_number) }), r + 2))
        }
    } else if upper == 0b1010 || upper == 0b1011 || upper == 0b1110 {
        if len - r < 2 { None } else { Some((None, r + 2)) }
    } else if upper == 0b1100 || upper == 0b1101 {
        if len - r < 1 { None } else { Some((None, r + 1)) }
    } else if upper == 0b1111 {
        if lower == 0b0000 {
            match find_sysex_end(data, r) {
                Some(e) => Some((None, e)),
                None => None,
            }
        } else if lower == 0b0010 {
            if len - r < 2 { None } else { Some((None, r + 2)) }
        } else if lower == 0b0011 {
            if len - r < 1 { None } else { Some((None, r + 1)) }
        } else {
            Some((None, r))
        }
    } else {
        Some((None, r))
    }
}

/// Reads the event at position `p`: the event kept, if any, and the position
/// after it; the characters of a text event go onto `name`.
pub fn read_event(data: &Vec<u8>, p: usize, name: &mut Vec<char>) -> (res: Option<(Option<Event>, usize)>)
    ensures
        match event_at(pop_order(data@), p as int) {
            None => res is None,
            Some(step) => res == Some((step.0, step.2 as usize)) && final(name)@ == old(name)@ + step.1,
        },
{
    let ghost s = pop_order(data@);
    proof {
        lemma_vlq_end_bounds(s, p as int);
    }
    let (dt, q) = match read_vlq(data, p) {
        Some(x) => x,
        None => return None,
    };
    if q >= data.len() {
        return None;
    }
    let event_id = byte_at(data, q);
    if event_id == 0xFF {
        read_meta(data, q + 1, dt, name)
    } else {
        let res = read_channel(data, q + 1, event_id, dt);
        proof {
            if let Some(step) = channel_event(s, q + 1, event_id, dt) {
                assert(name@ =~= old(name)@ + step.1);
            }
        }
        res
    }
}

/// Reads the events and text of a track body kept back to front;
/// `None` where the body ends inside an event.
pub fn parse_track(data: &Vec<u8>) -> (res: Option<Track>)
    ensures
        match track_from(pop_order(data@), 0) {
            None => res is None,
            Some(t) => res matches Some(track) && track.events@ == t.0 && track.name@ == t.1,
        },
{
    let ghost s = pop_order(data@);
    let len = data.len();
    let mut events: Vec<Event> = Vec::new();
    let mut track_name: Vec<char> = Vec::new();
    let mut p: usize = 0;
    while p < len
        invariant
            s == pop_order(data@),
            len == data@.len(),
            p <= len,
            track_from(s, 0) == match track_from(s, p as int) {
                Some(rest) => Some((events@ + rest.0, track_name@ + rest.1)),
                None => None,
            },
        decreases len - p,
    {
        proof {
            lemma_event_at_bounds(s, p as int);
        }
        let ghost old_events = events@;
        let ghost old_name = track_name@;
        let (ev, next) = match read_event(data, p, &mut track_name) {
            Some(x) => x,
            None => return None,
        };
        match ev {
            Some(e) => events.push(e),
            None => {},
        }
        proof {
            let step = event_at(s, p as int).unwrap();
            assert(events@ == old_events + opt_seq(step.0)) by {
                assert(events@ =~= old_events + opt_seq(step.0));
            }
            if let Some(rest) = track_from(s, next as int) {
                assert(old_events + (opt_seq(step.0) + rest.0) =~= events@ + rest.0);
                assert(old_name + (step.1 + rest.1) =~= track_name@ + rest.1);
            }
        }
        p = next;
    }
    proof {
        assert(events@ + Seq::<Event>::empty() =~= events@);
        assert(track_name@ + Seq::<char>::empty() =~= track_name@);
    }
    Some(Track { events, name: track_name })
}

/// Whether a chunk holds a whole track: other chunks always pass, a track
/// chunk passes when no event in it is cut off by its end.
pub open spec fn chunk_is_complete(chunk: Chunk) -> bool {
    is_track_tag(chunk.tp@) ==> track_from(chunk.body(), 0) is Some
}

/// Reads a chunk: a track chunk ("MTrk") gives its events and the text of its
/// text events; any other chunk is reported as of unknown type.
pub fn process_chunk(chunk: Chunk) -> (res: ChunkProcessingResult)
    requires
        chunk_is_complete(chunk),
    ensures
        !is_track_tag(chunk.tp@) ==> res is UnknownChunkType,
        is_track_tag(chunk.tp@) ==> (res matches ChunkProcessingResult::ValidTrack(track)
            && track_from(chunk.body(), 0) == Some((track.events@, track.name@))),
{
    match try_process_chunk(&chunk) {
        Some(r) => r,
        None => unreached(),
    }
}

/// As `process_chunk`, with `None` for a track chunk that ends inside an event.
pub fn try_process_chunk(chunk: &Chunk) -> (res: Option<ChunkProcessingResult>)
    ensures
        !is_track_tag(chunk.tp@) ==> res matches Some(ChunkProcessingResult::UnknownChunkType),
        is_track_tag(chunk.tp@) ==> match track_from(chunk.body(), 0) {
            None => res is None,
            Some(t) => res matches Some(ChunkProcessingResult::ValidTrack(track))
                && track.events@ == t.0 && track.name@ == t.1,
        },
{
    if !(chunk.tp[0] == 0x4D && chunk.tp[1] == 0x54 && chunk.tp[2] == 0x72 && chunk.tp[3] == 0x6B) {
        proof {
            if is_track_tag(chunk.tp@) {
                assert(chunk.tp@[0] == 0x4D && chunk.tp@[1] == 0x54 && chunk.tp@[2] == 0x72 && chunk.tp@[3] == 0x6B);
            }
        }
        return Some(ChunkProcessingResult::UnknownChunkType);
    }
    assert(chunk.tp@ =~= seq![0x4Du8, 0x54u8, 0x72u8, 0x6Bu8]);
    match parse_track(&chunk.data) {
        Some(track) => Some(ChunkProcessingResult::ValidTrack(track)),
        None => None,
    }
}

/// Where the events of a track body start, from position `p` on.
pub open spec fn event_starts(s: Seq<u8>, p: int) -> Seq<int>
    decreases s.len() - p,
{
    if p < 0 || p >= s.len() {
        Seq::empty()
    } else {
        match event_at(s, p) {
            None => Seq::empty(),
            Some(step) => if step.2 <= p || step.2 > s.len() {
                Seq::empty()
            } else {
                seq![p] + event_starts(s, step.2)
            },
        }
    }
}

/// The events kept from the event that starts at `p`, read from its bytes:
/// a delta time (a variable-length quantity, modulo 2^32) and a status byte
/// at `r`. A note-off (0x8n) or note-on (0x9n) gives the note that follows;
/// the meta events FF 51 03, FF 58 04 and FF 59 02 give a tempo (three bytes,
/// big-endian), a time signature and a key signature. Nothing else is kept,
/// and the delta time of an event that is not kept is not carried over.
pub open spec fn kept_at(s: Seq<u8>, p: int) -> Seq<Event> {
    let r = vlq_end(s, p).unwrap();
    let deltatime = vlq_value(s, p, r);
    let b = s[r];
    if b / 16 == 8 {
        seq![Event { deltatime, tp: EventType::MidiOff(s[r + 1]) }]
    } else if b / 16 == 9 {
        seq![Event { deltatime, tp: EventType::MidiOn(s[r + 1]) }]
    } else if b == 0xFF && s[r + 1] == 0x51 && s[r + 2] == 0x03 {
        let tempo = s[r + 3] * 0x1_0000 + s[r + 4] * 0x100 + s[r + 5];
        seq![Event { deltatime, tp: EventType::SetTempo(tempo as u32) }]
    } else if b == 0xFF && s[r + 1] == 0x58 && s[r + 2] == 0x04 {
        seq![Event { deltatime, tp: EventType::SetTimeSig(s[r + 3], s[r + 4], s[r + 5], s[r + 6]) }]
    } else if b == 0xFF && s[r + 1] == 0x59 && s[r + 2] == 0x02 {
        seq![Event { deltatime, tp: EventType::SetKeySig(s[r + 3] as i8, s[r + 4]) }]
    } else {
        Seq::empty()
    }
}

/// The text carried by the event that starts at `p`, read from its bytes:
/// for a text meta event FF ty len (ty from 0x01 to 0x0E), its `len` data
/// bytes, each as a character; nothing for any other event.
pub open spec fn text_at(s: Seq<u8>, p: int) -> Seq<char> {
    let r = vlq_end(s, p).unwrap();
    if s[r] == 0xFF && 0x01 <= s[r + 1] <= 0x0E {
        latin1(s.subrange(r + 3, r + 3 + s[r + 2]))
    } else {
        Seq::empty()
    }
}

proof fn lemma_step_reads(s: Seq<u8>, p: int)
    requires
        event_at(s, p) is Some,
    ensures
        opt_seq(event_at(s, p).unwrap().0) == kept_at(s, p),
        event_at(s, p).unwrap().1 == text_at(s, p),
{
    let r = vlq_end(s, p).unwrap();
    if s[r] == 0xFF {
        assert(s[r] / 16 == 15);
    }
}

proof fn lemma_track_reads(s: Seq<u8>, p: int)
    requires
        0 <= p,
        track_from(s, p) is Some,
    ensures
        track_from(s, p).unwrap().0 == event_starts(s, p).map_values(|q: int| kept_at(s, q)).flatten(),
        track_from(s, p).unwrap().1 == event_starts(s, p).map_values(|q: int| text_at(s, q)).flatten(),
    decreases s.len() - p,
{
    if p < s.len() {
        let step = event_at(s, p).unwrap();
        lemma_event_at_bounds(s, p);
        lemma_track_reads(s, step.2);
        lemma_step_reads(s, p);
        let qs = event_starts(s, p);
        let rest = event_starts(s, step.2);
        assert(qs == seq![p] + rest);
        let fk = |q: int| kept_at(s, q);
        let ft = |q: int| text_at(s, q);
        assert(qs.map_values(fk).drop_first() =~= rest.map_values(fk));
        assert(qs.map_values(ft).drop_first() =~= rest.map_values(ft));
        assert(qs.map_values(fk).first() == kept_at(s, p));
        assert(qs.map_values(ft).first() == text_at(s, p));
    } else {
        assert(event_starts(s, p).map_values(|q: int| kept_at(s, q)) =~= Seq::<Seq<Event>>::empty());
        assert(event_starts(s, p).map_values(|q: int| text_at(s, q)) =~= Seq::<Seq<char>>::empty());
    }
}

/// The events of a track are read event by event from its bytes: one
/// `Event` for each note-off, note-on, tempo, time signature and key
/// signature event, in order, each with its own delta time; no other event
/// gives one.
pub proof fn law_track_events(s: Seq<u8>)
    requires
        track_from(s, 0) is Some,
    ensures
        track_from(s, 0).unwrap().0 == event_starts(s, 0).map_values(|q: int| kept_at(s, q)).flatten(),
{
    lemma_track_reads(s, 0);
}

/// The delta time of each event is the base-128 number of the bytes before
/// its status byte, modulo 2^32.
pub proof fn law_track_delta_times(s: Seq<u8>, p: int)
    requires
        event_at(s, p) matches Some(step) && step.0 is Some,
    ensures
        event_at(s, p).unwrap().0.unwrap().deltatime
            == base128(s, p, vlq_end(s, p).unwrap()) % 0x1_0000_0000,
{
}

/// The name of a track is the text of all its text meta events (types 0x01
/// to 0x0E), in order, each data byte as a character; no other event adds
/// to it.
pub proof fn law_track_name(s: Seq<u8>)
    requires
        track_from(s, 0) is Some,
    ensures
        track_from(s, 0).unwrap().1 == event_starts(s, 0).map_values(|q: int| text_at(s, q)).flatten(),
{
    lemma_track_reads(s, 0);
}

proof fn lemma_sysex_end_at(s: Seq<u8>, r: int, e: int)
    requires
        0 <= r <= e < s.len(),
        s[e] == 0xF7,
        forall|j: int| r <= j < e ==> s[j] != 0xF7,
    ensures
        sysex_end(s, r) == Some(e + 1),
    decreases e - r,
{
    if r < e {
        lemma_sysex_end_at(s, r + 1, e);
    }
}

/// How many bytes a channel or system event takes after its status byte at
/// `q` (the delta time before it ends at `q`): two data bytes for a note-off
/// (0x8n), note-on (0x9n), aftertouch (0xAn), controller (0xBn), pitch wheel
/// (0xEn) and song position (0xF2); one for a program change (0xCn), channel
/// pressure (0xDn) and song select (0xF3); a system exclusive message (0xF0)
/// runs through the first 0xF7 after it; any other status byte, and a byte
/// below 0x80 where the status byte belongs, takes nothing more. Only a
/// note-off or note-on is kept, with the key that follows its status byte;
/// where the bytes run out inside the event, there is no event.
pub proof fn law_channel_event_sizes(s: Seq<u8>, p: int, q: int)
    requires
        vlq_end(s, p) == Some(q),
        q < s.len(),
        s[q] != 0xFF,
    ensures
        s[q] / 16 == 8 && q + 3 <= s.len() ==> event_at(s, p) == Some(
            (Some(Event { deltatime: vlq_value(s, p, q), tp: EventType::MidiOff(s[q + 1]) }), Seq::<char>::empty(), q + 3),
        ),
        s[q] / 16 == 9 && q + 3 <= s.len() ==> event_at(s, p) == Some(
            (Some(Event { deltatime: vlq_value(s, p, q), tp: EventType::MidiOn(s[q + 1]) }), Seq::<char>::empty(), q + 3),
        ),
        (s[q] / 16 == 0xA || s[q] / 16 == 0xB || s[q] / 16 == 0xE || s[q] == 0xF2) && q + 3 <= s.len()
            ==> event_at(s, p) == Some((None::<Event>, Seq::<char>::empty(), q + 3)),
        (s[q] / 16 == 0xC || s[q] / 16 == 0xD || s[q] == 0xF3) && q + 2 <= s.len()
            ==> event_at(s, p) == Some((None::<Event>, Seq::<char>::empty(), q + 2)),
        (s[q] / 16 == 8 || s[q] / 16 == 9 || s[q] / 16 == 0xA || s[q] / 16 == 0xB || s[q] / 16 == 0xE || s[q] == 0xF2)
            && q + 3 > s.len() ==> event_at(s, p) is None,
        (s[q] / 16 == 0xC || s[q] / 16 == 0xD || s[q] == 0xF3) && q + 2 > s.len() ==> event_at(s, p) is None,
        (s[q] < 0x80 || (0xF1 <= s[q] && s[q] != 0xF2 && s[q] != 0xF3))
            ==> event_at(s, p) == Some((None::<Event>, Seq::<char>::empty(), q + 1)),
        forall|e: int| #![trigger s[e]]
            s[q] == 0xF0 && q < e < s.len() && s[e] == 0xF7 && (forall|j: int| q < j < e ==> s[j] != 0xF7)
            ==> event_at(s, p) == Some((None::<Event>, Seq::<char>::empty(), e + 1)),
        s[q] == 0xF0 && (forall|j: int| q < j < s.len() ==> s[j] != 0xF7) ==> event_at(s, p) is None,
{
    lemma_vlq_end_bounds(s, p);
    assert forall|e: int| #![trigger s[e]]
        s[q] == 0xF0 && q < e < s.len() && s[e] == 0xF7 && (forall|j: int| q < j < e ==> s[j] != 0xF7)
        implies event_at(s, p) == Some((None::<Event>, Seq::<char>::empty(), e + 1)) by {
        lemma_sysex_end_at(s, q + 1, e);
    }
    if s[q] == 0xF0 && (forall|j: int| q < j < s.len() ==> s[j] != 0xF7) {
        lemma_sysex_end_none(s, q + 1);
    }
}

proof fn lemma_sysex_end_none(s: Seq<u8>, r: int)
    requires
        0 <= r,
        forall|j: int| r <= j < s.len() ==> s[j] != 0xF7,
    ensures
        sysex_end(s, r) is None,
    decreases s.len() - r,
{
    if r < s.len() {
        lemma_sysex_end_none(s, r + 1);
    }
}

/// How many bytes a meta event (0xFF) takes after its type byte at `q + 1`:
/// one for a sequence number (0x00) and an end of track (0x2F), two for a
/// channel prefix (0x20), six for an SMPTE offset (0x54); a text event (0x01
/// to 0x0E) and a sequencer specific event (0x7F) a length byte and that many
/// bytes, a text event adding them to the name; a tempo (0x51), time
/// signature (0x58) or key signature (0x59) its length byte and then 3, 4 or
/// 2 bytes, or only the length byte where it is not 3, 4 or 2; a meta event
/// of any other type takes nothing more.
pub proof fn law_meta_event_sizes(s: Seq<u8>, p: int, q: int)
    requires
        vlq_end(s, p) == Some(q),
        q + 1 < s.len(),
        s[q] == 0xFF,
    ensures
        (s[q + 1] == 0x00 || s[q + 1] == 0x2F) && q + 3 <= s.len()
            ==> event_at(s, p) == Some((None::<Event>, Seq::<char>::empty(), q + 3)),
        s[q + 1] == 0x20 && q + 4 <= s.len() ==> event_at(s, p) == Some((None::<Event>, Seq::<char>::empty(), q + 4)),
        s[q + 1] == 0x54 && q + 8 <= s.len() ==> event_at(s, p) == Some((None::<Event>, Seq::<char>::empty(), q + 8)),
        s[q + 1] == 0x54 && q + 8 > s.len() ==> event_at(s, p) is None,
        0x01 <= s[q + 1] <= 0x0E && q + 3 <= s.len() && q + 3 + s[q + 2] <= s.len() ==> event_at(s, p) == Some(
            (None::<Event>, s.subrange(q + 3, q + 3 + s[q + 2]).map_values(|b: u8| b as char), q + 3 + s[q + 2]),
        ),
        s[q + 1] == 0x7F && q + 3 <= s.len() && q + 3 + s[q + 2] <= s.len()
            ==> event_at(s, p) == Some((None::<Event>, Seq::<char>::empty(), q + 3 + s[q + 2])),
        ((0x01 <= s[q + 1] <= 0x0E) || s[q + 1] == 0x7F) && q + 3 <= s.len() && q + 3 + s[q + 2] > s.len()
            ==> event_at(s, p) is None,
        s[q + 1] == 0x51 && q + 6 <= s.len() && s[q + 2] == 0x03 ==> event_at(s, p) == Some((
            Some(Event {
                deltatime: vlq_value(s, p, q),
                tp: EventType::SetTempo((s[q + 3] * 0x1_0000 + s[q + 4] * 0x100 + s[q + 5]) as u32),
            }),
            Seq::<char>::empty(),
            q + 6,
        )),
        s[q + 1] == 0x58 && q + 7 <= s.len() && s[q + 2] == 0x04 ==> event_at(s, p) == Some((
            Some(Event {
                deltatime: vlq_value(s, p, q),
                tp: EventType::SetTimeSig(s[q + 3], s[q + 4], s[q + 5], s[q + 6]),
            }),
            Seq::<char>::empty(),
            q + 7,
        )),
        s[q + 1] == 0x59 && q + 5 <= s.len() && s[q + 2] == 0x02 ==> event_at(s, p) == Some((
            Some(Event { deltatime: vlq_value(s, p, q), tp: EventType::SetKeySig(s[q + 3] as i8, s[q + 4]) }),
            Seq::<char>::empty(),
            q + 5,
        )),
        (s[q + 1] == 0x51 && s[q + 2] != 0x03 || s[q + 1] == 0x58 && s[q + 2] != 0x04
            || s[q + 1] == 0x59 && s[q + 2] != 0x02) && q + 3 <= s.len()
            ==> event_at(s, p) == Some((None::<Event>, Seq::<char>::empty(), q + 3)),
        !(s[q + 1] == 0x00 || (0x01 <= s[q + 1] <= 0x0E) || s[q + 1] == 0x20 || s[q + 1] == 0x2F || s[q + 1] == 0x51
            || s[q + 1] == 0x54 || s[q + 1] == 0x58 || s[q + 1] == 0x59 || s[q + 1] == 0x7F)
            ==> event_at(s, p) == Some((None::<Event>, Seq::<char>::empty(), q + 2)),
{
}

} // verus!
