use lib::chunks::{parse_chunks, process_header_chunk, try_parse_chunks, Chunk, HeaderData};
use lib::div_ceil;
use lib::lanes::{assign_lanes, sort_notes_by_start};
use lib::midi::{lay_out_track, midi_tracks, parse_midi, total_ticks, MidiError};
use lib::notes::{events_to_notes, NoteEvent};
use lib::codegen::{append_decimal, codegen_file, codegen_track};
use lib::quantize::{lane_end_tick, lanes_fit, quantize_lanes, QuantizedNote, QuantizedTrack};
use lib::stream::byte_at;
use lib::track::{parse_track, process_chunk, try_process_chunk, ChunkProcessingResult, Event, EventType};
use lib::vlq::read_vlq;
use lib::warnings::{midi_warnings, note_warnings, track_warnings, Warning};

/// A buffer kept back to front, as the parser reads it.
fn rev(bytes: &[u8]) -> Vec<u8> {
    bytes.iter().rev().cloned().collect()
}

fn chunk_bytes(tp: &[u8; 4], body: &[u8]) -> Vec<u8> {
    let mut v = tp.to_vec();
    v.extend_from_slice(&(body.len() as u32).to_be_bytes());
    v.extend_from_slice(body);
    v
}

fn header_body(format: u16, ntrks: u16, division: u16) -> Vec<u8> {
    let mut v = format.to_be_bytes().to_vec();
    v.extend_from_slice(&ntrks.to_be_bytes());
    v.extend_from_slice(&division.to_be_bytes());
    v
}

fn file(format: u16, division: u16, tracks: &[&[u8]]) -> Vec<u8> {
    let mut v = chunk_bytes(b"MThd", &header_body(format, tracks.len() as u16, division));
    for t in tracks {
        v.extend(chunk_bytes(b"MTrk", t));
    }
    v
}

const TWO_NOTES: [u8; 26] = [
    0x00, 0xFF, 0x03, 0x02, b'H', b'i', // track name "Hi"
    0x00, 0x90, 0x3C, 0x40, // C4 on at 0
    0x60, 0x80, 0x3C, 0x40, // C4 off at 96
    0x00, 0x90, 0x3E, 0x40, // D4 on at 96
    0x30, 0x80, 0x3E, 0x00, // D4 off at 144
    0x00, 0xFF, 0x2F, 0x00, // end of track
];

fn note(pitch: u8, start: u32, duration: u32) -> NoteEvent {
    NoteEvent { pitch, start, duration }
}

fn ev(deltatime: u32, tp: EventType) -> Event {
    Event { deltatime, tp }
}

#[test]
fn div_ceil_rounds_up() {
    assert_eq!(div_ceil(0, 7), 0);
    assert_eq!(div_ceil(14, 7), 2);
    assert_eq!(div_ceil(15, 7), 3);
    assert_eq!(div_ceil(u32::MAX, 2), 2147483648);
    assert_eq!(div_ceil(96, 48), 2);
}

#[test]
fn byte_at_reads_back_to_front() {
    let data = rev(&[1, 2, 3]);
    assert_eq!(byte_at(&data, 0), 1);
    assert_eq!(byte_at(&data, 2), 3);
}

#[test]
fn vlq_values() {
    let read = |bytes: &[u8]| read_vlq(&rev(bytes), 0);
    assert_eq!(read(&[0x00]), Some((0, 1)));
    assert_eq!(read(&[0x40]), Some((0x40, 1)));
    assert_eq!(read(&[0x81, 0x00]), Some((128, 2)));
    assert_eq!(read(&[0xFF, 0x7F]), Some((16383, 2)));
    assert_eq!(read(&[0x81, 0x80, 0x00, 0x55]), Some((16384, 3)));
    assert_eq!(read(&[0xFF, 0xFF, 0xFF, 0x7F]), Some((0x0FFF_FFFF, 4)));
    // Five bytes reach past 32 bits; the value wraps.
    assert_eq!(read(&[0x90, 0x80, 0x80, 0x80, 0x00]), Some((0, 5)));
    assert_eq!(read(&[0x7F, 0x7F, 0x7F, 0x7F, 0x0F]).map(|r| r.1), Some(1));
    assert_eq!(read(&[0xFF, 0xFF, 0xFF, 0xFF, 0x0F]), Some((4294967183, 5)));
    assert_eq!(read(&[0x80, 0x80]), None);
    assert_eq!(read(&[]), None);
    // Starting further in.
    assert_eq!(read_vlq(&rev(&[0x90, 0x83, 0x01]), 1), Some((0x181, 3)));
}

#[test]
fn chunks_split_and_encode_back() {
    let bytes = file(0, 96, &[&TWO_NOTES]);
    let chunks = parse_chunks(rev(&bytes)).unwrap();
    assert_eq!(chunks.len(), 2);
    assert_eq!(&chunks[0].tp, b"MThd");
    assert_eq!(chunks[0].len, 6);
    assert_eq!(&chunks[1].tp, b"MTrk");
    assert_eq!(chunks[1].len, 26);
    // The body is kept back to front.
    assert_eq!(rev(&chunks[1].data), TWO_NOTES.to_vec());
    // Writing the chunks back gives the file.
    let mut back = Vec::new();
    for c in &chunks {
        back.extend(chunk_bytes(&c.tp, &rev(&c.data)));
    }
    assert_eq!(back, bytes);
}

#[test]
fn chunks_of_empty_file() {
    assert_eq!(try_parse_chunks(&Vec::new()).map(|c| c.len()), Some(0));
}

#[test]
fn chunks_cut_off() {
    assert!(try_parse_chunks(&rev(b"MThd\x00\x00\x00\x06\x00")).is_none());
    assert!(try_parse_chunks(&rev(b"MThd\x00\x00")).is_none());
    assert!(try_parse_chunks(&rev(b"MThd\x00\x00\x00\x00MT")).is_none());
}

#[test]
fn header_read() {
    let c = Chunk { tp: *b"MThd", len: 6, data: rev(&header_body(1, 3, 480)) };
    assert_eq!(process_header_chunk(&c), Ok(HeaderData { format: 1, ntrks: 3, division: 480 }));
}

#[test]
fn header_refused() {
    let msg = "Midi is not valid - first chunk is not a valid header.".to_string();
    let c = Chunk { tp: *b"MTrk", len: 6, data: rev(&header_body(1, 3, 480)) };
    assert_eq!(process_header_chunk(&c), Err(msg.clone()));
    let c = Chunk { tp: *b"MThd", len: 4, data: rev(&[0, 1, 0, 2]) };
    assert_eq!(process_header_chunk(&c), Err(msg));
}

#[test]
fn track_events_and_name() {
    let track = parse_track(&rev(&TWO_NOTES)).unwrap();
    assert_eq!(track.name, vec!['H', 'i']);
    assert_eq!(
        track.events,
        vec![
            ev(0, EventType::MidiOn(0x3C)),
            ev(96, EventType::MidiOff(0x3C)),
            ev(0, EventType::MidiOn(0x3E)),
            ev(48, EventType::MidiOff(0x3E)),
        ]
    );
}

#[test]
fn track_meta_events() {
    let body = [
        0x00, 0xFF, 0x51, 0x03, 0x07, 0xA1, 0x20, // tempo 500000
        0x10, 0xFF, 0x58, 0x04, 0x06, 0x03, 0x18, 0x08, // time signature 6/8
        0x00, 0xFF, 0x59, 0x02, 0xFE, 0x01, // key signature: two flats, minor
        0x00, 0xFF, 0x01, 0x01, 0xE9, // text event with byte 0xE9
        0x00, 0xFF, 0x7F, 0x02, 0x01, 0x02, // sequencer specific, skipped
        0x00, 0xFF, 0x54, 0x05, 0x00, 0x00, 0x00, 0x00, 0x00, // SMPTE offset
        0x00, 0xFF, 0x20, 0x01, 0x00, // channel prefix
        0x00, 0xFF, 0x00, 0x02, // sequence number (one byte read)
    ];
    let track = parse_track(&rev(&body)).unwrap();
    assert_eq!(
        track.events,
        vec![
            ev(0, EventType::SetTempo(500000)),
            ev(16, EventType::SetTimeSig(6, 3, 0x18, 8)),
            ev(0, EventType::SetKeySig(-2, 1)),
        ]
    );
    assert_eq!(track.name, vec!['\u{e9}']);
}

#[test]
fn track_meta_with_wrong_length_is_passed_over() {
    // FF 51 not followed by 03: only the length byte is read, and the
    // following bytes are read as the next event.
    let body = [0x00, 0xFF, 0x51, 0x04, 0x00, 0x90, 0x3C, 0x40];
    let track = parse_track(&rev(&body)).unwrap();
    assert_eq!(track.events, vec![ev(0, EventType::MidiOn(0x3C))]);
    // An unknown meta type reads nothing more.
    let body = [0x00, 0xFF, 0x0F, 0x00, 0x90, 0x3C, 0x40];
    let track = parse_track(&rev(&body)).unwrap();
    assert_eq!(track.events, vec![ev(0, EventType::MidiOn(0x3C))]);
}

#[test]
fn track_channel_and_system_events() {
    let body = [
        0x00, 0xA0, 0x3C, 0x10, // aftertouch
        0x00, 0xB0, 0x07, 0x64, // controller
        0x00, 0xC0, 0x05, // program change
        0x00, 0xD0, 0x20, // channel pressure
        0x00, 0xE0, 0x00, 0x40, // pitch wheel
        0x00, 0xF0, 0x43, 0x12, 0xF7, // sysex up to F7
        0x00, 0xF2, 0x01, 0x02, // song position
        0x00, 0xF3, 0x04, // song select
        0x00, 0xF8, // clock
        0x00, 0x40, // a data byte where a status byte belongs: passed over
        0x05, 0x91, 0x45, 0x50, // note on, channel 1
    ];
    let track = parse_track(&rev(&body)).unwrap();
    assert_eq!(track.events, vec![ev(5, EventType::MidiOn(0x45))]);
    assert!(track.name.is_empty());
}

#[test]
fn track_cut_off() {
    assert!(parse_track(&rev(&[0x00, 0x90, 0x3C])).is_none());
    assert!(parse_track(&rev(&[0x80])).is_none());
    assert!(parse_track(&rev(&[0x00])).is_none());
    assert!(parse_track(&rev(&[0x00, 0xF0, 0x01, 0x02])).is_none());
    assert!(parse_track(&rev(&[0x00, 0xFF, 0x03, 0x05, b'a'])).is_none());
    assert!(parse_track(&rev(&[])).is_some());
}

#[test]
fn chunk_types() {
    let c = Chunk { tp: *b"XFIH", len: 2, data: vec![1, 2] };
    assert!(matches!(process_chunk(c), ChunkProcessingResult::UnknownChunkType));
    let c = Chunk { tp: *b"MTrk", len: 26, data: rev(&TWO_NOTES) };
    match process_chunk(c) {
        ChunkProcessingResult::ValidTrack(t) => assert_eq!(t.events.len(), 4),
        _ => panic!("expected a track"),
    }
}

#[test]
fn notes_from_events() {
    let events = vec![
        ev(0, EventType::MidiOn(60)),
        ev(10, EventType::SetTempo(500000)),
        ev(10, EventType::MidiOn(60)),
        ev(5, EventType::MidiOff(60)),
        ev(5, EventType::MidiOff(61)), // no note of this pitch is open: ignored
        ev(0, EventType::MidiOff(60)),
        ev(3, EventType::MidiOn(64)),
    ];
    let (lowest, notes) = events_to_notes(events);
    // The latest open note of a pitch is closed first.
    assert_eq!(notes, vec![note(60, 20, 5), note(60, 0, 30), note(64, 33, 0)]);
    assert_eq!(lowest, 5);
}

#[test]
fn notes_never_closed_come_last_by_pitch() {
    let events = vec![
        ev(0, EventType::MidiOn(70)),
        ev(1, EventType::MidiOn(50)),
        ev(1, EventType::MidiOn(70)),
        ev(1, EventType::SetKeySig(0, 0)),
    ];
    let (lowest, notes) = events_to_notes(events);
    assert_eq!(notes, vec![note(50, 1, 2), note(70, 0, 3), note(70, 2, 1)]);
    assert_eq!(lowest, u32::MAX);
}

#[test]
fn one_note_per_note_on() {
    let events = vec![
        ev(0, EventType::MidiOn(1)),
        ev(0, EventType::MidiOn(1)),
        ev(4, EventType::MidiOff(1)),
        ev(4, EventType::MidiOff(2)),
        ev(4, EventType::MidiOn(3)),
    ];
    let (_, notes) = events_to_notes(events);
    assert_eq!(notes.len(), 3);
    assert!(notes.iter().all(|n| n.start + n.duration <= 12));
}

#[test]
fn ticks_add_up() {
    assert_eq!(total_ticks(&vec![ev(3, EventType::MidiOn(1)), ev(4, EventType::MidiOff(1))]), Some(7));
    assert_eq!(total_ticks(&vec![ev(u32::MAX, EventType::MidiOn(1)), ev(1, EventType::MidiOff(1))]), None);
    assert_eq!(total_ticks(&vec![]), Some(0));
}

#[test]
fn sort_keeps_order_of_equal_starts() {
    let notes = vec![note(1, 5, 1), note(2, 0, 1), note(3, 5, 2), note(4, 0, 3), note(5, 2, 1)];
    assert_eq!(
        sort_notes_by_start(notes),
        vec![note(2, 0, 1), note(4, 0, 3), note(5, 2, 1), note(1, 5, 1), note(3, 5, 2)]
    );
}

#[test]
fn lanes_for_overlapping_notes() {
    let notes = vec![note(1, 0, 10), note(2, 5, 10), note(3, 10, 5), note(4, 15, 5), note(5, 12, 1)];
    let lanes = assign_lanes(notes);
    // Sorted: 1@0, 2@5, 3@10, 5@12, 4@15.
    // 3@10 reuses lane 0 (free at 10); 5@12 needs a new lane (lane 0 busy until 15,
    // lane 1 until 15); 4@15 goes to the lane free latest: both end at 15, the first wins.
    assert_eq!(
        lanes,
        vec![
            vec![note(1, 0, 10), note(3, 10, 5), note(4, 15, 5)],
            vec![note(2, 5, 10)],
            vec![note(5, 12, 1)],
        ]
    );
}

#[test]
fn lanes_pick_the_latest_free() {
    let notes = vec![note(1, 0, 2), note(2, 0, 6), note(3, 0, 4), note(4, 7, 1)];
    let lanes = assign_lanes(notes);
    // At 7 all three lanes are free; lane 1 (ending at 6) became free latest.
    assert_eq!(lanes, vec![vec![note(1, 0, 2)], vec![note(2, 0, 6), note(4, 7, 1)], vec![note(3, 0, 4)]]);
    assert!(assign_lanes(vec![]).is_empty());
}

#[test]
fn lanes_minimal_and_without_overlap() {
    let notes = vec![note(1, 0, 4), note(2, 1, 4), note(3, 2, 4), note(4, 4, 4), note(5, 8, 1)];
    let lanes = assign_lanes(notes.clone());
    // Three notes sound together at tick 2, and three lanes are used.
    assert_eq!(lanes.len(), 3);
    let mut all: Vec<NoteEvent> = lanes.iter().flatten().cloned().collect();
    all.sort_by_key(|n| n.pitch);
    assert_eq!(all, notes);
    for lane in &lanes {
        for w in lane.windows(2) {
            assert!(w[0].start + w[0].duration <= w[1].start);
        }
    }
}

#[test]
fn grid_of_two_notes() {
    let lanes = vec![vec![note(60, 0, 96), note(62, 96, 48)]];
    assert!(lanes_fit(&lanes, 48));
    let (speed_mod, q) = quantize_lanes(lanes, 48, 96);
    assert_eq!(speed_mod, 2);
    assert_eq!(q, vec![vec![QuantizedNote::Note(60), QuantizedNote::Hold, QuantizedNote::Note(62)]]);
}

#[test]
fn grid_rounds_up_and_later_notes_win() {
    // Steps of 10 ticks: the first note starts at step 1 (tick 5 rounded up)
    // and lasts 2 steps; the second starts at step 2 and overwrites the hold.
    // The lane ends at tick 30, three steps: the hold past it is dropped.
    let lanes = vec![vec![note(1, 5, 11), note(2, 16, 14)]];
    let (speed_mod, q) = quantize_lanes(lanes, 10, 25);
    assert_eq!(speed_mod, 3);
    assert_eq!(
        q,
        vec![vec![QuantizedNote::Rest, QuantizedNote::Note(1), QuantizedNote::Note(2)]]
    );
}

#[test]
fn grid_rest_between_notes() {
    let lanes = vec![vec![note(1, 0, 1), note(2, 3, 1)], vec![]];
    let (_, q) = quantize_lanes(lanes, 1, 1);
    assert_eq!(q[0], vec![QuantizedNote::Note(1), QuantizedNote::Rest, QuantizedNote::Rest, QuantizedNote::Note(2)]);
    assert!(q[1].is_empty());
}

#[test]
fn lanes_that_do_not_fit() {
    // The last note starts where its lane ends.
    assert!(!lanes_fit(&vec![vec![note(1, 0, 10), note(2, 15, 0)]], 10));
    assert!(lanes_fit(&vec![vec![note(1, 0, 10), note(2, 15, 10)]], 10));
}

#[test]
fn decimal_numbers() {
    for (n, text) in [(0u64, "0"), (7, "7"), (10, "10"), (60, "60"), (127, "127"), (1000, "1000"), (u64::MAX, "18446744073709551615")] {
        let mut out = String::from("x");
        append_decimal(&mut out, n);
        assert_eq!(out, format!("x{}", text));
    }
}

#[test]
fn code_one_word_per_step() {
    let track = QuantizedTrack { lanes: vec![vec![QuantizedNote::Note(60)]], name: vec![], speed_mod: 1 };
    assert_eq!(codegen_track(track, 0), "stack(\n  note(\"60\").slow(1),\n).fast(1)");
    let track = QuantizedTrack {
        lanes: vec![
            vec![QuantizedNote::Note(60), QuantizedNote::Hold, QuantizedNote::Note(62)],
            vec![],
            vec![
                QuantizedNote::Rest,
                QuantizedNote::Rest,
                QuantizedNote::Rest,
                QuantizedNote::Note(64),
                QuantizedNote::Hold,
                QuantizedNote::Hold,
                QuantizedNote::Rest,
            ],
        ],
        name: vec!['x'],
        speed_mod: 2,
    };
    assert_eq!(
        codegen_track(track, 0),
        "stack(\n  note(\"60 _ 62\").slow(3),\n  note(\"- - - 64 _ _ -\").slow(7),\n).fast(2)"
    );
}

#[test]
fn code_collapsed_at_level_one() {
    let track = QuantizedTrack {
        lanes: vec![
            vec![QuantizedNote::Note(60), QuantizedNote::Hold, QuantizedNote::Note(62)],
            vec![
                QuantizedNote::Rest,
                QuantizedNote::Rest,
                QuantizedNote::Rest,
                QuantizedNote::Note(64),
                QuantizedNote::Hold,
                QuantizedNote::Hold,
                QuantizedNote::Rest,
            ],
            {
                let mut l = vec![QuantizedNote::Hold, QuantizedNote::Hold];
                l.extend(vec![QuantizedNote::Rest; 10]);
                l
            },
        ],
        name: vec![],
        speed_mod: 4,
    };
    assert_eq!(
        codegen_track(track, 1),
        "stack(\n  note(\"60@2 62\").slow(3),\n  note(\"-@3 64@3 -\").slow(7),\n  note(\"_ _ -@10\").slow(12),\n).fast(4)"
    );
}

#[test]
fn code_of_empty_track() {
    let track = QuantizedTrack { lanes: vec![], name: vec![], speed_mod: 3 };
    assert_eq!(codegen_track(track, 0), "stack(\n).fast(3)");
}

#[test]
fn code_of_file() {
    let (_, tracks) = parse_midi(file(1, 96, &[&TWO_NOTES, &TWO_NOTES])).unwrap();
    let one = "stack(\n  note(\"60 _ 62\").slow(3),\n).fast(2)";
    assert_eq!(codegen_file(&tracks, 0), format!("stack(\n{},\n{},\n)\n", one, one));
    assert_eq!(codegen_file(&vec![], 1), "stack(\n)\n");
}

#[test]
fn midi_file_read() {
    let (hdr, tracks) = parse_midi(file(0, 96, &[&TWO_NOTES])).unwrap();
    assert_eq!(hdr, HeaderData { format: 0, ntrks: 1, division: 96 });
    assert_eq!(tracks.len(), 1);
    assert_eq!(tracks[0].name, vec!['H', 'i']);
    assert_eq!(tracks[0].speed_mod, 2);
    assert_eq!(
        tracks[0].lanes,
        vec![vec![QuantizedNote::Note(60), QuantizedNote::Hold, QuantizedNote::Note(62)]]
    );
}

#[test]
fn midi_unknown_chunks_passed_over() {
    let mut bytes = chunk_bytes(b"MThd", &header_body(1, 2, 96));
    bytes.extend(chunk_bytes(b"XYZW", &[1, 2, 3]));
    bytes.extend(chunk_bytes(b"MTrk", &TWO_NOTES));
    bytes.extend(chunk_bytes(b"MTrk", &[]));
    let (hdr, tracks) = parse_midi(bytes).unwrap();
    assert_eq!(hdr.format, 1);
    assert_eq!(tracks.len(), 2);
    assert!(tracks[1].lanes.is_empty());
    assert_eq!(tracks[1].speed_mod, 1);
}

#[test]
fn midi_errors() {
    assert_eq!(parse_midi(b"MThd\x00\x00\x00\x06\x00".to_vec()).err(), Some(MidiError::TruncatedChunk));
    assert_eq!(parse_midi(chunk_bytes(b"MThd", &header_body(0, 0, 96))).err(), Some(MidiError::InvalidChunkCount));
    assert_eq!(parse_midi(Vec::new()).err(), Some(MidiError::InvalidChunkCount));
    let mut bytes = chunk_bytes(b"MTrk", &[]);
    bytes.extend(chunk_bytes(b"MTrk", &[]));
    assert_eq!(parse_midi(bytes).err(), Some(MidiError::InvalidHeader));
    assert_eq!(parse_midi(file(2, 96, &[&TWO_NOTES])).err(), Some(MidiError::UnsupportedFormat));
    assert_eq!(parse_midi(file(3, 96, &[&TWO_NOTES])).err(), Some(MidiError::InvalidFormat));
    assert_eq!(parse_midi(file(0, 96, &[&[0x00, 0x90, 0x3C]])).err(), Some(MidiError::TruncatedTrack));
    // Only events that are kept carry their delta times into the clock.
    let long = [0xFF, 0xFF, 0xFF, 0xFF, 0x0F, 0x90, 0x3C, 0x40, 0xFF, 0xFF, 0xFF, 0xFF, 0x0F, 0x80, 0x3C, 0x40];
    assert_eq!(parse_midi(file(0, 96, &[&long])).err(), Some(MidiError::TimeOverflow));
    let zero = [0x00, 0x90, 0x3C, 0x40, 0x00, 0x80, 0x3C, 0x40];
    assert_eq!(parse_midi(file(0, 96, &[&zero])).err(), Some(MidiError::ZeroDivision));
    let out = [0x00, 0x90, 0x3C, 0x40, 0x0A, 0x80, 0x3C, 0x40, 0x05, 0x90, 0x3E, 0x40];
    assert_eq!(parse_midi(file(0, 96, &[&out])).err(), Some(MidiError::StepOutOfRange));
}

#[test]
fn midi_first_failure_decides() {
    // A cut-off track after a track whose ticks overflow: every track chunk is
    // read before any is laid out.
    let long = [0xFF, 0xFF, 0xFF, 0xFF, 0x0F, 0x90, 0x3C, 0x40, 0xFF, 0xFF, 0xFF, 0xFF, 0x0F, 0x80, 0x3C, 0x40];
    let cut = [0x00, 0x90];
    assert_eq!(parse_midi(file(1, 96, &[&long, &cut])).err(), Some(MidiError::TruncatedTrack));
    let zero = [0x00, 0x90, 0x3C, 0x40, 0x00, 0x80, 0x3C, 0x40];
    assert_eq!(parse_midi(file(1, 96, &[&zero, &long])).err(), Some(MidiError::ZeroDivision));
}

#[test]
fn chunk_cut_off_inside_event() {
    let c = Chunk { tp: *b"MTrk", len: 3, data: rev(&[0x00, 0x90, 0x3C]) };
    assert!(try_process_chunk(&c).is_none());
    let c = Chunk { tp: *b"MTrx", len: 3, data: rev(&[0x00, 0x90, 0x3C]) };
    assert!(matches!(try_process_chunk(&c), Some(ChunkProcessingResult::UnknownChunkType)));
}

#[test]
fn lane_end_is_latest_end() {
    assert_eq!(lane_end_tick(&vec![note(1, 0, 30), note(2, 10, 5)]), 30);
    assert_eq!(lane_end_tick(&vec![]), 0);
}

#[test]
fn one_track_laid_out() {
    let events = vec![ev(0, EventType::MidiOn(60)), ev(4, EventType::MidiOff(60)), ev(0, EventType::MidiOn(62)), ev(2, EventType::MidiOff(62))];
    let (speed_mod, lanes) = lay_out_track(events, 8).unwrap();
    assert_eq!(speed_mod, 4);
    assert_eq!(
        lanes,
        vec![vec![
            QuantizedNote::Note(60),
            QuantizedNote::Hold,
            QuantizedNote::Note(62)
        ]]
    );
    assert_eq!(lay_out_track(vec![], 8).map(|r| r.1.len()), Ok(0));
}

#[test]
fn header_with_longer_body() {
    let c = Chunk { tp: *b"MThd", len: 6, data: rev(&[0, 1, 0, 2, 0, 96, 9]) };
    assert_eq!(process_header_chunk(&c), Ok(HeaderData { format: 1, ntrks: 2, division: 96 }));
}

#[test]
fn chunks_written_then_read() {
    let bodies: [(&[u8; 4], &[u8]); 3] = [(b"MThd", &[0, 0, 0, 1, 0, 96]), (b"abcd", &[]), (b"MTrk", &[1, 2, 3])];
    let mut bytes = Vec::new();
    for (tp, body) in bodies.iter() {
        bytes.extend(chunk_bytes(tp, body));
    }
    assert_eq!(bytes.len(), 8 * 3 + 6 + 3);
    let chunks = parse_chunks(rev(&bytes)).unwrap();
    assert_eq!(chunks.len(), 3);
    for (c, (tp, body)) in chunks.iter().zip(bodies.iter()) {
        assert_eq!(&c.tp, *tp);
        assert_eq!(c.len as usize, body.len());
        assert_eq!(rev(&c.data), body.to_vec());
    }
}

#[test]
fn notes_come_from_note_ons() {
    let events = vec![
        ev(2, EventType::MidiOn(60)),
        ev(3, EventType::MidiOn(62)),
        ev(1, EventType::MidiOff(60)),
        ev(4, EventType::MidiOff(62)),
        ev(1, EventType::MidiOn(60)),
    ];
    let (_, notes) = events_to_notes(events);
    let mut keys: Vec<(u8, u32)> = notes.iter().map(|n| (n.pitch, n.start)).collect();
    keys.sort();
    assert_eq!(keys, vec![(60, 2), (60, 11), (62, 5)]);
    // Closed notes end at the tick of their note-off.
    assert_eq!(notes[0].start + notes[0].duration, 6);
    assert_eq!(notes[1].start + notes[1].duration, 10);
}

#[test]
fn lanes_in_order_of_opening() {
    let notes = vec![note(1, 8, 4), note(2, 0, 20), note(3, 3, 2), note(4, 1, 20)];
    let lanes = assign_lanes(notes);
    let firsts: Vec<u32> = lanes.iter().map(|l| l[0].start).collect();
    assert_eq!(firsts, vec![0, 1, 3]);
}

#[test]
fn grid_exact_on_whole_steps() {
    let lanes = vec![vec![note(60, 0, 20), note(62, 30, 10), note(64, 40, 10)]];
    let (_, q) = quantize_lanes(lanes, 10, 10);
    assert_eq!(
        q[0],
        vec![
            QuantizedNote::Note(60),
            QuantizedNote::Hold,
            QuantizedNote::Rest,
            QuantizedNote::Note(62),
            QuantizedNote::Note(64)
        ]
    );
}

#[test]
fn warnings_of_meta_events_with_wrong_length() {
    let body = [0x00, 0xFF, 0x51, 0x04, 0x00, 0x90, 0x3C, 0x40];
    assert_eq!(track_warnings(&rev(&body)), vec![Warning::TempoLength]);
    let body = [0x00, 0xFF, 0x58, 0x03, 0x00, 0xFF, 0x59, 0x03, 0x00, 0xFF, 0x51, 0x03, 0x07, 0xA1, 0x20];
    assert_eq!(track_warnings(&rev(&body)), vec![Warning::TimeSigLength, Warning::KeySigLength]);
}

#[test]
fn warnings_of_unknown_events() {
    let body = [
        0x00, 0xFF, 0x0F, // unknown meta type
        0x00, 0x40, // a data byte where a status byte belongs
        0x00, 0x90, 0x3C, 0x40,
    ];
    assert_eq!(track_warnings(&rev(&body)), vec![Warning::InvalidMeta(0x0F), Warning::InvalidEvent(0x40)]);
    // The events before a cut-off still give their warnings.
    let body = [0x00, 0x41, 0x00, 0x90, 0x3C];
    assert_eq!(track_warnings(&rev(&body)), vec![Warning::InvalidEvent(0x41)]);
    assert!(track_warnings(&rev(&TWO_NOTES)).is_empty());
}

#[test]
fn warnings_of_note_collection() {
    // A tempo event is passed over, and the note still open at the end is
    // closed at the last tick.
    let events = vec![ev(0, EventType::MidiOn(60)), ev(7, EventType::SetTempo(500000))];
    assert_eq!(note_warnings(&events), vec![Warning::TempoIgnored, Warning::ImpliedOff(60, 0)]);
    let (lowest, notes) = events_to_notes(events);
    assert_eq!((lowest, notes), (u32::MAX, vec![note(60, 0, 7)]));
    // A note-off with no open note is passed over, and its delta time counts.
    let events = vec![ev(3, EventType::MidiOff(60)), ev(2, EventType::MidiOn(60)), ev(4, EventType::MidiOff(60))];
    assert_eq!(note_warnings(&events), vec![Warning::UnmatchedOff]);
    let (lowest, notes) = events_to_notes(events);
    assert_eq!((lowest, notes), (4, vec![note(60, 5, 4)]));
    let events = vec![ev(0, EventType::SetTimeSig(4, 2, 24, 8)), ev(0, EventType::SetKeySig(0, 0))];
    assert_eq!(note_warnings(&events), vec![Warning::TimeSigIgnored, Warning::KeySigIgnored]);
}

#[test]
fn warnings_stop_where_ticks_overflow() {
    let events = vec![
        ev(0, EventType::SetTempo(1)),
        ev(0, EventType::MidiOn(60)),
        ev(u32::MAX, EventType::MidiOff(61)),
        ev(1, EventType::SetTempo(2)),
    ];
    assert_eq!(note_warnings(&events), vec![Warning::TempoIgnored, Warning::UnmatchedOff]);
}

#[test]
fn warnings_of_a_file() {
    let mut data = file(1, 96, &[&[0x00, 0xFF, 0x51, 0x04, 0x00, 0x90, 0x3C, 0x40, 0x05, 0x80, 0x3C, 0x00], &TWO_NOTES]);
    data.extend(chunk_bytes(b"XFIH", &[1, 2]));
    data.extend(chunk_bytes(b"MTrk", &[0x00, 0x90, 0x40, 0x40, 0x03, 0xFF, 0x51, 0x03, 0x07, 0xA1, 0x20]));
    assert_eq!(
        midi_warnings(&data),
        vec![Warning::TempoLength, Warning::UnknownChunk, Warning::TempoIgnored, Warning::ImpliedOff(0x40, 0)]
    );
    // Nothing is read past a header that stops the reading.
    let data = file(2, 96, &[&[0x00, 0xFF, 0x51, 0x04]]);
    assert!(midi_warnings(&data).is_empty());
    // The warnings stop after a track that cannot be laid out.
    let data = file(0, 96, &[&[0x00, 0x90, 0x3C, 0x40, 0x00, 0x80, 0x3C, 0x00], &[0x00, 0xFF, 0x58, 0x04, 4, 2, 24, 8]]);
    assert!(parse_midi(data.clone()).is_err());
    assert!(midi_warnings(&data).is_empty());
}

#[test]
fn track_laws_on_concrete_bytes() {
    // Two text events make up the name; the delta time of a skipped event is
    // not carried over to the next kept one.
    let body = [
        0x00, 0xFF, 0x01, 0x02, b'a', b'b',
        0x81, 0x00, 0xB0, 0x07, 0x64, // controller with delta 128, not kept
        0x05, 0x90, 0x3C, 0x40,
        0x00, 0xFF, 0x05, 0x01, b'c',
    ];
    let track = parse_track(&rev(&body)).unwrap();
    assert_eq!(track.name, vec!['a', 'b', 'c']);
    assert_eq!(track.events, vec![ev(5, EventType::MidiOn(0x3C))]);
    // A five-byte delta time is taken modulo 2^32.
    let body = [0x90, 0x80, 0x80, 0x80, 0x01, 0x90, 0x3C, 0x40];
    let track = parse_track(&rev(&body)).unwrap();
    assert_eq!(track.events, vec![ev(1, EventType::MidiOn(0x3C))]);
}

#[test]
fn tracks_reached_before_laying_out() {
    let mut data = file(1, 96, &[&TWO_NOTES]);
    data.extend(chunk_bytes(b"XFIH", &[1, 2]));
    data.extend(chunk_bytes(b"MTrk", &[0x00, 0x90, 0x3C, 0x40, 0x00, 0x80, 0x3C, 0x00]));
    data.extend(chunk_bytes(b"MTrk", &[0x00, 0xFF, 0x01, 0x01, b'x']));
    let tracks = midi_tracks(&data);
    // The third track is not reached: the second cannot be laid out.
    assert_eq!(tracks.len(), 2);
    assert_eq!(tracks[0].name, vec!['H', 'i']);
    assert_eq!(tracks[1].events, vec![ev(0, EventType::MidiOn(0x3C)), ev(0, EventType::MidiOff(0x3C))]);
    // A track cut off inside an event stops the reading before any track.
    let data = file(1, 96, &[&TWO_NOTES, &[0x00, 0x90]]);
    assert!(midi_tracks(&data).is_empty());
}
