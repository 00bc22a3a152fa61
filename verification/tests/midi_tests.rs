use merlion_kernel::midi::{midi_note_to_freq, midi_to_notes, parse_midi, ticks_to_ms, MidiEvent, Note, TimedEvent};

fn file(format: u16, tracks: &[&[u8]], division: u16) -> Vec<u8> {
    let mut d = b"MThd\x00\x00\x00\x06".to_vec();
    d.extend_from_slice(&format.to_be_bytes());
    d.extend_from_slice(&(tracks.len() as u16).to_be_bytes());
    d.extend_from_slice(&division.to_be_bytes());
    for t in tracks {
        d.extend_from_slice(b"MTrk");
        d.extend_from_slice(&(t.len() as u32).to_be_bytes());
        d.extend_from_slice(t);
    }
    d
}

const TRACK: &[u8] = &[
    0x00, 0xFF, 0x51, 0x03, 0x07, 0xA1, 0x20, // tempo 500000
    0x00, 0x90, 0x3C, 0x40, // note on 60
    0x60, 0x80, 0x3C, 0x00, // +96: note off 60
    0x00, 0x3E, 0x40, // running status: note off 62
    0x00, 0xC1, 0x05, // program change, channel 1
    0x81, 0x00, 0xE0, 0x00, 0x40, // +128: pitch bend 8192
    0x00, 0xFF, 0x2F, 0x00, // end of track
];

#[test]
fn parses_a_track() {
    let m = parse_midi(&file(0, &[TRACK], 96)).unwrap();
    assert_eq!((m.format, m.num_tracks, m.ticks_per_beat, m.tempo), (0, 1, 96, 500000));
    assert_eq!(
        m.tracks[0],
        vec![
            TimedEvent { tick: 0, event: MidiEvent::Tempo(500000) },
            TimedEvent { tick: 0, event: MidiEvent::NoteOn { channel: 0, note: 60, velocity: 64 } },
            TimedEvent { tick: 96, event: MidiEvent::NoteOff { channel: 0, note: 60, velocity: 0 } },
            TimedEvent { tick: 96, event: MidiEvent::NoteOff { channel: 0, note: 62, velocity: 64 } },
            TimedEvent { tick: 96, event: MidiEvent::ProgramChange { channel: 1, program: 5 } },
            TimedEvent { tick: 224, event: MidiEvent::PitchBend { channel: 0, value: 8192 } },
            TimedEvent { tick: 224, event: MidiEvent::EndOfTrack },
        ]
    );
}

#[test]
fn tempo_carries_across_tracks() {
    let t2: &[u8] = &[0x00, 0xFF, 0x51, 0x03, 0x0F, 0x42, 0x40, 0x00, 0xB2, 0x07, 0x64];
    let m = parse_midi(&file(1, &[TRACK, t2], 480)).unwrap();
    assert_eq!(m.tracks.len(), 2);
    assert_eq!(m.tempo, 1_000_000);
    assert_eq!(m.tracks[1][1], TimedEvent { tick: 0, event: MidiEvent::ControlChange { channel: 2, controller: 7, value: 100 } });
}

#[test]
fn unknown_status_ends_the_track() {
    let t: &[u8] = &[0x00, 0x90, 0x3C, 0x40, 0x00, 0xF1, 0x00, 0x00, 0x90, 0x3E, 0x40];
    let m = parse_midi(&file(0, &[t], 96)).unwrap();
    assert_eq!(m.tracks[0].len(), 1);
    // A data byte with no running status yet.
    let u: &[u8] = &[0x00, 0x3C, 0x40];
    assert!(parse_midi(&file(0, &[u], 96)).unwrap().tracks[0].is_empty());
}

#[test]
fn header_errors() {
    assert_eq!(parse_midi(b"MThd").err(), Some("data too short for MIDI header"));
    let mut bad = file(0, &[], 96);
    bad[0] = b'X';
    assert_eq!(parse_midi(&bad).err(), Some("missing MThd header"));
    let mut short = file(0, &[], 96);
    short[7] = 5;
    assert_eq!(parse_midi(&short).err(), Some("invalid MThd header length"));
    assert_eq!(parse_midi(&file(2, &[], 96)).err(), Some("only MIDI format 0 and 1 supported"));
    assert_eq!(parse_midi(&file(0, &[], 0xE250)).err(), Some("SMPTE time division not supported"));
}

#[test]
fn track_errors() {
    let mut d = file(0, &[TRACK], 96);
    d.truncate(25);
    assert_eq!(parse_midi(&d).err(), Some("MTrk chunk extends past end of data"));
    let mut d = file(0, &[TRACK], 96);
    d[14] = b'X';
    assert_eq!(parse_midi(&d).err(), Some("missing MTrk chunk"));
    let mut d = file(0, &[], 96);
    d[11] = 1;
    assert_eq!(parse_midi(&d).err(), Some("unexpected end before MTrk"));
    assert_eq!(parse_midi(&file(0, &[&[0x00, 0x90, 0x3C]], 96)).err(), Some("truncated note on"));
    assert_eq!(parse_midi(&file(0, &[&[0xFF, 0xFF, 0xFF, 0xFF, 0x00]], 96)).err(), Some("VLQ too long"));
    assert_eq!(parse_midi(&file(0, &[&[0x81]], 96)).err(), Some("unexpected end of MIDI data in VLQ"));
    assert_eq!(parse_midi(&file(0, &[&[0x00]], 96)).err(), Some("unexpected end in track"));
}

#[test]
fn note_frequencies() {
    assert_eq!(midi_note_to_freq(69), 440);
    assert_eq!(midi_note_to_freq(60), 262);
    assert_eq!(midi_note_to_freq(0), 8);
    assert_eq!(midi_note_to_freq(127), 12544);
    assert_eq!(midi_note_to_freq(128), 0);
    assert_eq!(midi_note_to_freq(255), 0);
}

#[test]
fn tick_durations() {
    assert_eq!(ticks_to_ms(96, 500_000, 96), 500);
    assert_eq!(ticks_to_ms(48, 500_000, 96), 250);
    assert_eq!(ticks_to_ms(1, 1, 96), 0);
    assert_eq!(ticks_to_ms(10, 500_000, 0), 0);
}

#[test]
fn notes_from_a_file() {
    let m = parse_midi(&file(0, &[TRACK], 96)).unwrap();
    assert_eq!(midi_to_notes(&m), vec![Note { freq_hz: 262, duration_ms: 500 }]);
    // Tracks are merged by tick; the second track's tempo applies from tick 0.
    let t2: &[u8] = &[0x00, 0xFF, 0x51, 0x03, 0x0F, 0x42, 0x40, 0x00, 0xB2, 0x07, 0x64];
    let m = parse_midi(&file(1, &[TRACK, t2], 480)).unwrap();
    assert_eq!(midi_to_notes(&m), vec![Note { freq_hz: 262, duration_ms: 200 }]);
    // A new note ends the sounding one.
    let t3: &[u8] = &[0x00, 0x90, 0x3C, 0x40, 0x30, 0x90, 0x40, 0x40, 0x30, 0x80, 0x40, 0x00];
    let m = parse_midi(&file(0, &[t3], 96)).unwrap();
    assert_eq!(
        midi_to_notes(&m),
        vec![Note { freq_hz: 262, duration_ms: 250 }, Note { freq_hz: 330, duration_ms: 250 }]
    );
    let m = parse_midi(&file(0, &[TRACK], 0)).unwrap();
    assert!(midi_to_notes(&m).is_empty());
}
