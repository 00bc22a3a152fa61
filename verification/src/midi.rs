//! Standard MIDI files (format 0 and 1): the header and track chunks, the
//! events of each track (notes, controllers, program changes, pitch bends,
//! tempo and end-of-track meta events, with running status), and the
//! integer note frequency table used to play them on the PC speaker.
use vstd::prelude::*;

verus! {

/// A MIDI event.
#[derive(PartialEq, Eq, Structural, Clone, Copy, Debug)]
pub enum MidiEvent {
    NoteOn { channel: u8, note: u8, velocity: u8 },
    NoteOff { channel: u8, note: u8, velocity: u8 },
    ProgramChange { channel: u8, program: u8 },
    ControlChange { channel: u8, controller: u8, value: u8 },
    PitchBend { channel: u8, value: u16 },
    Tempo(u32),
    EndOfTrack,
}

/// An event at an absolute tick of its track.
#[derive(PartialEq, Eq, Structural, Clone, Copy, Debug)]
pub struct TimedEvent {
    pub tick: u32,
    pub event: MidiEvent,
}

/// A parsed MIDI file.
pub struct MidiFile {
    pub format: u16,
    pub num_tracks: u16,
    pub ticks_per_beat: u16,
    pub tracks: Vec<Vec<TimedEvent>>,
    /// Microseconds per beat (500000, 120 BPM, unless a tempo event says
    /// otherwise; the last one read wins).
    pub tempo: u32,
}

/// A parsed MIDI file as plain values.
pub struct MidiModel {
    pub format: u16,
    pub num_tracks: u16,
    pub ticks_per_beat: u16,
    pub tracks: Seq<Seq<TimedEvent>>,
    pub tempo: u32,
}

impl MidiFile {
    pub open spec fn model(&self) -> MidiModel {
        MidiModel {
            format: self.format,
            num_tracks: self.num_tracks,
            ticks_per_beat: self.ticks_per_beat,
            tracks: self.tracks@.map_values(|t: Vec<TimedEvent>| t@),
            tempo: self.tempo,
        }
    }
}

// ---------------------------------------------------------------------------
// Notes
// ---------------------------------------------------------------------------

/// Frequencies in whole Hz of MIDI notes 0 to 127 (A4, note 69, is 440 Hz).
pub open spec fn freq_table() -> Seq<u16> {
    seq![
        8u16, 9, 9, 10, 10, 11, 12, 12, 13, 14, 15, 15,
        16, 17, 18, 19, 21, 22, 23, 25, 26, 28, 29, 31,
        33, 35, 37, 39, 41, 44, 46, 49, 52, 55, 58, 62,
        65, 69, 73, 78, 82, 87, 92, 98, 104, 110, 117, 123,
        131, 139, 147, 156, 165, 175, 185, 196, 208, 220, 233, 247,
        262, 277, 294, 311, 330, 349, 370, 392, 415, 440, 466, 494,
        523, 554, 587, 622, 659, 698, 740, 784, 831, 880, 932, 988,
        1047, 1109, 1175, 1245, 1319, 1397, 1480, 1568, 1661, 1760, 1865, 1976,
        2093, 2217, 2349, 2489, 2637, 2794, 2960, 3136, 3322, 3520, 3729, 3951,
        4186, 4435, 4699, 4978, 5274, 5588, 5920, 6272, 6645, 7040, 7459, 7902,
        8372, 8870, 9397, 9956, 10548, 11175, 11840, 12544
    ]
}

fn freq_vec() -> (v: Vec<u16>)
    ensures
        v@ == freq_table(),
{
    let v: Vec<u16> = vec![
        8u16, 9, 9, 10, 10, 11, 12, 12, 13, 14, 15, 15,
        16, 17, 18, 19, 21, 22, 23, 25, 26, 28, 29, 31,
        33, 35, 37, 39, 41, 44, 46, 49, 52, 55, 58, 62,
        65, 69, 73, 78, 82, 87, 92, 98, 104, 110, 117, 123,
        131, 139, 147, 156, 165, 175, 185, 196, 208, 220, 233, 247,
        262, 277, 294, 311, 330, 349, 370, 392, 415, 440, 466, 494,
        523, 554, 587, 622, 659, 698, 740, 784, 831, 880, 932, 988,
        1047, 1109, 1175, 1245, 1319, 1397, 1480, 1568, 1661, 1760, 1865, 1976,
        2093, 2217, 2349, 2489, 2637, 2794, 2960, 3136, 3322, 3520, 3729, 3951,
        4186, 4435, 4699, 4978, 5274, 5588, 5920, 6272, 6645, 7040, 7459, 7902,
        8372, 8870, 9397, 9956, 10548, 11175, 11840, 12544
    ];
    assert(v@ =~= freq_table());
    v
}

/// The frequency in whole Hz of a MIDI note; 0 above note 127.
pub fn midi_note_to_freq(note: u8) -> (r: u32)
    ensures
        note <= 127 ==> r == freq_table()[note as int],
        note > 127 ==> r == 0,
{
    if note > 127 {
        0
    } else {
        let t = freq_vec();
        t[note as usize] as u32
    }
}

/// Milliseconds of `ticks` at `tempo_usec` microseconds per beat and
/// `ticks_per_beat` ticks per beat, rounded down and cut to 32 bits (0
/// when there are no ticks per beat).
pub open spec fn ms_of(ticks: u32, tempo_usec: u32, ticks_per_beat: u32) -> u32 {
    if ticks_per_beat == 0 { 0 } else { ((ticks * tempo_usec) / (ticks_per_beat * 1000)) as u32 }
}

/// Convert ticks to milliseconds with integer arithmetic.
pub fn ticks_to_ms(ticks: u32, tempo_usec: u32, ticks_per_beat: u32) -> (r: u32)
    ensures
        r == ms_of(ticks, tempo_usec, ticks_per_beat),
{
    let t = ticks as u64;
    let u = tempo_usec as u64;
    assert(t * u <= 0xFFFF_FFFE_0000_0001) by (nonlinear_arith)
        requires t <= 0xFFFF_FFFF, u <= 0xFFFF_FFFF;
    let num = t * u;
    let den = ticks_per_beat as u64 * 1000;
    if den == 0 {
        return 0;
    }
    (num / den) as u32
}

// ---------------------------------------------------------------------------
// Reading the file
// ---------------------------------------------------------------------------

/// A variable-length quantity from `pos` on, `k` of its bytes already read
/// into `acc`: seven bits per byte, the high bit set on all but the last,
/// at most four bytes. Gives the value and the position after it.
pub open spec fn vlq_from(d: Seq<u8>, pos: int, k: int, acc: u32) -> Result<(u32, int), Seq<char>>
    decreases 4 - k,
{
    if k >= 4 {
        Err("VLQ too long"@)
    } else if pos < 0 || pos >= d.len() {
        Err("unexpected end of MIDI data in VLQ"@)
    } else {
        let b = d[pos];
        let v = (acc << 7u32) | ((b & 0x7Fu8) as u32);
        if b & 0x80u8 == 0 { Ok((v, pos + 1)) } else { vlq_from(d, pos + 1, k + 1, v) }
    }
}

/// The variable-length quantity at `pos`.
pub open spec fn vlq(d: Seq<u8>, pos: int) -> Result<(u32, int), Seq<char>> {
    vlq_from(d, pos, 0, 0)
}

/// Longest file the reader takes (positions stay far from the end of
/// `u64`).
pub const MAX_FILE: u64 = 0x1_0000_0000_0000;

fn read_vlq(data: &[u8], pos: u64) -> (r: Result<(u32, u64), &'static str>)
    requires
        data@.len() <= MAX_FILE,
        pos <= MAX_FILE + 0x2_0000_0000,
    ensures
        match vlq(data@, pos as int) {
            Ok((v, p)) => r matches Ok((a, b)) && a == v && b == p,
            Err(e) => r matches Err(m) && m@ == e,
        },
{
    let mut value: u32 = 0;
    let mut p: u64 = pos;
    let mut k: u64 = 0;
    let n = data.len() as u64;
    while k < 4
        invariant
            n == data@.len(),
            n <= MAX_FILE,
            k <= 4,
            p == pos + k,
            pos <= MAX_FILE + 0x2_0000_0000,
            vlq(data@, pos as int) == vlq_from(data@, p as int, k as int, value),
        decreases 4 - k,
    {
        if p >= n {
            return Err("unexpected end of MIDI data in VLQ");
        }
        let byte = data[p as usize];
        p = p + 1;
        value = (value << 7) | (byte & 0x7F) as u32;
        if byte & 0x80 == 0 {
            return Ok((value, p));
        }
        k = k + 1;
    }
    Err("VLQ too long")
}

/// The big-endian 16-bit number at `pos`.
pub open spec fn be16_at(d: Seq<u8>, pos: int) -> u16 {
    (d[pos] as int * 256 + d[pos + 1] as int) as u16
}

/// The big-endian 32-bit number at `pos`.
pub open spec fn be32_at(d: Seq<u8>, pos: int) -> u32 {
    (d[pos] as int * 16777216 + d[pos + 1] as int * 65536 + d[pos + 2] as int * 256 + d[pos + 3] as int) as u32
}

fn read_be16(d: &[u8], pos: usize) -> (r: u16)
    requires
        pos + 2 <= d@.len(),
    ensures
        r == be16_at(d@, pos as int),
{
    (d[pos] as u16) * 256 + (d[pos + 1] as u16)
}

fn read_be32(d: &[u8], pos: usize) -> (r: u32)
    requires
        pos + 4 <= d@.len(),
    ensures
        r == be32_at(d@, pos as int),
{
    (d[pos] as u32) * 16777216 + (d[pos + 1] as u32) * 65536 + (d[pos + 2] as u32) * 256 + (d[pos + 3] as u32)
}

/// What one event of a track gives.
pub enum TrackStep {
    /// Go on at this position with this tick, running status and tempo,
    /// having read this event (if it is one that is kept).
    Next(int, u32, u8, u32, Option<TimedEvent>),
    /// An unknown status: the rest of the track is skipped.
    Stop,
    /// The track is malformed.
    Fail(Seq<char>),
}

/// The event of a channel message with status `status` whose data start at
/// `p` (`None` for the ignored aftertouch messages), with its length, or
/// the error of a truncated message; `None` overall for an unknown status.
pub open spec fn channel_event(d: Seq<u8>, p: int, end: int, status: u8, tick: u32)
    -> Option<Result<(Option<TimedEvent>, int), Seq<char>>>
{
    let msg = status & 0xF0u8;
    let ch = status & 0x0Fu8;
    if msg == 0x80 {
        Some(if p + 2 > end { Err("truncated note off"@) } else {
            Ok((Some(TimedEvent { tick, event: MidiEvent::NoteOff { channel: ch, note: d[p], velocity: d[p + 1] } }), 2))
        })
    } else if msg == 0x90 {
        Some(if p + 2 > end { Err("truncated note on"@) } else if d[p + 1] == 0 {
            Ok((Some(TimedEvent { tick, event: MidiEvent::NoteOff { channel: ch, note: d[p], velocity: 0 } }), 2))
        } else {
            Ok((Some(TimedEvent { tick, event: MidiEvent::NoteOn { channel: ch, note: d[p], velocity: d[p + 1] } }), 2))
        })
    } else if msg == 0xA0 {
        Some(if p + 2 > end { Err("truncated aftertouch"@) } else { Ok((None, 2)) })
    } else if msg == 0xB0 {
        Some(if p + 2 > end { Err("truncated control change"@) } else {
            Ok((Some(TimedEvent { tick, event: MidiEvent::ControlChange { channel: ch, controller: d[p], value: d[p + 1] } }), 2))
        })
    } else if msg == 0xC0 {
        Some(if p >= end { Err("truncated program change"@) } else {
            Ok((Some(TimedEvent { tick, event: MidiEvent::ProgramChange { channel: ch, program: d[p] } }), 1))
        })
    } else if msg == 0xD0 {
        Some(if p >= end { Err("truncated channel aftertouch"@) } else { Ok((None, 1)) })
    } else if msg == 0xE0 {
        Some(if p + 2 > end { Err("truncated pitch bend"@) } else {
            Ok((Some(TimedEvent { tick, event: MidiEvent::PitchBend { channel: ch, value: (d[p + 1] as int * 128 + d[p] as int) as u16 } }), 2))
        })
    } else {
        None
    }
}

/// One event of a track that ends at `end`, read at `pos`: its delta time,
/// then a meta event (a tempo of three bytes and end-of-track are kept), a
/// system-exclusive message (skipped), or a channel message (a status byte,
/// or the running status when the byte is data).
pub open spec fn track_step(d: Seq<u8>, pos: int, end: int, tick: u32, rs: u8, tempo: u32) -> TrackStep {
    match vlq(d, pos) {
        Err(e) => TrackStep::Fail(e),
        Ok((delta, p1)) => {
            let t = ((tick + delta) % 0x1_0000_0000) as u32;
            if p1 >= end {
                TrackStep::Fail("unexpected end in track"@)
            } else if d[p1] == 0xFF {
                if p1 + 1 >= end {
                    TrackStep::Fail("unexpected end in meta event"@)
                } else {
                    let mt = d[p1 + 1];
                    match vlq(d, p1 + 2) {
                        Err(e) => TrackStep::Fail(e),
                        Ok((len, p2)) => {
                            if mt == 0x51 && len == 3 && p2 + 3 <= end {
                                let tp = (d[p2] as int * 65536 + d[p2 + 1] as int * 256 + d[p2 + 2] as int) as u32;
                                TrackStep::Next(p2 + len, t, rs, tp, Some(TimedEvent { tick: t, event: MidiEvent::Tempo(tp) }))
                            } else if mt == 0x2F {
                                TrackStep::Next(p2 + len, t, rs, tempo, Some(TimedEvent { tick: t, event: MidiEvent::EndOfTrack }))
                            } else {
                                TrackStep::Next(p2 + len, t, rs, tempo, None)
                            }
                        },
                    }
                }
            } else if d[p1] == 0xF0 || d[p1] == 0xF7 {
                match vlq(d, p1 + 1) {
                    Err(e) => TrackStep::Fail(e),
                    Ok((len, p2)) => TrackStep::Next(p2 + len, t, rs, tempo, None),
                }
            } else {
                let status = if d[p1] >= 0x80 { d[p1] } else { rs };
                let p2 = if d[p1] >= 0x80 { p1 + 1 } else { p1 };
                match channel_event(d, p2, end, status, t) {
                    None => TrackStep::Stop,
                    Some(Err(e)) => TrackStep::Fail(e),
                    Some(Ok((ev, n))) => TrackStep::Next(p2 + n, t, status, tempo, ev),
                }
            }
        },
    }
}

/// The events of a track from `pos` to `end`, and the tempo after them.
pub open spec fn track_events(d: Seq<u8>, pos: int, end: int, tick: u32, rs: u8, tempo: u32)
    -> Result<(Seq<TimedEvent>, u32), Seq<char>>
    decreases (if pos < end { end - pos } else { 0 }),
{
    if pos >= end {
        Ok((Seq::empty(), tempo))
    } else {
        match track_step(d, pos, end, tick, rs, tempo) {
            TrackStep::Fail(e) => Err(e),
            TrackStep::Stop => Ok((Seq::empty(), tempo)),
            TrackStep::Next(p, t, s, tp, ev) => {
                if p <= pos {
                    Ok((Seq::empty(), tempo))
                } else {
                    match track_events(d, p, end, t, s, tp) {
                        Err(e) => Err(e),
                        Ok((evs, tp2)) => Ok((
                            match ev {
                                Some(x) => seq![x] + evs,
                                None => evs,
                            },
                            tp2,
                        )),
                    }
                }
            },
        }
    }
}


/// One event's outcome as the reader computes it.
pub enum StepOut {
    Next(u64, u32, u8, u32, Option<TimedEvent>),
    Stop,
    Fail(&'static str),
}

/// Whether the reader's outcome is the specified one.
pub open spec fn step_agrees(r: StepOut, s: TrackStep) -> bool {
    match s {
        TrackStep::Next(p, t, st, tp, ev) => r matches StepOut::Next(p2, t2, st2, tp2, ev2)
            && p2 == p && t2 == t && st2 == st && tp2 == tp && ev2 == ev,
        TrackStep::Stop => r is Stop,
        TrackStep::Fail(e) => r matches StepOut::Fail(m) && m@ == e,
    }
}

fn channel_message(data: &[u8], p: u64, end: u64, status: u8, tick: u32)
    -> (r: Option<Result<(Option<TimedEvent>, u64), &'static str>>)
    requires
        end <= data@.len(),
        p <= end,
        data@.len() <= MAX_FILE,
    ensures
        match channel_event(data@, p as int, end as int, status, tick) {
            None => r is None,
            Some(Err(e)) => r matches Some(Err(m)) && m@ == e,
            Some(Ok((ev, n))) => r matches Some(Ok((ev2, n2))) && ev2 == ev && n2 == n,
        },
{
    let len = data.len();
    assert(len == data@.len());
    let msg = status & 0xF0;
    let ch = status & 0x0F;
    if msg == 0x80 {
        if p + 2 > end {
            return Some(Err("truncated note off"));
        }
        let i = p as usize;
        Some(Ok((Some(TimedEvent { tick, event: MidiEvent::NoteOff { channel: ch, note: data[i], velocity: data[i + 1] } }), 2)))
    } else if msg == 0x90 {
        if p + 2 > end {
            return Some(Err("truncated note on"));
        }
        let i = p as usize;
        if data[i + 1] == 0 {
            Some(Ok((Some(TimedEvent { tick, event: MidiEvent::NoteOff { channel: ch, note: data[i], velocity: 0 } }), 2)))
        } else {
            Some(Ok((Some(TimedEvent { tick, event: MidiEvent::NoteOn { channel: ch, note: data[i], velocity: data[i + 1] } }), 2)))
        }
    } else if msg == 0xA0 {
        if p + 2 > end {
            return Some(Err("truncated aftertouch"));
        }
        Some(Ok((None, 2)))
    } else if msg == 0xB0 {
        if p + 2 > end {
            return Some(Err("truncated control change"));
        }
        let i = p as usize;
        Some(Ok((Some(TimedEvent { tick, event: MidiEvent::ControlChange { channel: ch, controller: data[i], value: data[i + 1] } }), 2)))
    } else if msg == 0xC0 {
        if p >= end {
            return Some(Err("truncated program change"));
        }
        let i = p as usize;
        Some(Ok((Some(TimedEvent { tick, event: MidiEvent::ProgramChange { channel: ch, program: data[i] } }), 1)))
    } else if msg == 0xD0 {
        if p >= end {
            return Some(Err("truncated channel aftertouch"));
        }
        Some(Ok((None, 1)))
    } else if msg == 0xE0 {
        if p + 2 > end {
            return Some(Err("truncated pitch bend"));
        }
        let i = p as usize;
        let v: u16 = (data[i + 1] as u16) * 128 + (data[i] as u16);
        Some(Ok((Some(TimedEvent { tick, event: MidiEvent::PitchBend { channel: ch, value: v } }), 2)))
    } else {
        None
    }
}

fn track_event(data: &[u8], pos: u64, end: u64, tick: u32, rs: u8, tempo: u32) -> (r: StepOut)
    requires
        pos < end,
        end <= data@.len(),
        data@.len() <= MAX_FILE,
    ensures
        step_agrees(r, track_step(data@, pos as int, end as int, tick, rs, tempo)),
        r matches StepOut::Next(p, _, _, _, _) ==> pos < p <= MAX_FILE + 0x1_0000_0010,
{
    let (delta, p1) = match read_vlq(data, pos) {
        Ok(x) => x,
        Err(e) => {
            return StepOut::Fail(e);
        },
    };
    proof {
        lemma_vlq_advances(data@, pos as int, 0, 0);
    }
    let t: u32 = ((tick as u64 + delta as u64) % 0x1_0000_0000) as u32;
    if p1 >= end {
        return StepOut::Fail("unexpected end in track");
    }
    let sb = data[p1 as usize];
    if sb == 0xFF {
        if p1 + 1 >= end {
            return StepOut::Fail("unexpected end in meta event");
        }
        let mt = data[(p1 + 1) as usize];
        let (len, p2) = match read_vlq(data, p1 + 2) {
            Ok(x) => x,
            Err(e) => {
                return StepOut::Fail(e);
            },
        };
        proof {
            lemma_vlq_advances(data@, p1 + 2, 0, 0);
        }
        let next = p2 + len as u64;
        if mt == 0x51 && len == 3 && p2 + 3 <= end {
            let i = p2 as usize;
            let tp: u32 = (data[i] as u32) * 65536 + (data[i + 1] as u32) * 256 + (data[i + 2] as u32);
            StepOut::Next(next, t, rs, tp, Some(TimedEvent { tick: t, event: MidiEvent::Tempo(tp) }))
        } else if mt == 0x2F {
            StepOut::Next(next, t, rs, tempo, Some(TimedEvent { tick: t, event: MidiEvent::EndOfTrack }))
        } else {
            StepOut::Next(next, t, rs, tempo, None)
        }
    } else if sb == 0xF0 || sb == 0xF7 {
        let (len, p2) = match read_vlq(data, p1 + 1) {
            Ok(x) => x,
            Err(e) => {
                return StepOut::Fail(e);
            },
        };
        proof {
            lemma_vlq_advances(data@, p1 + 1, 0, 0);
        }
        StepOut::Next(p2 + len as u64, t, rs, tempo, None)
    } else {
        let status = if sb >= 0x80 { sb } else { rs };
        let p2 = if sb >= 0x80 { p1 + 1 } else { p1 };
        match channel_message(data, p2, end, status, t) {
            None => StepOut::Stop,
            Some(Err(e)) => StepOut::Fail(e),
            Some(Ok((ev, n))) => StepOut::Next(p2 + n, t, status, tempo, ev),
        }
    }
}

proof fn lemma_vlq_advances(d: Seq<u8>, pos: int, k: int, acc: u32)
    requires
        0 <= k <= 4,
    ensures
        vlq_from(d, pos, k, acc) matches Ok((_, p)) ==> pos < p <= d.len() && p <= pos + 4 - k,
    decreases 4 - k,
{
    if k < 4 && 0 <= pos < d.len() {
        let b = d[pos];
        let v = (acc << 7u32) | ((b & 0x7Fu8) as u32);
        lemma_vlq_advances(d, pos + 1, k + 1, v);
    }
}

/// The events of a track: `prefix` followed by those from a position on.
pub open spec fn after(prefix: Seq<TimedEvent>, rest: Result<(Seq<TimedEvent>, u32), Seq<char>>)
    -> Result<(Seq<TimedEvent>, u32), Seq<char>>
{
    match rest {
        Ok((evs, tp)) => Ok((prefix + evs, tp)),
        Err(e) => Err(e),
    }
}

fn parse_track(data: &[u8], start: u64, end: u64, tempo: u32) -> (r: Result<(Vec<TimedEvent>, u32), &'static str>)
    requires
        start <= end,
        end <= data@.len(),
        data@.len() <= MAX_FILE,
    ensures
        match track_events(data@, start as int, end as int, 0, 0, tempo) {
            Ok((evs, tp)) => r matches Ok((v, t)) && v@ == evs && t == tp,
            Err(e) => r matches Err(m) && m@ == e,
        },
{
    let mut events: Vec<TimedEvent> = Vec::new();
    let mut pos: u64 = start;
    let mut tick: u32 = 0;
    let mut rs: u8 = 0;
    let mut tp: u32 = tempo;
    assert(events@ + Seq::<TimedEvent>::empty() =~= Seq::<TimedEvent>::empty());
    while pos < end
        invariant_except_break
            end <= data@.len(),
            data@.len() <= MAX_FILE,
            pos <= MAX_FILE + 0x1_0000_0010,
            track_events(data@, start as int, end as int, 0, 0, tempo)
                == after(events@, track_events(data@, pos as int, end as int, tick, rs, tp)),
        ensures
            track_events(data@, start as int, end as int, 0, 0, tempo) == Ok::<(Seq<TimedEvent>, u32), Seq<char>>((events@, tp)),
        decreases (if pos < end { end - pos } else { 0 }),
    {
        let ghost before = events@;
        match track_event(data, pos, end, tick, rs, tp) {
            StepOut::Fail(e) => {
                return Err(e);
            },
            StepOut::Stop => {
                assert(before + Seq::<TimedEvent>::empty() =~= before);
                break;
            },
            StepOut::Next(p, t, s, tp2, ev) => {
                match ev {
                    Some(x) => {
                        events.push(x);
                        proof {
                            let rest = track_events(data@, p as int, end as int, t, s, tp2);
                            if let Ok((evs, q)) = rest {
                                assert(before + (seq![x] + evs) =~= events@ + evs);
                            }
                        }
                    },
                    None => {},
                }
                pos = p;
                tick = t;
                rs = s;
                tp = tp2;
            },
        }
    }
    proof {
        if pos >= end {
            assert(events@ + Seq::<TimedEvent>::empty() =~= events@);
        }
    }
    Ok((events, tp))
}


/// The bytes of `MThd`.
pub open spec fn mthd() -> Seq<u8> {
    seq![0x4Du8, 0x54u8, 0x68u8, 0x64u8]
}

/// The bytes of `MTrk`.
pub open spec fn mtrk() -> Seq<u8> {
    seq![0x4Du8, 0x54u8, 0x72u8, 0x6Bu8]
}

/// `n` track chunks from `pos` on, each `MTrk`, a 32-bit length and its
/// events; the tempo carries from one track to the next.
pub open spec fn tracks_from(d: Seq<u8>, pos: int, n: nat, tempo: u32) -> Result<(Seq<Seq<TimedEvent>>, u32), Seq<char>>
    decreases n,
{
    if n == 0 {
        Ok((Seq::empty(), tempo))
    } else if pos + 8 > d.len() {
        Err("unexpected end before MTrk"@)
    } else if d.subrange(pos, pos + 4) != mtrk() {
        Err("missing MTrk chunk"@)
    } else {
        let start = pos + 8;
        let end = start + be32_at(d, pos + 4);
        if end > d.len() {
            Err("MTrk chunk extends past end of data"@)
        } else {
            match track_events(d, start, end, 0, 0, tempo) {
                Err(e) => Err(e),
                Ok((evs, tp)) => match tracks_from(d, end, (n - 1) as nat, tp) {
                    Err(e) => Err(e),
                    Ok((ts, tp2)) => Ok((seq![evs] + ts, tp2)),
                },
            }
        }
    }
}

/// What a standard MIDI file holds: the `MThd` header (its length at
/// least 6, format 0 or 1, a division in ticks per beat), then its tracks.
pub open spec fn midi_spec(d: Seq<u8>) -> Result<MidiModel, Seq<char>> {
    if d.len() < 14 {
        Err("data too short for MIDI header"@)
    } else if d.subrange(0, 4) != mthd() {
        Err("missing MThd header"@)
    } else if be32_at(d, 4) < 6 {
        Err("invalid MThd header length"@)
    } else if be16_at(d, 8) > 1 {
        Err("only MIDI format 0 and 1 supported"@)
    } else if be16_at(d, 12) >= 0x8000 {
        Err("SMPTE time division not supported"@)
    } else {
        match tracks_from(d, 8 + be32_at(d, 4), be16_at(d, 10) as nat, 500000) {
            Err(e) => Err(e),
            Ok((ts, tp)) => Ok(MidiModel {
                format: be16_at(d, 8),
                num_tracks: be16_at(d, 10),
                ticks_per_beat: be16_at(d, 12),
                tracks: ts,
                tempo: tp,
            }),
        }
    }
}

fn tag_is(data: &[u8], pos: usize, a: u8, b: u8, c: u8, e: u8) -> (r: bool)
    requires
        pos + 4 <= data@.len(),
    ensures
        r == (data@.subrange(pos as int, pos + 4) == seq![a, b, c, e]),
{
    let r = data[pos] == a && data[pos + 1] == b && data[pos + 2] == c && data[pos + 3] == e;
    proof {
        let w = data@.subrange(pos as int, pos + 4);
        if r {
            assert(w =~= seq![a, b, c, e]);
        } else if w == seq![a, b, c, e] {
            assert(w[0] == a && w[1] == b && w[2] == c && w[3] == e);
        }
    }
    r
}

/// Parse a standard MIDI file.
pub fn parse_midi(data: &[u8]) -> (r: Result<MidiFile, &'static str>)
    requires
        data@.len() <= MAX_FILE,
    ensures
        match midi_spec(data@) {
            Ok(m) => r matches Ok(f) && f.model() == m,
            Err(e) => r matches Err(msg) && msg@ == e,
        },
{
    let len = data.len();
    if len < 14 {
        return Err("data too short for MIDI header");
    }
    if !tag_is(data, 0, 0x4D, 0x54, 0x68, 0x64) {
        return Err("missing MThd header");
    }
    let header_len = read_be32(data, 4);
    if header_len < 6 {
        return Err("invalid MThd header length");
    }
    let format = read_be16(data, 8);
    let num_tracks = read_be16(data, 10);
    let division = read_be16(data, 12);
    if format > 1 {
        return Err("only MIDI format 0 and 1 supported");
    }
    if division >= 0x8000 {
        return Err("SMPTE time division not supported");
    }
    let n64 = len as u64;
    let mut pos: u64 = 8 + header_len as u64;
    let mut tracks: Vec<Vec<TimedEvent>> = Vec::new();
    let mut tempo: u32 = 500000;
    let mut k: u16 = 0;
    let ghost total = be16_at(data@, 10) as nat;
    let ghost whole = tracks_from(data@, 8 + be32_at(data@, 4), total, 500000);
    assert(tracks@.map_values(|t: Vec<TimedEvent>| t@) =~= Seq::<Seq<TimedEvent>>::empty());
    assert(data@.subrange(0, 4) == mthd());
    assert(midi_spec(data@) == match whole {
        Err(e) => Err(e),
        Ok((ts, tp)) => Ok(MidiModel { format, num_tracks, ticks_per_beat: division, tracks: ts, tempo: tp }),
    });
    while k < num_tracks
        invariant
            midi_spec(data@) == match whole {
                Err(e) => Err(e),
                Ok((ts, tp)) => Ok(MidiModel { format, num_tracks, ticks_per_beat: division, tracks: ts, tempo: tp }),
            },
            n64 == data@.len(),
            len == data@.len(),
            data@.len() <= MAX_FILE,
            k <= num_tracks,
            num_tracks == total,
            pos <= MAX_FILE + 0x1_0000_0008,
            whole == tracks_from(data@, 8 + be32_at(data@, 4), total, 500000),
            whole == match tracks_from(data@, pos as int, (total - k) as nat, tempo) {
                Err(e) => Err(e),
                Ok((ts, tp)) => Ok((tracks@.map_values(|t: Vec<TimedEvent>| t@) + ts, tp)),
            },
        decreases num_tracks - k,
    {
        if pos + 8 > n64 {
            return Err("unexpected end before MTrk");
        }
        if !tag_is(data, pos as usize, 0x4D, 0x54, 0x72, 0x6B) {
            return Err("missing MTrk chunk");
        }
        let track_len = read_be32(data, (pos + 4) as usize);
        let start = pos + 8;
        let end = start + track_len as u64;
        if end > n64 {
            return Err("MTrk chunk extends past end of data");
        }
        let (events, tp) = match parse_track(data, start, end, tempo) {
            Ok(x) => x,
            Err(e) => {
                return Err(e);
            },
        };
        let ghost before = tracks@.map_values(|t: Vec<TimedEvent>| t@);
        tracks.push(events);
        proof {
            assert(tracks@.map_values(|t: Vec<TimedEvent>| t@) =~= before.push(events@));
            let rest = tracks_from(data@, end as int, (total - k - 1) as nat, tp);
            if let Ok((ts, tp2)) = rest {
                assert(before + (seq![events@] + ts) =~= before.push(events@) + ts);
            }
        }
        pos = end;
        tempo = tp;
        k = k + 1;
    }
    assert(tracks@.map_values(|t: Vec<TimedEvent>| t@) + Seq::<Seq<TimedEvent>>::empty()
        =~= tracks@.map_values(|t: Vec<TimedEvent>| t@));
    Ok(MidiFile { format, num_tracks, ticks_per_beat: division, tracks, tempo })
}


// ---------------------------------------------------------------------------
// Playing
// ---------------------------------------------------------------------------

/// A tone for the PC speaker.
#[derive(PartialEq, Eq, Structural, Clone, Copy, Debug)]
pub struct Note {
    pub freq_hz: u16,
    pub duration_ms: u16,
}

/// The events of all tracks, track after track.
pub open spec fn flatten(ts: Seq<Seq<TimedEvent>>) -> Seq<TimedEvent>
    decreases ts.len(),
{
    if ts.len() == 0 { Seq::empty() } else { flatten(ts.drop_last()) + ts.last() }
}

/// Index of the first event from `j` on that comes after tick `t`.
pub open spec fn first_after(s: Seq<TimedEvent>, t: u32, j: int) -> int
    decreases s.len() - j,
{
    if j < 0 || j >= s.len() { s.len() as int } else if s[j].tick > t { j } else { first_after(s, t, j + 1) }
}

/// The events ordered by tick, those at the same tick in their original
/// order (a stable sort).
pub open spec fn sort_by_tick(s: Seq<TimedEvent>) -> Seq<TimedEvent>
    decreases s.len(),
{
    if s.len() == 0 {
        s
    } else {
        let r = sort_by_tick(s.drop_last());
        r.insert(first_after(r, s.last().tick, 0), s.last())
    }
}

/// The sounding note and when it began, with the tempo, while playing.
pub struct PlayState {
    pub tempo: u32,
    pub active: Option<u8>,
    pub start: u32,
}

/// The notes after the note sounding since `st.start` ends at `tick`: one
/// more, of its frequency and length, unless it lasted under a
/// millisecond.
pub open spec fn close_note(out: Seq<Note>, note: u8, st: PlayState, tick: u32, tpb: u32) -> Seq<Note> {
    let dt = if tick >= st.start { (tick - st.start) as u32 } else { 0u32 };
    let ms = ms_of(dt, st.tempo, tpb);
    if ms > 0 {
        out.push(Note { freq_hz: freq_table()[if note > 127 { 127int } else { note as int }], duration_ms: ms as u16 })
    } else {
        out
    }
}

/// Playing one event: a tempo event changes the tempo; a note-on (velocity
/// above 0) ends the sounding note and starts its own; a note-off, or a
/// note-on of velocity 0, of the sounding note ends it.
pub open spec fn play_event(st: PlayState, out: Seq<Note>, e: TimedEvent, tpb: u32) -> (PlayState, Seq<Note>) {
    match e.event {
        MidiEvent::Tempo(t) => (PlayState { tempo: t, ..st }, out),
        MidiEvent::NoteOn { note, velocity, .. } => {
            if velocity > 0 {
                let out2 = match st.active {
                    Some(prev) => close_note(out, prev, st, e.tick, tpb),
                    None => out,
                };
                (PlayState { active: Some(note), start: e.tick, ..st }, out2)
            } else if st.active == Some(note) {
                (PlayState { active: None, start: e.tick, ..st }, close_note(out, note, st, e.tick, tpb))
            } else {
                (st, out)
            }
        },
        MidiEvent::NoteOff { note, .. } => {
            if st.active == Some(note) {
                (PlayState { active: None, start: e.tick, ..st }, close_note(out, note, st, e.tick, tpb))
            } else {
                (st, out)
            }
        },
        _ => (st, out),
    }
}

/// Playing the first `n` events.
pub open spec fn play(es: Seq<TimedEvent>, n: nat, init: PlayState, tpb: u32) -> (PlayState, Seq<Note>)
    decreases n,
{
    if n == 0 || n > es.len() {
        (init, Seq::empty())
    } else {
        let (st, out) = play(es, (n - 1) as nat, init, tpb);
        play_event(st, out, es[n - 1], tpb)
    }
}

/// The notes a file plays on the PC speaker: all events by tick, the
/// sounding note being the last one started (none when there are no ticks
/// per beat).
pub open spec fn notes_of(m: MidiModel) -> Seq<Note> {
    if m.ticks_per_beat == 0 {
        Seq::empty()
    } else {
        let es = sort_by_tick(flatten(m.tracks));
        play(es, es.len(), PlayState { tempo: m.tempo, active: None, start: 0 }, m.ticks_per_beat as u32).1
    }
}

proof fn lemma_first_after(s: Seq<TimedEvent>, t: u32, j: int)
    requires
        0 <= j <= s.len(),
    ensures
        j <= first_after(s, t, j) <= s.len(),
    decreases s.len() - j,
{
    if j < s.len() && s[j].tick <= t {
        lemma_first_after(s, t, j + 1);
    }
}

proof fn lemma_sort_len(s: Seq<TimedEvent>)
    ensures
        sort_by_tick(s).len() == s.len(),
    decreases s.len(),
{
    if s.len() > 0 {
        lemma_sort_len(s.drop_last());
        lemma_first_after(sort_by_tick(s.drop_last()), s.last().tick, 0);
    }
}

fn all_events(m: &MidiFile) -> (r: Vec<TimedEvent>)
    ensures
        r@ == flatten(m.model().tracks),
{
    let mut out: Vec<TimedEvent> = Vec::new();
    let mut i: usize = 0;
    let ghost ts = m.model().tracks;
    while i < m.tracks.len()
        invariant
            ts == m.model().tracks,
            ts.len() == m.tracks@.len(),
            i <= m.tracks@.len(),
            out@ == flatten(ts.subrange(0, i as int)),
        decreases m.tracks@.len() - i,
    {
        let t = &m.tracks[i];
        assert(ts[i as int] == t@);
        let mut j: usize = 0;
        let ghost base = out@;
        while j < t.len()
            invariant
                j <= t@.len(),
                out@ == base + t@.subrange(0, j as int),
            decreases t@.len() - j,
        {
            out.push(t[j]);
            j = j + 1;
            assert(out@ =~= base + t@.subrange(0, j as int));
        }
        assert(t@.subrange(0, t@.len() as int) =~= t@);
        assert(ts.subrange(0, i + 1).drop_last() =~= ts.subrange(0, i as int));
        i = i + 1;
    }
    assert(ts.subrange(0, ts.len() as int) =~= ts);
    out
}

fn sort_events(es: Vec<TimedEvent>) -> (r: Vec<TimedEvent>)
    ensures
        r@ == sort_by_tick(es@),
{
    let mut out: Vec<TimedEvent> = Vec::new();
    let mut i: usize = 0;
    while i < es.len()
        invariant
            i <= es@.len(),
            out@ == sort_by_tick(es@.subrange(0, i as int)),
        decreases es@.len() - i,
    {
        let e = es[i];
        let n = out.len();
        let mut p: usize = 0;
        proof {
            lemma_sort_len(es@.subrange(0, i as int));
        }
        while p < n && out[p].tick <= e.tick
            invariant
                n == out@.len(),
                p <= n,
                first_after(out@, e.tick, 0) == first_after(out@, e.tick, p as int),
            decreases n - p,
        {
            p = p + 1;
        }
        out.insert(p, e);
        assert(es@.subrange(0, i + 1).drop_last() =~= es@.subrange(0, i as int));
        assert(es@.subrange(0, i + 1).last() == e);
        i = i + 1;
    }
    assert(es@.subrange(0, es@.len() as int) =~= es@);
    out
}

fn close_note_exec(out: &mut Vec<Note>, note: u8, tempo: u32, start: u32, tick: u32, tpb: u32)
    ensures
        final(out)@ == close_note(old(out)@, note, PlayState { tempo, active: None, start }, tick, tpb),
{
    let dt = tick.saturating_sub(start);
    let ms = ticks_to_ms(dt, tempo, tpb);
    if ms > 0 {
        let t = freq_vec();
        let idx: usize = if note > 127 { 127 } else { note as usize };
        out.push(Note { freq_hz: t[idx], duration_ms: ms as u16 });
    }
}

/// The notes a file plays on the PC speaker, by tick across all tracks.
pub fn midi_to_notes(midi: &MidiFile) -> (r: Vec<Note>)
    ensures
        r@ == notes_of(midi.model()),
{
    let mut notes: Vec<Note> = Vec::new();
    let tpb = midi.ticks_per_beat as u32;
    if tpb == 0 {
        return notes;
    }
    let es = sort_events(all_events(midi));
    let ghost init = PlayState { tempo: midi.tempo, active: None, start: 0 };
    let mut tempo: u32 = midi.tempo;
    let mut active: Option<u8> = None;
    let mut start: u32 = 0;
    let mut i: usize = 0;
    while i < es.len()
        invariant
            i <= es@.len(),
            tpb == midi.ticks_per_beat as u32,
            play(es@, i as nat, init, tpb) == (PlayState { tempo, active, start }, notes@),
        decreases es@.len() - i,
    {
        let e = es[i];
        match e.event {
            MidiEvent::Tempo(t) => {
                tempo = t;
            },
            MidiEvent::NoteOn { note, velocity, .. } => {
                if velocity > 0 {
                    match active {
                        Some(prev) => close_note_exec(&mut notes, prev, tempo, start, e.tick, tpb),
                        None => {},
                    }
                    active = Some(note);
                    start = e.tick;
                } else if active == Some(note) {
                    close_note_exec(&mut notes, note, tempo, start, e.tick, tpb);
                    active = None;
                    start = e.tick;
                }
            },
            MidiEvent::NoteOff { note, .. } => {
                if active == Some(note) {
                    close_note_exec(&mut notes, note, tempo, start, e.tick, tpb);
                    active = None;
                    start = e.tick;
                }
            },
            _ => {},
        }
        i = i + 1;
    }
    notes
}


/// The note table is equal temperament at A4 = 440 Hz (note 69): a note an
/// octave up has twice the frequency (up to one Hz of rounding), and no
/// note is lower than the one below it.
pub proof fn law_note_table_octaves(n: int)
    ensures
        freq_table()[69] == 440,
        0 <= n < 116 ==> -1 <= freq_table()[n + 12] - 2 * freq_table()[n] <= 1,
        0 <= n < 127 ==> freq_table()[n] <= freq_table()[n + 1],
{
    let t = freq_table();
    if 0 <= n < 127 {
        if n == 0 {} else if n == 1 {} else if n == 2 {} else if n == 3 {} else if n == 4 {} else if n == 5 {} else if n == 6 {} else if n == 7 {} else if n == 8 {} else if n == 9 {} else if n == 10 {} else if n == 11 {} else if n == 12 {} else if n == 13 {} else if n == 14 {} else if n == 15 {} else if n == 16 {} else if n == 17 {} else if n == 18 {} else if n == 19 {} else if n == 20 {} else if n == 21 {} else if n == 22 {} else if n == 23 {} else if n == 24 {} else if n == 25 {} else if n == 26 {} else if n == 27 {} else if n == 28 {} else if n == 29 {} else if n == 30 {} else if n == 31 {} else if n == 32 {} else if n == 33 {} else if n == 34 {} else if n == 35 {} else if n == 36 {} else if n == 37 {} else if n == 38 {} else if n == 39 {} else if n == 40 {} else if n == 41 {} else if n == 42 {} else if n == 43 {} else if n == 44 {} else if n == 45 {} else if n == 46 {} else if n == 47 {} else if n == 48 {} else if n == 49 {} else if n == 50 {} else if n == 51 {} else if n == 52 {} else if n == 53 {} else if n == 54 {} else if n == 55 {} else if n == 56 {} else if n == 57 {} else if n == 58 {} else if n == 59 {} else if n == 60 {} else if n == 61 {} else if n == 62 {} else if n == 63 {} else if n == 64 {} else if n == 65 {} else if n == 66 {} else if n == 67 {} else if n == 68 {} else if n == 69 {} else if n == 70 {} else if n == 71 {} else if n == 72 {} else if n == 73 {} else if n == 74 {} else if n == 75 {} else if n == 76 {} else if n == 77 {} else if n == 78 {} else if n == 79 {} else if n == 80 {} else if n == 81 {} else if n == 82 {} else if n == 83 {} else if n == 84 {} else if n == 85 {} else if n == 86 {} else if n == 87 {} else if n == 88 {} else if n == 89 {} else if n == 90 {} else if n == 91 {} else if n == 92 {} else if n == 93 {} else if n == 94 {} else if n == 95 {} else if n == 96 {} else if n == 97 {} else if n == 98 {} else if n == 99 {} else if n == 100 {} else if n == 101 {} else if n == 102 {} else if n == 103 {} else if n == 104 {} else if n == 105 {} else if n == 106 {} else if n == 107 {} else if n == 108 {} else if n == 109 {} else if n == 110 {} else if n == 111 {} else if n == 112 {} else if n == 113 {} else if n == 114 {} else if n == 115 {} else if n == 116 {} else if n == 117 {} else if n == 118 {} else if n == 119 {} else if n == 120 {} else if n == 121 {} else if n == 122 {} else if n == 123 {} else if n == 124 {} else if n == 125 {} else if n == 126 {}
    }
}


proof fn lemma_vlq_byte(acc: u32, b: u8)
    requires
        acc < 0x0200_0000,
    ensures
        (acc << 7u32) | ((b & 0x7Fu8) as u32) == acc * 128 + (if b >= 128 { b - 128 } else { b as int }),
        (b & 0x80u8 == 0) <==> b < 128,
{
    assert((acc << 7u32) | ((b & 0x7Fu8) as u32) == acc * 128 + (b & 0x7Fu8) && ((b & 0x80u8 == 0) <==> b < 128)
        && (b >= 128 ==> (b & 0x7Fu8) == b - 128) && (b < 128 ==> (b & 0x7Fu8) == b)) by (bit_vector)
        requires acc < 0x0200_0000;
}

/// A variable-length quantity holds seven bits per byte, most significant
/// first: one byte below 0x80 is its own value; each byte with the high bit
/// set contributes its low seven bits and goes on; at most four bytes.
pub proof fn law_vlq_value(d: Seq<u8>, pos: int)
    requires
        0 <= pos,
        pos + 4 <= d.len(),
    ensures
        d[pos] < 128 ==> vlq(d, pos) == Ok::<(u32, int), Seq<char>>((d[pos] as u32, pos + 1)),
        d[pos] >= 128 && d[pos + 1] < 128 ==> vlq(d, pos)
            == Ok::<(u32, int), Seq<char>>((((d[pos] - 128) * 128 + d[pos + 1]) as u32, pos + 2)),
        d[pos] >= 128 && d[pos + 1] >= 128 && d[pos + 2] < 128 ==> vlq(d, pos)
            == Ok::<(u32, int), Seq<char>>((((d[pos] - 128) * 16384 + (d[pos + 1] - 128) * 128 + d[pos + 2]) as u32, pos + 3)),
        d[pos] >= 128 && d[pos + 1] >= 128 && d[pos + 2] >= 128 && d[pos + 3] < 128 ==> vlq(d, pos)
            == Ok::<(u32, int), Seq<char>>((((d[pos] - 128) * 2097152 + (d[pos + 1] - 128) * 16384
                + (d[pos + 2] - 128) * 128 + d[pos + 3]) as u32, pos + 4)),
        d[pos] >= 128 && d[pos + 1] >= 128 && d[pos + 2] >= 128 && d[pos + 3] >= 128 ==> vlq(d, pos) is Err,
{
    let b0 = d[pos];
    let b1 = d[pos + 1];
    let b2 = d[pos + 2];
    let b3 = d[pos + 3];
    lemma_vlq_byte(0, b0);
    let v0 = (0u32 << 7u32) | ((b0 & 0x7Fu8) as u32);
    assert(v0 < 128);
    lemma_vlq_byte(v0, b1);
    let v1 = (v0 << 7u32) | ((b1 & 0x7Fu8) as u32);
    assert(v1 < 16384);
    lemma_vlq_byte(v1, b2);
    let v2 = (v1 << 7u32) | ((b2 & 0x7Fu8) as u32);
    assert(v2 < 2097152);
    lemma_vlq_byte(v2, b3);
    let v3 = (v2 << 7u32) | ((b3 & 0x7Fu8) as u32);
    assert(vlq(d, pos) == vlq_from(d, pos, 0, 0));
    assert(vlq_from(d, pos, 0, 0) == if b0 & 0x80u8 == 0 { Ok::<(u32, int), Seq<char>>((v0, pos + 1)) } else { vlq_from(d, pos + 1, 1, v0) });
    assert(vlq_from(d, pos + 1, 1, v0) == if b1 & 0x80u8 == 0 { Ok::<(u32, int), Seq<char>>((v1, pos + 2)) } else { vlq_from(d, pos + 2, 2, v1) });
    assert(vlq_from(d, pos + 2, 2, v1) == if b2 & 0x80u8 == 0 { Ok::<(u32, int), Seq<char>>((v2, pos + 3)) } else { vlq_from(d, pos + 3, 3, v2) });
    assert(vlq_from(d, pos + 3, 3, v2) == if b3 & 0x80u8 == 0 { Ok::<(u32, int), Seq<char>>((v3, pos + 4)) } else { vlq_from(d, pos + 4, 4, v3) });
    if b0 >= 128 && b1 < 128 {
        assert(v1 == (b0 - 128) * 128 + b1);
    }
    if b0 >= 128 && b1 >= 128 && b2 < 128 {
        assert(v2 == (b0 - 128) * 16384 + (b1 - 128) * 128 + b2);
    }
}

} // verus!
