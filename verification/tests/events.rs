use live_midi_splitter::events::{parse, to_bytes, MidiEvent, ParsedEvent};
use midly::live::LiveEvent;
use midly::MidiMessage;

#[test]
fn parse_note_on() {
    let r = parse(&vec![0x93, 60, 100]);
    assert_eq!(
        r,
        Some(ParsedEvent::Channel(MidiEvent::NoteOn { channel: 3, key: 60, vel: 100 }))
    );
}

#[test]
fn parse_note_off() {
    let r = parse(&vec![0x80, 72, 0]);
    assert_eq!(
        r,
        Some(ParsedEvent::Channel(MidiEvent::NoteOff { channel: 0, key: 72, vel: 0 }))
    );
}

#[test]
fn parse_controller() {
    let r = parse(&vec![0xb5, 64, 127]);
    assert_eq!(
        r,
        Some(ParsedEvent::Channel(MidiEvent::Controller { channel: 5, controller: 64, value: 127 }))
    );
}

#[test]
fn parse_program_change() {
    let r = parse(&vec![0xc1, 42]);
    assert_eq!(
        r,
        Some(ParsedEvent::Channel(MidiEvent::ProgramChange { channel: 1, program: 42 }))
    );
}

#[test]
fn parse_channel_aftertouch() {
    let r = parse(&vec![0xd9, 77]);
    assert_eq!(
        r,
        Some(ParsedEvent::Channel(MidiEvent::ChannelAftertouch { channel: 9, vel: 77 }))
    );
}

#[test]
fn parse_poly_aftertouch() {
    let r = parse(&vec![0xa2, 60, 15]);
    assert_eq!(
        r,
        Some(ParsedEvent::Channel(MidiEvent::Aftertouch { channel: 2, key: 60, vel: 15 }))
    );
}

#[test]
fn parse_pitch_bend() {
    let r = parse(&vec![0xee, 0x00, 0x40]);
    assert_eq!(
        r,
        Some(ParsedEvent::Channel(MidiEvent::PitchBend { channel: 14, lo: 0x00, hi: 0x40 }))
    );
}

#[test]
fn parse_system_realtime() {
    assert_eq!(parse(&vec![0xf8]), Some(ParsedEvent::System));
}

#[test]
fn parse_rejects_empty() {
    assert_eq!(parse(&vec![]), None);
}

#[test]
fn parse_rejects_data_byte_status() {
    assert_eq!(parse(&vec![0x40, 60, 100]), None);
}

#[test]
fn parse_rejects_wrong_length() {
    assert_eq!(parse(&vec![0x90, 60]), None);
    assert_eq!(parse(&vec![0xc0, 42, 1]), None);
}

#[test]
fn parse_rejects_high_data_byte() {
    assert_eq!(parse(&vec![0x90, 0x80, 100]), None);
    assert_eq!(parse(&vec![0x90, 60, 0xff]), None);
}

#[test]
fn round_trip_write_parse() {
    let events = vec![
        MidiEvent::NoteOff { channel: 0, key: 60, vel: 0 },
        MidiEvent::NoteOn { channel: 15, key: 127, vel: 1 },
        MidiEvent::Aftertouch { channel: 7, key: 1, vel: 127 },
        MidiEvent::Controller { channel: 3, controller: 64, value: 100 },
        MidiEvent::ProgramChange { channel: 2, program: 9 },
        MidiEvent::ChannelAftertouch { channel: 11, vel: 55 },
        MidiEvent::PitchBend { channel: 6, lo: 0x12, hi: 0x34 },
    ];
    for e in events {
        let bytes = to_bytes(&e);
        assert_eq!(parse(&bytes), Some(ParsedEvent::Channel(e)));
    }
}

/// The wire form agrees with the midly crate's reading and writing of live
/// channel messages.
#[test]
fn agrees_with_midly() {
    let samples: Vec<Vec<u8>> = vec![
        vec![0x90, 60, 100],
        vec![0x83, 72, 10],
        vec![0xb5, 64, 127],
        vec![0xc1, 42],
        vec![0xd9, 77],
        vec![0xa2, 60, 15],
        vec![0xee, 0x00, 0x40],
    ];
    for bytes in samples {
        let ours = parse(&bytes);
        let theirs = LiveEvent::parse(&bytes).expect("midly accepts the sample");
        match (ours, theirs) {
            (Some(ParsedEvent::Channel(e)), LiveEvent::Midi { channel, message }) => {
                assert_eq!(e.channel(), channel.as_int());
                match (e, message) {
                    (MidiEvent::NoteOn { key, vel, .. }, MidiMessage::NoteOn { key: k, vel: v }) => {
                        assert_eq!(key, k.as_int());
                        assert_eq!(vel, v.as_int());
                    }
                    (MidiEvent::NoteOff { key, vel, .. }, MidiMessage::NoteOff { key: k, vel: v }) => {
                        assert_eq!(key, k.as_int());
                        assert_eq!(vel, v.as_int());
                    }
                    (
                        MidiEvent::Controller { controller, value, .. },
                        MidiMessage::Controller { controller: c, value: v },
                    ) => {
                        assert_eq!(controller, c.as_int());
                        assert_eq!(value, v.as_int());
                    }
                    (
                        MidiEvent::ProgramChange { program, .. },
                        MidiMessage::ProgramChange { program: p },
                    ) => {
                        assert_eq!(program, p.as_int());
                    }
                    (
                        MidiEvent::ChannelAftertouch { vel, .. },
                        MidiMessage::ChannelAftertouch { vel: v },
                    ) => {
                        assert_eq!(vel, v.as_int());
                    }
                    (
                        MidiEvent::Aftertouch { key, vel, .. },
                        MidiMessage::Aftertouch { key: k, vel: v },
                    ) => {
                        assert_eq!(key, k.as_int());
                        assert_eq!(vel, v.as_int());
                    }
                    (MidiEvent::PitchBend { lo, hi, .. }, MidiMessage::PitchBend { bend }) => {
                        let raw = bend.0.as_int();
                        assert_eq!(lo as u16, raw & 0x7f);
                        assert_eq!(hi as u16, raw >> 7);
                    }
                    other => panic!("shape mismatch: {:?}", other),
                }
                // Writing the event back reproduces the wire form on both sides.
                let e2 = match ours {
                    Some(ParsedEvent::Channel(e2)) => e2,
                    _ => unreachable!(),
                };
                let mut midly_bytes = Vec::new();
                theirs.write(&mut midly_bytes).unwrap();
                assert_eq!(to_bytes(&e2), midly_bytes);
                assert_eq!(to_bytes(&e2), bytes);
            }
            other => panic!("parse mismatch: {:?}", other),
        }
    }
}
