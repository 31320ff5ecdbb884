//! Live MIDI messages as structured values.
//!
//! A live message arrives as a short byte string. The engine only rewrites
//! channel-voice messages (note, controller, program change, pitch bend,
//! aftertouch); anything else passes through untouched. `parse` turns bytes
//! into a structured event, `to_bytes` writes a channel-voice event back out,
//! and the two are proved to be inverses on valid data.

use vstd::prelude::*;

verus! {

/// A MIDI channel-voice message. All fields are 7-bit data values except
/// `channel`, which is a 4-bit channel number (0 to 15).
#[derive(Clone, Copy, PartialEq, Eq, Structural, Debug)]
pub enum MidiEvent {
    NoteOff { channel: u8, key: u8, vel: u8 },
    NoteOn { channel: u8, key: u8, vel: u8 },
    /// Polyphonic key pressure.
    Aftertouch { channel: u8, key: u8, vel: u8 },
    Controller { channel: u8, controller: u8, value: u8 },
    ProgramChange { channel: u8, program: u8 },
    ChannelAftertouch { channel: u8, vel: u8 },
    PitchBend { channel: u8, lo: u8, hi: u8 },
}

/// The outcome of parsing a raw live message: a channel-voice message the
/// engine can rewrite, or a system message (status `0xF0` and above) that is
/// forwarded as-is.
#[derive(Clone, Copy, PartialEq, Eq, Structural, Debug)]
pub enum ParsedEvent {
    Channel(MidiEvent),
    System,
}

impl MidiEvent {
    /// All data fields are in range for the wire format.
    pub open spec fn valid(self) -> bool {
        match self {
            MidiEvent::NoteOff { channel, key, vel } => channel < 16 && key < 128 && vel < 128,
            MidiEvent::NoteOn { channel, key, vel } => channel < 16 && key < 128 && vel < 128,
            MidiEvent::Aftertouch { channel, key, vel } => channel < 16 && key < 128 && vel < 128,
            MidiEvent::Controller { channel, controller, value } => channel < 16 && controller < 128
                && value < 128,
            MidiEvent::ProgramChange { channel, program } => channel < 16 && program < 128,
            MidiEvent::ChannelAftertouch { channel, vel } => channel < 16 && vel < 128,
            MidiEvent::PitchBend { channel, lo, hi } => channel < 16 && lo < 128 && hi < 128,
        }
    }

    /// The channel the message is addressed to.
    pub open spec fn spec_channel(&self) -> u8 {
        match self {
            MidiEvent::NoteOff { channel, .. } => *channel,
            MidiEvent::NoteOn { channel, .. } => *channel,
            MidiEvent::Aftertouch { channel, .. } => *channel,
            MidiEvent::Controller { channel, .. } => *channel,
            MidiEvent::ProgramChange { channel, .. } => *channel,
            MidiEvent::ChannelAftertouch { channel, .. } => *channel,
            MidiEvent::PitchBend { channel, .. } => *channel,
        }
    }

    #[verifier::when_used_as_spec(spec_channel)]
    pub fn channel(&self) -> (r: u8)
        ensures
            r == self.spec_channel(),
    {
        match self {
            MidiEvent::NoteOff { channel, .. } => *channel,
            MidiEvent::NoteOn { channel, .. } => *channel,
            MidiEvent::Aftertouch { channel, .. } => *channel,
            MidiEvent::Controller { channel, .. } => *channel,
            MidiEvent::ProgramChange { channel, .. } => *channel,
            MidiEvent::ChannelAftertouch { channel, .. } => *channel,
            MidiEvent::PitchBend { channel, .. } => *channel,
        }
    }
}

/// What `parse` returns on a given byte string: `None` for malformed input,
/// `Some(Channel(..))` for a well-formed channel-voice message, and
/// `Some(System)` for a message with a system status byte.
pub open spec fn spec_parse(data: Seq<u8>) -> Option<ParsedEvent> {
    if data.len() == 0 {
        None
    } else {
        let status = data[0];
        if status < 0x80 {
            None
        } else if status < 0xf0 {
            spec_parse_channel(data)
        } else {
            Some(ParsedEvent::System)
        }
    }
}

/// Channel-voice parsing: the status high nibble picks the message kind, the
/// low nibble is the channel, and the kind fixes the exact number of data
/// bytes, each of which must have its high bit clear.
pub open spec fn spec_parse_channel(data: Seq<u8>) -> Option<ParsedEvent>
    recommends
        data.len() >= 1,
        0x80 <= data[0] < 0xf0,
{
    let kind = data[0] / 16;
    let channel = data[0] % 16;
    if kind == 0xc || kind == 0xd {
        if data.len() == 2 && data[1] < 128 {
            if kind == 0xc {
                Some(ParsedEvent::Channel(MidiEvent::ProgramChange { channel, program: data[1] }))
            } else {
                Some(ParsedEvent::Channel(MidiEvent::ChannelAftertouch { channel, vel: data[1] }))
            }
        } else {
            None
        }
    } else {
        if data.len() == 3 && data[1] < 128 && data[2] < 128 {
            if kind == 0x8 {
                Some(
                    ParsedEvent::Channel(
                        MidiEvent::NoteOff { channel, key: data[1], vel: data[2] },
                    ),
                )
            } else if kind == 0x9 {
                Some(
                    ParsedEvent::Channel(MidiEvent::NoteOn { channel, key: data[1], vel: data[2] }),
                )
            } else if kind == 0xa {
                Some(
                    ParsedEvent::Channel(
                        MidiEvent::Aftertouch { channel, key: data[1], vel: data[2] },
                    ),
                )
            } else if kind == 0xb {
                Some(
                    ParsedEvent::Channel(
                        MidiEvent::Controller { channel, controller: data[1], value: data[2] },
                    ),
                )
            } else {
                Some(
                    ParsedEvent::Channel(
                        MidiEvent::PitchBend { channel, lo: data[1], hi: data[2] },
                    ),
                )
            }
        } else {
            None
        }
    }
}

/// The wire form of a channel-voice event.
pub open spec fn spec_to_bytes(e: MidiEvent) -> Seq<u8>
    recommends
        e.valid(),
{
    match e {
        MidiEvent::NoteOff { channel, key, vel } => seq![(0x80 + channel) as u8, key, vel],
        MidiEvent::NoteOn { channel, key, vel } => seq![(0x90 + channel) as u8, key, vel],
        MidiEvent::Aftertouch { channel, key, vel } => seq![(0xa0 + channel) as u8, key, vel],
        MidiEvent::Controller { channel, controller, value } => seq![
            (0xb0 + channel) as u8,
            controller,
            value,
        ],
        MidiEvent::ProgramChange { channel, program } => seq![(0xc0 + channel) as u8, program],
        MidiEvent::ChannelAftertouch { channel, vel } => seq![(0xd0 + channel) as u8, vel],
        MidiEvent::PitchBend { channel, lo, hi } => seq![(0xe0 + channel) as u8, lo, hi],
    }
}

/// Parse a raw live message. Returns `None` exactly on the byte strings that
/// `spec_parse` rejects: empty input, a leading data byte, or a channel-voice
/// message whose length or data bytes are out of shape.
pub fn parse(data: &Vec<u8>) -> (r: Option<ParsedEvent>)
    ensures
        r == spec_parse(data@),
{
    if data.len() == 0 {
        return None;
    }
    let status = data[0];
    if status < 0x80 {
        return None;
    }
    if status >= 0xf0 {
        return Some(ParsedEvent::System);
    }
    let kind = status / 16;
    let channel = status % 16;
    if kind == 0xc || kind == 0xd {
        if data.len() == 2 && data[1] < 128 {
            if kind == 0xc {
                Some(ParsedEvent::Channel(MidiEvent::ProgramChange { channel, program: data[1] }))
            } else {
                Some(ParsedEvent::Channel(MidiEvent::ChannelAftertouch { channel, vel: data[1] }))
            }
        } else {
            None
        }
    } else {
        if data.len() == 3 && data[1] < 128 && data[2] < 128 {
            let r = if kind == 0x8 {
                MidiEvent::NoteOff { channel, key: data[1], vel: data[2] }
            } else if kind == 0x9 {
                MidiEvent::NoteOn { channel, key: data[1], vel: data[2] }
            } else if kind == 0xa {
                MidiEvent::Aftertouch { channel, key: data[1], vel: data[2] }
            } else if kind == 0xb {
                MidiEvent::Controller { channel, controller: data[1], value: data[2] }
            } else {
                MidiEvent::PitchBend { channel, lo: data[1], hi: data[2] }
            };
            Some(ParsedEvent::Channel(r))
        } else {
            None
        }
    }
}

/// Write a channel-voice event back to its wire form.
pub fn to_bytes(e: &MidiEvent) -> (r: Vec<u8>)
    requires
        e.valid(),
    ensures
        r@ == spec_to_bytes(*e),
{
    let mut out: Vec<u8> = Vec::new();
    match e {
        MidiEvent::NoteOff { channel, key, vel } => {
            out.push(0x80 + channel);
            out.push(*key);
            out.push(*vel);
        },
        MidiEvent::NoteOn { channel, key, vel } => {
            out.push(0x90 + channel);
            out.push(*key);
            out.push(*vel);
        },
        MidiEvent::Aftertouch { channel, key, vel } => {
            out.push(0xa0 + channel);
            out.push(*key);
            out.push(*vel);
        },
        MidiEvent::Controller { channel, controller, value } => {
            out.push(0xb0 + channel);
            out.push(*controller);
            out.push(*value);
        },
        MidiEvent::ProgramChange { channel, program } => {
            out.push(0xc0 + channel);
            out.push(*program);
        },
        MidiEvent::ChannelAftertouch { channel, vel } => {
            out.push(0xd0 + channel);
            out.push(*vel);
        },
        MidiEvent::PitchBend { channel, lo, hi } => {
            out.push(0xe0 + channel);
            out.push(*lo);
            out.push(*hi);
        },
    }
    proof {
        assert(out@ =~= spec_to_bytes(*e));
    }
    out
}

/// Writing a valid channel-voice event and parsing the result gives the
/// event back.
pub proof fn lemma_write_then_parse(e: MidiEvent)
    requires
        e.valid(),
    ensures
        spec_parse(spec_to_bytes(e)) == Some(ParsedEvent::Channel(e)),
{
}

/// Parsing a byte string into a channel-voice event and writing it back
/// reproduces the bytes, and the parsed event is valid.
pub proof fn lemma_parse_then_write(data: Seq<u8>, e: MidiEvent)
    requires
        spec_parse(data) == Some(ParsedEvent::Channel(e)),
    ensures
        e.valid(),
        spec_to_bytes(e) == data,
{
    assert(spec_to_bytes(e) =~= data);
}

} // verus!
