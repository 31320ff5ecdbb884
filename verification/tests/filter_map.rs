use live_midi_splitter::common_settings::{CcMapping, ChannelMapping, CommonSettings};
use live_midi_splitter::events::MidiEvent;
use live_midi_splitter::filter_map::apply_filter_map;

#[test]
fn key_filter_withdraws_outside_bounds() {
    let mut s = CommonSettings::new();
    s.key_filter_enabled = true;
    s.key_filter = (40, 80);
    let mut e = MidiEvent::NoteOn { channel: 0, key: 39, vel: 100 };
    let mut send = true;
    apply_filter_map(&mut e, &mut send, &s);
    assert!(!send);

    let mut e = MidiEvent::NoteOn { channel: 0, key: 40, vel: 100 };
    let mut send = true;
    apply_filter_map(&mut e, &mut send, &s);
    assert!(send);

    let mut e = MidiEvent::NoteOn { channel: 0, key: 81, vel: 100 };
    let mut send = true;
    apply_filter_map(&mut e, &mut send, &s);
    assert!(!send);
}

#[test]
fn channel_remap_rewrites_notes_consistently() {
    // A note on channel 3 (1-indexed rule target 4) is readdressed to
    // channel 1 (1-indexed), which is channel 0 on the wire.
    let mut s = CommonSettings::new();
    s.channel_map = vec![(4, ChannelMapping::Channel(1)), (0, ChannelMapping::PassThrough)];

    let mut on = MidiEvent::NoteOn { channel: 3, key: 60, vel: 100 };
    let mut send = true;
    apply_filter_map(&mut on, &mut send, &s);
    assert!(send);
    assert_eq!(on, MidiEvent::NoteOn { channel: 0, key: 60, vel: 100 });

    // The later note-off on the same input channel rewrites identically.
    let mut off = MidiEvent::NoteOff { channel: 3, key: 60, vel: 0 };
    let mut send = true;
    apply_filter_map(&mut off, &mut send, &s);
    assert!(send);
    assert_eq!(off, MidiEvent::NoteOff { channel: 0, key: 60, vel: 0 });
}

#[test]
fn channel_ignore_withdraws() {
    let mut s = CommonSettings::new();
    s.channel_map = vec![(1, ChannelMapping::Ignore), (0, ChannelMapping::PassThrough)];
    let mut e = MidiEvent::NoteOn { channel: 0, key: 60, vel: 100 };
    let mut send = true;
    apply_filter_map(&mut e, &mut send, &s);
    assert!(!send);
}

#[test]
fn velocity_floor_is_one() {
    let mut s = CommonSettings::new();
    s.velocity_curve = live_midi_splitter::common_settings::VelocityCurve::Fixed(0);
    let mut e = MidiEvent::NoteOn { channel: 0, key: 60, vel: 100 };
    let mut send = true;
    apply_filter_map(&mut e, &mut send, &s);
    assert_eq!(e, MidiEvent::NoteOn { channel: 0, key: 60, vel: 1 });
}

#[test]
fn velocity_zero_is_left_alone() {
    let s = CommonSettings::new();
    let mut e = MidiEvent::NoteOn { channel: 0, key: 60, vel: 0 };
    let mut send = true;
    apply_filter_map(&mut e, &mut send, &s);
    assert_eq!(e, MidiEvent::NoteOn { channel: 0, key: 60, vel: 0 });
}

/// CC rules name channels 1-indexed, like channel rules: rule channel 4
/// matches live channel 3 and nothing else.
#[test]
fn cc_exact_channel_rule_is_one_indexed() {
    let mut s = CommonSettings::new();
    s.cc_map = vec![(4, 5, CcMapping::MapToCc(10)), (0, -1, CcMapping::PassThrough)];

    let mut e = MidiEvent::Controller { channel: 3, controller: 5, value: 9 };
    let mut send = true;
    apply_filter_map(&mut e, &mut send, &s);
    assert_eq!(e, MidiEvent::Controller { channel: 3, controller: 10, value: 9 });

    let mut e = MidiEvent::Controller { channel: 4, controller: 5, value: 9 };
    let mut send = true;
    apply_filter_map(&mut e, &mut send, &s);
    assert_eq!(e, MidiEvent::Controller { channel: 4, controller: 5, value: 9 });
}

#[test]
fn cc_map_to_cc() {
    let mut s = CommonSettings::new();
    s.cc_map = vec![(0, 1, CcMapping::MapToCc(11)), (0, -1, CcMapping::PassThrough)];
    let mut e = MidiEvent::Controller { channel: 4, controller: 1, value: 88 };
    let mut send = true;
    apply_filter_map(&mut e, &mut send, &s);
    assert!(send);
    assert_eq!(e, MidiEvent::Controller { channel: 4, controller: 11, value: 88 });
}

#[test]
fn cc_map_to_channel_cc() {
    let mut s = CommonSettings::new();
    s.cc_map = vec![(0, 7, CcMapping::MapToChannelCc(2, 10)), (0, -1, CcMapping::PassThrough)];
    let mut e = MidiEvent::Controller { channel: 4, controller: 7, value: 1 };
    let mut send = true;
    apply_filter_map(&mut e, &mut send, &s);
    assert_eq!(e, MidiEvent::Controller { channel: 1, controller: 10, value: 1 });
}

#[test]
fn cc_pass_through_to_channel() {
    let mut s = CommonSettings::new();
    s.cc_map = vec![(0, 7, CcMapping::PassThroughToChannel(16)), (0, -1, CcMapping::PassThrough)];
    let mut e = MidiEvent::Controller { channel: 4, controller: 7, value: 1 };
    let mut send = true;
    apply_filter_map(&mut e, &mut send, &s);
    assert_eq!(e, MidiEvent::Controller { channel: 15, controller: 7, value: 1 });
}

#[test]
fn cc_ignore_withdraws() {
    let mut s = CommonSettings::new();
    s.cc_map = vec![(0, 7, CcMapping::Ignore), (0, -1, CcMapping::PassThrough)];
    let mut e = MidiEvent::Controller { channel: 4, controller: 7, value: 1 };
    let mut send = true;
    apply_filter_map(&mut e, &mut send, &s);
    assert!(!send);
    assert_eq!(e, MidiEvent::Controller { channel: 4, controller: 7, value: 1 });
}

#[test]
fn non_channel_messages_untouched() {
    let s = CommonSettings::new();
    let mut e = MidiEvent::ProgramChange { channel: 2, program: 5 };
    let mut send = true;
    apply_filter_map(&mut e, &mut send, &s);
    assert!(send);
    assert_eq!(e, MidiEvent::ProgramChange { channel: 2, program: 5 });
}
