use live_midi_splitter::common_settings::ChannelMapping;
use live_midi_splitter::events::{to_bytes, MidiEvent};
use live_midi_splitter::heldstate::EngineState;
use live_midi_splitter::input_settings::InputSettings;
use live_midi_splitter::listener::Listener;
use live_midi_splitter::output_settings::OutputSettings;
use live_midi_splitter::preset::{Mapping, Preset};
use live_midi_splitter::properties::Properties;

fn preset_for(id: usize, outputs: Vec<&str>) -> Preset {
    let mut mapping = Mapping::new();
    let targets: Vec<OutputSettings> =
        outputs.iter().map(|n| OutputSettings::new(String::from(*n))).collect();
    mapping.insert(0, targets);
    Preset { id, name: String::from("test"), mapping }
}

fn props_with(presets: Vec<Preset>) -> Properties {
    let mut p = Properties::default();
    p.inputs = vec![InputSettings::new(String::from("IN"))];
    p.presets = presets;
    p.current_preset = 0;
    p
}

fn names(v: Vec<&str>) -> Vec<String> {
    v.into_iter().map(String::from).collect()
}

fn note_on(channel: u8, key: u8, vel: u8) -> Vec<u8> {
    to_bytes(&MidiEvent::NoteOn { channel, key, vel })
}

fn note_off(channel: u8, key: u8, vel: u8) -> Vec<u8> {
    to_bytes(&MidiEvent::NoteOff { channel, key, vel })
}

fn controller(channel: u8, controller: u8, value: u8) -> Vec<u8> {
    to_bytes(&MidiEvent::Controller { channel, controller, value })
}

#[test]
fn plain_note_reaches_all_mapped_outputs() {
    let props = props_with(vec![preset_for(0, vec!["A", "B"])]);
    let avail = names(vec!["A", "B"]);
    let mut st = EngineState::new();
    let mut listener = Listener::new(0);
    let out = listener.handle_message(&props, &note_on(0, 60, 100), &avail, &avail, &mut st);
    assert!(out.program_change.is_none());
    assert!(out.evict.is_empty());
    assert_eq!(
        out.events,
        vec![
            (String::from("A"), note_on(0, 60, 100)),
            (String::from("B"), note_on(0, 60, 100)),
        ]
    );
}

/// A note held across a mapping change still gets its off everywhere: the
/// target no longer mapped receives the buffered off through the closing
/// sweep, the remaining target through the ordinary path, and nothing stays
/// buffered afterwards.
#[test]
fn held_note_survives_mapping_change() {
    let avail = names(vec!["A", "B"]);
    let mut st = EngineState::new();
    let mut listener = Listener::new(0);

    let props_ab = props_with(vec![preset_for(0, vec!["A", "B"])]);
    let out = listener.handle_message(&props_ab, &note_on(0, 60, 100), &avail, &avail, &mut st);
    assert_eq!(out.events.len(), 2);

    // The mapping now reaches only B.
    let props_b = props_with(vec![preset_for(0, vec!["B"])]);
    let out = listener.handle_message(&props_b, &note_off(0, 60, 0), &avail, &avail, &mut st);
    assert_eq!(
        out.events,
        vec![
            (String::from("B"), note_off(0, 60, 0)),
            (String::from("A"), note_off(0, 60, 0)),
        ]
    );

    // Nothing is owed to either output any more.
    let out = listener.handle_message(&props_b, &note_off(0, 60, 0), &avail, &avail, &mut st);
    assert_eq!(out.events, vec![(String::from("B"), note_off(0, 60, 0))]);
}

/// A held sustain pedal is replayed to a pedal-buffering target right after
/// a preset switch, before anything else, and only once per switch.
#[test]
fn pedal_replay_after_preset_switch() {
    let avail = names(vec!["T"]);
    let mut st = EngineState::new();
    let mut listener = Listener::new(0);

    let mut props = props_with(vec![preset_for(0, vec!["T"]), preset_for(1, vec!["T"])]);
    let out = listener.handle_message(&props, &controller(0, 64, 100), &avail, &avail, &mut st);
    assert_eq!(out.events, vec![(String::from("T"), controller(0, 64, 100))]);

    props.current_preset = 1;
    let out = listener.handle_message(&props, &note_on(0, 62, 90), &avail, &avail, &mut st);
    assert_eq!(
        out.events,
        vec![
            (String::from("T"), controller(0, 64, 100)),
            (String::from("T"), note_on(0, 62, 90)),
        ]
    );

    // The next message after the switch replays nothing further.
    let out = listener.handle_message(&props, &note_on(0, 64, 90), &avail, &avail, &mut st);
    assert_eq!(out.events, vec![(String::from("T"), note_on(0, 64, 90))]);
}

/// A mapped output whose port vanished is evicted and skipped; nothing is
/// delivered or buffered for it.
#[test]
fn disconnected_output_is_pruned() {
    let props = props_with(vec![preset_for(0, vec!["GONE", "B"])]);
    let avail = names(vec!["B"]);
    let mut st = EngineState::new();
    let mut listener = Listener::new(0);
    let out = listener.handle_message(&props, &note_on(0, 60, 100), &avail, &avail, &mut st);
    assert_eq!(out.evict, vec![String::from("GONE")]);
    assert_eq!(out.events, vec![(String::from("B"), note_on(0, 60, 100))]);

    // The note's off is owed only to B; nothing is swept for GONE.
    let out = listener.handle_message(&props, &note_off(0, 60, 0), &avail, &avail, &mut st);
    assert_eq!(out.events, vec![(String::from("B"), note_off(0, 60, 0))]);
}

/// A connection that could not be opened is skipped for this message only,
/// without blocking the other targets.
#[test]
fn unconnectable_output_is_skipped() {
    let props = props_with(vec![preset_for(0, vec!["A", "B"])]);
    let avail = names(vec!["A", "B"]);
    let conn = names(vec!["B"]);
    let mut st = EngineState::new();
    let mut listener = Listener::new(0);
    let out = listener.handle_message(&props, &note_on(0, 60, 100), &avail, &conn, &mut st);
    assert!(out.evict.is_empty());
    assert_eq!(out.events, vec![(String::from("B"), note_on(0, 60, 100))]);
}

#[test]
fn program_change_switches_preset_and_stops() {
    let mut props = props_with(vec![preset_for(0, vec!["A"])]);
    props.inputs[0].use_program_change = true;
    let avail = names(vec!["A"]);
    let mut st = EngineState::new();
    let mut listener = Listener::new(0);
    let out = listener.handle_message(&props, &vec![0xc0, 5], &avail, &avail, &mut st);
    assert_eq!(out.program_change, Some(5));
    assert!(out.events.is_empty());
    assert!(out.evict.is_empty());
}

#[test]
fn program_change_routed_when_not_intercepted() {
    let props = props_with(vec![preset_for(0, vec!["A"])]);
    let avail = names(vec!["A"]);
    let mut st = EngineState::new();
    let mut listener = Listener::new(0);
    let out = listener.handle_message(&props, &vec![0xc0, 5], &avail, &avail, &mut st);
    assert!(out.program_change.is_none());
    assert_eq!(out.events, vec![(String::from("A"), vec![0xc0, 5])]);
}

#[test]
fn malformed_bytes_are_dropped() {
    let props = props_with(vec![preset_for(0, vec!["A"])]);
    let avail = names(vec!["A"]);
    let mut st = EngineState::new();
    let mut listener = Listener::new(0);
    let out = listener.handle_message(&props, &vec![0x90, 60], &avail, &avail, &mut st);
    assert!(out.program_change.is_none());
    assert!(out.events.is_empty());
    assert!(out.evict.is_empty());
}

#[test]
fn global_transpose_shifts_note_keys() {
    let mut props = props_with(vec![preset_for(0, vec!["A"])]);
    props.transpose = 2;
    let avail = names(vec!["A"]);
    let mut st = EngineState::new();
    let mut listener = Listener::new(0);
    let out = listener.handle_message(&props, &note_on(0, 60, 100), &avail, &avail, &mut st);
    assert_eq!(out.events, vec![(String::from("A"), note_on(0, 62, 100))]);
}

#[test]
fn transpose_saturates_at_both_key_ends() {
    let mut props = props_with(vec![preset_for(0, vec!["A"])]);
    let avail = names(vec!["A"]);
    let mut st = EngineState::new();
    let mut listener = Listener::new(0);

    props.transpose = -12;
    let out = listener.handle_message(&props, &note_on(0, 5, 100), &avail, &avail, &mut st);
    assert_eq!(out.events, vec![(String::from("A"), note_on(0, 0, 100))]);

    props.transpose = 12;
    let out = listener.handle_message(&props, &note_on(0, 120, 100), &avail, &avail, &mut st);
    assert_eq!(out.events, vec![(String::from("A"), note_on(0, 127, 100))]);
}

#[test]
fn transpose_respects_opt_out() {
    let mut props = props_with(vec![preset_for(0, vec!["A"])]);
    props.transpose = 2;
    props.inputs[0].common.transpose.ignore_global = true;
    let avail = names(vec!["A"]);
    let mut st = EngineState::new();
    let mut listener = Listener::new(0);
    let out = listener.handle_message(&props, &note_on(0, 60, 100), &avail, &avail, &mut st);
    assert_eq!(out.events, vec![(String::from("A"), note_on(0, 60, 100))]);
}

#[test]
fn pedal_release_drains_buffered_offs() {
    let avail = names(vec!["A"]);
    let mut st = EngineState::new();
    let mut listener = Listener::new(0);

    let props_a = props_with(vec![preset_for(0, vec!["A"])]);
    listener.handle_message(&props_a, &controller(0, 64, 100), &avail, &avail, &mut st);

    // The pedal's off is owed to A even after the mapping empties.
    let props_none = props_with(vec![Preset::new(0, String::from("empty"))]);
    let out = listener.handle_message(&props_none, &controller(0, 64, 0), &avail, &avail, &mut st);
    assert_eq!(out.events, vec![(String::from("A"), controller(0, 64, 0))]);
}

/// A channel remap applies alike to the note-on and its note-off, and the
/// held-state resolves through the rewritten channel: nothing remains owed
/// once the off has gone out.
#[test]
fn channel_remap_round_trip_resolves_held_state() {
    let mut preset = preset_for(0, vec!["A"]);
    let mut targets = vec![OutputSettings::new(String::from("A"))];
    targets[0].common.channel_map =
        vec![(4, ChannelMapping::Channel(1)), (0, ChannelMapping::PassThrough)];
    preset.mapping.insert(0, targets);
    let props = props_with(vec![preset]);
    let avail = names(vec!["A"]);
    let mut st = EngineState::new();
    let mut listener = Listener::new(0);

    // Channel 3 in, channel 0 out, for the on and the off alike.
    let out = listener.handle_message(&props, &note_on(3, 60, 100), &avail, &avail, &mut st);
    assert_eq!(out.events, vec![(String::from("A"), note_on(0, 60, 100))]);
    let out = listener.handle_message(&props, &note_off(3, 60, 0), &avail, &avail, &mut st);
    assert_eq!(out.events, vec![(String::from("A"), note_off(0, 60, 0))]);

    // The held-state entry was resolved on the rewritten channel: a second
    // off sweeps nothing extra.
    let out = listener.handle_message(&props, &note_off(3, 60, 0), &avail, &avail, &mut st);
    assert_eq!(out.events, vec![(String::from("A"), note_off(0, 60, 0))]);
}

#[test]
fn missing_mapping_delivers_nothing() {
    let props = props_with(vec![Preset::new(0, String::from("empty"))]);
    let avail = names(vec!["A"]);
    let mut st = EngineState::new();
    let mut listener = Listener::new(0);
    let out = listener.handle_message(&props, &note_on(0, 60, 100), &avail, &avail, &mut st);
    assert!(out.events.is_empty());
    assert!(out.evict.is_empty());
}
