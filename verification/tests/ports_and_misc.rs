use live_midi_splitter::input_settings::InputSettings;
use live_midi_splitter::ports::{find_port, parse_port, parse_ports, retain_listener, MidiPort};
use live_midi_splitter::recent::RecentFiles;
use live_midi_splitter::utils::midi_to_note;

#[test]
fn bridge_names_display_their_suffix() {
    let p = parse_port(String::from("Midi-Bridge:seq:client (playback_3) Some Synth"));
    assert_eq!(p.readable, "Some Synth");
    assert_eq!(p.internal, "Midi-Bridge:seq:client (playback_3) Some Synth");

    let p = parse_port(String::from("Midi-Bridge:x (capture_12) My Keys"));
    assert_eq!(p.readable, "My Keys");
}

#[test]
fn other_names_display_as_themselves() {
    let p = parse_port(String::from("Plain Port"));
    assert_eq!(p.readable, "Plain Port");
    assert_eq!(p.internal, "Plain Port");

    // The lead-in without the pattern does not strip anything.
    let p = parse_port(String::from("Midi-Bridge:something else"));
    assert_eq!(p.readable, "Midi-Bridge:something else");

    // A pattern without digits is not the convention.
    let p = parse_port(String::from("Midi-Bridge:a (playback_) X"));
    assert_eq!(p.readable, "Midi-Bridge:a (playback_) X");

    // The pattern must leave a non-empty display name.
    let p = parse_port(String::from("Midi-Bridge:a (playback_3) "));
    assert_eq!(p.readable, "Midi-Bridge:a (playback_3) ");
}

#[test]
fn leftmost_pattern_wins() {
    let p = parse_port(String::from("Midi-Bridge:q (playback_1) A (playback_2) B"));
    assert_eq!(p.readable, "A (playback_2) B");
}

#[test]
fn parse_ports_keeps_order_and_system_names() {
    let r = parse_ports(vec![
        String::from("One"),
        String::from("Midi-Bridge:c (capture_7) Two"),
    ]);
    assert_eq!(r.len(), 2);
    assert_eq!(r[0].readable, "One");
    assert_eq!(r[1].readable, "Two");
    assert_eq!(r[1].internal, "Midi-Bridge:c (capture_7) Two");
}

#[test]
fn find_port_matches_display_name() {
    let avail = vec![
        MidiPort::new(String::from("A"), String::from("sys:a")),
        MidiPort::new(String::from("B"), String::from("sys:b")),
    ];
    let hit = find_port(&avail, &String::from("B")).expect("port listed");
    assert_eq!(hit.internal, "sys:b");
    assert!(find_port(&avail, &String::from("C")).is_none());
}

#[test]
fn retain_listener_needs_port_and_selection() {
    let port = MidiPort::new(String::from("A"), String::from("sys:a"));
    let avail = vec![MidiPort::new(String::from("A"), String::from("sys:a"))];
    let inputs = vec![InputSettings::new(String::from("A"))];
    assert!(retain_listener(&port, &avail, &inputs));

    // The port vanished.
    assert!(!retain_listener(&port, &vec![], &inputs));

    // No input selects it any more.
    let other = vec![InputSettings::new(String::from("B"))];
    assert!(!retain_listener(&port, &avail, &other));
}

#[test]
fn note_names() {
    assert_eq!(midi_to_note(60), "C4");
    assert_eq!(midi_to_note(61), "C#4");
    assert_eq!(midi_to_note(0), "C-1");
    assert_eq!(midi_to_note(11), "B-1");
    assert_eq!(midi_to_note(127), "G9");
    assert_eq!(midi_to_note(69), "A4");
}

#[test]
fn recent_files_keep_most_recent_last() {
    let mut r = RecentFiles::new();
    r.add(String::from("/a"));
    r.add(String::from("/b"));
    r.add(String::from("/a"));
    assert_eq!(r.files(), &vec![String::from("/b"), String::from("/a")]);
    r.remove(&String::from("/b"));
    assert_eq!(r.files(), &vec![String::from("/a")]);
    r.remove(&String::from("/missing"));
    assert_eq!(r.files(), &vec![String::from("/a")]);
}
