use live_midi_splitter::output_settings::OutputSettings;
use live_midi_splitter::preset::{Mapping, Preset};
use live_midi_splitter::properties::Properties;

#[test]
fn default_configuration() {
    let p = Properties::default();
    assert_eq!(p.inputs.len(), 1);
    assert_eq!(p.inputs[0].port_name, "");
    assert_eq!(p.presets.len(), 1);
    assert_eq!(p.presets[0].id, 0);
    assert_eq!(p.presets[0].name, "Preset 1");
    assert_eq!(p.current_preset, 0);
    assert_eq!(p.transpose, 0);
    assert!(p.shortcuts.is_empty());
}

#[test]
fn preset_names_follow_position() {
    assert_eq!(Preset::new_from_id(0).name, "Preset 1");
    assert_eq!(Preset::new_from_id(41).name, "Preset 42");
    assert_eq!(Preset::new_from_id(999).name, "Preset 1000");
}

fn presets(n: usize) -> Vec<Preset> {
    (0..n).map(Preset::new_from_id).collect()
}

#[test]
fn remove_preset_renumbers_and_moves_selection() {
    let mut p = Properties::default();
    p.presets = presets(3);
    p.current_preset = 2;
    p.remove_preset(1);
    assert_eq!(p.presets.len(), 2);
    assert_eq!(p.presets[0].id, 0);
    assert_eq!(p.presets[1].id, 1);
    assert_eq!(p.presets[0].name, "Preset 1");
    assert_eq!(p.presets[1].name, "Preset 3");
    assert_eq!(p.current_preset, 0);

    let mut p = Properties::default();
    p.presets = presets(2);
    p.remove_preset(0);
    assert_eq!(p.presets.len(), 1);
    assert_eq!(p.current_preset, 0);
}

#[test]
fn duplicate_preset_copies_and_renames() {
    let mut p = Properties::default();
    p.presets = presets(2);
    let mut mapping = Mapping::new();
    mapping.insert(0, vec![OutputSettings::new(String::from("A"))]);
    p.presets[0].mapping = mapping;

    p.duplicate_preset(0);
    assert_eq!(p.presets.len(), 3);
    assert_eq!(p.presets[0].id, 0);
    assert_eq!(p.presets[1].id, 1);
    assert_eq!(p.presets[2].id, 2);
    assert_eq!(p.presets[1].name, "Preset 1 (2)");
    assert_eq!(p.presets[2].name, "Preset 2");
    assert_eq!(p.current_preset, 1);
    let copied = p.presets[1].mapping.get(0).expect("mapping copied");
    assert_eq!(copied.len(), 1);
    assert_eq!(copied[0].port_name, "A");

    // Duplicating the copy counts its suffix up instead of stacking one.
    p.duplicate_preset(1);
    assert_eq!(p.presets[2].name, "Preset 1 (3)");
}

#[test]
fn duplicate_preset_appends_when_suffix_is_not_numbered() {
    let mut p = Properties::default();
    p.presets[0].name = String::from("Name (abc)");
    p.duplicate_preset(0);
    assert_eq!(p.presets[1].name, "Name (abc) (2)");

    let mut p = Properties::default();
    p.presets[0].name = String::from("Plain");
    p.duplicate_preset(0);
    assert_eq!(p.presets[1].name, "Plain (2)");
}

#[test]
fn duplicate_preset_out_of_range_is_a_no_op() {
    let mut p = Properties::default();
    p.duplicate_preset(7);
    assert_eq!(p.presets.len(), 1);
}

#[test]
fn mapping_insert_get_remove() {
    let mut m = Mapping::new();
    assert!(m.get(0).is_none());
    m.insert(2, vec![OutputSettings::new(String::from("A"))]);
    m.insert(5, vec![OutputSettings::new(String::from("B"))]);
    assert_eq!(m.get(2).unwrap()[0].port_name, "A");
    assert_eq!(m.get(5).unwrap()[0].port_name, "B");
    m.insert(2, vec![OutputSettings::new(String::from("C"))]);
    assert_eq!(m.get(2).unwrap()[0].port_name, "C");
    m.remove(2);
    assert!(m.get(2).is_none());
    assert_eq!(m.get(5).unwrap()[0].port_name, "B");
}
