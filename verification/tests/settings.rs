use live_midi_splitter::common_settings::{
    default_cc_map, default_channel_map, default_filter, resolve_cc_rule, resolve_channel_rule,
    CcMapping, ChannelMapping, CommonSettings, OutsideRange, Transpose, VelocityCurve,
    VelocityRange,
};
use live_midi_splitter::input_settings::InputSettings;
use live_midi_splitter::output_settings::OutputSettings;

#[test]
fn defaults() {
    assert_eq!(default_filter(), (0, 128));
    assert_eq!(default_cc_map(), vec![(0, -1, CcMapping::PassThrough)]);
    assert_eq!(default_channel_map(), vec![(0, ChannelMapping::PassThrough)]);
    let r = VelocityRange::default();
    assert_eq!(r.min, 1);
    assert_eq!(r.max, 127);
    assert_eq!(r.below_min, OutsideRange::Scale);
    assert_eq!(r.above_max, OutsideRange::Scale);
    assert_eq!(VelocityCurve::default(), VelocityCurve::Linear);
    let t = Transpose::default();
    assert_eq!(t.value, 0);
    assert!(!t.ignore_global);
    let c = CommonSettings::new();
    assert!(!c.key_filter_enabled);
    assert_eq!(c.key_filter, (0, 128));
}

#[test]
fn descriptions() {
    assert_eq!(CcMapping::PassThrough.get_description(), "Send unmodified");
    assert_eq!(CcMapping::Ignore.get_description(), "Discard");
    assert_eq!(CcMapping::MapToCc(3).get_description(), "Send CC");
    assert_eq!(
        CcMapping::MapToChannelCc(1, 0).get_description_with_blanks(),
        "Send CC _ to channel _"
    );
    assert_eq!(ChannelMapping::Channel(2).get_description(), "Send to channel");
    assert_eq!(ChannelMapping::all().len(), 3);
    assert_eq!(CcMapping::all().len(), 5);
}

#[test]
fn channel_rule_exact_match_beats_catch_all() {
    // Rules name channels 1-indexed; channel 3 on the wire is rule target 4.
    let map = vec![(4, ChannelMapping::Channel(1)), (0, ChannelMapping::PassThrough)];
    assert_eq!(resolve_channel_rule(&map, 3), Some(ChannelMapping::Channel(1)));
    // Any other channel falls to the catch-all last rule.
    assert_eq!(resolve_channel_rule(&map, 0), Some(ChannelMapping::PassThrough));
    assert_eq!(resolve_channel_rule(&map, 15), Some(ChannelMapping::PassThrough));
}

#[test]
fn channel_rule_catch_all_always_answers() {
    let map = default_channel_map();
    for ch in 0..16 {
        assert!(resolve_channel_rule(&map, ch).is_some());
    }
    assert_eq!(resolve_channel_rule(&vec![], 5), None);
}

#[test]
fn cc_rule_precedence() {
    // Rule channels are 1-indexed: rule channel 3 names live channel 2.
    let map = vec![
        (3, 7, CcMapping::MapToCc(10)),     // exact channel and cc
        (0, 7, CcMapping::MapToCc(20)),     // this cc on any channel
        (3, -1, CcMapping::MapToCc(30)),    // any cc on this channel
        (0, -1, CcMapping::PassThrough),    // catch-all
    ];
    assert_eq!(resolve_cc_rule(&map, 2, 7), Some(CcMapping::MapToCc(10)));
    assert_eq!(resolve_cc_rule(&map, 5, 7), Some(CcMapping::MapToCc(20)));
    assert_eq!(resolve_cc_rule(&map, 2, 9), Some(CcMapping::MapToCc(30)));
    assert_eq!(resolve_cc_rule(&map, 5, 9), Some(CcMapping::PassThrough));
    // The rule never matches the live channel carrying its own raw value.
    assert_eq!(resolve_cc_rule(&map, 3, 7), Some(CcMapping::MapToCc(20)));
}

#[test]
fn cc_rule_catch_all_always_answers() {
    let map = default_cc_map();
    for ch in 0..16 {
        for cc in [0u8, 7, 64, 127] {
            assert_eq!(resolve_cc_rule(&map, ch, cc), Some(CcMapping::PassThrough));
        }
    }
    assert_eq!(resolve_cc_rule(&vec![], 0, 0), None);
}

fn settings_with(range: VelocityRange, curve: VelocityCurve) -> CommonSettings {
    let mut s = CommonSettings::new();
    s.velocity_range = range;
    s.velocity_curve = curve;
    s
}

#[test]
fn velocity_linear_default_is_identity() {
    let s = CommonSettings::new();
    for v in 1..=127u8 {
        assert_eq!(s.get_velocity(v), v);
    }
}

#[test]
fn velocity_fixed() {
    let s = settings_with(VelocityRange::default(), VelocityCurve::Fixed(99));
    assert_eq!(s.get_velocity(1), 99);
    assert_eq!(s.get_velocity(127), 99);
}

#[test]
fn velocity_ignore_below_min_gives_zero() {
    let range = VelocityRange {
        min: 20,
        max: 127,
        below_min: OutsideRange::Ignore,
        above_max: OutsideRange::Scale,
    };
    let s = settings_with(range, VelocityCurve::Linear);
    assert_eq!(s.get_velocity(10), 0);
    // A kept velocity still rescales onto [0, 127], since only the Scale
    // treatment narrows the output band: (127 * 19) / 126 = 19.
    assert_eq!(s.get_velocity(20), 19);
}

#[test]
fn velocity_clamp_above_max() {
    let range = VelocityRange {
        min: 1,
        max: 100,
        below_min: OutsideRange::Scale,
        above_max: OutsideRange::Clamp,
    };
    let s = settings_with(range, VelocityCurve::Linear);
    // 120 is clamped to 100, then rescaled onto [1, 127]:
    // (1 * 126 + 126 * 99) / 126 = 100.
    assert_eq!(s.get_velocity(120), 100);
}

#[test]
fn velocity_scale_narrows_band() {
    let range = VelocityRange {
        min: 20,
        max: 100,
        below_min: OutsideRange::Scale,
        above_max: OutsideRange::Scale,
    };
    let s = settings_with(range, VelocityCurve::Linear);
    // v = 64: floor 20, ceil 100: (20 * 126 + 80 * 63) / 126 = 60.
    assert_eq!(s.get_velocity(64), 60);
    // The band ends are reached exactly at the velocity extremes.
    assert_eq!(s.get_velocity(1), 20);
    assert_eq!(s.get_velocity(127), 100);
}

#[test]
fn velocity_shaped_uses_table() {
    let mut table = [0u8; 128];
    for v in 0..128usize {
        table[v] = (127 - v) as u8;
    }
    let s = settings_with(VelocityRange::default(), VelocityCurve::Shaped(table));
    assert_eq!(s.get_velocity(1), 126);
    assert_eq!(s.get_velocity(127), 0);
}

#[test]
fn settings_accessors_mirror_fields() {
    let i = InputSettings::new(String::from("IN"));
    assert_eq!(i.port_name, "IN");
    assert!(!i.use_program_change);
    assert!(!i.key_filter_enabled());
    assert_eq!(i.key_filter(), (0, 128));
    assert_eq!(i.cc_map(), &default_cc_map());
    assert_eq!(i.channel_map(), &default_channel_map());
    assert_eq!(i.velocity_curve(), &VelocityCurve::Linear);
    assert_eq!(i.velocity_range(), &VelocityRange::default());
    assert_eq!(i.transpose(), &Transpose::default());

    let o = OutputSettings::new(String::from("OUT"));
    assert_eq!(o.port_name, "OUT");
    assert!(o.buffer_pedals);
    assert!(!o.key_filter_enabled());
    assert_eq!(o.key_filter(), (0, 128));
    assert_eq!(o.cc_map(), &default_cc_map());
    assert_eq!(o.channel_map(), &default_channel_map());
    assert_eq!(o.velocity_curve(), &VelocityCurve::Linear);
    assert_eq!(o.velocity_range(), &VelocityRange::default());
}
