//! The per-connection rewriting stage: key filter, channel map, velocity
//! reshaping for notes; CC map for controller messages. Anything else passes
//! through untouched.

use vstd::prelude::*;

use crate::common_settings::CcMapping;
use crate::common_settings::ChannelMapping;
use crate::common_settings::CommonSettings;
use crate::common_settings::cc_rule_wf;
use crate::common_settings::channel_rule_wf;
use crate::common_settings::resolve_cc_rule;
use crate::common_settings::resolve_channel_rule;
use crate::common_settings::spec_cc_rule;
use crate::common_settings::spec_channel_rule;
use crate::common_settings::spec_find_cc_rule;
use crate::common_settings::spec_find_channel_rule;
use crate::common_settings::spec_velocity;
use crate::common_settings::wf_cc_map;
use crate::common_settings::wf_channel_map;
use crate::events::MidiEvent;

verus! {

/// What the stage does to one event under the given settings: the rewritten
/// event and the delivery flag (a flag already false stays false; the stage
/// can only withdraw delivery, except that note arms recompute velocity
/// regardless).
pub open spec fn spec_apply_filter_map(e: MidiEvent, send: bool, s: CommonSettings) -> (
    MidiEvent,
    bool,
) {
    match e {
        MidiEvent::NoteOn { channel, key, vel } => {
            let (channel2, vel2, send2) = spec_note_transform(channel, key, vel, send, s);
            (MidiEvent::NoteOn { channel: channel2, key, vel: vel2 }, send2)
        },
        MidiEvent::NoteOff { channel, key, vel } => {
            let (channel2, vel2, send2) = spec_note_transform(channel, key, vel, send, s);
            (MidiEvent::NoteOff { channel: channel2, key, vel: vel2 }, send2)
        },
        MidiEvent::Controller { channel, controller, value } => {
            match spec_cc_rule(s.cc_map@, channel, controller) {
                Some(CcMapping::PassThroughToChannel(n)) => (
                    MidiEvent::Controller { channel: (n - 1) as u8, controller, value },
                    send,
                ),
                Some(CcMapping::MapToCc(c)) => (
                    MidiEvent::Controller { channel, controller: c, value },
                    send,
                ),
                Some(CcMapping::MapToChannelCc(n, c)) => (
                    MidiEvent::Controller { channel: (n - 1) as u8, controller: c, value },
                    send,
                ),
                Some(CcMapping::Ignore) => (e, false),
                _ => (e, send),
            }
        },
        _ => (e, send),
    }
}

/// The note side of the stage: the key filter may withdraw delivery, the
/// channel map readdresses or withdraws, and a non-zero velocity is reshaped
/// and lifted to at least 1 (velocity 0 means note-off and is left alone).
pub open spec fn spec_note_transform(channel: u8, key: u8, vel: u8, send: bool, s: CommonSettings) -> (
    u8,
    u8,
    bool,
) {
    let send1 = if s.key_filter_enabled && (s.key_filter.0 > key || s.key_filter.1 < key) {
        false
    } else {
        send
    };
    let (channel2, send2) = match spec_channel_rule(s.channel_map@, channel) {
        Some(ChannelMapping::Channel(n)) => ((n - 1) as u8, send1),
        Some(ChannelMapping::Ignore) => (channel, false),
        _ => (channel, send1),
    };
    let vel2 = if vel != 0 {
        let gv = spec_velocity(vel, s.velocity_range, s.velocity_curve);
        if gv < 1 {
            1
        } else {
            gv
        }
    } else {
        vel
    };
    (channel2, vel2, send2)
}

/// A rule handed back by channel resolution comes from the map, so a
/// well-formed map only hands back in-range actions.
pub proof fn lemma_channel_rule_wf(m: Seq<(u8, ChannelMapping)>, channel: u8)
    requires
        wf_channel_map(m),
    ensures
        match spec_channel_rule(m, channel) {
            Some(a) => channel_rule_wf((0u8, a)),
            None => true,
        },
{
    lemma_find_channel_rule_in(m, (channel + 1) as u8);
}

proof fn lemma_find_channel_rule_in(m: Seq<(u8, ChannelMapping)>, t: u8)
    ensures
        match spec_find_channel_rule(m, t) {
            Some(r) => m.contains(r),
            None => true,
        },
    decreases m.len(),
{
    if m.len() > 0 && m[0].0 != t {
        lemma_find_channel_rule_in(m.drop_first(), t);
        match spec_find_channel_rule(m.drop_first(), t) {
            Some(r) => {
                let i = choose|i: int| 0 <= i < m.drop_first().len() && m.drop_first()[i] == r;
                assert(m[i + 1] == r);
            },
            None => {},
        }
    }
}

/// Likewise for CC resolution: a well-formed map only hands back in-range
/// actions.
pub proof fn lemma_cc_rule_wf(m: Seq<(u8, i8, CcMapping)>, channel: u8, controller: u8)
    requires
        wf_cc_map(m),
    ensures
        match spec_cc_rule(m, channel, controller) {
            Some(a) => cc_rule_wf((0u8, 0i8, a)),
            None => true,
        },
{
    lemma_find_cc_rule_in(m, channel, controller, 0);
    lemma_find_cc_rule_in(m, channel, controller, 1);
    lemma_find_cc_rule_in(m, channel, controller, 2);
}

proof fn lemma_find_cc_rule_in(m: Seq<(u8, i8, CcMapping)>, channel: u8, controller: u8, stage: int)
    ensures
        match spec_find_cc_rule(m, channel, controller, stage) {
            Some(r) => m.contains(r),
            None => true,
        },
    decreases m.len(),
{
    if m.len() > 0 && !crate::common_settings::cc_rule_matches(m[0], channel, controller, stage) {
        lemma_find_cc_rule_in(m.drop_first(), channel, controller, stage);
        match spec_find_cc_rule(m.drop_first(), channel, controller, stage) {
            Some(r) => {
                let i = choose|i: int| 0 <= i < m.drop_first().len() && m.drop_first()[i] == r;
                assert(m[i + 1] == r);
            },
            None => {},
        }
    }
}

/// Rewrite one event in place under the given settings, exactly as
/// `spec_apply_filter_map` describes. A valid event stays valid.
pub fn apply_filter_map(event: &mut MidiEvent, send: &mut bool, settings: &CommonSettings)
    requires
        old(event).valid(),
        settings.wf(),
    ensures
        (*final(event), *final(send)) == spec_apply_filter_map(*old(event), *old(send), *settings),
        final(event).valid(),
{
    let e = *event;
    match e {
        MidiEvent::NoteOn { channel, key, vel } => {
            let (channel2, vel2, send2) = note_transform(channel, key, vel, *send, settings);
            *event = MidiEvent::NoteOn { channel: channel2, key, vel: vel2 };
            *send = send2;
        },
        MidiEvent::NoteOff { channel, key, vel } => {
            let (channel2, vel2, send2) = note_transform(channel, key, vel, *send, settings);
            *event = MidiEvent::NoteOff { channel: channel2, key, vel: vel2 };
            *send = send2;
        },
        MidiEvent::Controller { channel, controller, value } => {
            proof {
                lemma_cc_rule_wf(settings.cc_map@, channel, controller);
            }
            match resolve_cc_rule(&settings.cc_map, channel, controller) {
                Some(CcMapping::PassThroughToChannel(n)) => {
                    *event = MidiEvent::Controller { channel: n - 1, controller, value };
                },
                Some(CcMapping::MapToCc(c)) => {
                    *event = MidiEvent::Controller { channel, controller: c, value };
                },
                Some(CcMapping::MapToChannelCc(n, c)) => {
                    *event = MidiEvent::Controller { channel: n - 1, controller: c, value };
                },
                Some(CcMapping::Ignore) => {
                    *send = false;
                },
                _ => {},
            }
        },
        _ => {},
    }
}

/// The note side of `apply_filter_map`.
fn note_transform(channel: u8, key: u8, vel: u8, send: bool, settings: &CommonSettings) -> (r: (
    u8,
    u8,
    bool,
))
    requires
        channel < 16,
        vel < 128,
        settings.wf(),
    ensures
        r == spec_note_transform(channel, key, vel, send, *settings),
        r.0 < 16,
        r.1 < 128,
{
    let mut send1 = send;
    if settings.key_filter_enabled && (settings.key_filter.0 > key || settings.key_filter.1 < key) {
        send1 = false;
    }
    let mut channel2 = channel;
    let mut send2 = send1;
    proof {
        lemma_channel_rule_wf(settings.channel_map@, channel);
    }
    match resolve_channel_rule(&settings.channel_map, channel) {
        Some(ChannelMapping::Channel(n)) => {
            channel2 = n - 1;
        },
        Some(ChannelMapping::Ignore) => {
            send2 = false;
        },
        _ => {},
    }
    let vel2 = if vel != 0 {
        let gv = settings.get_velocity(vel);
        if gv < 1 {
            1
        } else {
            gv
        }
    } else {
        vel
    };
    (channel2, vel2, send2)
}

/// Remap consistency: under one and the same settings value, a note-on and a
/// note-off arriving on the same channel are readdressed to the same output
/// channel, whatever their keys and velocities. The off event for a sounding
/// note therefore follows the note wherever the channel map sent it.
pub proof fn lemma_note_channel_remap_agrees(
    s: CommonSettings,
    on: MidiEvent,
    off: MidiEvent,
    send_on: bool,
    send_off: bool,
)
    requires
        on is NoteOn,
        off is NoteOff,
        on.spec_channel() == off.spec_channel(),
    ensures
        spec_apply_filter_map(on, send_on, s).0.spec_channel() == spec_apply_filter_map(
            off,
            send_off,
            s,
        ).0.spec_channel(),
{
}

} // verus!
