//! The per-input pipeline, run once per arriving raw message: program-change
//! preset switching, per-target transforms, pedal replay on preset switches,
//! held-state updates, and the closing sweep that delivers buffered
//! off-events to targets no longer reached by the mapping.
//!
//! The pipeline itself performs no I/O. The caller hands it the raw bytes,
//! the currently available and currently connected output names, and the
//! shared held-state; it hands back what to send where, which cached
//! connections to drop, and whether to switch presets.

use vstd::prelude::*;

use crate::common_settings::CommonSettings;
use crate::events::MidiEvent;
use crate::events::ParsedEvent;
use crate::events::parse;
use crate::events::spec_parse;
use crate::events::spec_to_bytes;
use crate::events::to_bytes;
use crate::filter_map::apply_filter_map;
use crate::filter_map::spec_apply_filter_map;
use crate::heldstate::EngineState;
use crate::heldstate::EventBufferItem;
use crate::heldstate::off_key_idx;
use crate::heldstate::spec_pending_insert;
use crate::heldstate::spec_pending_remove_matching;
use crate::heldstate::pedal_idx;
use crate::output_settings::OutputSettings;
use crate::properties::Properties;

verus! {

/// Name lists as the specifications see them.
pub open spec fn names_model(v: Seq<String>) -> Seq<Seq<char>> {
    v.map_values(|s: String| s@)
}

/// Event batches as the specifications see them: (output name, raw bytes).
pub open spec fn events_model(v: Seq<(String, Vec<u8>)>) -> Seq<(Seq<char>, Seq<u8>)> {
    v.map_values(|e: (String, Vec<u8>)| (e.0@, e.1@))
}

/// What one message's handling asks the caller to do.
pub struct HandleOutcome {
    /// Switch to this preset (a program change consumed the message).
    pub program_change: Option<u8>,
    /// Drop the cached connections of these ports; they are gone.
    pub evict: Vec<String>,
    /// Hand these (port, bytes) pairs to the ordering stage under this
    /// message's timestamp, in this order.
    pub events: Vec<(String, Vec<u8>)>,
}

/// All data fields of a message the held-pedal map may hold are in range.
pub open spec fn pedals_valid(pedals: Seq<(u8, u8, u8)>) -> bool {
    forall|i: int|
        0 <= i < pedals.len() ==> (#[trigger] pedals[i]).0 < 16 && pedals[i].1 < 128 && pedals[i].2
            < 128
}

/// Every buffered off-event is a valid message.
pub open spec fn pending_valid(pending: Seq<(MidiEvent, Seq<(Seq<char>, MidiEvent)>)>) -> bool {
    forall|i: int, j: int|
        0 <= i < pending.len() && 0 <= j < (#[trigger] pending[i]).1.len() ==> (
        #[trigger] pending[i].1[j]).1.valid()
}

/// The held-state only ever holds data taken from valid messages.
pub open spec fn st_valid(st: &EngineState) -> bool {
    pedals_valid(st.held_pedals.model()) && pending_valid(st.event_buffer.model())
}

/// The held-state bookkeeping one target performs, reading the original
/// event (whose shape keys the pending-off map) and the transformed event
/// (whose shape is what must later be sent): a note-on or a pedal press
/// buffers the matching off; a note-off or pedal release withdraws the
/// buffered off of this target, provided the transformed channel still
/// matches; a pedal press also records its value for replay.
pub open spec fn spec_update_held(
    pending: Seq<(MidiEvent, Seq<(Seq<char>, MidiEvent)>)>,
    pedals: Seq<(u8, u8, u8)>,
    e_orig: MidiEvent,
    e_after: MidiEvent,
    name: Seq<char>,
    buffer_pedals: bool,
) -> (Seq<(MidiEvent, Seq<(Seq<char>, MidiEvent)>)>, Seq<(u8, u8, u8)>) {
    match e_orig {
        MidiEvent::NoteOn { channel, key, .. } => {
            let listen = MidiEvent::NoteOff { channel, key, vel: 0 };
            let send = MidiEvent::NoteOff {
                channel: e_after.spec_channel(),
                key: spec_key_of(e_after),
                vel: 0,
            };
            (spec_pending_insert(pending, listen, (name, send)), pedals)
        },
        MidiEvent::NoteOff { channel, key, .. } => {
            let listen = MidiEvent::NoteOff { channel, key, vel: 0 };
            (spec_pending_remove_matching(pending, listen, name, e_after.spec_channel()), pedals)
        },
        MidiEvent::Controller { channel, controller, value } => {
            if (controller == 64 || controller == 66 || controller == 69) && buffer_pedals {
                let listen = MidiEvent::Controller { channel, controller, value: 0 };
                if value >= 64 {
                    let send = MidiEvent::Controller {
                        channel: e_after.spec_channel(),
                        controller: spec_controller_of(e_after),
                        value: 0,
                    };
                    (
                        spec_pending_insert(pending, listen, (name, send)),
                        match pedal_idx(pedals, channel, controller) {
                            Some(i) => pedals.update(i, (channel, controller, value)),
                            None => pedals.push((channel, controller, value)),
                        },
                    )
                } else {
                    (
                        spec_pending_remove_matching(pending, listen, name, e_after.spec_channel()),
                        pedals,
                    )
                }
            } else {
                (pending, pedals)
            }
        },
        _ => (pending, pedals),
    }
}

/// The key byte of a note-shaped message (0 elsewhere).
pub open spec fn spec_key_of(e: MidiEvent) -> u8 {
    match e {
        MidiEvent::NoteOff { key, .. } => key,
        MidiEvent::NoteOn { key, .. } => key,
        MidiEvent::Aftertouch { key, .. } => key,
        _ => 0,
    }
}

/// The controller byte of a controller message (0 elsewhere).
pub open spec fn spec_controller_of(e: MidiEvent) -> u8 {
    match e {
        MidiEvent::Controller { controller, .. } => controller,
        _ => 0,
    }
}

/// Global transpose on the key byte of a note-shaped message, clamped to
/// the 7-bit key range at both ends.
pub open spec fn spec_transpose_event(e: MidiEvent, t: i8) -> MidiEvent {
    match e {
        MidiEvent::NoteOff { channel, key, vel } => MidiEvent::NoteOff {
            channel,
            key: spec_clamp_key(key + t),
            vel,
        },
        MidiEvent::NoteOn { channel, key, vel } => MidiEvent::NoteOn {
            channel,
            key: spec_clamp_key(key + t),
            vel,
        },
        MidiEvent::Aftertouch { channel, key, vel } => MidiEvent::Aftertouch {
            channel,
            key: spec_clamp_key(key + t),
            vel,
        },
        _ => e,
    }
}

pub open spec fn spec_clamp_key(k: int) -> u8 {
    if k < 0 {
        0
    } else if k > 127 {
        127
    } else {
        k as u8
    }
}

/// What handling one output target of the mapping does: a vanished port is
/// evicted and skipped; an unconnected port is skipped; otherwise held
/// pedals are replayed to it first when the preset just changed and the
/// target wants that, then the message runs through the input's and the
/// target's transforms and the global transpose, is delivered unless some
/// stage withdrew it, and the held-state is brought up to date.
pub open spec fn spec_target_step(
    parsed: ParsedEvent,
    data: Seq<u8>,
    ic: CommonSettings,
    global_transpose: i8,
    changed_preset: bool,
    avail: Seq<Seq<char>>,
    conn: Seq<Seq<char>>,
    pending: Seq<(MidiEvent, Seq<(Seq<char>, MidiEvent)>)>,
    pedals: Seq<(u8, u8, u8)>,
    output: OutputSettings,
) -> (
    Seq<(MidiEvent, Seq<(Seq<char>, MidiEvent)>)>,
    Seq<(u8, u8, u8)>,
    Seq<(Seq<char>, Seq<u8>)>,
    Seq<Seq<char>>,
) {
    let name = output.port_name@;
    if !avail.contains(name) {
        (pending, pedals, Seq::<(Seq<char>, Seq<u8>)>::empty(), seq![name])
    } else if !conn.contains(name) {
        (pending, pedals, Seq::<(Seq<char>, Seq<u8>)>::empty(), Seq::<Seq<char>>::empty())
    } else {
        let replay: Seq<(Seq<char>, Seq<u8>)> = if changed_preset && output.buffer_pedals {
            pedals.map_values(
                |p: (u8, u8, u8)|
                    (
                        name,
                        spec_to_bytes(
                            MidiEvent::Controller { channel: p.0, controller: p.1, value: p.2 },
                        ),
                    ),
            )
        } else {
            Seq::<(Seq<char>, Seq<u8>)>::empty()
        };
        match parsed {
            ParsedEvent::System => (
                pending,
                pedals,
                replay.push((name, data)),
                Seq::<Seq<char>>::empty(),
            ),
            ParsedEvent::Channel(e) => {
                let (e1, send1) = spec_apply_filter_map(e, true, ic);
                let (e2, send2) = spec_apply_filter_map(e1, send1, output.common);
                let ignore_transpose = output.common.transpose.ignore_global
                    || ic.transpose.ignore_global;
                let e3 = if global_transpose != 0 && !ignore_transpose && (e is NoteOn
                    || e is NoteOff || e is Aftertouch) {
                    spec_transpose_event(e2, global_transpose)
                } else {
                    e2
                };
                let sends = if send2 {
                    replay.push((name, spec_to_bytes(e3)))
                } else {
                    replay
                };
                let (pending2, pedals2) = spec_update_held(
                    pending,
                    pedals,
                    e,
                    e3,
                    name,
                    output.buffer_pedals,
                );
                (pending2, pedals2, sends, Seq::<Seq<char>>::empty())
            },
        }
    }
}

/// Handling the first `n` targets of the mapping, in order, accumulating
/// their deliveries and evictions.
pub open spec fn spec_targets_fold(
    parsed: ParsedEvent,
    data: Seq<u8>,
    ic: CommonSettings,
    global_transpose: i8,
    changed_preset: bool,
    avail: Seq<Seq<char>>,
    conn: Seq<Seq<char>>,
    pending: Seq<(MidiEvent, Seq<(Seq<char>, MidiEvent)>)>,
    pedals: Seq<(u8, u8, u8)>,
    outputs: Seq<OutputSettings>,
    n: int,
) -> (
    Seq<(MidiEvent, Seq<(Seq<char>, MidiEvent)>)>,
    Seq<(u8, u8, u8)>,
    Seq<(Seq<char>, Seq<u8>)>,
    Seq<Seq<char>>,
)
    decreases n,
{
    if n <= 0 {
        (pending, pedals, Seq::<(Seq<char>, Seq<u8>)>::empty(), Seq::<Seq<char>>::empty())
    } else {
        let (p1, hp1, ev1, evict1) = spec_targets_fold(
            parsed,
            data,
            ic,
            global_transpose,
            changed_preset,
            avail,
            conn,
            pending,
            pedals,
            outputs,
            n - 1,
        );
        let (p2, hp2, ev2, evict2) = spec_target_step(
            parsed,
            data,
            ic,
            global_transpose,
            changed_preset,
            avail,
            conn,
            p1,
            hp1,
            outputs[n - 1],
        );
        (p2, hp2, ev1 + ev2, evict1 + evict2)
    }
}

/// The off-trigger shape of a message, if it has one: a note-off or
/// aftertouch resolves the note's fingerprint, a pedal controller falling
/// below 64 resolves the pedal's.
pub open spec fn spec_sweep_trigger(e: MidiEvent) -> Option<MidiEvent> {
    match e {
        MidiEvent::NoteOff { channel, key, .. } => Some(
            MidiEvent::NoteOff { channel, key, vel: 0 },
        ),
        MidiEvent::Aftertouch { channel, key, .. } => Some(
            MidiEvent::NoteOff { channel, key, vel: 0 },
        ),
        MidiEvent::Controller { channel, controller, value } => {
            if (controller == 64 || controller == 66 || controller == 69) && value < 64 {
                Some(MidiEvent::Controller { channel, controller, value: 0 })
            } else {
                None
            }
        },
        _ => None,
    }
}

/// The closing sweep: when the original message is itself an off-trigger,
/// its whole pending entry is drained and every off-event still owed is
/// delivered now, and a released pedal is forgotten.
pub open spec fn spec_sweep(
    pending: Seq<(MidiEvent, Seq<(Seq<char>, MidiEvent)>)>,
    pedals: Seq<(u8, u8, u8)>,
    e: MidiEvent,
) -> (
    Seq<(MidiEvent, Seq<(Seq<char>, MidiEvent)>)>,
    Seq<(u8, u8, u8)>,
    Seq<(Seq<char>, Seq<u8>)>,
) {
    let pedals2 = match e {
        MidiEvent::Controller { channel, controller, value } => {
            if (controller == 64 || controller == 66 || controller == 69) && value < 64 {
                match pedal_idx(pedals, channel, controller) {
                    Some(i) => pedals.remove(i),
                    None => pedals,
                }
            } else {
                pedals
            }
        },
        _ => pedals,
    };
    match spec_sweep_trigger(e) {
        Some(off) => match off_key_idx(pending, off) {
            Some(i) => (
                pending.remove(i),
                pedals2,
                pending[i].1.map_values(|it: (Seq<char>, MidiEvent)| (it.0, spec_to_bytes(it.1))),
            ),
            None => (pending, pedals2, Seq::<(Seq<char>, Seq<u8>)>::empty()),
        },
        None => (pending, pedals2, Seq::<(Seq<char>, Seq<u8>)>::empty()),
    }
}

/// What handling one raw message does, in full: parse (malformed input does
/// nothing), intercept program changes when the input asks for it, run every
/// mapped target, then sweep. A missing input slot, preset or mapping
/// delivers nothing; the sweep still runs for a parseable channel message
/// unless the input slot itself is missing.
pub open spec fn spec_handle_message(
    props: Properties,
    input_id: usize,
    prev: usize,
    data: Seq<u8>,
    avail: Seq<Seq<char>>,
    conn: Seq<Seq<char>>,
    pending: Seq<(MidiEvent, Seq<(Seq<char>, MidiEvent)>)>,
    pedals: Seq<(u8, u8, u8)>,
) -> (
    Option<u8>,
    Seq<Seq<char>>,
    Seq<(Seq<char>, Seq<u8>)>,
    Seq<(MidiEvent, Seq<(Seq<char>, MidiEvent)>)>,
    Seq<(u8, u8, u8)>,
    usize,
) {
    match spec_parse(data) {
        None => (None, Seq::empty(), Seq::empty(), pending, pedals, prev),
        Some(parsed) => {
            if input_id >= props.inputs@.len() {
                (None, Seq::empty(), Seq::empty(), pending, pedals, prev)
            } else {
                let is = props.inputs@[input_id as int];
                if is.use_program_change && (parsed matches ParsedEvent::Channel(
                    MidiEvent::ProgramChange { .. },
                )) {
                    let program = match parsed {
                        ParsedEvent::Channel(MidiEvent::ProgramChange { program, .. }) => program,
                        _ => 0,
                    };
                    (Some(program), Seq::empty(), Seq::empty(), pending, pedals, prev)
                } else {
                    let (p1, hp1, events1, evict1, prev1) = if props.current_preset
                        < props.presets@.len() {
                        let preset = props.presets@[props.current_preset as int];
                        match crate::preset::spec_assoc_get(
                            preset.mapping.entries_view(),
                            input_id,
                        ) {
                            Some(outputs) => {
                                let changed = preset.id != prev;
                                let (p1, hp1, ev, evict) = spec_targets_fold(
                                    parsed,
                                    data,
                                    is.common,
                                    props.transpose,
                                    changed,
                                    avail,
                                    conn,
                                    pending,
                                    pedals,
                                    outputs@,
                                    outputs@.len() as int,
                                );
                                (p1, hp1, ev, evict, preset.id)
                            },
                            None => (pending, pedals, Seq::empty(), Seq::empty(), prev),
                        }
                    } else {
                        (pending, pedals, Seq::empty(), Seq::empty(), prev)
                    };
                    match parsed {
                        ParsedEvent::Channel(e) => {
                            let (p2, hp2, sweep_events) = spec_sweep(p1, hp1, e);
                            (None, evict1, events1 + sweep_events, p2, hp2, prev1)
                        },
                        ParsedEvent::System => (None, evict1, events1, p1, hp1, prev1),
                    }
                }
            }
        },
    }
}

/// One input slot's listener: its index in the input list and the preset it
/// last saw, used to notice preset switches.
#[derive(Debug)]
pub struct Listener {
    pub input_id: usize,
    pub previous_preset: usize,
}

impl Listener {
    pub fn new(input_id: usize) -> (r: Self)
        ensures
            r.input_id == input_id,
            r.previous_preset == 0,
    {
        Listener { input_id, previous_preset: 0 }
    }
}

/// Whether the name list holds the given name (by content).
fn contains_name(v: &Vec<String>, name: &String) -> (r: bool)
    ensures
        r == names_model(v@).contains(name@),
{
    let n = v.len();
    let mut i: usize = 0;
    while i < n
        invariant
            0 <= i <= n,
            n == v@.len(),
            forall|j: int| 0 <= j < i ==> (#[trigger] v@[j])@ != name@,
        decreases n - i,
    {
        if v[i] == *name {
            proof {
                assert(names_model(v@)[i as int] == name@);
            }
            return true;
        }
        i += 1;
    }
    proof {
        if names_model(v@).contains(name@) {
            let j = choose|j: int| 0 <= j < names_model(v@).len() && names_model(v@)[j] == name@;
            assert(v@[j]@ == name@);
        }
    }
    false
}

/// Global transpose on the key byte, clamped to the 7-bit range: the
/// engine's resolution of saturating at both ends rather than only below.
fn transpose_event(e: &MidiEvent, t: i8) -> (r: MidiEvent)
    requires
        e.valid(),
    ensures
        r == spec_transpose_event(*e, t),
        r.valid(),
{
    match e {
        MidiEvent::NoteOff { channel, key, vel } => MidiEvent::NoteOff {
            channel: *channel,
            key: clamp_key(*key as i16 + t as i16),
            vel: *vel,
        },
        MidiEvent::NoteOn { channel, key, vel } => MidiEvent::NoteOn {
            channel: *channel,
            key: clamp_key(*key as i16 + t as i16),
            vel: *vel,
        },
        MidiEvent::Aftertouch { channel, key, vel } => MidiEvent::Aftertouch {
            channel: *channel,
            key: clamp_key(*key as i16 + t as i16),
            vel: *vel,
        },
        _ => *e,
    }
}

fn clamp_key(k: i16) -> (r: u8)
    ensures
        r == spec_clamp_key(k as int),
{
    if k < 0 {
        0
    } else if k > 127 {
        127
    } else {
        k as u8
    }
}

fn key_of(e: &MidiEvent) -> (r: u8)
    ensures
        r == spec_key_of(*e),
{
    match e {
        MidiEvent::NoteOff { key, .. } => *key,
        MidiEvent::NoteOn { key, .. } => *key,
        MidiEvent::Aftertouch { key, .. } => *key,
        _ => 0,
    }
}

fn controller_of(e: &MidiEvent) -> (r: u8)
    ensures
        r == spec_controller_of(*e),
{
    match e {
        MidiEvent::Controller { controller, .. } => *controller,
        _ => 0,
    }
}

#[verifier::loop_isolation(false)]
fn copy_bytes(v: &Vec<u8>) -> (r: Vec<u8>)
    ensures
        r@ == v@,
{
    let mut out: Vec<u8> = Vec::new();
    let n = v.len();
    let mut i: usize = 0;
    while i < n
        invariant
            0 <= i <= n,
            n == v@.len(),
            out@ =~= v@.take(i as int),
        decreases n - i,
    {
        out.push(v[i]);
        i += 1;
    }
    proof {
        assert(out@ =~= v@);
    }
    out
}

/// Bring the held-state up to date for one target, as `spec_update_held`
/// describes.
fn update_held(
    st: &mut EngineState,
    e_orig: MidiEvent,
    e_after: MidiEvent,
    name: &String,
    buffer_pedals: bool,
)
    requires
        old(st).inv(),
        st_valid(old(st)),
        e_orig.valid(),
        e_after.valid(),
    ensures
        final(st).inv(),
        st_valid(final(st)),
        (final(st).event_buffer.model(), final(st).held_pedals.model()) == spec_update_held(
            old(st).event_buffer.model(),
            old(st).held_pedals.model(),
            e_orig,
            e_after,
            name@,
            buffer_pedals,
        ),
{
    match e_orig {
        MidiEvent::NoteOn { channel, key, .. } => {
            let listen = MidiEvent::NoteOff { channel, key, vel: 0 };
            let send = MidiEvent::NoteOff {
                channel: e_after.channel(),
                key: key_of(&e_after),
                vel: 0,
            };
            st.event_buffer.insert(
                listen,
                EventBufferItem { output_name: name.clone(), off_event: send },
            );
            proof {
                lemma_insert_keeps_valid(
                    old(st).event_buffer.model(),
                    listen,
                    (name@, send),
                );
            }
        },
        MidiEvent::NoteOff { channel, key, .. } => {
            let listen = MidiEvent::NoteOff { channel, key, vel: 0 };
            st.event_buffer.remove_matching(listen, name, e_after.channel());
            proof {
                lemma_remove_matching_keeps_valid(
                    old(st).event_buffer.model(),
                    listen,
                    name@,
                    e_after.spec_channel(),
                );
            }
        },
        MidiEvent::Controller { channel, controller, value } => {
            if (controller == 64 || controller == 66 || controller == 69) && buffer_pedals {
                let listen = MidiEvent::Controller { channel, controller, value: 0 };
                if value >= 64 {
                    let send = MidiEvent::Controller {
                        channel: e_after.channel(),
                        controller: controller_of(&e_after),
                        value: 0,
                    };
                    st.event_buffer.insert(
                        listen,
                        EventBufferItem { output_name: name.clone(), off_event: send },
                    );
                    st.held_pedals.insert(channel, controller, value);
                    proof {
                        lemma_insert_keeps_valid(
                            old(st).event_buffer.model(),
                            listen,
                            (name@, send),
                        );
                        let hp0 = old(st).held_pedals.model();
                        let hp2 = st.held_pedals.model();
                        assert(pedals_valid(hp2)) by {
                            crate::heldstate::lemma_pedal_idx_char(hp0, channel, controller);
                            match pedal_idx(hp0, channel, controller) {
                                Some(i) => {
                                    assert(hp2 =~= hp0.update(i, (channel, controller, value)));
                                },
                                None => {
                                    assert(hp2 =~= hp0.push((channel, controller, value)));
                                },
                            }
                        }
                    }
                } else {
                    st.event_buffer.remove_matching(listen, name, e_after.channel());
                    proof {
                        lemma_remove_matching_keeps_valid(
                            old(st).event_buffer.model(),
                            listen,
                            name@,
                            e_after.spec_channel(),
                        );
                    }
                }
            }
        },
        _ => {},
    }
}

/// Buffering a valid off-event keeps every buffered off-event valid.
proof fn lemma_insert_keeps_valid(
    m: Seq<(MidiEvent, Seq<(Seq<char>, MidiEvent)>)>,
    k: MidiEvent,
    it: (Seq<char>, MidiEvent),
)
    requires
        pending_valid(m),
        it.1.valid(),
    ensures
        pending_valid(spec_pending_insert(m, k, it)),
{
    let m2 = spec_pending_insert(m, k, it);
    match off_key_idx(m, k) {
        Some(i) => {
            crate::heldstate::lemma_off_key_idx_char(m, k);
            if !m[i].1.contains(it) {
                assert forall|a: int, b: int|
                    0 <= a < m2.len() && 0 <= b < (#[trigger] m2[a]).1.len() implies (
                #[trigger] m2[a].1[b]).1.valid() by {
                    if a == i && b == m[i].1.len() {
                    } else if a == i {
                        assert(m2[a].1[b] == m[a].1[b]);
                    } else {
                        assert(m2[a] == m[a]);
                    }
                }
            }
        },
        None => {
            assert forall|a: int, b: int|
                0 <= a < m2.len() && 0 <= b < (#[trigger] m2[a]).1.len() implies (
            #[trigger] m2[a].1[b]).1.valid() by {
                if a < m.len() {
                    assert(m2[a] == m[a]);
                } else {
                    assert(m2[a].1 =~= seq![it]);
                }
            }
        },
    }
}

/// Withdrawing a buffered off-event keeps every remaining one valid.
proof fn lemma_remove_matching_keeps_valid(
    m: Seq<(MidiEvent, Seq<(Seq<char>, MidiEvent)>)>,
    k: MidiEvent,
    name: Seq<char>,
    channel: u8,
)
    requires
        pending_valid(m),
    ensures
        pending_valid(spec_pending_remove_matching(m, k, name, channel)),
{
    let m2 = spec_pending_remove_matching(m, k, name, channel);
    match off_key_idx(m, k) {
        Some(i) => {
            crate::heldstate::lemma_off_key_idx_char(m, k);
            match crate::heldstate::item_idx(m[i].1, name) {
                Some(j) => {
                    crate::heldstate::lemma_item_idx_char(m[i].1, name);
                    if m[i].1[j].1.spec_channel() == channel {
                        assert forall|a: int, b: int|
                            0 <= a < m2.len() && 0 <= b < (#[trigger] m2[a]).1.len() implies (
                        #[trigger] m2[a].1[b]).1.valid() by {
                            if a == i {
                                let b2 = if b < j {
                                    b
                                } else {
                                    b + 1
                                };
                                assert(m2[a].1[b] == m[i].1[b2]);
                            } else {
                                assert(m2[a] == m[a]);
                            }
                        }
                    }
                },
                None => {},
            }
        },
        None => {},
    }
}

/// Handle one output target of the mapping, as `spec_target_step` describes,
/// appending its deliveries and evictions.
#[verifier::loop_isolation(false)]
fn process_target(
    parsed: ParsedEvent,
    data: &Vec<u8>,
    ic: &CommonSettings,
    global_transpose: i8,
    changed_preset: bool,
    available: &Vec<String>,
    connected: &Vec<String>,
    st: &mut EngineState,
    output: &OutputSettings,
    events: &mut Vec<(String, Vec<u8>)>,
    evict: &mut Vec<String>,
)
    requires
        parsed matches ParsedEvent::Channel(e) ==> e.valid(),
        ic.wf(),
        output.wf(),
        old(st).inv(),
        st_valid(old(st)),
    ensures
        final(st).inv(),
        st_valid(final(st)),
        ({
            let (p2, hp2, ev2, evict2) = spec_target_step(
                parsed,
                data@,
                *ic,
                global_transpose,
                changed_preset,
                names_model(available@),
                names_model(connected@),
                old(st).event_buffer.model(),
                old(st).held_pedals.model(),
                *output,
            );
            &&& final(st).event_buffer.model() == p2
            &&& final(st).held_pedals.model() == hp2
            &&& events_model(final(events)@) == events_model(old(events)@) + ev2
            &&& names_model(final(evict)@) == names_model(old(evict)@) + evict2
        }),
{
    if !contains_name(available, &output.port_name) {
        evict.push(output.port_name.clone());
        proof {
            assert(names_model(evict@) =~= names_model(old(evict)@) + seq![output.port_name@]);
            assert(events_model(events@) =~= events_model(old(events)@)
                + Seq::<(Seq<char>, Seq<u8>)>::empty());
        }
        return ;
    }
    if !contains_name(connected, &output.port_name) {
        proof {
            assert(names_model(evict@) =~= names_model(old(evict)@) + Seq::<Seq<char>>::empty());
            assert(events_model(events@) =~= events_model(old(events)@)
                + Seq::<(Seq<char>, Seq<u8>)>::empty());
        }
        return ;
    }
    let ghost replay_spec: Seq<(Seq<char>, Seq<u8>)> = if changed_preset && output.buffer_pedals {
        old(st).held_pedals.model().map_values(
            |p: (u8, u8, u8)|
                (
                    output.port_name@,
                    spec_to_bytes(
                        MidiEvent::Controller { channel: p.0, controller: p.1, value: p.2 },
                    ),
                ),
        )
    } else {
        Seq::<(Seq<char>, Seq<u8>)>::empty()
    };
    if changed_preset && output.buffer_pedals {
        let pedals = st.held_pedals.list();
        let n = pedals.len();
        let mut k: usize = 0;
        while k < n
            invariant
                0 <= k <= n,
                n == pedals@.len(),
                pedals@ == old(st).held_pedals.model(),
                events_model(events@) =~= events_model(old(events)@) + replay_spec.take(k as int),
            decreases n - k,
        {
            let (channel, controller, value) = pedals[k];
            proof {
                assert(pedals@[k as int] == (channel, controller, value));
            }
            let bytes = to_bytes(
                &MidiEvent::Controller { channel, controller, value },
            );
            let ghost prev_events = events@;
            let ghost bytes_view = bytes@;
            events.push((output.port_name.clone(), bytes));
            proof {
                assert(replay_spec[k as int] == (output.port_name@, bytes_view));
                assert(replay_spec.take(k + 1) =~= replay_spec.take(k as int).push(
                    replay_spec[k as int],
                ));
                assert(events@.last().0@ == output.port_name@);
                assert(events@.last().1@ == bytes_view);
                assert(events_model(events@) =~= events_model(prev_events).push(
                    (output.port_name@, bytes_view),
                ));
                assert(events_model(events@) =~= events_model(old(events)@) + replay_spec.take(
                    k + 1,
                ));
            }
            k += 1;
        }
        proof {
            assert(replay_spec.take(n as int) =~= replay_spec);
            assert(events_model(events@) =~= events_model(old(events)@) + replay_spec);
        }
    } else {
        proof {
            assert(events_model(events@) =~= events_model(old(events)@) + replay_spec);
        }
    }
    match parsed {
        ParsedEvent::System => {
            let ghost prev_events = events@;
            events.push((output.port_name.clone(), copy_bytes(data)));
            proof {
                assert(events@.last().0@ == output.port_name@);
                assert(events@.last().1@ == data@);
                assert(events_model(events@) =~= events_model(prev_events).push(
                    (output.port_name@, data@),
                ));
                assert(events_model(events@) =~= events_model(old(events)@) + replay_spec.push(
                    (output.port_name@, data@),
                ));
                assert(names_model(evict@) =~= names_model(old(evict)@)
                    + Seq::<Seq<char>>::empty());
            }
        },
        ParsedEvent::Channel(e) => {
            let mut ev = e;
            let mut send = true;
            apply_filter_map(&mut ev, &mut send, ic);
            apply_filter_map(&mut ev, &mut send, &output.common);
            let ignore_transpose = output.common.transpose.ignore_global
                || ic.transpose.ignore_global;
            let is_note = match e {
                MidiEvent::NoteOff { .. } => true,
                MidiEvent::NoteOn { .. } => true,
                MidiEvent::Aftertouch { .. } => true,
                _ => false,
            };
            let e3 = if global_transpose != 0 && !ignore_transpose && is_note {
                transpose_event(&ev, global_transpose)
            } else {
                ev
            };
            if send {
                let ghost prev_events = events@;
                events.push((output.port_name.clone(), to_bytes(&e3)));
                proof {
                    assert(events@.last().0@ == output.port_name@);
                    assert(events@.last().1@ == spec_to_bytes(e3));
                    assert(events_model(events@) =~= events_model(prev_events).push(
                        (output.port_name@, spec_to_bytes(e3)),
                    ));
                    assert(events_model(events@) =~= events_model(old(events)@) + replay_spec.push(
                        (output.port_name@, spec_to_bytes(e3)),
                    ));
                }
            } else {
                proof {
                    assert(events_model(events@) =~= events_model(old(events)@) + replay_spec);
                }
            }
            update_held(st, e, e3, &output.port_name, output.buffer_pedals);
            proof {
                assert(names_model(evict@) =~= names_model(old(evict)@)
                    + Seq::<Seq<char>>::empty());
            }
        },
    }
}

impl Listener {
    /// Handle one raw message arriving on this input, exactly as
    /// `spec_handle_message` describes: the returned outcome says what to
    /// send where (in order), which cached connections to drop, and whether
    /// a program change asks for a preset switch; the held-state and this
    /// listener's preset memory are brought up to date in place.
    #[verifier::loop_isolation(false)]
    #[verifier::rlimit(50)]
    pub fn handle_message(
        &mut self,
        props: &Properties,
        data: &Vec<u8>,
        available: &Vec<String>,
        connected: &Vec<String>,
        st: &mut EngineState,
    ) -> (r: HandleOutcome)
        requires
            props.wf(),
            old(st).inv(),
            st_valid(old(st)),
        ensures
            final(st).inv(),
            st_valid(final(st)),
            final(self).input_id == old(self).input_id,
            ({
                let (pc, evict, events, p2, hp2, prev2) = spec_handle_message(
                    *props,
                    old(self).input_id,
                    old(self).previous_preset,
                    data@,
                    names_model(available@),
                    names_model(connected@),
                    old(st).event_buffer.model(),
                    old(st).held_pedals.model(),
                );
                &&& r.program_change == pc
                &&& names_model(r.evict@) == evict
                &&& events_model(r.events@) == events
                &&& final(st).event_buffer.model() == p2
                &&& final(st).held_pedals.model() == hp2
                &&& final(self).previous_preset == prev2
            }),
    {
        let ghost pending0 = st.event_buffer.model();
        let ghost pedals0 = st.held_pedals.model();
        let parsed = match parse(data) {
            None => {
                proof {
                    lemma_empty_models();
                }
                return HandleOutcome {
                    program_change: None,
                    evict: Vec::new(),
                    events: Vec::new(),
                };
            },
            Some(p) => p,
        };
        if self.input_id >= props.inputs.len() {
            proof {
                lemma_empty_models();
            }
            return HandleOutcome { program_change: None, evict: Vec::new(), events: Vec::new() };
        }
        let input_settings = &props.inputs[self.input_id];
        if input_settings.use_program_change {
            if let ParsedEvent::Channel(MidiEvent::ProgramChange { program, .. }) = parsed {
                proof {
                    lemma_empty_models();
                }
                return HandleOutcome {
                    program_change: Some(program),
                    evict: Vec::new(),
                    events: Vec::new(),
                };
            }
        }
        let mut events: Vec<(String, Vec<u8>)> = Vec::new();
        let mut evict: Vec<String> = Vec::new();
        proof {
            lemma_empty_models();
        }
        if props.current_preset < props.presets.len() {
            let preset = &props.presets[props.current_preset];
            if let Some(outputs) = preset.mapping.get(self.input_id) {
                proof {
                    assert(preset.wf());
                    crate::preset::lemma_assoc_get_found(
                        preset.mapping.entries_view(),
                        self.input_id,
                    );
                    let idx = choose|i: int|
                        0 <= i < preset.mapping.entries_view().len() && (
                        #[trigger] preset.mapping.entries_view()[i]).0 == self.input_id
                            && preset.mapping.entries_view()[i].1 == *outputs;
                    assert forall|j: int| 0 <= j < outputs@.len() implies (
                    #[trigger] outputs@[j]).wf() by {
                        assert(preset.mapping.entries_view()[idx].1@[j].wf());
                    }
                }
                let changed = preset.id != self.previous_preset;
                self.previous_preset = preset.id;
                let n = outputs.len();
                let mut i: usize = 0;
                while i < n
                    invariant
                        0 <= i <= n,
                        n == outputs@.len(),
                        forall|j: int| 0 <= j < outputs@.len() ==> (#[trigger] outputs@[j]).wf(),
                        st.inv(),
                        st_valid(st),
                        ({
                            let (p_i, hp_i, ev_i, evict_i) = spec_targets_fold(
                                parsed,
                                data@,
                                input_settings.common,
                                props.transpose,
                                changed,
                                names_model(available@),
                                names_model(connected@),
                                pending0,
                                pedals0,
                                outputs@,
                                i as int,
                            );
                            &&& st.event_buffer.model() == p_i
                            &&& st.held_pedals.model() == hp_i
                            &&& events_model(events@) == ev_i
                            &&& names_model(evict@) == evict_i
                        }),
                    decreases n - i,
                {
                    process_target(
                        parsed,
                        data,
                        &input_settings.common,
                        props.transpose,
                        changed,
                        available,
                        connected,
                        st,
                        &outputs[i],
                        &mut events,
                        &mut evict,
                    );
                    i += 1;
                }
            }
        }
        let ghost p1 = st.event_buffer.model();
        let ghost hp1 = st.held_pedals.model();
        let ghost events1 = events_model(events@);
        if let ParsedEvent::Channel(e) = parsed {
            match e {
                MidiEvent::Controller { channel, controller, value } => {
                    if (controller == 64 || controller == 66 || controller == 69) && value < 64 {
                        st.held_pedals.remove(channel, controller);
                        proof {
                            assert(pedals_valid(st.held_pedals.model())) by {
                                match pedal_idx(hp1, channel, controller) {
                                    Some(i) => {
                                        crate::heldstate::lemma_pedal_idx_char(
                                            hp1,
                                            channel,
                                            controller,
                                        );
                                        assert forall|a: int|
                                            0 <= a < st.held_pedals.model().len() implies ((
                                        #[trigger] st.held_pedals.model()[a]).0 < 16
                                            && st.held_pedals.model()[a].1 < 128
                                            && st.held_pedals.model()[a].2 < 128) by {
                                            let a2 = if a < i {
                                                a
                                            } else {
                                                a + 1
                                            };
                                            assert(st.held_pedals.model()[a] == hp1[a2]);
                                        }
                                    },
                                    None => {},
                                }
                            }
                        }
                    }
                },
                _ => {},
            }
            let trigger = match e {
                MidiEvent::NoteOff { channel, key, .. } => Some(
                    MidiEvent::NoteOff { channel, key, vel: 0 },
                ),
                MidiEvent::Aftertouch { channel, key, .. } => Some(
                    MidiEvent::NoteOff { channel, key, vel: 0 },
                ),
                MidiEvent::Controller { channel, controller, value } => {
                    if (controller == 64 || controller == 66 || controller == 69) && value < 64 {
                        Some(MidiEvent::Controller { channel, controller, value: 0 })
                    } else {
                        None
                    }
                },
                _ => None,
            };
            proof {
                assert(trigger == spec_sweep_trigger(e));
            }
            if let Some(off) = trigger {
                proof {
                    crate::heldstate::lemma_off_key_idx_char(p1, off);
                }
                let mut items = st.event_buffer.drain(off);
                let ghost full = crate::heldstate::items_model(items@);
                let ghost sweep_spec = full.map_values(
                    |it: (Seq<char>, MidiEvent)| (it.0, spec_to_bytes(it.1)),
                );
                let mut k: usize = 0;
                let ghost items_at_start = items@;
                let items_len0 = items.len();
                proof {
                    if crate::heldstate::off_key_idx(p1, off) is Some {
                        let idx = crate::heldstate::off_key_idx(p1, off)->Some_0;
                        crate::heldstate::lemma_off_key_idx_char(p1, off);
                        assert(full == p1[idx].1);
                        assert forall|j: int| 0 <= j < items_at_start.len() implies (
                        #[trigger] items_at_start[j]).off_event.valid() by {
                            assert(full[j] == crate::heldstate::item_model(items_at_start[j]));
                            assert(p1[idx].1[j].1.valid());
                        }
                        assert(pending_valid(st.event_buffer.model())) by {
                            assert forall|a: int, b: int|
                                0 <= a < st.event_buffer.model().len() && 0 <= b < (
                            #[trigger] st.event_buffer.model()[a]).1.len() implies (
                            #[trigger] st.event_buffer.model()[a].1[b]).1.valid() by {
                                let a2 = if a < idx {
                                    a
                                } else {
                                    a + 1
                                };
                                assert(st.event_buffer.model()[a] == p1[a2]);
                                assert(p1[a2].1[b].1.valid());
                            }
                        }
                    } else {
                        assert(items_at_start.len() == 0);
                    }
                }
                while items.len() > 0
                    invariant
                        0 <= k <= full.len(),
                        crate::heldstate::items_model(items@) =~= full.skip(k as int),
                        items@ =~= items_at_start.skip(k as int),
                        forall|j: int|
                            0 <= j < items_at_start.len() ==> (
                            #[trigger] items_at_start[j]).off_event.valid(),
                        events_model(events@) =~= events1 + sweep_spec.take(k as int),
                        items.len() == full.len() - k,
                        full.len() == items_len0,
                    decreases items.len(),
                {
                    let it = items.remove(0);
                    let ghost prev_events = events@;
                    let bytes = to_bytes(&it.off_event);
                    events.push((it.output_name, bytes));
                    proof {
                        assert(full[k as int] == crate::heldstate::item_model(
                            items_at_start[k as int],
                        ));
                        assert(sweep_spec.take(k + 1) =~= sweep_spec.take(k as int).push(
                            sweep_spec[k as int],
                        ));
                        assert(events@.last().0@ == full[k as int].0);
                        assert(events@.last().1@ == spec_to_bytes(full[k as int].1));
                        assert(events_model(events@) =~= events_model(prev_events).push(
                            sweep_spec[k as int],
                        ));
                        assert(events_model(events@) =~= events1 + sweep_spec.take(k + 1));
                        assert(items@ =~= items_at_start.skip(k + 1));
                        assert(crate::heldstate::items_model(items@) =~= full.skip(k + 1));
                    }
                    k += 1;
                }
                proof {
                    assert(sweep_spec.take(k as int) =~= sweep_spec);
                    assert(events_model(events@) =~= events1 + sweep_spec);
                }
            }
        }
        HandleOutcome { program_change: None, evict, events }
    }
}

/// The models of freshly made vectors are empty.
proof fn lemma_empty_models()
    ensures
        events_model(Seq::<(String, Vec<u8>)>::empty()) =~= Seq::<(Seq<char>, Seq<u8>)>::empty(),
        names_model(Seq::<String>::empty()) =~= Seq::<Seq<char>>::empty(),
{
}

/// Pruning law: a mapped target whose port has vanished from the available
/// list is evicted and gets nothing: no delivery, no held-state change.
pub proof fn lemma_unavailable_target_pruned(
    parsed: ParsedEvent,
    data: Seq<u8>,
    ic: CommonSettings,
    global_transpose: i8,
    changed_preset: bool,
    avail: Seq<Seq<char>>,
    conn: Seq<Seq<char>>,
    pending: Seq<(MidiEvent, Seq<(Seq<char>, MidiEvent)>)>,
    pedals: Seq<(u8, u8, u8)>,
    output: OutputSettings,
)
    requires
        !avail.contains(output.port_name@),
    ensures
        ({
            let (p2, hp2, ev, evict) = spec_target_step(
                parsed,
                data,
                ic,
                global_transpose,
                changed_preset,
                avail,
                conn,
                pending,
                pedals,
                output,
            );
            &&& p2 == pending
            &&& hp2 == pedals
            &&& ev.len() == 0
            &&& evict == seq![output.port_name@]
        }),
{
}

/// Every delivery of one target's step goes to that target's own port.
pub proof fn lemma_step_deliveries_addressed(
    parsed: ParsedEvent,
    data: Seq<u8>,
    ic: CommonSettings,
    global_transpose: i8,
    changed_preset: bool,
    avail: Seq<Seq<char>>,
    conn: Seq<Seq<char>>,
    pending: Seq<(MidiEvent, Seq<(Seq<char>, MidiEvent)>)>,
    pedals: Seq<(u8, u8, u8)>,
    output: OutputSettings,
)
    ensures
        ({
            let (p2, hp2, ev, evict) = spec_target_step(
                parsed,
                data,
                ic,
                global_transpose,
                changed_preset,
                avail,
                conn,
                pending,
                pedals,
                output,
            );
            forall|k: int| 0 <= k < ev.len() ==> (#[trigger] ev[k]).0 == output.port_name@
        }),
{
}

/// Pruning law over a whole mapping: the per-target loop only ever delivers
/// to ports that are both available and connected.
pub proof fn lemma_fold_deliveries_connected(
    parsed: ParsedEvent,
    data: Seq<u8>,
    ic: CommonSettings,
    global_transpose: i8,
    changed_preset: bool,
    avail: Seq<Seq<char>>,
    conn: Seq<Seq<char>>,
    pending: Seq<(MidiEvent, Seq<(Seq<char>, MidiEvent)>)>,
    pedals: Seq<(u8, u8, u8)>,
    outputs: Seq<OutputSettings>,
    n: int,
)
    ensures
        ({
            let (p2, hp2, ev, evict) = spec_targets_fold(
                parsed,
                data,
                ic,
                global_transpose,
                changed_preset,
                avail,
                conn,
                pending,
                pedals,
                outputs,
                n,
            );
            forall|k: int|
                0 <= k < ev.len() ==> avail.contains((#[trigger] ev[k]).0) && conn.contains(
                    ev[k].0,
                )
        }),
    decreases n,
{
    if n > 0 {
        lemma_fold_deliveries_connected(
            parsed,
            data,
            ic,
            global_transpose,
            changed_preset,
            avail,
            conn,
            pending,
            pedals,
            outputs,
            n - 1,
        );
        let (p1, hp1, ev1, evict1) = spec_targets_fold(
            parsed,
            data,
            ic,
            global_transpose,
            changed_preset,
            avail,
            conn,
            pending,
            pedals,
            outputs,
            n - 1,
        );
        lemma_step_deliveries_addressed(
            parsed,
            data,
            ic,
            global_transpose,
            changed_preset,
            avail,
            conn,
            p1,
            hp1,
            outputs[n - 1],
        );
        let (p2, hp2, ev2, evict2) = spec_target_step(
            parsed,
            data,
            ic,
            global_transpose,
            changed_preset,
            avail,
            conn,
            p1,
            hp1,
            outputs[n - 1],
        );
        assert forall|k: int| 0 <= k < (ev1 + ev2).len() implies avail.contains(
            (#[trigger] (ev1 + ev2)[k]).0,
        ) && conn.contains((ev1 + ev2)[k].0) by {
            if k >= ev1.len() {
                assert((ev1 + ev2)[k] == ev2[k - ev1.len()]);
                assert(ev2[k - ev1.len()].0 == outputs[n - 1].port_name@);
                if ev2.len() > 0 {
                    assert(avail.contains(outputs[n - 1].port_name@));
                    assert(conn.contains(outputs[n - 1].port_name@));
                }
            } else {
                assert((ev1 + ev2)[k] == ev1[k]);
            }
        }
    }
}

/// Pedal replay law: when the preset just changed and a reachable target
/// wants pedal replay, the target's deliveries for this message begin with
/// one controller message per held pedal, reproducing the held values in
/// order, before anything else reaches it.
pub proof fn lemma_pedal_replay_on_switch(
    parsed: ParsedEvent,
    data: Seq<u8>,
    ic: CommonSettings,
    global_transpose: i8,
    avail: Seq<Seq<char>>,
    conn: Seq<Seq<char>>,
    pending: Seq<(MidiEvent, Seq<(Seq<char>, MidiEvent)>)>,
    pedals: Seq<(u8, u8, u8)>,
    output: OutputSettings,
)
    requires
        avail.contains(output.port_name@),
        conn.contains(output.port_name@),
        output.buffer_pedals,
    ensures
        ({
            let (p2, hp2, ev, evict) = spec_target_step(
                parsed,
                data,
                ic,
                global_transpose,
                true,
                avail,
                conn,
                pending,
                pedals,
                output,
            );
            &&& ev.len() >= pedals.len()
            &&& forall|k: int|
                0 <= k < pedals.len() ==> #[trigger] ev[k] == (
                    output.port_name@,
                    spec_to_bytes(
                        MidiEvent::Controller {
                            channel: pedals[k].0,
                            controller: pedals[k].1,
                            value: pedals[k].2,
                        },
                    ),
                )
        }),
{
}

/// Held-note law: a note-on handled for a reachable target leaves the
/// pending-off map owing that target the matching note-off, under the
/// fingerprint of the original (untransformed) note, with the off-message
/// carrying the transformed channel and key.
pub proof fn lemma_note_on_buffers_off(
    pending: Seq<(MidiEvent, Seq<(Seq<char>, MidiEvent)>)>,
    pedals: Seq<(u8, u8, u8)>,
    e_orig: MidiEvent,
    e_after: MidiEvent,
    name: Seq<char>,
    buffer_pedals: bool,
)
    requires
        e_orig is NoteOn,
        forall|i: int, j: int|
            0 <= i < j < pending.len() ==> (#[trigger] pending[i]).0 != (#[trigger] pending[j]).0,
    ensures
        ({
            let (p2, hp2) = spec_update_held(pending, pedals, e_orig, e_after, name, buffer_pedals);
            let listen = MidiEvent::NoteOff {
                channel: e_orig.spec_channel(),
                key: spec_key_of(e_orig),
                vel: 0,
            };
            let send = MidiEvent::NoteOff {
                channel: e_after.spec_channel(),
                key: spec_key_of(e_after),
                vel: 0,
            };
            match off_key_idx(p2, listen) {
                Some(i) => p2[i].1.contains((name, send)),
                None => false,
            }
        }),
{
    let (p2, hp2) = spec_update_held(pending, pedals, e_orig, e_after, name, buffer_pedals);
    let listen = MidiEvent::NoteOff {
        channel: e_orig.spec_channel(),
        key: spec_key_of(e_orig),
        vel: 0,
    };
    let send = MidiEvent::NoteOff {
        channel: e_after.spec_channel(),
        key: spec_key_of(e_after),
        vel: 0,
    };
    let it = (name, send);
    crate::heldstate::lemma_off_key_idx_char(pending, listen);
    match off_key_idx(pending, listen) {
        Some(i) => {
            if pending[i].1.contains(it) {
                assert(p2 == pending);
            } else {
                assert(p2 == pending.update(i, (listen, pending[i].1.push(it))));
                crate::heldstate::lemma_off_key_idx_of(p2, listen, i);
                assert(p2[i].1.last() == it);
            }
        },
        None => {
            assert(p2 == pending.push((listen, seq![it])));
            assert(p2[p2.len() - 1].0 == listen);
            crate::heldstate::lemma_off_key_idx_of(p2, listen, p2.len() - 1);
            assert(p2[p2.len() - 1].1[0] == it);
        },
    }
}

/// Held-note law, closing side: when the off-trigger itself arrives, the
/// sweep delivers every off-event still owed under its fingerprint — one
/// per buffered item, in order — and afterwards nothing is owed under that
/// fingerprint any more.
pub proof fn lemma_sweep_drains_fingerprint(
    pending: Seq<(MidiEvent, Seq<(Seq<char>, MidiEvent)>)>,
    pedals: Seq<(u8, u8, u8)>,
    e: MidiEvent,
)
    requires
        forall|i: int, j: int|
            0 <= i < j < pending.len() ==> (#[trigger] pending[i]).0 != (#[trigger] pending[j]).0,
        spec_sweep_trigger(e) is Some,
    ensures
        ({
            let off = spec_sweep_trigger(e)->Some_0;
            let (p2, hp2, events) = spec_sweep(pending, pedals, e);
            &&& off_key_idx(p2, off) is None
            &&& match off_key_idx(pending, off) {
                Some(i) => events == pending[i].1.map_values(
                    |it: (Seq<char>, MidiEvent)| (it.0, spec_to_bytes(it.1)),
                ),
                None => events.len() == 0,
            }
        }),
{
    let off = spec_sweep_trigger(e)->Some_0;
    let (p2, hp2, events) = spec_sweep(pending, pedals, e);
    crate::heldstate::lemma_off_key_idx_char(pending, off);
    match off_key_idx(pending, off) {
        Some(i) => {
            assert(p2 == pending.remove(i));
            assert(forall|l: int|
                0 <= l < p2.len() ==> #[trigger] p2[l] == pending[if l < i {
                    l
                } else {
                    l + 1
                }]);
            crate::heldstate::lemma_off_key_idx_char(p2, off);
            match off_key_idx(p2, off) {
                Some(x) => {
                    let x2 = if x < i {
                        x
                    } else {
                        x + 1
                    };
                    assert(pending[x2].0 == off);
                    assert(pending[i].0 == off);
                },
                None => {},
            }
        },
        None => {
            crate::heldstate::lemma_off_key_idx_char(p2, off);
            match off_key_idx(p2, off) {
                Some(x) => {
                    assert(p2[x].0 == off);
                },
                None => {},
            }
        },
    }
}

} // verus!
