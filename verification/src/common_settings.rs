//! Transform rules shared by inputs and output targets: key filter, channel
//! map, CC map, velocity reshaping and transpose.
//!
//! A channel map is an ordered list of `(channel, action)` rules and a CC map
//! an ordered list of `(channel, cc, action)` rules; in both, earlier entries
//! take precedence and the last entry is a catch-all default that matches
//! anything. Rule channels are 1-indexed, with `0` standing for "any
//! channel"; a cc of `-1` stands for "any cc".

use vstd::prelude::*;

verus! {

/// What to do with a controller message that matched a CC rule.
#[derive(Clone, Copy, PartialEq, Eq, Structural, Debug)]
pub enum CcMapping {
    PassThrough,
    /// Send unmodified but readdressed to the given channel (1-indexed).
    PassThroughToChannel(u8),
    /// Rewrite the controller number.
    MapToCc(u8),
    /// Rewrite both channel (1-indexed) and controller number.
    MapToChannelCc(u8, u8),
    Ignore,
}

impl Default for CcMapping {
    fn default() -> (r: Self)
        ensures
            r == CcMapping::PassThrough,
    {
        CcMapping::PassThrough
    }
}

/// What to do with a note message that matched a channel rule.
#[derive(Clone, Copy, PartialEq, Eq, Structural, Debug)]
pub enum ChannelMapping {
    PassThrough,
    /// Readdress to the given channel (1-indexed).
    Channel(u8),
    Ignore,
}

impl Default for ChannelMapping {
    fn default() -> (r: Self)
        ensures
            r == ChannelMapping::PassThrough,
    {
        ChannelMapping::PassThrough
    }
}

/// Ordered CC rules: `(channel, cc, action)`, channel `0` = any, else
/// 1-indexed; cc `-1` = any.
pub type CcMap = Vec<(u8, i8, CcMapping)>;

/// Ordered channel rules: `(channel, action)`, channel `0` = any, else 1-indexed.
pub type ChannelMap = Vec<(u8, ChannelMapping)>;

/// How velocities outside the configured range are treated.
#[derive(Clone, Copy, PartialEq, Eq, Structural, Debug)]
pub enum OutsideRange {
    /// Give the velocity floor value (the stage's caller lifts it to 1).
    Ignore,
    /// Treat the velocity as the nearest bound.
    Clamp,
    /// Keep the velocity and narrow the output range to the bound instead.
    Scale,
}

/// The velocity band a connection accepts, with the treatment of values
/// falling below or above it.
#[derive(Clone, Copy, PartialEq, Eq, Structural, Debug)]
pub struct VelocityRange {
    pub min: u8,
    pub max: u8,
    pub below_min: OutsideRange,
    pub above_max: OutsideRange,
}

impl Default for VelocityRange {
    fn default() -> (r: Self)
        ensures
            r == (VelocityRange {
                min: 1,
                max: 127,
                below_min: OutsideRange::Scale,
                above_max: OutsideRange::Scale,
            }),
    {
        VelocityRange { min: 1, max: 127, below_min: OutsideRange::Scale, above_max: OutsideRange::Scale }
    }
}

/// How a velocity, once rescaled onto the configured band, is reshaped.
///
/// Non-affine response curves are carried as their sampled response: one
/// output velocity per raw input velocity, computed outside this crate (the
/// curve formulas need floating point, which this crate does not touch).
#[derive(Clone, Copy, PartialEq, Eq, Debug)]
pub enum VelocityCurve {
    /// Keep the rescaled velocity.
    Linear,
    /// Always give the same velocity.
    Fixed(u8),
    /// A sampled response: entry `v` is the output for raw velocity `v`.
    Shaped([u8; 128]),
}

impl Default for VelocityCurve {
    fn default() -> (r: Self)
        ensures
            r == VelocityCurve::Linear,
    {
        VelocityCurve::Linear
    }
}

/// Transpose settings of one connection side: the per-connection amount in
/// semitones and whether the global transpose is ignored for it.
#[derive(Clone, Copy, PartialEq, Eq, Structural, Debug)]
pub struct Transpose {
    pub value: i8,
    pub ignore_global: bool,
}

impl Default for Transpose {
    fn default() -> (r: Self)
        ensures
            r == (Transpose { value: 0, ignore_global: false }),
    {
        Transpose { value: 0, ignore_global: false }
    }
}

/// The key filter bounds a fresh connection starts with (everything passes).
pub fn default_filter() -> (r: (u8, u8))
    ensures
        r == (0u8, 128u8),
{
    (0, 128)
}

/// A CC map holding only the catch-all rule.
pub fn default_cc_map() -> (r: CcMap)
    ensures
        r@ =~= seq![(0u8, -1i8, CcMapping::PassThrough)],
{
    let mut m: CcMap = Vec::new();
    m.push((0, -1, CcMapping::PassThrough));
    m
}

/// A channel map holding only the catch-all rule.
pub fn default_channel_map() -> (r: ChannelMap)
    ensures
        r@ =~= seq![(0u8, ChannelMapping::PassThrough)],
{
    let mut m: ChannelMap = Vec::new();
    m.push((0, ChannelMapping::PassThrough));
    m
}

impl CcMapping {
    /// One representative of every rule shape, for pickers.
    pub fn all() -> (r: Vec<CcMapping>)
        ensures
            r@ =~= seq![
                CcMapping::PassThrough,
                CcMapping::Ignore,
                CcMapping::MapToCc(0),
                CcMapping::PassThroughToChannel(1),
                CcMapping::MapToChannelCc(1, 0),
            ],
    {
        let mut v: Vec<CcMapping> = Vec::new();
        v.push(CcMapping::PassThrough);
        v.push(CcMapping::Ignore);
        v.push(CcMapping::MapToCc(0));
        v.push(CcMapping::PassThroughToChannel(1));
        v.push(CcMapping::MapToChannelCc(1, 0));
        v
    }

    pub fn get_description(&self) -> (r: &'static str)
        ensures
            r@ == match *self {
                CcMapping::PassThrough => "Send unmodified"@,
                CcMapping::PassThroughToChannel(_) => "Send to channel"@,
                CcMapping::MapToCc(_) => "Send CC"@,
                CcMapping::MapToChannelCc(_, _) => "Send CC"@,
                CcMapping::Ignore => "Discard"@,
            },
    {
        match self {
            CcMapping::PassThrough => "Send unmodified",
            CcMapping::PassThroughToChannel(_) => "Send to channel",
            CcMapping::MapToCc(_) => "Send CC",
            CcMapping::MapToChannelCc(_, _) => "Send CC",
            CcMapping::Ignore => "Discard",
        }
    }

    pub fn get_description_with_blanks(&self) -> (r: &'static str)
        ensures
            r@ == match *self {
                CcMapping::PassThrough => "Send unmodified"@,
                CcMapping::PassThroughToChannel(_) => "Send to channel _"@,
                CcMapping::MapToCc(_) => "Send CC _"@,
                CcMapping::MapToChannelCc(_, _) => "Send CC _ to channel _"@,
                CcMapping::Ignore => "Discard"@,
            },
    {
        match self {
            CcMapping::PassThrough => "Send unmodified",
            CcMapping::PassThroughToChannel(_) => "Send to channel _",
            CcMapping::MapToCc(_) => "Send CC _",
            CcMapping::MapToChannelCc(_, _) => "Send CC _ to channel _",
            CcMapping::Ignore => "Discard",
        }
    }
}

impl ChannelMapping {
    /// One representative of every rule shape, for pickers.
    pub fn all() -> (r: Vec<ChannelMapping>)
        ensures
            r@ =~= seq![
                ChannelMapping::PassThrough,
                ChannelMapping::Channel(1),
                ChannelMapping::Ignore,
            ],
    {
        let mut v: Vec<ChannelMapping> = Vec::new();
        v.push(ChannelMapping::PassThrough);
        v.push(ChannelMapping::Channel(1));
        v.push(ChannelMapping::Ignore);
        v
    }

    pub fn get_description(&self) -> (r: &'static str)
        ensures
            r@ == match *self {
                ChannelMapping::PassThrough => "Send unmodified"@,
                ChannelMapping::Channel(_) => "Send to channel"@,
                ChannelMapping::Ignore => "Discard"@,
            },
    {
        match self {
            ChannelMapping::PassThrough => "Send unmodified",
            ChannelMapping::Channel(_) => "Send to channel",
            ChannelMapping::Ignore => "Discard",
        }
    }

    pub fn get_description_with_blanks(&self) -> (r: &'static str)
        ensures
            r@ == match *self {
                ChannelMapping::PassThrough => "Send unmodified"@,
                ChannelMapping::Channel(_) => "Send to channel"@,
                ChannelMapping::Ignore => "Discard"@,
            },
    {
        match self {
            ChannelMapping::PassThrough => "Send unmodified",
            ChannelMapping::Channel(_) => "Send to channel",
            ChannelMapping::Ignore => "Discard",
        }
    }
}

/// The rule actions name channels 1-indexed and controllers as 7-bit values;
/// this says a single rule's action stays in those ranges.
pub open spec fn cc_rule_wf(r: (u8, i8, CcMapping)) -> bool {
    match r.2 {
        CcMapping::PassThrough => true,
        CcMapping::PassThroughToChannel(n) => 1 <= n <= 16,
        CcMapping::MapToCc(c) => c < 128,
        CcMapping::MapToChannelCc(n, c) => 1 <= n <= 16 && c < 128,
        CcMapping::Ignore => true,
    }
}

pub open spec fn channel_rule_wf(r: (u8, ChannelMapping)) -> bool {
    match r.1 {
        ChannelMapping::PassThrough => true,
        ChannelMapping::Channel(n) => 1 <= n <= 16,
        ChannelMapping::Ignore => true,
    }
}

/// The CC map invariant: every action in range, and the synthetic catch-all
/// (any channel, any cc) standing last.
pub open spec fn wf_cc_map(m: Seq<(u8, i8, CcMapping)>) -> bool {
    &&& m.len() >= 1
    &&& m.last().0 == 0
    &&& m.last().1 == -1
    &&& forall|i: int| 0 <= i < m.len() ==> cc_rule_wf(#[trigger] m[i])
}

/// The channel map invariant: every action in range, and the catch-all
/// (any channel) standing last.
pub open spec fn wf_channel_map(m: Seq<(u8, ChannelMapping)>) -> bool {
    &&& m.len() >= 1
    &&& m.last().0 == 0
    &&& forall|i: int| 0 <= i < m.len() ==> channel_rule_wf(#[trigger] m[i])
}

/// Velocity bounds are themselves velocities, so 7-bit.
pub open spec fn wf_range(r: VelocityRange) -> bool {
    r.min < 128 && r.max < 128
}

/// A curve gives 7-bit outputs; a sampled curve has one entry per raw velocity.
pub open spec fn wf_curve(c: VelocityCurve) -> bool {
    match c {
        VelocityCurve::Linear => true,
        VelocityCurve::Fixed(v) => v < 128,
        VelocityCurve::Shaped(t) => t@.len() == 128 && forall|i: int|
            0 <= i < t@.len() ==> #[trigger] t@[i] < 128,
    }
}

/// Fresh transform settings, field by field: no key filtering, the two
/// catch-all-only maps, untouched velocity, no transpose.
pub open spec fn default_settings(c: CommonSettings) -> bool {
    &&& c.key_filter_enabled == false
    &&& c.key_filter == (0u8, 128u8)
    &&& c.cc_map@ == seq![(0u8, -1i8, CcMapping::PassThrough)]
    &&& c.channel_map@ == seq![(0u8, ChannelMapping::PassThrough)]
    &&& c.velocity_curve == VelocityCurve::Linear
    &&& c.velocity_range == (VelocityRange {
        min: 1,
        max: 127,
        below_min: OutsideRange::Scale,
        above_max: OutsideRange::Scale,
    })
    &&& c.transpose == (Transpose { value: 0, ignore_global: false })
}

/// The transform settings one side of a connection carries.
#[derive(Debug)]
pub struct CommonSettings {
    pub key_filter_enabled: bool,
    /// Inclusive key bounds; notes outside are not delivered.
    pub key_filter: (u8, u8),
    pub cc_map: CcMap,
    pub channel_map: ChannelMap,
    pub velocity_curve: VelocityCurve,
    pub velocity_range: VelocityRange,
    pub transpose: Transpose,
}

impl CommonSettings {
    pub open spec fn wf(&self) -> bool {
        &&& wf_cc_map(self.cc_map@)
        &&& wf_channel_map(self.channel_map@)
        &&& wf_range(self.velocity_range)
        &&& wf_curve(self.velocity_curve)
    }

    /// Fresh settings: no filtering, catch-all maps, untouched velocity.
    pub fn new() -> (r: Self)
        ensures
            default_settings(r),
            r.wf(),
    {
        let r = CommonSettings {
            key_filter_enabled: false,
            key_filter: default_filter(),
            cc_map: default_cc_map(),
            channel_map: default_channel_map(),
            velocity_curve: VelocityCurve::Linear,
            velocity_range: VelocityRange::default(),
            transpose: Transpose::default(),
        };
        proof {
            assert(r.cc_map@ =~= seq![(0u8, -1i8, CcMapping::PassThrough)]);
            assert(r.channel_map@ =~= seq![(0u8, ChannelMapping::PassThrough)]);
        }
        r
    }
}

impl Default for CommonSettings {
    fn default() -> (r: Self)
        ensures
            default_settings(r),
            r.wf(),
    {
        CommonSettings::new()
    }
}

/// Two settings values agree field by field (rule lists by content).
pub open spec fn same_settings(a: CommonSettings, b: CommonSettings) -> bool {
    &&& a.key_filter_enabled == b.key_filter_enabled
    &&& a.key_filter == b.key_filter
    &&& a.cc_map@ == b.cc_map@
    &&& a.channel_map@ == b.channel_map@
    &&& a.velocity_curve == b.velocity_curve
    &&& a.velocity_range == b.velocity_range
    &&& a.transpose == b.transpose
}

fn copy_cc_map(m: &CcMap) -> (r: CcMap)
    ensures
        r@ == m@,
{
    let mut out: CcMap = Vec::new();
    let mut i: usize = 0;
    while i < m.len()
        invariant
            0 <= i <= m@.len(),
            out@ =~= m@.take(i as int),
        decreases m@.len() - i,
    {
        out.push(m[i]);
        i += 1;
    }
    proof {
        assert(out@ =~= m@);
    }
    out
}

fn copy_channel_map(m: &ChannelMap) -> (r: ChannelMap)
    ensures
        r@ == m@,
{
    let mut out: ChannelMap = Vec::new();
    let mut i: usize = 0;
    while i < m.len()
        invariant
            0 <= i <= m@.len(),
            out@ =~= m@.take(i as int),
        decreases m@.len() - i,
    {
        out.push(m[i]);
        i += 1;
    }
    proof {
        assert(out@ =~= m@);
    }
    out
}

impl Clone for CommonSettings {
    /// A deep copy: the clone agrees with the original on every field.
    fn clone(&self) -> (r: Self)
        ensures
            same_settings(r, *self),
    {
        CommonSettings {
            key_filter_enabled: self.key_filter_enabled,
            key_filter: self.key_filter,
            cc_map: copy_cc_map(&self.cc_map),
            channel_map: copy_channel_map(&self.channel_map),
            velocity_curve: self.velocity_curve,
            velocity_range: self.velocity_range,
            transpose: self.transpose,
        }
    }
}

/// The first channel rule naming exactly the target channel value, if any.
pub open spec fn spec_find_channel_rule(m: Seq<(u8, ChannelMapping)>, target: u8) -> Option<
    (u8, ChannelMapping),
>
    decreases m.len(),
{
    if m.len() == 0 {
        None
    } else if m[0].0 == target {
        Some(m[0])
    } else {
        spec_find_channel_rule(m.drop_first(), target)
    }
}

/// Rule resolution for a note on `channel` (0-indexed): the first rule naming
/// `channel + 1`, else the catch-all last rule, else nothing on an empty map.
pub open spec fn spec_channel_rule(m: Seq<(u8, ChannelMapping)>, channel: u8) -> Option<
    ChannelMapping,
>
    recommends
        channel < 16,
{
    match spec_find_channel_rule(m, (channel + 1) as u8) {
        Some(r) => Some(r.1),
        None => if m.len() > 0 {
            Some(m.last().1)
        } else {
            None
        },
    }
}

proof fn lemma_find_channel_rule_skip(m: Seq<(u8, ChannelMapping)>, target: u8, i: int)
    requires
        0 <= i <= m.len(),
        forall|j: int| 0 <= j < i ==> (#[trigger] m[j]).0 != target,
    ensures
        spec_find_channel_rule(m, target) == spec_find_channel_rule(m.skip(i), target),
    decreases i,
{
    if i > 0 {
        assert(m.skip(i - 1).drop_first() =~= m.skip(i));
        lemma_find_channel_rule_skip(m, target, i - 1);
    } else {
        assert(m.skip(0) =~= m);
    }
}

/// Resolve the channel rule for a note on `channel`, exactly as
/// `spec_channel_rule` describes.
pub fn resolve_channel_rule(m: &ChannelMap, channel: u8) -> (r: Option<ChannelMapping>)
    requires
        channel < 16,
    ensures
        r == spec_channel_rule(m@, channel),
{
    let target = channel + 1;
    let mut i: usize = 0;
    while i < m.len()
        invariant
            0 <= i <= m@.len(),
            target == channel + 1,
            forall|j: int| 0 <= j < i ==> (#[trigger] m@[j]).0 != target,
        decreases m@.len() - i,
    {
        if m[i].0 == target {
            proof {
                lemma_find_channel_rule_skip(m@, target, i as int);
                assert(m@.skip(i as int)[0] == m@[i as int]);
            }
            return Some(m[i].1);
        }
        i += 1;
    }
    proof {
        lemma_find_channel_rule_skip(m@, target, m@.len() as int);
        assert(m@.skip(m@.len() as int) =~= Seq::<(u8, ChannelMapping)>::empty());
    }
    if m.len() > 0 {
        Some(m[m.len() - 1].1)
    } else {
        None
    }
}

/// Whether a CC rule matches under the given precedence stage: stage 0 wants
/// an exact channel and cc match, stage 1 the any-channel rule for this cc,
/// stage 2 this channel's any-cc rule. `channel` is the live (0-indexed)
/// channel; a rule naming a channel does so 1-indexed, since rule channel 0
/// is the any-channel marker.
pub open spec fn cc_rule_matches(r: (u8, i8, CcMapping), channel: u8, controller: u8, stage: int) -> bool {
    if stage == 0 {
        r.0 == channel + 1 && (r.1 as u8) == controller
    } else if stage == 1 {
        r.0 == 0 && (r.1 as u8) == controller
    } else {
        r.0 == channel + 1 && r.1 == -1
    }
}

/// The first CC rule matching at the given precedence stage, if any.
pub open spec fn spec_find_cc_rule(
    m: Seq<(u8, i8, CcMapping)>,
    channel: u8,
    controller: u8,
    stage: int,
) -> Option<(u8, i8, CcMapping)>
    decreases m.len(),
{
    if m.len() == 0 {
        None
    } else if cc_rule_matches(m[0], channel, controller, stage) {
        Some(m[0])
    } else {
        spec_find_cc_rule(m.drop_first(), channel, controller, stage)
    }
}

/// Rule resolution for a controller message: exact channel and cc first, then
/// the any-channel rule for this cc, then this channel's any-cc rule, then
/// the catch-all last rule.
pub open spec fn spec_cc_rule(m: Seq<(u8, i8, CcMapping)>, channel: u8, controller: u8) -> Option<
    CcMapping,
>
    recommends
        channel < 16,
{
    match spec_find_cc_rule(m, channel, controller, 0) {
        Some(r) => Some(r.2),
        None => match spec_find_cc_rule(m, channel, controller, 1) {
            Some(r) => Some(r.2),
            None => match spec_find_cc_rule(m, channel, controller, 2) {
                Some(r) => Some(r.2),
                None => if m.len() > 0 {
                    Some(m.last().2)
                } else {
                    None
                },
            },
        },
    }
}

proof fn lemma_find_cc_rule_skip(
    m: Seq<(u8, i8, CcMapping)>,
    channel: u8,
    controller: u8,
    stage: int,
    i: int,
)
    requires
        0 <= i <= m.len(),
        forall|j: int| 0 <= j < i ==> !cc_rule_matches(#[trigger] m[j], channel, controller, stage),
    ensures
        spec_find_cc_rule(m, channel, controller, stage) == spec_find_cc_rule(
            m.skip(i),
            channel,
            controller,
            stage,
        ),
    decreases i,
{
    if i > 0 {
        assert(m.skip(i - 1).drop_first() =~= m.skip(i));
        lemma_find_cc_rule_skip(m, channel, controller, stage, i - 1);
    } else {
        assert(m.skip(0) =~= m);
    }
}

fn find_cc_rule(m: &CcMap, channel: u8, controller: u8, stage: u8) -> (r: Option<
    (u8, i8, CcMapping),
>)
    requires
        channel < 16,
        stage <= 2,
    ensures
        r == spec_find_cc_rule(m@, channel, controller, stage as int),
{
    let target = channel + 1;
    let mut i: usize = 0;
    while i < m.len()
        invariant
            0 <= i <= m@.len(),
            stage <= 2,
            target == channel + 1,
            forall|j: int|
                0 <= j < i ==> !cc_rule_matches(#[trigger] m@[j], channel, controller, stage as int),
        decreases m@.len() - i,
    {
        let hit = if stage == 0 {
            m[i].0 == target && (m[i].1 as u8) == controller
        } else if stage == 1 {
            m[i].0 == 0 && (m[i].1 as u8) == controller
        } else {
            m[i].0 == target && m[i].1 == -1
        };
        if hit {
            proof {
                lemma_find_cc_rule_skip(m@, channel, controller, stage as int, i as int);
                assert(m@.skip(i as int)[0] == m@[i as int]);
            }
            return Some(m[i]);
        }
        i += 1;
    }
    proof {
        lemma_find_cc_rule_skip(m@, channel, controller, stage as int, m@.len() as int);
        assert(m@.skip(m@.len() as int) =~= Seq::<(u8, i8, CcMapping)>::empty());
    }
    None
}

/// Resolve the CC rule for a controller message, exactly as `spec_cc_rule`
/// describes.
pub fn resolve_cc_rule(m: &CcMap, channel: u8, controller: u8) -> (r: Option<CcMapping>)
    requires
        channel < 16,
    ensures
        r == spec_cc_rule(m@, channel, controller),
{
    if let Some(r) = find_cc_rule(m, channel, controller, 0) {
        return Some(r.2);
    }
    if let Some(r) = find_cc_rule(m, channel, controller, 1) {
        return Some(r.2);
    }
    if let Some(r) = find_cc_rule(m, channel, controller, 2) {
        return Some(r.2);
    }
    if m.len() > 0 {
        Some(m[m.len() - 1].2)
    } else {
        None
    }
}

/// What the velocity stage gives back for raw velocity `v` (`1..=127`):
/// out-of-band treatment first (a result of 0 stands for "no opinion" and is
/// lifted to 1 by the note rewriting stage), then a linear rescale of the
/// kept velocity onto the output band, then the curve.
pub open spec fn spec_velocity(v: u8, r: VelocityRange, c: VelocityCurve) -> u8
    recommends
        1 <= v < 128,
        wf_range(r),
        wf_curve(c),
{
    if v < r.min && r.below_min == OutsideRange::Ignore {
        0
    } else {
        let v1 = if v < r.min && r.below_min == OutsideRange::Clamp {
            r.min
        } else {
            v
        };
        if v1 > r.max && r.above_max == OutsideRange::Ignore {
            0
        } else {
            let v2 = if v1 > r.max && r.above_max == OutsideRange::Clamp {
                r.max
            } else {
                v1
            };
            let floor = if r.below_min == OutsideRange::Scale {
                r.min as int
            } else {
                0
            };
            let ceil = if r.above_max == OutsideRange::Scale {
                r.max as int
            } else {
                127
            };
            let rescaled = floor * 126 + (ceil - floor) * (v2 - 1);
            match c {
                VelocityCurve::Linear => if rescaled < 0 {
                    0
                } else {
                    (rescaled / 126) as u8
                },
                VelocityCurve::Fixed(fixed) => fixed,
                VelocityCurve::Shaped(t) => t@[v2 as int],
            }
        }
    }
}

impl CommonSettings {
    /// Reshape a raw note velocity as `spec_velocity` describes. Velocity 0
    /// stands for note-off and never reaches this stage.
    pub fn get_velocity(&self, vel_in: u8) -> (r: u8)
        requires
            1 <= vel_in < 128,
            wf_range(self.velocity_range),
            wf_curve(self.velocity_curve),
        ensures
            r == spec_velocity(vel_in, self.velocity_range, self.velocity_curve),
            r < 128,
    {
        let range = self.velocity_range;
        if vel_in < range.min && range.below_min == OutsideRange::Ignore {
            return 0;
        }
        let v1: u8 = if vel_in < range.min && range.below_min == OutsideRange::Clamp {
            range.min
        } else {
            vel_in
        };
        if v1 > range.max && range.above_max == OutsideRange::Ignore {
            return 0;
        }
        let v2: u8 = if v1 > range.max && range.above_max == OutsideRange::Clamp {
            range.max
        } else {
            v1
        };
        let floor: i32 = if range.below_min == OutsideRange::Scale {
            range.min as i32
        } else {
            0
        };
        let ceil: i32 = if range.above_max == OutsideRange::Scale {
            range.max as i32
        } else {
            127
        };
        match &self.velocity_curve {
            VelocityCurve::Linear => {
                proof {
                    assert((ceil - floor) * (v2 as i32 - 1) <= 127 * 255
                        && (ceil - floor) * (v2 as i32 - 1) >= -127 * 255) by (nonlinear_arith)
                        requires
                            -127 <= ceil - floor <= 127,
                            -1 <= v2 as i32 - 1 <= 255,
                    ;
                }
                let rescaled: i32 = floor * 126 + (ceil - floor) * (v2 as i32 - 1);
                if rescaled < 0 {
                    0
                } else {
                    proof {
                        lemma_rescale_bound(floor as int, ceil as int, v2 as int);
                    }
                    (rescaled / 126) as u8
                }
            },
            VelocityCurve::Fixed(fixed) => *fixed,
            VelocityCurve::Shaped(t) => t[v2 as usize],
        }
    }
}

/// With 7-bit bounds and a kept velocity of at least 1, the linear rescale
/// stays within the 7-bit output band.
proof fn lemma_rescale_bound(floor: int, ceil: int, v2: int)
    requires
        0 <= floor < 128,
        0 <= ceil < 128,
        0 <= v2 < 128,
        ceil < floor ==> v2 >= 1,
    ensures
        floor * 126 + (ceil - floor) * (v2 - 1) <= 127 * 126,
{
    if ceil >= floor {
        assert((ceil - floor) * (v2 - 1) <= (ceil - floor) * 126) by (nonlinear_arith)
            requires
                ceil - floor >= 0,
                v2 - 1 <= 126,
        ;
        assert(floor * 126 + (ceil - floor) * 126 == ceil * 126) by (nonlinear_arith);
    } else {
        assert((ceil - floor) * (v2 - 1) <= 0) by (nonlinear_arith)
            requires
                ceil - floor < 0,
                v2 - 1 >= 0,
        ;
    }
}

/// Velocity law: with the Linear curve and the default range, reshaping is
/// the identity on the whole velocity band.
pub proof fn lemma_velocity_linear_identity(v: u8)
    requires
        1 <= v <= 127,
    ensures
        spec_velocity(
            v,
            VelocityRange {
                min: 1,
                max: 127,
                below_min: OutsideRange::Scale,
                above_max: OutsideRange::Scale,
            },
            VelocityCurve::Linear,
        ) == v,
{
    let num = 1 * 126 + (127 - 1) * (v - 1);
    assert(num == 126 * (v as int));
    assert(126 * (v as int) / 126 == v as int) by (nonlinear_arith);
}

/// Catch-all law for channel maps: on a well-formed map, rule resolution
/// never comes back empty, whatever the channel.
pub proof fn lemma_channel_resolution_total(m: Seq<(u8, ChannelMapping)>, channel: u8)
    requires
        wf_channel_map(m),
    ensures
        spec_channel_rule(m, channel) is Some,
{
}

/// Catch-all law for CC maps: on a well-formed map, rule resolution never
/// comes back empty, whatever the channel and controller; and when no earlier
/// stage matches, the rule found is the catch-all last entry, which matches
/// any channel and any controller.
pub proof fn lemma_cc_resolution_total(m: Seq<(u8, i8, CcMapping)>, channel: u8, controller: u8)
    requires
        wf_cc_map(m),
    ensures
        spec_cc_rule(m, channel, controller) is Some,
{
}

} // verus!
