//! Per-target configuration inside a mapping: the destination port, pedal
//! replay behaviour, and the target-side transform settings.

use vstd::prelude::*;

use crate::common_settings::CcMap;
use crate::common_settings::ChannelMap;
use crate::common_settings::CommonSettings;
use crate::common_settings::VelocityCurve;
use crate::common_settings::VelocityRange;
use crate::common_settings::default_settings;
use crate::common_settings::same_settings;

verus! {

/// One output target of an input within a preset. Its identity within a
/// mapping list is its `port_name` alone.
#[derive(Debug)]
pub struct OutputSettings {
    /// Display name of the destination port.
    pub port_name: String,
    /// Whether held-pedal state is replayed to this target after a preset
    /// switch, and whether pedal off-events are buffered for it.
    pub buffer_pedals: bool,
    /// The target-side transform settings, applied after the input's own.
    pub common: CommonSettings,
}

/// Two output settings values agree field by field.
pub open spec fn same_output_settings(a: OutputSettings, b: OutputSettings) -> bool {
    &&& a.port_name@ == b.port_name@
    &&& a.buffer_pedals == b.buffer_pedals
    &&& same_settings(a.common, b.common)
}

impl OutputSettings {
    pub open spec fn wf(&self) -> bool {
        self.common.wf()
    }

    /// A fresh target for the named port: pedal replay on, transforms at
    /// their defaults.
    pub fn new(port_name: String) -> (r: Self)
        ensures
            r.port_name == port_name,
            r.buffer_pedals == true,
            default_settings(r.common),
            r.wf(),
    {
        OutputSettings { port_name, buffer_pedals: true, common: CommonSettings::new() }
    }

    pub fn key_filter_enabled(&self) -> (r: bool)
        ensures
            r == self.common.key_filter_enabled,
    {
        self.common.key_filter_enabled
    }

    pub fn key_filter(&self) -> (r: (u8, u8))
        ensures
            r == self.common.key_filter,
    {
        self.common.key_filter
    }

    pub fn cc_map(&self) -> (r: &CcMap)
        ensures
            r == &self.common.cc_map,
    {
        &self.common.cc_map
    }

    pub fn channel_map(&self) -> (r: &ChannelMap)
        ensures
            r == &self.common.channel_map,
    {
        &self.common.channel_map
    }

    pub fn velocity_curve(&self) -> (r: &VelocityCurve)
        ensures
            r == &self.common.velocity_curve,
    {
        &self.common.velocity_curve
    }

    pub fn velocity_range(&self) -> (r: &VelocityRange)
        ensures
            r == &self.common.velocity_range,
    {
        &self.common.velocity_range
    }
}

impl Clone for OutputSettings {
    /// A deep copy agreeing with the original on every field.
    fn clone(&self) -> (r: Self)
        ensures
            same_output_settings(r, *self),
    {
        OutputSettings {
            port_name: self.port_name.clone(),
            buffer_pedals: self.buffer_pedals,
            common: self.common.clone(),
        }
    }
}

impl Default for OutputSettings {
    /// A target with no port chosen yet.
    fn default() -> (r: Self)
        ensures
            r.port_name@ == Seq::<char>::empty(),
            r.buffer_pedals == true,
            default_settings(r.common),
            r.wf(),
    {
        OutputSettings::new(String::new())
    }
}

} // verus!
