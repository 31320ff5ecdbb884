//! Per-input-slot configuration: the source port, program-change handling,
//! and the input-side transform settings.

use vstd::prelude::*;

use crate::common_settings::CcMap;
use crate::common_settings::ChannelMap;
use crate::common_settings::CommonSettings;
use crate::common_settings::Transpose;
use crate::common_settings::VelocityCurve;
use crate::common_settings::VelocityRange;
use crate::common_settings::default_settings;
use crate::common_settings::same_settings;

verus! {

/// Settings of one logical input slot. The slot's position in the input list
/// is its identity; mappings refer to it by that index.
#[derive(Debug)]
pub struct InputSettings {
    /// Display name of the source port; empty means unassigned.
    pub port_name: String,
    /// When set, a program change on this input switches the active preset
    /// instead of being routed.
    pub use_program_change: bool,
    /// The input-side transform settings, applied before any target's own.
    pub common: CommonSettings,
}

/// Two input settings values agree field by field.
pub open spec fn same_input_settings(a: InputSettings, b: InputSettings) -> bool {
    &&& a.port_name@ == b.port_name@
    &&& a.use_program_change == b.use_program_change
    &&& same_settings(a.common, b.common)
}

impl InputSettings {
    pub open spec fn wf(&self) -> bool {
        self.common.wf()
    }

    /// A fresh slot for the named port: program change off, transforms at
    /// their defaults.
    pub fn new(port_name: String) -> (r: Self)
        ensures
            r.port_name == port_name,
            r.use_program_change == false,
            default_settings(r.common),
            r.wf(),
    {
        InputSettings { port_name, use_program_change: false, common: CommonSettings::new() }
    }

    pub fn key_filter_enabled(&self) -> (r: bool)
        ensures
            r == self.common.key_filter_enabled,
    {
        self.common.key_filter_enabled
    }

    pub fn key_filter(&self) -> (r: (u8, u8))
        ensures
            r == self.common.key_filter,
    {
        self.common.key_filter
    }

    pub fn cc_map(&self) -> (r: &CcMap)
        ensures
            r == &self.common.cc_map,
    {
        &self.common.cc_map
    }

    pub fn channel_map(&self) -> (r: &ChannelMap)
        ensures
            r == &self.common.channel_map,
    {
        &self.common.channel_map
    }

    pub fn velocity_curve(&self) -> (r: &VelocityCurve)
        ensures
            r == &self.common.velocity_curve,
    {
        &self.common.velocity_curve
    }

    pub fn velocity_range(&self) -> (r: &VelocityRange)
        ensures
            r == &self.common.velocity_range,
    {
        &self.common.velocity_range
    }

    pub fn transpose(&self) -> (r: &Transpose)
        ensures
            r == &self.common.transpose,
    {
        &self.common.transpose
    }
}

impl Clone for InputSettings {
    /// A deep copy agreeing with the original on every field.
    fn clone(&self) -> (r: Self)
        ensures
            same_input_settings(r, *self),
    {
        InputSettings {
            port_name: self.port_name.clone(),
            use_program_change: self.use_program_change,
            common: self.common.clone(),
        }
    }
}

impl Default for InputSettings {
    /// An unassigned slot.
    fn default() -> (r: Self)
        ensures
            r.port_name@ == Seq::<char>::empty(),
            r.use_program_change == false,
            default_settings(r.common),
            r.wf(),
    {
        InputSettings::new(String::new())
    }
}

} // verus!
