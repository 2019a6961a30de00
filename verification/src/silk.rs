//! Which assembly graphics a footprint gets: a courtyard when it has none, and, when it
//! has no silk yet, a polarity mark on electrolytic capacitors and a pin-1 dot on ICs
//! and transistors.
use vstd::prelude::*;
use crate::text::{chars_of, contains, seq_contains, spec_to_uppercase, upper_chars};

verus! {

/// What the silk synthesis reads of a footprint. `pad_net_names[i]` is the net name of
/// pad `i` (its own name, else the board's name of its net, else empty).
pub struct SilkFootprint {
    pub lib_id: String,
    pub value: String,
    pub has_silk: bool,
    pub has_courtyard: bool,
    pub pad_net_names: Vec<String>,
}

/// The graphics to add to one footprint.
#[derive(Debug, Clone, Copy, PartialEq, Eq, Structural)]
pub struct SilkPlan {
    /// Add a courtyard rectangle around the pads.
    pub courtyard: bool,
    /// Add a polarity stripe over this pad (the negative one) and a `+` by the other.
    pub polarity_pad: Option<usize>,
    /// Add a pin-1 dot.
    pub pin1_dot: bool,
}

/// A two-pad passive part by library id.
pub open spec fn passive2_lib(lib: Seq<char>) -> bool {
    ||| seq_contains(lib, "Resistor_SMD"@)
    ||| seq_contains(lib, "Capacitor_SMD"@)
    ||| seq_contains(lib, "Inductor_SMD"@)
    ||| seq_contains(lib, "Diode_SMD"@)
    ||| seq_contains(lib, "Fuse:"@)
    ||| seq_contains(lib, "LED_SMD"@)
}

/// A connector by library id.
pub open spec fn connector_lib(lib: Seq<char>) -> bool {
    seq_contains(lib, "Connector_"@) || seq_contains(lib, "Conn_"@)
}

/// An electrolytic capacitor: its library id says so and its value is in microfarads.
pub open spec fn polarized_cap(lib: Seq<char>, value: Seq<char>) -> bool {
    &&& (seq_contains(lib, "CP_Elec"@) || seq_contains(lib, ":CP_"@))
    &&& (seq_contains(value, "µF"@) || seq_contains(value, "μF"@) || seq_contains(value, "uF"@))
}

/// The last pad whose net name, in upper case, contains GND.
pub open spec fn negative_pad(names: Seq<String>) -> Option<usize>
    decreases names.len(),
{
    if names.len() == 0 {
        None
    } else if seq_contains(spec_to_uppercase(names.last()@), "GND"@) {
        Some((names.len() - 1) as usize)
    } else {
        negative_pad(names.drop_last())
    }
}

/// The plan for a footprint; `None` when it is left alone (no pads, or it already has
/// both silk and a courtyard).
pub open spec fn silk_plan_spec(fp: SilkFootprint) -> Option<SilkPlan> {
    let n = fp.pad_net_names@.len();
    let lib = fp.lib_id@;
    if n == 0 || (fp.has_silk && fp.has_courtyard) {
        None
    } else {
        let add_silk = !fp.has_silk;
        let cap = polarized_cap(lib, fp.value@);
        Some(SilkPlan {
            courtyard: !fp.has_courtyard,
            polarity_pad: if add_silk && cap && n == 2 { negative_pad(fp.pad_net_names@) } else { None },
            pin1_dot: add_silk && n >= 3 && !(n == 2 && passive2_lib(lib)) && !connector_lib(lib) && !cap,
        })
    }
}

/// The last pad whose net name contains GND (compared in upper case).
fn find_negative_pad(names: &[String]) -> (r: Option<usize>)
    ensures
        r == negative_pad(names@),
{
    let mut i: usize = names.len();
    proof {
        assert(names@.take(names@.len() as int) =~= names@);
    }
    while i > 0
        invariant
            i <= names@.len(),
            negative_pad(names@) == negative_pad(names@.take(i as int)),
        decreases i,
    {
        let u = upper_chars(names[i - 1].as_str());
        proof {
            assert(names@.take(i as int).drop_last() =~= names@.take(i as int - 1));
            assert(names@.take(i as int).last() == names@[i as int - 1]);
        }
        if contains(u.as_slice(), "GND") {
            return Some(i - 1);
        }
        i = i - 1;
    }
    proof {
        assert(names@.take(0).len() == 0);
    }
    None
}

/// The graphics to synthesise for one footprint.
pub fn silk_plan(fp: &SilkFootprint) -> (r: Option<SilkPlan>)
    ensures
        r == silk_plan_spec(*fp),
{
    let n = fp.pad_net_names.len();
    if n == 0 || (fp.has_silk && fp.has_courtyard) {
        return None;
    }
    let add_silk = !fp.has_silk;
    let lib = chars_of(fp.lib_id.as_str());
    let value = chars_of(fp.value.as_str());
    let l = lib.as_slice();
    let v = value.as_slice();
    let is_passive2 = n == 2 && (contains(l, "Resistor_SMD") || contains(l, "Capacitor_SMD")
        || contains(l, "Inductor_SMD") || contains(l, "Diode_SMD") || contains(l, "Fuse:")
        || contains(l, "LED_SMD"));
    let is_connector = contains(l, "Connector_") || contains(l, "Conn_");
    let is_polarized_cap = (contains(l, "CP_Elec") || contains(l, ":CP_")) && (contains(v, "µF")
        || contains(v, "μF") || contains(v, "uF"));
    let polarity_pad = if add_silk && is_polarized_cap && n == 2 {
        find_negative_pad(fp.pad_net_names.as_slice())
    } else {
        None
    };
    let pin1_dot = add_silk && n >= 3 && !is_passive2 && !is_connector && !is_polarized_cap;
    Some(SilkPlan { courtyard: !fp.has_courtyard, polarity_pad, pin1_dot })
}

} // verus!
