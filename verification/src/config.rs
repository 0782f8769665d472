//! Rendering options consumed by the emitter.
use vstd::prelude::*;

verus! {

/// Settings handed to the emitter.
#[derive(Debug, Clone)]
pub struct Config {
    pub style: StyleConfig,
}

impl Default for Config {
    fn default() -> (r: Self)
        ensures
            r.style.is_default(),
    {
        Config { style: StyleConfig::default() }
    }
}

/// The `skinparam` values written at the top of every diagram.
#[derive(Debug, Clone)]
pub struct StyleConfig {
    pub shadowing: bool,
    pub round_corner: u32,
    pub default_font_name: String,
    pub default_font_size: u32,
    /// Arrow thickness, kept as the decimal text written into the diagram
    /// (for instance `1.4`).
    pub sequence_arrow_thickness: String,
    pub sequence_message_align: String,
    pub response_message_below_arrow: bool,
    pub participant_padding: u32,
    pub box_padding: u32,
}

impl StyleConfig {
    /// The stock look: no shadows, rounded corners, Helvetica 12, centred messages.
    pub open spec fn is_default(&self) -> bool {
        &&& !self.shadowing
        &&& self.round_corner == 8
        &&& self.default_font_name@ == "Helvetica"@
        &&& self.default_font_size == 12
        &&& self.sequence_arrow_thickness@ == "1.4"@
        &&& self.sequence_message_align@ == "center"@
        &&& self.response_message_below_arrow
        &&& self.participant_padding == 24
        &&& self.box_padding == 12
    }
}

impl Default for StyleConfig {
    fn default() -> (r: Self)
        ensures
            r.is_default(),
    {
        StyleConfig {
            shadowing: false,
            round_corner: 8,
            default_font_name: "Helvetica".to_owned(),
            default_font_size: 12,
            sequence_arrow_thickness: "1.4".to_owned(),
            sequence_message_align: "center".to_owned(),
            response_message_below_arrow: true,
            participant_padding: 24,
            box_padding: 12,
        }
    }
}

} // verus!
