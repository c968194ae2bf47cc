//! The settings groups of the settings dialog and the rules for font family
//! names.

use vstd::prelude::*;

use crate::text::same_text;

verus! {

/// The family name that stands for the system's default UI font.
pub const SYSTEM_UI_FONT: &'static str = ".SystemUIFont";

/// The font family used for both the interface and the editor by default.
pub const DEFAULT_FONT_FAMILY: &'static str = "YaHei Consolas Hybrid";

/// A group of settings, shown as one entry of the dialog's navigation.
#[derive(Debug, Clone, Copy, PartialEq, Eq, Structural)]
pub enum SettingsGroup {
    Font,
}

impl SettingsGroup {
    /// Every settings group, in navigation order.
    pub const ALL: [SettingsGroup; 1] = [SettingsGroup::Font];

    /// The title of the group in the navigation.
    pub fn label(&self) -> (r: &'static str)
        ensures
            r@ == match self {
                SettingsGroup::Font => "字体"@,
            },
    {
        match self {
            SettingsGroup::Font => "字体",
        }
    }
}

/// The family that a stored family name stands for.
pub open spec fn normalized_family(family: Seq<char>) -> Seq<char> {
    if family == SYSTEM_UI_FONT@ {
        DEFAULT_FONT_FAMILY@
    } else {
        family
    }
}

/// Normalising a family twice is normalising it once: the default family
/// is not the placeholder.
pub proof fn lemma_normalize_idempotent(family: Seq<char>)
    ensures
        normalized_family(normalized_family(family)) == normalized_family(family),
{
    reveal_strlit(".SystemUIFont");
    reveal_strlit("YaHei Consolas Hybrid");
    assert(DEFAULT_FONT_FAMILY@.len() != SYSTEM_UI_FONT@.len());
}

/// The family a stored font setting means when the settings are loaded: the
/// placeholder for the system UI font (left by first runs and older
/// versions) becomes the default family; any other name stays.
pub fn normalize_font_family(family: String) -> (r: String)
    ensures
        r@ == normalized_family(family@),
{
    if same_text(family.as_str(), SYSTEM_UI_FONT) {
        String::from_str(DEFAULT_FONT_FAMILY)
    } else {
        family
    }
}

/// The caption of a font family in the settings dialog: the system UI font
/// placeholder is spelled out, any other family shows its name.
pub fn font_family_label(family: &str) -> (r: String)
    ensures
        r@ == if family@ == SYSTEM_UI_FONT@ {
            "系统默认 (.SystemUIFont)"@
        } else {
            family@
        },
{
    if same_text(family, SYSTEM_UI_FONT) {
        String::from_str("系统默认 (.SystemUIFont)")
    } else {
        family.to_owned()
    }
}

} // verus!
