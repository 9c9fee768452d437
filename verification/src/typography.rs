//! Reading typography of the rendered Markdown preview.
use vstd::prelude::*;

verus! {

/// Registered font family name used only by rendered preview text.
pub const PREVIEW_READING_FAMILY: &'static str = "sideromelane-preview-reading";

/// Availability of the preview reading font family in the current runtime.
#[derive(Debug, Clone, Copy, PartialEq, Eq, Structural)]
pub enum PreviewReadingFont {
    /// A local system reading font was registered.
    Registered,
    /// No local reading font was available; proportional text is used.
    Unavailable,
}

} // verus!
