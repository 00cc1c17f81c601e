//! The colour theme and how the settings menu switches it.
use vstd::prelude::*;

verus! {

/// The colour theme of the reader.
#[derive(PartialEq, Eq, Structural, Clone, Copy, Debug)]
pub enum Theme {
    Dark,
    Light,
}

impl Theme {
    /// The other theme.
    pub fn toggled(self) -> (r: Theme)
        ensures
            r != self,
    {
        match self {
            Theme::Dark => Theme::Light,
            Theme::Light => Theme::Dark,
        }
    }

    /// The label of the menu entry that switches away from this theme.
    pub fn toggle_label(self) -> (r: &'static str)
        ensures
            self == Theme::Dark ==> r@ == "浅色主题"@,
            self == Theme::Light ==> r@ == "暗色主题"@,
    {
        match self {
            Theme::Dark => "浅色主题",
            Theme::Light => "暗色主题",
        }
    }
}

} // verus!
