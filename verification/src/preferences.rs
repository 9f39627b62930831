//! App-wide settings that belong to no single project, as kept in
//! `preferences.json`. Today that is the dock-toggle hotkey.

use vstd::prelude::*;

use crate::project::opt_view;
use crate::text::{is_blank, trim, trim_seq};

verus! {

/// The dock-toggle combo used when the user has chosen none.
pub const DEFAULT_DOCK_TOGGLE_COMBO: &'static str = "Ctrl+Alt+Space";

/// The characters of the default dock-toggle combo.
pub open spec fn default_dock_combo() -> Seq<char> {
    DEFAULT_DOCK_TOGGLE_COMBO@
}

/// The preferences file.
#[derive(Debug, Clone)]
pub struct PreferencesFile {
    pub version: u32,
    /// The user's dock-toggle combo; `None` means the default.
    pub dock_toggle_hotkey: Option<String>,
}

impl Default for PreferencesFile {
    /// Format version 1 with no custom combo.
    fn default() -> (r: Self)
        ensures
            r.version == 1,
            r.dock_toggle_hotkey is None,
    {
        PreferencesFile { version: 1, dock_toggle_hotkey: None }
    }
}

/// The combo that toggles the dock under the stored setting `stored`.
pub open spec fn effective_dock_combo(stored: Option<Seq<char>>) -> Seq<char> {
    match stored {
        Some(c) => c,
        None => default_dock_combo(),
    }
}

/// What is stored for a requested combo: its trimmed text, or nothing when
/// no combo was given or it is blank.
pub open spec fn stored_combo(requested: Option<Seq<char>>) -> Option<Seq<char>> {
    match requested {
        Some(c) => if trim_seq(c).len() == 0 {
            None
        } else {
            Some(trim_seq(c))
        },
        None => None,
    }
}

impl PreferencesFile {
    /// The combo that toggles the dock: the user's choice, else the default.
    pub fn dock_toggle_combo(&self) -> (c: String)
        ensures
            c@ == effective_dock_combo(opt_view(self.dock_toggle_hotkey)),
    {
        match &self.dock_toggle_hotkey {
            Some(c) => c.clone(),
            None => String::from_str(DEFAULT_DOCK_TOGGLE_COMBO),
        }
    }

    /// Store the dock-toggle combo, trimmed; `None` or a blank combo
    /// restores the default.
    pub fn set_dock_toggle_hotkey(&mut self, combo: Option<String>)
        ensures
            opt_view(final(self).dock_toggle_hotkey) == stored_combo(opt_view(combo)),
            final(self).version == old(self).version,
    {
        self.dock_toggle_hotkey = match combo {
            Some(c) => {
                if is_blank(c.as_str()) {
                    None
                } else {
                    Some(trim(c.as_str()))
                }
            },
            None => None,
        };
    }
}

/// What the settings screen shows of the preferences.
#[derive(Debug, Clone)]
pub struct PreferencesView {
    /// The effective dock-toggle combo.
    pub dock_toggle_hotkey: String,
    /// Whether the combo is the user's own rather than the default.
    pub dock_toggle_is_custom: bool,
}

impl PreferencesView {
    /// The view of `p`.
    pub fn from_file(p: PreferencesFile) -> (v: Self)
        ensures
            v.dock_toggle_hotkey@ == effective_dock_combo(opt_view(p.dock_toggle_hotkey)),
            v.dock_toggle_is_custom == (p.dock_toggle_hotkey is Some),
    {
        let dock_toggle_is_custom = p.dock_toggle_hotkey.is_some();
        let dock_toggle_hotkey = match p.dock_toggle_hotkey {
            Some(c) => c,
            None => String::from_str(DEFAULT_DOCK_TOGGLE_COMBO),
        };
        PreferencesView { dock_toggle_hotkey, dock_toggle_is_custom }
    }
}

/// Read after write: once a combo has been set, the dock toggles on its
/// trimmed text if it was not blank, and on the default otherwise.
pub proof fn lemma_dock_combo_after_set(requested: Option<Seq<char>>)
    ensures
        effective_dock_combo(stored_combo(requested)) == match requested {
            Some(c) => if trim_seq(c).len() == 0 {
                default_dock_combo()
            } else {
                trim_seq(c)
            },
            None => default_dock_combo(),
        },
{
}

} // verus!
