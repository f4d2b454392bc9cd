//! What the user can set.

use crate::{DEFAULT_DISPLAY_COUNT, DEFAULT_INTERVAL_SECS, MAX_INTERVAL_SECS, MIN_INTERVAL_SECS};
use vstd::prelude::*;

verus! {

pub struct SettingsState {
    /// The folder whose pictures are shown, if one has been chosen.
    pub folder: Option<String>,
    /// Seconds between two pictures.
    pub interval_secs: u64,
    /// Pictures side by side, 1 or 2.
    pub display_count: usize,
    /// The settings panel is open.
    pub show_panel: bool,
}

/// What a [`SettingsState`] holds.
pub struct Settings {
    pub folder: Option<Seq<char>>,
    pub interval_secs: u64,
    pub display_count: usize,
    pub show_panel: bool,
}

/// The text of a path, if there is one.
pub open spec fn name_of(path: Option<String>) -> Option<Seq<char>> {
    match path {
        Some(path) => Some(path@),
        None => None,
    }
}

impl View for SettingsState {
    type V = Settings;

    open spec fn view(&self) -> Settings {
        Settings {
            folder: name_of(self.folder),
            interval_secs: self.interval_secs,
            display_count: self.display_count,
            show_panel: self.show_panel,
        }
    }
}

impl Settings {
    /// The values are ones that the panel offers.
    pub open spec fn wf(self) -> bool {
        &&& MIN_INTERVAL_SECS <= self.interval_secs <= MAX_INTERVAL_SECS
        &&& 1 <= self.display_count <= 2
    }
}

/// The nearest interval that is allowed.
pub open spec fn clamped_interval(secs: u64) -> u64 {
    if secs < MIN_INTERVAL_SECS {
        MIN_INTERVAL_SECS
    } else if secs > MAX_INTERVAL_SECS {
        MAX_INTERVAL_SECS
    } else {
        secs
    }
}

/// The nearest number of pictures that is allowed.
pub open spec fn clamped_count(count: usize) -> usize {
    if count <= 1 {
        1
    } else {
        2
    }
}

pub fn clamp_interval(secs: u64) -> (clamped: u64)
    ensures
        clamped == clamped_interval(secs),
{
    if secs < MIN_INTERVAL_SECS {
        MIN_INTERVAL_SECS
    } else if secs > MAX_INTERVAL_SECS {
        MAX_INTERVAL_SECS
    } else {
        secs
    }
}

pub fn clamp_count(count: usize) -> (clamped: usize)
    ensures
        clamped == clamped_count(count),
{
    if count <= 1 {
        1
    } else {
        2
    }
}

impl SettingsState {
    /// Settings with values brought into range and the panel closed.
    pub fn new(folder: Option<String>, interval_secs: u64, display_count: usize) -> (settings: Self)
        ensures
            settings@ == (Settings {
                folder: name_of(folder),
                interval_secs: clamped_interval(interval_secs),
                display_count: clamped_count(display_count),
                show_panel: false,
            }),
            settings@.wf(),
    {
        Self {
            folder,
            interval_secs: clamp_interval(interval_secs),
            display_count: clamp_count(display_count),
            show_panel: false,
        }
    }

    pub fn defaults(folder: Option<String>) -> (settings: Self)
        ensures
            settings@ == (Settings {
                folder: name_of(folder),
                interval_secs: DEFAULT_INTERVAL_SECS,
                display_count: DEFAULT_DISPLAY_COUNT,
                show_panel: false,
            }),
            settings@.wf(),
    {
        Self::new(folder, DEFAULT_INTERVAL_SECS, DEFAULT_DISPLAY_COUNT)
    }
}

/// What the user did in the settings panel.
pub struct PanelInput {
    /// The folder that was picked.
    pub folder: Option<String>,
    /// Where the interval was moved to.
    pub interval_secs: Option<u64>,
    /// The number of pictures that was picked.
    pub display_count: Option<usize>,
    /// The panel was left open.
    pub open: bool,
}

/// The settings after a visit to the panel.
pub open spec fn panel_applied(settings: Settings, input: PanelInput) -> Settings {
    Settings {
        folder: settings.folder,
        interval_secs: match input.interval_secs {
            Some(secs) => clamped_interval(secs),
            None => settings.interval_secs,
        },
        display_count: match input.display_count {
            Some(count) => clamped_count(count),
            None => settings.display_count,
        },
        show_panel: input.open,
    }
}

/// What a visit to the settings panel leads to.
pub struct SettingsPanelResult {
    /// A folder was picked.
    pub folder_chosen: Option<String>,
    /// The interval or the number of pictures was changed.
    pub changed: bool,
}

/// Takes over what the user did in the settings panel. The folder is not
/// changed here, since that takes a reset.
pub fn apply_panel(settings: &mut SettingsState, input: PanelInput) -> (result: SettingsPanelResult)
    ensures
        final(settings)@ == panel_applied(old(settings)@, input),
        final(settings).folder == old(settings).folder,
        name_of(result.folder_chosen) == name_of(input.folder),
        result.changed == (input.interval_secs is Some || input.display_count is Some),
        old(settings)@.wf() ==> final(settings)@.wf(),
{
    let mut changed = false;
    if let Some(secs) = input.interval_secs {
        settings.interval_secs = clamp_interval(secs);
        changed = true;
    }
    if let Some(count) = input.display_count {
        settings.display_count = clamp_count(count);
        changed = true;
    }
    settings.show_panel = input.open;
    SettingsPanelResult { folder_chosen: input.folder, changed }
}

} // verus!
