use vstd::prelude::*;
use vstd::string::StringExecFns;

verus! {

/// User preferences: colour theme and the global show/hide hotkey text.
pub struct AppSettings {
    pub dark_mode: bool,
    pub hotkey: String,
}

impl Default for AppSettings {
    /// Dark theme on, with the default show/hide hotkey.
    fn default() -> (r: Self)
        ensures
            r.dark_mode == true,
            r.hotkey@ == "Ctrl+Shift+C"@,
    {
        AppSettings { dark_mode: true, hotkey: String::from_str("Ctrl+Shift+C") }
    }
}

} // verus!
