use vstd::prelude::*;

verus! {

/// The state the desktop viewer keeps between runs: the capture device chosen.
pub struct ToolkitApp {
    pub device_name: Option<String>,
}

impl Default for ToolkitApp {
    fn default() -> (app: Self)
        ensures
            app.device_name is None,
    {
        ToolkitApp { device_name: None }
    }
}

} // verus!
