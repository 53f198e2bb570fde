use vstd::prelude::*;

verus! {

/// User configuration of the window manager.
pub struct Config {
    pub workspaces_config: Vec<WorkspaceConfig>,
}

/// Configuration of one workspace.
pub struct WorkspaceConfig {
    pub name: String,
    pub rules: (),
}

} // verus!
