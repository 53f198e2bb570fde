use crate::bsplayout::{BSPLayout, TreeModel};
use crate::config::WorkspaceConfig;
use crate::utils::{Rectangle, Reserved, ScreenInfo};
use std::collections::HashMap;
use vstd::prelude::*;

verus! {

/// Identifier of a window on the display server.
pub type WindowId = u32;

/// How a managed window is shown.
#[derive(Clone, Copy, Debug, PartialEq, Eq, Structural)]
pub enum Status {
    /// Tiled with the postion into the tree
    Tiled(usize),
    /// Is floating
    Floating,
    /// The windows is unmapped on screen
    Minimized,
    /// Take whole screen, don't hide docks (Not fullscreen)
    Maximized,
    /// App take all screen hide docks, and set fullscreen mode on app
    FullScreen,
    /// Special
    Dock,
}

/// A dock window and the space it reserves on its screen.
#[derive(Clone, Copy, Debug, PartialEq, Eq, Structural)]
pub struct Dock {
    pub window_id: WindowId,
    pub reserved: Reserved,
}

pub open spec fn max_u32(a: u32, b: u32) -> u32 {
    if a >= b {
        a
    } else {
        b
    }
}

/// The largest reservation on each border over all the docks; zero where
/// there are none.
pub open spec fn reserved_max(docks: Seq<Dock>) -> Reserved
    decreases docks.len(),
{
    if docks.len() == 0 {
        Reserved { left: 0, right: 0, bottom: 0, top: 0 }
    } else {
        let m = reserved_max(docks.drop_last());
        let r = docks.last().reserved;
        Reserved {
            left: max_u32(m.left, r.left),
            right: max_u32(m.right, r.right),
            bottom: max_u32(m.bottom, r.bottom),
            top: max_u32(m.top, r.top),
        }
    }
}

/// A physical screen, the workspace it shows and the docks on it.
#[derive(Default)]
pub struct Screen {
    workspace: usize,
    info: ScreenInfo,
    docks: Vec<Dock>,
}

impl Screen {
    pub closed spec fn spec_workspace(&self) -> usize {
        self.workspace
    }

    pub closed spec fn spec_info(&self) -> ScreenInfo {
        self.info
    }

    pub closed spec fn spec_docks(&self) -> Seq<Dock> {
        self.docks@
    }

    pub fn new(workspace: usize, info: ScreenInfo) -> (r: Self)
        ensures
            r.spec_workspace() == workspace,
            r.spec_info() == info,
            r.spec_docks() == Seq::<Dock>::empty(),
    {
        let r = Self { workspace, info, docks: Vec::new() };
        r
    }

    /// Index of the workspace shown on this screen.
    pub fn workspace(&self) -> (r: usize)
        ensures
            r == self.spec_workspace(),
    {
        self.workspace
    }

    /// The docks on this screen, in the order they were added.
    pub fn docks(&self) -> (r: &Vec<Dock>)
        ensures
            r@ == self.spec_docks(),
    {
        &self.docks
    }

    pub fn add_dock(&mut self, window_id: WindowId, reserved: Reserved)
        ensures
            final(self).spec_docks() == old(self).spec_docks().push(Dock { window_id, reserved }),
            final(self).spec_workspace() == old(self).spec_workspace(),
            final(self).spec_info() == old(self).spec_info(),
    {
        self.docks.push(Dock { window_id, reserved });
    }

    /// Drops every dock of the window, keeping the others in order.
    pub fn remove_dock(&mut self, window_id: &WindowId)
        ensures
            final(self).spec_docks() == old(self).spec_docks().filter(
                |d: Dock| d.window_id != *window_id,
            ),
            final(self).spec_workspace() == old(self).spec_workspace(),
            final(self).spec_info() == old(self).spec_info(),
    {
        let mut kept: Vec<Dock> = Vec::new();
        let mut i: usize = 0;
        while i < self.docks.len()
            invariant
                i <= self.docks@.len(),
                kept@ == self.docks@.take(i as int).filter(|d: Dock| d.window_id != *window_id),
            decreases self.docks@.len() - i,
        {
            let d = self.docks[i];
            proof {
                reveal(Seq::filter);
                assert(self.docks@.take(i + 1).drop_last() =~= self.docks@.take(i as int));
                assert(self.docks@.take(i + 1).last() == d);
            }
            if d.window_id != *window_id {
                kept.push(d);
            }
            i = i + 1;
        }
        proof {
            assert(self.docks@.take(i as int) =~= self.docks@);
        }
        self.docks = kept;
    }

    /// Figure out the usable area of the screen based on the STRUT_PARTIAL of
    /// all docks: the screen less the largest reservation on each border.
    pub fn viewport(&self, screen_width: u32, screen_height: u32) -> (r: Rectangle)
        requires
            reserved_max(self.spec_docks()).left + reserved_max(self.spec_docks()).right
                <= screen_width,
            reserved_max(self.spec_docks()).top + reserved_max(self.spec_docks()).bottom
                <= screen_height,
        ensures
            ({
                let m = reserved_max(self.spec_docks());
                r == Rectangle {
                    x: m.left,
                    y: m.top,
                    width: (screen_width - m.left - m.right) as u32,
                    height: (screen_height - m.top - m.bottom) as u32,
                }
            }),
    {
        let mut left: u32 = 0;
        let mut right: u32 = 0;
        let mut top: u32 = 0;
        let mut bottom: u32 = 0;
        let mut i: usize = 0;
        while i < self.docks.len()
            invariant
                i <= self.docks@.len(),
                reserved_max(self.docks@.take(i as int)) == (Reserved { left, right, bottom, top }),
            decreases self.docks@.len() - i,
        {
            let s = self.docks[i].reserved;
            proof {
                assert(self.docks@.take(i + 1).drop_last() =~= self.docks@.take(i as int));
            }
            left = if left >= s.left { left } else { s.left };
            right = if right >= s.right { right } else { s.right };
            top = if top >= s.top { top } else { s.top };
            bottom = if bottom >= s.bottom { bottom } else { s.bottom };
            i = i + 1;
        }
        proof {
            assert(self.docks@.take(i as int) =~= self.docks@);
        }
        Rectangle { x: left, y: top, width: screen_width - left - right, height: screen_height - top - bottom }
    }
}

/// Screens, the workspaces they show, and what is known of each window.
pub struct WindowSet {
    /// Focused screen, between visible screens
    current_screen: usize,
    /// Avialable screens
    visible: Vec<Screen>,
    /// All Workspaces
    workspaces: Vec<Workspace>,
    /// Windows internal status
    windows_status: HashMap<WindowId, Status>,
}

impl WindowSet {
    pub closed spec fn spec_current_screen(&self) -> int {
        self.current_screen as int
    }

    pub closed spec fn spec_visible(&self) -> Seq<Screen> {
        self.visible@
    }

    pub closed spec fn spec_workspaces(&self) -> Seq<Workspace> {
        self.workspaces@
    }

    pub closed spec fn spec_statuses(&self) -> Map<WindowId, Status> {
        self.windows_status@
    }

    /// One workspace per configuration, in order, and one screen per screen
    /// description as long as workspaces from the second one on are left for
    /// them: screen `i` shows workspace `i + 1`.
    pub fn new(workspaces_config: Vec<WorkspaceConfig>, screens: Vec<ScreenInfo>) -> (r: Self)
        ensures
            r.spec_workspaces().len() == workspaces_config@.len(),
            forall|i: int|
                0 <= i < workspaces_config@.len() ==> (#[trigger] r.spec_workspaces()[i]).spec_name()
                    == workspaces_config@[i].name@ && r.spec_workspaces()[i].spec_is_fresh(),
            r.spec_visible().len() == if workspaces_config@.len() <= screens@.len() + 1 {
                if workspaces_config@.len() == 0 { 0 } else { workspaces_config@.len() - 1 }
            } else {
                screens@.len() as int
            },
            forall|i: int|
                0 <= i < r.spec_visible().len() ==> {
                    &&& (#[trigger] r.spec_visible()[i]).spec_workspace() == i + 1
                    &&& r.spec_visible()[i].spec_info() == screens@[i]
                    &&& r.spec_visible()[i].spec_docks() == Seq::<Dock>::empty()
                },
            r.spec_current_screen() == 0,
            r.spec_statuses() == Map::<WindowId, Status>::empty(),
    {
        let mut configs = workspaces_config;
        let ghost all = configs@;
        let mut workspaces: Vec<Workspace> = Vec::new();
        while configs.len() > 0
            invariant
                workspaces@.len() + configs@.len() == all.len(),
                configs@ == all.subrange(workspaces@.len() as int, all.len() as int),
                forall|i: int|
                    0 <= i < workspaces@.len() ==> (#[trigger] workspaces@[i]).spec_name() == all[i].name@
                        && workspaces@[i].spec_is_fresh(),
            decreases configs@.len(),
        {
            let c = configs.remove(0);
            workspaces.push(Workspace::new(c));
            proof {
                assert(configs@ =~= all.subrange(workspaces@.len() as int, all.len() as int));
            }
        }
        let mut visible: Vec<Screen> = Vec::new();
        let mut i: usize = 0;
        while i < screens.len() && i + 1 < workspaces.len()
            invariant
                i <= screens@.len(),
                i < workspaces@.len() || i == 0,
                visible@.len() == i,
                forall|j: int|
                    0 <= j < i ==> {
                        &&& (#[trigger] visible@[j]).spec_workspace() == j + 1
                        &&& visible@[j].spec_info() == screens@[j]
                        &&& visible@[j].spec_docks() == Seq::<Dock>::empty()
                    },
            decreases screens@.len() - i,
        {
            visible.push(Screen::new(i + 1, screens[i]));
            i = i + 1;
        }
        Self { current_screen: 0, visible, workspaces, windows_status: HashMap::new() }
    }

    /// Forgets nothing yet: the statuses of managed windows stay as they are.
    pub fn remove_window(&mut self, window_id: &WindowId)
        ensures
            *final(self) == *old(self),
    {
    }

    /// Returns whether the window is a member of any group.
    pub fn contains(&self, window_id: &WindowId) -> (r: bool)
        ensures
            r == self.spec_statuses().contains_key(*window_id),
    {
        broadcast use vstd::std_specs::hash::group_hash_axioms;

        self.windows_status.contains_key(window_id)
    }

    /// A window already managed is refused; no other is tracked yet.
    pub fn add_window(&mut self, window_id: WindowId)
        ensures
            *final(self) == *old(self),
    {
        if self.contains(&window_id) {
            return ;
        }
    }

    pub fn focus(&mut self, window_id: &WindowId)
        ensures
            *final(self) == *old(self),
    {
    }

    pub fn switch_workspace<'a, S>(&'a mut self, name: S) where S: Into<&'a str>
        ensures
            *final(self) == *old(self),
    {
    }

    /// The names of the workspaces, in order.
    pub fn get_workspace_names(&self) -> (r: Vec<&str>)
        ensures
            r@.len() == self.spec_workspaces().len(),
            forall|i: int|
                0 <= i < r@.len() ==> (#[trigger] r@[i])@ == self.spec_workspaces()[i].spec_name(),
    {
        let mut names: Vec<&str> = Vec::new();
        let mut i: usize = 0;
        while i < self.workspaces.len()
            invariant
                i <= self.workspaces@.len(),
                names@.len() == i,
                forall|j: int|
                    0 <= j < i ==> (#[trigger] names@[j])@ == self.workspaces@[j].spec_name(),
            decreases self.workspaces@.len() - i,
        {
            names.push(self.workspaces[i].name.as_str());
            i = i + 1;
        }
        names
    }

    /// Get focused workspace position. You can get the its name with
    /// `self.get_workspace_names()[ix]`
    pub fn focused_workspace(&self) -> (r: usize)
        requires
            self.spec_current_screen() < self.spec_visible().len(),
        ensures
            r == self.spec_visible()[self.spec_current_screen()].spec_workspace(),
    {
        self.visible[self.current_screen].workspace()
    }

    pub fn move_focused_to_workspace<'a, S>(&'a mut self, name: S) where S: Into<&'a str>
        ensures
            *final(self) == *old(self),
    {
    }
}

/// A named set of windows with a tiling layout.
#[derive(Default)]
pub struct Workspace {
    /// Workspace name
    name: String,
    /// Floats windows.
    floats: Vec<WindowId>,
    minimized: Vec<WindowId>,
    /// Just one window maximized?
    maximized: Option<WindowId>,
    /// Focused windows into the layout
    focused: Option<usize>,
    /// Tiled windows
    layout: BSPLayout<WindowId>,
}

impl Workspace {
    pub closed spec fn spec_name(&self) -> Seq<char> {
        self.name@
    }

    pub closed spec fn spec_layout(&self) -> TreeModel<WindowId> {
        self.layout@
    }

    /// No floating, minimized, maximized or focused window, and an empty
    /// layout.
    pub closed spec fn spec_is_fresh(&self) -> bool {
        &&& self.floats@.len() == 0
        &&& self.minimized@.len() == 0
        &&& self.maximized is None
        &&& self.focused is None
        &&& self.layout@ == TreeModel::<WindowId>::empty()
    }

    pub fn new(workspace_config: WorkspaceConfig) -> (r: Self)
        ensures
            r.spec_name() == workspace_config.name@,
            r.spec_is_fresh(),
    {
        Self {
            name: workspace_config.name,
            floats: Vec::new(),
            minimized: Vec::new(),
            maximized: None,
            focused: None,
            layout: BSPLayout::empty(),
        }
    }

    /// The workspace's name.
    pub fn name(&self) -> (r: &str)
        ensures
            r@ == self.spec_name(),
    {
        self.name.as_str()
    }

    /// The tiling layout of the workspace.
    pub fn layout(&self) -> (r: &BSPLayout<WindowId>)
        ensures
            r@ == self.spec_layout(),
    {
        &self.layout
    }
}

} // verus!
