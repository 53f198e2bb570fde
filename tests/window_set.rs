use lanta::bsplayout::Node;
use lanta::config::{Config, WorkspaceConfig};
use lanta::utils::ScreenInfo;
use lanta::window_set::{Status, WindowSet, Workspace};

fn configs(names: &[&str]) -> Vec<WorkspaceConfig> {
    names
        .iter()
        .map(|n| WorkspaceConfig { name: n.to_string(), rules: () })
        .collect()
}

fn screen(id: u8) -> ScreenInfo {
    ScreenInfo { id, width: 800, height: 600 }
}

#[test]
fn workspace_starts_with_an_empty_layout() {
    let w = Workspace::new(WorkspaceConfig { name: "web".to_string(), rules: () });
    assert_eq!(w.name(), "web");
    assert_eq!(w.layout().nodes(), &vec![Node::Empty]);
}

#[test]
fn window_set_keeps_workspace_names_in_order() {
    let config = Config { workspaces_config: configs(&["a", "b", "c"]) };
    let set = WindowSet::new(config.workspaces_config, vec![screen(0)]);
    assert_eq!(set.get_workspace_names(), vec!["a", "b", "c"]);
}

#[test]
fn screens_show_workspaces_from_the_second_on() {
    let set = WindowSet::new(configs(&["a", "b", "c"]), vec![screen(0), screen(1)]);
    assert_eq!(set.focused_workspace(), 1);
}

#[test]
fn screens_without_a_workspace_left_are_dropped() {
    let set = WindowSet::new(configs(&["a", "b"]), vec![screen(0), screen(1), screen(2)]);
    assert_eq!(set.focused_workspace(), 1);
    assert_eq!(set.get_workspace_names().len(), 2);
}

#[test]
fn no_window_is_managed_at_first() {
    let mut set = WindowSet::new(configs(&["a", "b"]), vec![screen(0)]);
    assert!(!set.contains(&42));
    set.add_window(42);
    set.focus(&42);
    set.switch_workspace("b");
    set.move_focused_to_workspace("a");
    set.remove_window(&42);
    assert!(!set.contains(&42));
    assert_eq!(set.focused_workspace(), 1);
}

#[test]
fn status_values_compare() {
    assert_eq!(Status::Tiled(3), Status::Tiled(3));
    assert_ne!(Status::Tiled(3), Status::Floating);
    assert_ne!(Status::Dock, Status::Maximized);
}
