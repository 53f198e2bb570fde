use lanta::utils::{Rectangle, Reserved, ScreenInfo};
use lanta::window_set::Screen;

fn info() -> ScreenInfo {
    ScreenInfo { id: 0, width: 1920, height: 1080 }
}

fn reserved(left: u32, right: u32, bottom: u32, top: u32) -> Reserved {
    Reserved { left, right, bottom, top }
}

#[test]
fn new_screen_has_no_docks() {
    let s = Screen::new(3, info());
    assert_eq!(s.workspace(), 3);
    assert!(s.docks().is_empty());
    assert_eq!(s.viewport(1920, 1080), Rectangle { x: 0, y: 0, width: 1920, height: 1080 });
}

#[test]
fn viewport_takes_largest_reservation_per_border() {
    let mut s = Screen::new(0, info());
    s.add_dock(7, reserved(10, 0, 0, 20));
    s.add_dock(8, reserved(5, 30, 40, 25));
    assert_eq!(s.docks().len(), 2);
    assert_eq!(
        s.viewport(1920, 1080),
        Rectangle { x: 10, y: 25, width: 1920 - 10 - 30, height: 1080 - 25 - 40 }
    );
}

#[test]
fn remove_dock_drops_only_that_window() {
    let mut s = Screen::new(0, info());
    s.add_dock(7, reserved(10, 0, 0, 20));
    s.add_dock(8, reserved(5, 30, 40, 25));
    s.add_dock(7, reserved(1, 1, 1, 1));
    s.remove_dock(&7);
    assert_eq!(s.docks().len(), 1);
    assert_eq!(s.docks()[0].window_id, 8);
    assert_eq!(
        s.viewport(100, 100),
        Rectangle { x: 5, y: 25, width: 65, height: 35 }
    );
    s.remove_dock(&99);
    assert_eq!(s.docks().len(), 1);
}
