use dot_universe::dot::ADot;
use dot_universe::universe::DrawOp;
use dot_universe::universe::SyncRequest;
use dot_universe::universe::Universe;

#[test]
fn new_universe_is_seeded() {
    let u = Universe::new();
    assert_eq!(u.width(), 64);
    assert_eq!(u.height(), 64);
    assert_eq!(u.dot_count(), 4);
    let dots = u.dots();
    assert_eq!(dots[0], ADot { id: 2, x: 20, y: 20 });
    assert_eq!(dots[1], ADot { id: 3, x: 30, y: 30 });
    assert_eq!(dots[2], ADot { id: 4, x: 40, y: 40 });
    assert_eq!(dots[3], ADot { id: 5, x: 50, y: 50 });
    assert_eq!(dots[0].get_x(), 20);
    assert_eq!(dots[0].get_y(), 20);
}

#[test]
fn nearness_is_a_disjunction_of_axis_bands() {
    let d = ADot { id: 1, x: 20, y: 20 };
    // both axes close
    assert!(d.is_near(20, 20));
    assert!(d.is_near(26, 26));
    // only the x axis close: still near, by the chosen OR policy
    assert!(d.is_near(26, 100));
    // only the y axis close: still near
    assert!(d.is_near(100, 14));
    // distance exactly 7 on one axis, far on the other: not near
    assert!(!d.is_near(27, 100));
    assert!(!d.is_near(100, 27));
    // far on both axes
    assert!(!d.is_near(40, 3));
}

#[test]
fn pointer_down_grabs_first_in_store_order() {
    let mut u = Universe::new();
    // id 10 comes first in store order; id 11 sits exactly on the pointer
    u.set_dots_now("[{\"id\":10,\"x\":10,\"y\":10},{\"id\":11,\"x\":12,\"y\":12}]");
    let r = u.set_mouse_down(12, 12);
    assert_eq!(r, None);
    // dragging proves which dot was grabbed: the first near one, not the closer one
    u.move_mouse(30, 31);
    let dots = u.dots();
    assert_eq!(dots[0], ADot { id: 10, x: 30, y: 31 });
    assert_eq!(dots[1], ADot { id: 11, x: 12, y: 12 });
}

#[test]
fn pointer_down_far_from_all_creates_max_plus_one() {
    let mut u = Universe::new();
    u.set_dots_now("[{\"id\":9,\"x\":10,\"y\":10},{\"id\":4,\"x\":20,\"y\":20}]");
    let r = u.set_mouse_down(100, 100);
    assert_eq!(
        r,
        Some(SyncRequest::Create { user_id: 1, x: 100, y: 100 })
    );
    assert_eq!(u.dot_count(), 3);
    let dots = u.dots();
    assert_eq!(dots[2], ADot { id: 10, x: 100, y: 100 });
}

#[test]
fn pointer_down_on_empty_store_creates_id_one() {
    let mut u = Universe::new();
    u.set_dots_now("[]");
    assert_eq!(u.dot_count(), 0);
    let r = u.set_mouse_down(20, 20);
    assert_eq!(r, Some(SyncRequest::Create { user_id: 1, x: 20, y: 20 }));
    assert_eq!(u.dots(), vec![ADot { id: 1, x: 20, y: 20 }]);
}

#[test]
fn replayed_moves_keep_only_the_last_coordinate() {
    let mut u = Universe::new();
    u.set_dots_now("[{\"id\":7,\"x\":10,\"y\":10}]");
    u.set_mouse_down(10, 10);
    u.move_mouse(25, 25);
    u.move_mouse(40, 3);
    assert_eq!(u.dots(), vec![ADot { id: 7, x: 40, y: 3 }]);
    // replaying the final coordinate changes nothing further
    u.move_mouse(40, 3);
    assert_eq!(u.dots(), vec![ADot { id: 7, x: 40, y: 3 }]);
}

#[test]
fn pointer_up_clears_the_drag() {
    let mut u = Universe::new();
    u.set_dots_now("[{\"id\":7,\"x\":10,\"y\":10}]");
    u.set_mouse_down(10, 10);
    u.move_mouse(25, 25);
    let r = u.set_mouse_up(25, 25);
    assert_eq!(
        r,
        Some(SyncRequest::Update { user_id: 1, point_id: 7, x: 25, y: 25 })
    );
    // moves after the release are no-ops until another pointer-down
    u.move_mouse(60, 60);
    u.move_mouse(61, 61);
    assert_eq!(u.dots(), vec![ADot { id: 7, x: 25, y: 25 }]);
}

#[test]
fn pointer_up_without_grab_emits_nothing() {
    let mut u = Universe::new();
    let r = u.set_mouse_up(5, 5);
    assert_eq!(r, None);
    assert_eq!(u.dot_count(), 4);
}

#[test]
fn moves_without_any_pointer_down_are_noops() {
    let mut u = Universe::new();
    u.move_mouse(1, 1);
    assert_eq!(u.dots(), Universe::new().dots());
}

#[test]
fn stale_grab_falls_back_to_idle() {
    let mut u = Universe::new();
    u.set_dots_now("[{\"id\":7,\"x\":10,\"y\":10}]");
    u.set_mouse_down(10, 10);
    // the grabbed dot disappears under the drag
    u.set_dots_now("[]");
    u.move_mouse(30, 30);
    assert_eq!(u.dot_count(), 0);
    // the stale grab was dropped: releasing commits nothing
    let r = u.set_mouse_up(30, 30);
    assert_eq!(r, None);
}

#[test]
fn tick_clears_then_fills_one_square_per_dot() {
    let mut u = Universe::new();
    u.set_dots_now("[{\"id\":1,\"x\":5,\"y\":6},{\"id\":2,\"x\":7,\"y\":8}]");
    let ops = u.tick();
    assert_eq!(
        ops,
        vec![
            DrawOp::Clear,
            DrawOp::FillSquare { x: 5, y: 6, size: 5 },
            DrawOp::FillSquare { x: 7, y: 8, size: 5 },
        ]
    );
    // the world itself is untouched
    assert_eq!(u.dot_count(), 2);
    u.render();
}

#[test]
fn duplicate_ids_move_only_the_first_match() {
    let mut u = Universe::new();
    u.set_dots_now("[{\"id\":7,\"x\":10,\"y\":10},{\"id\":7,\"x\":50,\"y\":50}]");
    u.set_mouse_down(10, 10);
    u.move_mouse(30, 30);
    assert_eq!(
        u.dots(),
        vec![ADot { id: 7, x: 30, y: 30 }, ADot { id: 7, x: 50, y: 50 }]
    );
}

#[test]
fn tick_on_an_empty_store_only_clears() {
    let mut u = Universe::new();
    u.set_dots_now("[]");
    assert_eq!(u.tick(), vec![DrawOp::Clear]);
}

#[test]
fn drag_session_on_empty_store() {
    let mut u = Universe::new();
    u.set_dots_now("[]");
    // nothing near: a dot is created at the pointer
    let r1 = u.set_mouse_down(20, 20);
    assert_eq!(r1, Some(SyncRequest::Create { user_id: 1, x: 20, y: 20 }));
    assert_eq!(u.dots(), vec![ADot { id: 1, x: 20, y: 20 }]);
    // the same coordinate now hits the new dot: grabbed, nothing created
    let r2 = u.set_mouse_down(20, 20);
    assert_eq!(r2, None);
    assert_eq!(u.dot_count(), 1);
    // dragging follows the pointer
    u.move_mouse(25, 25);
    assert_eq!(u.dots(), vec![ADot { id: 1, x: 25, y: 25 }]);
    // releasing clears the drag and commits the final position
    let r3 = u.set_mouse_up(25, 25);
    assert_eq!(
        r3,
        Some(SyncRequest::Update { user_id: 1, point_id: 1, x: 25, y: 25 })
    );
    u.move_mouse(60, 60);
    assert_eq!(u.dots(), vec![ADot { id: 1, x: 25, y: 25 }]);
}
