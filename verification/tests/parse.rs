use dot_universe::dot::ADot;
use dot_universe::universe::Universe;

#[test]
fn loads_two_records_in_order() {
    let mut u = Universe::new();
    u.set_dots_now("[{\"id\":1,\"x\":5,\"y\":5},{\"id\":2,\"x\":9,\"y\":9}]");
    assert_eq!(u.dot_count(), 2);
    assert_eq!(
        u.dots(),
        vec![ADot { id: 1, x: 5, y: 5 }, ADot { id: 2, x: 9, y: 9 }]
    );
}

#[test]
fn record_missing_id_keeps_the_valid_prefix() {
    let mut u = Universe::new();
    u.set_dots_now(
        "[{\"id\":1,\"x\":5,\"y\":5},{\"id\":2,\"x\":6,\"y\":6},{\"x\":9,\"y\":9},{\"id\":4,\"x\":7,\"y\":7}]",
    );
    assert_eq!(
        u.dots(),
        vec![ADot { id: 1, x: 5, y: 5 }, ADot { id: 2, x: 6, y: 6 }]
    );
}

#[test]
fn bad_record_first_yields_an_empty_store() {
    let mut u = Universe::new();
    u.set_dots_now("[{\"x\":9,\"y\":9},{\"id\":1,\"x\":5,\"y\":5}]");
    assert_eq!(u.dot_count(), 0);
}

#[test]
fn text_that_opens_no_list_keeps_the_store() {
    let mut u = Universe::new();
    u.set_dots_now("not a list at all");
    assert_eq!(u.dot_count(), 4);
    u.set_dots_now("{\"id\":1,\"x\":5,\"y\":5}");
    assert_eq!(u.dot_count(), 4);
    u.set_dots_now("");
    assert_eq!(u.dot_count(), 4);
}

#[test]
fn empty_list_empties_the_store() {
    let mut u = Universe::new();
    u.set_dots_now("[]");
    assert_eq!(u.dot_count(), 0);
    let mut v = Universe::new();
    v.set_dots_now("  [   ]  ");
    assert_eq!(v.dot_count(), 0);
}

#[test]
fn whitespace_is_allowed_around_every_token() {
    let mut u = Universe::new();
    u.set_dots_now(" [ { \"id\" : 1 ,\t\"x\" :\n-5 , \"y\" : 0 } ] ");
    assert_eq!(u.dots(), vec![ADot { id: 1, x: -5, y: 0 }]);
}

#[test]
fn negative_values_parse() {
    let mut u = Universe::new();
    u.set_dots_now("[{\"id\":-1,\"x\":-0,\"y\":-2147483648}]");
    assert_eq!(u.dots(), vec![ADot { id: -1, x: 0, y: -2147483648 }]);
}

#[test]
fn extreme_in_range_values_parse() {
    let mut u = Universe::new();
    u.set_dots_now("[{\"id\":2147483647,\"x\":0,\"y\":0}]");
    assert_eq!(u.dots(), vec![ADot { id: 2147483647, x: 0, y: 0 }]);
}

#[test]
fn out_of_range_values_end_parsing() {
    let mut u = Universe::new();
    u.set_dots_now("[{\"id\":1,\"x\":0,\"y\":0},{\"id\":2147483648,\"x\":0,\"y\":0}]");
    assert_eq!(u.dots(), vec![ADot { id: 1, x: 0, y: 0 }]);
    let mut v = Universe::new();
    v.set_dots_now("[{\"id\":1,\"x\":-2147483649,\"y\":0}]");
    assert_eq!(v.dot_count(), 0);
}

#[test]
fn very_long_numbers_end_parsing() {
    let mut u = Universe::new();
    u.set_dots_now("[{\"id\":99999999999999999999999999999999,\"x\":0,\"y\":0}]");
    assert_eq!(u.dot_count(), 0);
}

#[test]
fn a_sign_without_digits_ends_parsing() {
    let mut u = Universe::new();
    u.set_dots_now("[{\"id\":-,\"x\":0,\"y\":0}]");
    assert_eq!(u.dot_count(), 0);
}

#[test]
fn keys_out_of_order_end_parsing() {
    let mut u = Universe::new();
    u.set_dots_now("[{\"x\":5,\"id\":1,\"y\":5}]");
    assert_eq!(u.dot_count(), 0);
}

#[test]
fn a_missing_comma_ends_parsing() {
    let mut u = Universe::new();
    u.set_dots_now("[{\"id\":1,\"x\":2,\"y\":3}{\"id\":2,\"x\":4,\"y\":5}]");
    assert_eq!(u.dots(), vec![ADot { id: 1, x: 2, y: 3 }]);
}

#[test]
fn text_after_the_closing_bracket_is_ignored() {
    let mut u = Universe::new();
    u.set_dots_now("[{\"id\":1,\"x\":2,\"y\":3}] trailing text");
    assert_eq!(u.dots(), vec![ADot { id: 1, x: 2, y: 3 }]);
}

#[test]
fn an_unclosed_list_keeps_its_records() {
    let mut u = Universe::new();
    u.set_dots_now("[{\"id\":1,\"x\":2,\"y\":3},{\"id\":2,\"x\":4,\"y\":5}");
    assert_eq!(
        u.dots(),
        vec![ADot { id: 1, x: 2, y: 3 }, ADot { id: 2, x: 4, y: 5 }]
    );
}

#[test]
fn bulk_load_leaves_the_drag_state_alone() {
    let mut u = Universe::new();
    u.set_mouse_down(20, 20);
    // the grab of dot 2 survives the reload, which keeps its id
    u.set_dots_now("[{\"id\":2,\"x\":50,\"y\":50}]");
    u.move_mouse(33, 34);
    assert_eq!(u.dots(), vec![ADot { id: 2, x: 33, y: 34 }]);
}
