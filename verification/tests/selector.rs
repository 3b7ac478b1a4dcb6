use yabai_helper::order::sorted_windows;
use yabai_helper::schema::{Display, Frame, SpaceType, Space, Window};
use yabai_helper::selector::{
    focus_next_display, focus_next_window, focus_prev_window, focus_window_after, layout_name,
    toggle_space_layout,
};

fn win(id: u32, display: u32, x: i64, y: i64, visible: bool, focus: bool) -> Window {
    Window {
        id,
        display,
        frame: Frame { x, y, w: 800, h: 600 },
        is_visible: visible,
        has_focus: focus,
    }
}

fn disp(id: u32, focus: bool) -> Display {
    Display { id, has_focus: focus }
}

#[test]
fn wraparound_forward_selects_first() {
    // Sorted visible windows [A, B, C] with C focused: forward wraps to A.
    let wins = vec![
        win(1, 1, 0, 0, true, false),
        win(2, 1, 100, 0, true, false),
        win(3, 1, 200, 0, true, true),
    ];
    assert_eq!(focus_next_window(&wins), Some(1));
}

#[test]
fn forward_steps_to_next() {
    let wins = vec![
        win(1, 1, 0, 0, true, true),
        win(2, 1, 100, 0, true, false),
        win(3, 1, 200, 0, true, false),
    ];
    assert_eq!(focus_next_window(&wins), Some(2));
}

#[test]
fn backward_steps_to_previous() {
    // Backward reverses the whole sorted order, then steps forward once.
    let wins = vec![
        win(1, 1, 0, 0, true, false),
        win(2, 1, 100, 0, true, true),
        win(3, 1, 200, 0, true, false),
    ];
    assert_eq!(focus_prev_window(&wins), Some(1));
}

#[test]
fn backward_wraps_from_first_to_last() {
    let wins = vec![
        win(1, 1, 0, 0, true, true),
        win(2, 1, 100, 0, true, false),
        win(3, 1, 200, 0, true, false),
    ];
    assert_eq!(focus_prev_window(&wins), Some(3));
}

#[test]
fn no_visible_windows_is_noop() {
    let wins = vec![win(1, 1, 0, 0, false, true), win(2, 1, 100, 0, false, false)];
    assert_eq!(focus_next_window(&wins), None);
    assert_eq!(focus_prev_window(&wins), None);
}

#[test]
fn empty_snapshot_is_noop() {
    let wins: Vec<Window> = vec![];
    assert_eq!(focus_next_window(&wins), None);
    assert_eq!(focus_prev_window(&wins), None);
}

#[test]
fn single_visible_focused_selects_itself() {
    let wins = vec![
        win(7, 1, 50, 50, true, true),
        win(8, 1, 0, 0, false, false),
        win(9, 2, 0, 0, false, false),
    ];
    assert_eq!(focus_next_window(&wins), Some(7));
    assert_eq!(focus_prev_window(&wins), Some(7));
}

#[test]
fn invisible_window_is_never_the_target() {
    // The invisible window 2 sits between 1 and 3 in sort order and is
    // skipped.
    let wins = vec![
        win(1, 1, 0, 0, true, true),
        win(2, 1, 100, 0, false, false),
        win(3, 1, 200, 0, true, false),
    ];
    assert_eq!(focus_next_window(&wins), Some(3));
}

#[test]
fn no_focused_window_defaults_to_first_position() {
    // With nothing focused the traversal starts at the first sorted
    // window, so the target is the second.
    let wins = vec![
        win(5, 1, 100, 0, true, false),
        win(4, 1, 0, 0, true, false),
        win(6, 1, 200, 0, true, false),
    ];
    assert_eq!(focus_next_window(&wins), Some(5));
}

#[test]
fn focused_but_invisible_window_is_ignored() {
    // The focused window is invisible: traversal falls back to the start
    // of the visible cycle.
    let wins = vec![
        win(1, 1, 0, 0, false, true),
        win(2, 1, 100, 0, true, false),
        win(3, 1, 200, 0, true, false),
    ];
    assert_eq!(focus_next_window(&wins), Some(3));
}

#[test]
fn selection_ignores_input_order() {
    let a = vec![
        win(1, 1, 0, 0, true, false),
        win(2, 1, 100, 0, true, false),
        win(3, 1, 200, 0, true, true),
    ];
    let b = vec![a[2], a[0], a[1]];
    let c = vec![a[1], a[2], a[0]];
    assert_eq!(focus_next_window(&a), focus_next_window(&b));
    assert_eq!(focus_next_window(&b), focus_next_window(&c));
    assert_eq!(focus_prev_window(&a), focus_prev_window(&b));
}

#[test]
fn round_trip_returns_to_original_focus() {
    let mut wins = vec![
        win(1, 1, 0, 0, true, false),
        win(2, 1, 100, 0, true, true),
        win(3, 1, 200, 0, true, false),
    ];
    let target = focus_next_window(&wins).unwrap();
    assert_eq!(target, 3);
    for w in wins.iter_mut() {
        w.has_focus = w.id == target;
    }
    assert_eq!(focus_prev_window(&wins), Some(2));
}

#[test]
fn sort_orders_display_before_coordinates() {
    // Window 1 on display 2 has far smaller coordinates than window 2 on
    // display 1, yet display wins.
    let wins = vec![win(1, 2, -5000, -5000, true, false), win(2, 1, 900, 900, true, false)];
    let sorted = sorted_windows(&wins);
    assert_eq!(sorted[0].id, 2);
    assert_eq!(sorted[1].id, 1);
}

#[test]
fn sort_orders_y_before_x() {
    let wins = vec![win(1, 1, 0, 100, true, false), win(2, 1, 500, 0, true, false)];
    let sorted = sorted_windows(&wins);
    assert_eq!(sorted[0].id, 2);
    assert_eq!(sorted[1].id, 1);
}

#[test]
fn sort_orders_x_on_equal_y() {
    let wins = vec![win(1, 1, 300, 50, true, false), win(2, 1, 200, 50, true, false)];
    let sorted = sorted_windows(&wins);
    assert_eq!(sorted[0].id, 2);
    assert_eq!(sorted[1].id, 1);
}

#[test]
fn sort_breaks_full_coordinate_ties_by_id() {
    let wins = vec![win(9, 1, 0, 0, true, false), win(3, 1, 0, 0, true, false)];
    let sorted = sorted_windows(&wins);
    assert_eq!(sorted[0].id, 3);
    assert_eq!(sorted[1].id, 9);
}

#[test]
fn focus_window_after_takes_arranged_order_as_given() {
    // The pre-arranged sequence is traversed as handed in, invisible
    // entries dropped first.
    let arranged = vec![
        win(4, 1, 0, 0, true, false),
        win(5, 1, 0, 0, false, false),
        win(6, 1, 0, 0, true, true),
    ];
    assert_eq!(focus_window_after(&arranged), Some(4));
}

#[test]
fn next_display_selects_second_when_first_focused() {
    let displays = vec![disp(1, true), disp(2, false), disp(3, false)];
    assert_eq!(focus_next_display(&displays), Some(2));
}

#[test]
fn next_display_wraps_to_first() {
    let displays = vec![disp(1, false), disp(2, false), disp(3, true)];
    assert_eq!(focus_next_display(&displays), Some(1));
}

#[test]
fn next_display_defaults_to_first_position() {
    let displays = vec![disp(4, false), disp(5, false)];
    assert_eq!(focus_next_display(&displays), Some(5));
}

#[test]
fn next_display_empty_is_noop() {
    let displays: Vec<Display> = vec![];
    assert_eq!(focus_next_display(&displays), None);
}

#[test]
fn next_display_single_selects_itself() {
    let displays = vec![disp(1, true)];
    assert_eq!(focus_next_display(&displays), Some(1));
}

#[test]
fn toggle_bsp_issues_stack() {
    assert_eq!(toggle_space_layout(SpaceType::Bsp), Some(SpaceType::Stack));
    assert_eq!(layout_name(SpaceType::Stack), "stack");
}

#[test]
fn toggle_stack_issues_bsp() {
    assert_eq!(toggle_space_layout(SpaceType::Stack), Some(SpaceType::Bsp));
    assert_eq!(layout_name(SpaceType::Bsp), "bsp");
}

#[test]
fn toggle_float_issues_nothing() {
    assert_eq!(toggle_space_layout(SpaceType::Float), None);
}

#[test]
fn toggle_reads_the_space_record() {
    let space = Space {
        id: 11,
        uuid: String::from("A1B2"),
        index: 1,
        label: String::from("main"),
        space_type: SpaceType::Bsp,
        display: 1,
        windows: vec![1, 2, 3],
        first_window: 1,
        last_window: 3,
        has_focus: true,
        is_visible: true,
        is_native_fullscreen: false,
    };
    assert_eq!(toggle_space_layout(space.space_type), Some(SpaceType::Stack));
}
