use slipstream::layout::{Direction, Rect};
use slipstream::screen::{press_elsewhere, towards, Overlay, PressElsewhere, Screens, Show};

fn two() -> Screens {
    let mut screens = Screens::default();
    screens.add("eDP-1", 0, 0, 5, None);
    screens.add("DP-2", 1920, 0, 5, None);
    screens
}

fn shown(screens: &Screens) -> Vec<usize> {
    screens.iter().map(|screen| screen.workspace).collect()
}

#[test]
fn a_new_screen_takes_a_workspace_nothing_else_is_showing() {
    let screens = two();
    assert_eq!(shown(&screens), vec![0, 1]);
    assert_eq!(screens.focused_index(), 0, "the keyboard stays put");
}

#[test]
fn screens_are_kept_in_the_order_they_sit_in() {
    let mut screens = Screens::default();
    screens.add("eDP-1", 1920, 0, 5, None);
    screens.add("DP-2", 0, 0, 5, None);
    assert_eq!(screens.get(0).map(|s| s.output.as_str()), Some("DP-2"));
    assert_eq!(
        screens.focused_output().as_deref(),
        Some("eDP-1"),
        "a screen appearing to the left doesn't steal the keyboard"
    );
}

#[test]
fn going_to_a_workspace_another_screen_has_moves_the_keyboard_there() {
    let mut screens = two();
    let show = screens.show(1, 5);
    assert_eq!(
        show,
        Show {
            changed: true,
            from: 0,
            moved_to: Some(1)
        }
    );
    assert_eq!(shown(&screens), vec![0, 1], "neither screen changed");
    assert_eq!(screens.focused_index(), 1);
    assert!(!screens.show(1, 5).changed, "already there");
}

#[test]
fn going_to_a_workspace_no_one_has_shows_it_here() {
    let mut screens = two();
    let show = screens.show(3, 5);
    assert_eq!(show.moved_to, None);
    assert_eq!(shown(&screens), vec![3, 1], "the other screen untouched");
    assert_eq!(screens.focused_index(), 0);
}

#[test]
fn swapping_trades_workspaces_and_keeps_the_keyboard_where_it_is() {
    let mut screens = two();
    assert!(screens.swap_with(1));
    assert_eq!(shown(&screens), vec![1, 0]);
    assert_eq!(screens.focused_index(), 0);
    assert!(!screens.swap_with(0), "not with itself");
    assert!(!screens.swap_with(5), "no such screen");
}

#[test]
fn a_hidden_workspace_belongs_to_the_screen_that_last_showed_it() {
    let mut screens = two();
    // Workspace 3 on the right-hand screen, then that screen moves on to 4.
    screens.focus(1);
    screens.show(2, 5);
    screens.show(3, 5);
    screens.focus(0);
    assert_eq!(screens.screen_for_workspace(2), 1, "laid out for the right");
    assert_eq!(screens.screen_for_workspace(4), 0, "never shown: the focused");
    assert_eq!(screens.screen_for_workspace(0), 0, "on show");
}

#[test]
fn the_keyboard_is_pointed_at_a_screen_that_is_there() {
    let mut screens = two();
    assert!(screens.focus(1));
    assert!(!screens.focus(1), "already there");
    assert!(!screens.focus(7), "no such screen");
    assert_eq!(screens.focused_index(), 1);
    assert_eq!(screens.beside(1), None, "nothing right of the last");
    assert_eq!(screens.beside(-1), Some(0));
}

#[test]
fn a_screen_going_out_leaves_the_keyboard_on_one_that_is_still_there() {
    let mut screens = two();
    screens.focus(1);
    assert_eq!(screens.remove("DP-2"), Some(1));
    assert_eq!(screens.len(), 1);
    assert_eq!(screens.focused_output().as_deref(), Some("eDP-1"));
    assert_eq!(screens.workspace(), 0);
    // The lid shuts on the last screen: nothing left to focus, and no panic.
    assert_eq!(screens.remove("eDP-1"), Some(0));
    assert!(screens.is_empty());
    assert_eq!(screens.workspace(), 0);
    assert_eq!(screens.focused_output(), None);
}

#[test]
fn a_monitor_plugged_back_in_gets_its_workspace_back() {
    let mut screens = two();
    screens.focus(1);
    screens.show(3, 5);
    screens.focus(0);
    screens.remove("DP-2");
    // Meanwhile the laptop goes to workspace 2, which the monitor started on.
    screens.show(1, 5);
    screens.add("DP-2", 1920, 0, 5, None);
    assert_eq!(shown(&screens), vec![1, 3], "the monitor is back on 4");
}

#[test]
fn the_lid_opening_puts_both_screens_back_as_they_were() {
    let mut screens = two();
    // The keyboard is on the laptop when its lid shuts: the monitor carries on its workspace.
    assert_eq!(screens.remove("eDP-1"), Some(0));
    assert!(screens.carry(0));
    assert_eq!(shown(&screens), vec![0]);
    screens.add("eDP-1", 0, 0, 5, None);
    assert_eq!(shown(&screens), vec![0, 1], "each back on its own");
    assert_eq!(
        screens.focused_output().as_deref(),
        Some("DP-2"),
        "the lid opening doesn't move the keyboard off the screen in use"
    );
}

#[test]
fn a_screen_that_moved_on_after_carrying_keeps_what_it_shows() {
    let mut screens = two();
    screens.remove("eDP-1");
    screens.carry(0);
    screens.show(4, 5);
    screens.add("eDP-1", 0, 0, 5, None);
    assert_eq!(shown(&screens), vec![0, 4]);
}

#[test]
fn a_remembered_workspace_another_screen_has_taken_means_a_free_one() {
    let mut screens = two();
    screens.remove("DP-2");
    screens.show(1, 5);
    screens.add("DP-2", 1920, 0, 5, None);
    assert_eq!(shown(&screens), vec![1, 0]);
}

#[test]
fn screens_follow_their_workspaces_through_an_edit_and_never_share_one() {
    let mut screens = two();
    // Workspace 2 (index 1) was deleted and its screen sent to index 0, which the first
    // screen is already showing.
    screens.remap(&[0, 0, 1, 2, 3], 4);
    assert_eq!(shown(&screens), vec![0, 1], "a free one instead");
    screens.show(9, 4);
    assert_eq!(screens.workspace(), 3, "a workspace past the end is the last one");
}

#[test]
fn a_screen_whose_workspace_went_takes_a_free_one_after_the_others_follow_theirs() {
    let mut screens = Screens::default();
    screens.add("A", 0, 0, 5, None);
    screens.add("B", 1920, 0, 5, None);
    screens.add("C", 3840, 0, 5, None);
    assert_eq!(shown(&screens), vec![0, 1, 2]);
    // Index 1 was deleted: B's workspace lands on A's, and C's moves down to 1.
    screens.remap(&[0, 0, 1, 2, 3], 4);
    assert_eq!(shown(&screens), vec![0, 2, 1], "C follows its workspace; B takes the lowest free");
}

#[test]
fn a_screen_can_show_every_workspace_there_is_past_the_fifth() {
    let mut screens = Screens::default();
    screens.add("eDP-1", 0, 0, 7, None);
    let show = screens.show(6, 7);
    assert!(show.changed);
    assert_eq!(screens.workspace(), 6, "the seventh, not the fifth");
    screens.add("DP-2", 1920, 0, 7, None);
    assert_eq!(
        screens.get(1).map(|s| s.workspace),
        Some(0),
        "the next screen takes the lowest free one"
    );
}

#[test]
fn lighting_the_same_output_twice_moves_it_rather_than_doubling_it() {
    let mut screens = two();
    screens.add("DP-2", 3840, 0, 5, None);
    assert_eq!(screens.len(), 2);
    assert_eq!(screens.get(1).map(|s| s.x), Some(3840));
    // Moved to the other side, it keeps the keyboard it had.
    screens.focus(1);
    screens.add("DP-2", -1920, 0, 5, None);
    assert_eq!(screens.get(0).map(|s| s.output.as_str()), Some("DP-2"));
    assert_eq!(screens.focused_output().as_deref(), Some("DP-2"));
}

#[test]
fn a_press_elsewhere_never_answers_a_card_on_the_focused_screen() {
    assert_eq!(press_elsewhere(Overlay::Card), PressElsewhere::Ignore);
    assert_eq!(press_elsewhere(Overlay::Panel), PressElsewhere::ClosePanels);
    assert_eq!(press_elsewhere(Overlay::Nothing), PressElsewhere::MoveKeyboard);
}

fn rect(x: i32, y: i32, w: i32, h: i32) -> Rect {
    Rect { x, y, w, h }
}

#[test]
fn the_screen_beside_one_is_found_by_where_it_sits() {
    // A panel with a monitor to its right, tops level.
    let row = [rect(0, 0, 1536, 960), rect(1536, 0, 1920, 1080)];
    assert_eq!(towards(&row, 0, Direction::Right), Some(1));
    assert_eq!(towards(&row, 1, Direction::Left), Some(0));
    assert_eq!(towards(&row, 0, Direction::Up), None);
    assert_eq!(towards(&row, 0, Direction::Down), None);
}

#[test]
fn a_screen_above_the_panel_is_reached_by_going_up() {
    // A monitor on a stand, the laptop below it.
    let stack = [rect(0, 1080, 1536, 960), rect(0, 0, 1920, 1080)];
    assert_eq!(towards(&stack, 0, Direction::Up), Some(1));
    assert_eq!(towards(&stack, 1, Direction::Down), Some(0));
    assert_eq!(towards(&stack, 0, Direction::Left), None);
    assert_eq!(towards(&stack, 0, Direction::Right), None);
}

#[test]
fn a_screen_straight_ahead_beats_one_off_to_a_corner() {
    // Two to the right: one level with the panel, one far above it and slightly nearer.
    let screens = [
        rect(0, 1000, 1536, 960),
        rect(1536, 1000, 1920, 1080),
        rect(1500, -2000, 800, 600),
    ];
    assert_eq!(towards(&screens, 0, Direction::Right), Some(1));
}

#[test]
fn a_screen_takes_the_workspace_set_aside_for_it() {
    let mut screens = Screens::default();
    screens.add("eDP-1", 0, 0, 5, None);
    assert_eq!(screens.get(0).map(|s| s.workspace), Some(0));
    // Six workspaces now, the sixth made for this screen: it takes that one rather than
    // workspace 2, which the laptop's Super+2 still wants.
    screens.add("DP-2", 1920, 0, 6, Some(5));
    let monitor = screens.index_of("DP-2").unwrap();
    assert_eq!(screens.get(monitor).map(|s| s.workspace), Some(5));
    assert_eq!(screens.showing(1), None, "workspace 2 is still nobody's");
}

#[test]
fn what_a_screen_showed_before_beats_the_workspace_set_aside_for_it() {
    let mut screens = Screens::default();
    screens.add("eDP-1", 0, 0, 6, None);
    screens.add("DP-2", 1920, 0, 6, Some(5));
    screens.focus(screens.index_of("DP-2").unwrap());
    screens.show(3, 6);
    screens.remove("DP-2");
    // Plugged back in, it comes back to what it was showing, not to a new one.
    screens.add("DP-2", 1920, 0, 6, Some(5));
    let monitor = screens.index_of("DP-2").unwrap();
    assert_eq!(screens.get(monitor).map(|s| s.workspace), Some(3));
}

#[test]
fn a_screen_falls_back_to_the_lowest_free_workspace() {
    let mut screens = Screens::default();
    screens.add("eDP-1", 0, 0, 5, None);
    // The workspace set aside for it is gone, or taken: the old rule still applies.
    screens.add("DP-2", 1920, 0, 5, Some(9));
    let monitor = screens.index_of("DP-2").unwrap();
    assert_eq!(screens.get(monitor).map(|s| s.workspace), Some(1));
}

#[test]
fn trimming_forgets_workspaces_that_have_gone() {
    let mut screens = Screens::default();
    screens.add("eDP-1", 0, 0, 6, None);
    screens.add("DP-2", 1920, 0, 6, Some(5));
    screens.remove("DP-2");
    // Its workspace went with it, so nothing should bring the screen back to a sixth that
    // isn't there any more.
    screens.trim_homes(5);
    screens.add("DP-2", 1920, 0, 5, None);
    let monitor = screens.index_of("DP-2").unwrap();
    let workspace = screens.get(monitor).map(|s| s.workspace).unwrap();
    assert!(workspace < 5, "came back to workspace {workspace}");
}

#[test]
fn workspaces_and_screens_agree_after_add_and_remove() {
    let count = 4;
    let mut screens = Screens::default();
    screens.add("eDP-1", 0, 0, count, None);
    screens.add("DP-2", 1536, 0, count, None);
    // Every screen shows a workspace that exists, and no two show the same one.
    let check = |screens: &Screens| {
        let list = shown(screens);
        assert!(list.iter().all(|&workspace| workspace < count), "{list:?}");
        let mut unique = list.clone();
        unique.sort();
        unique.dedup();
        assert_eq!(unique.len(), list.len(), "{list:?}");
    };
    check(&screens);
    // Each workspace can be gone to, from either screen.
    for from in 0..2 {
        for index in 0..count {
            screens.focus(from);
            screens.show(index, count);
            assert_eq!(screens.workspace(), index);
            check(&screens);
        }
    }
    // The focused screen going out: the other keeps its workspace and takes the keyboard.
    screens.focus(1);
    let other = screens.get(0).map(|screen| screen.workspace);
    assert!(screens.remove("DP-2").is_some());
    assert_eq!(screens.focused_output().as_deref(), Some("eDP-1"));
    assert_eq!(screens.get(0).map(|screen| screen.workspace), other);
    // A screen that isn't focused going out leaves the focused one as it was.
    screens.add("DP-2", 1536, 0, count, None);
    check(&screens);
    let before = screens.workspace();
    screens.remove("DP-2");
    assert_eq!(screens.workspace(), before);
    // Fewer workspaces than screens after an edit: every screen still shows one that exists.
    screens.add("DP-2", 1536, 0, count, None);
    screens.remap(&[0, 0, 0, 0], 1);
    assert!(shown(&screens).iter().all(|&workspace| workspace == 0));
}

#[test]
fn a_screen_moved_keeps_others_in_order_and_the_keyboard_with_it() {
    let mut screens = Screens::default();
    screens.add("A", 0, 0, 5, None);
    screens.add("B", 100, 0, 5, None);
    screens.add("C", 200, 0, 5, None);
    screens.focus(2);
    let at = screens.add("A", 300, 0, 5, None);
    assert_eq!(at, 2);
    let names: Vec<&str> = screens.iter().map(|s| s.output.as_str()).collect();
    assert_eq!(names, vec!["B", "C", "A"]);
    assert_eq!(screens.focused_output().as_deref(), Some("C"));
    assert_eq!(screens.workspace_of("C"), Some(2));
    assert_eq!(screens.workspace_of("nowhere"), None);
}

#[test]
fn trimming_forgets_a_carried_workspace_past_the_end() {
    let mut screens = two();
    screens.remove("eDP-1");
    assert!(screens.carry(0));
    screens.trim_homes(1);
    // The monitor no longer goes back to workspace 2, which is gone.
    screens.add("eDP-1", 0, 0, 5, None);
    assert_eq!(shown(&screens), vec![1, 0]);
}
