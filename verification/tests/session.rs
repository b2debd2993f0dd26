use slipstream::calendar::{civil, stamp};
use slipstream::layout::Shape;
use slipstream::session::{decode, encode, unreadable_tiling, Record, Tiling, Win, MAX_WINDOWS, VERSION};

fn split(vertical: bool, a: Shape, b: Shape) -> Shape {
    Shape::Split {
        vertical,
        ratio: "0.5".to_string(),
        a: Box::new(a),
        b: Box::new(b),
    }
}

#[test]
fn a_tree_survives_the_round_trip() {
    let tree = split(
        true,
        Shape::Leaf(0),
        split(false, Shape::Leaf(1), Shape::Leaf(12)),
    );
    let text = encode(&tree);
    assert_eq!(text, "v0.5(0,h0.5(1,12))");
    assert_eq!(decode(&text), Some(tree));
    assert_eq!(decode("3"), Some(Shape::Leaf(3)));
}

#[test]
fn a_tree_that_is_not_a_tree_is_nothing() {
    for text in [
        "",
        "v0.5(0)",
        "v0.5(0,1",
        "v(0,1)",
        "vx(0,1)",
        "0,1",
        "v0.5(0,1))",
        "q0.5(0,1)",
    ] {
        assert_eq!(decode(text), None, "{text}");
    }
}

#[test]
fn a_deep_tree_is_refused_before_it_is_read() {
    let deep = format!("{}0{}", "v0.5(".repeat(1000), ",1)".repeat(1000));
    assert_eq!(decode(&deep), None);
    assert_eq!(decode("v0.5(0"), None);
    assert_eq!(decode("v0.5(0,60)"), None, "no workspace has a 61st slot");
    let chain = format!("{}0{}", "v0.5(0,".repeat(59), ")".repeat(59));
    assert!(decode(&chain).is_some(), "{chain}");
    let too_deep = format!("{}0{}", "v0.5(0,".repeat(61), ")".repeat(61));
    assert_eq!(decode(&too_deep), None);
}

#[test]
fn a_ratio_is_kept_as_written_and_white_space_around_the_line_is_not() {
    let shape = decode("  h2e-1(0,v1.(1,2))\n").expect("reads");
    assert_eq!(encode(&shape), "h2e-1(0,v1.(1,2))");
    assert_eq!(decode("v0.5 (0,1)"), None);
    assert_eq!(decode("v.(0,1)"), None, "a point is no number");
    assert_eq!(decode("v1e(0,1)"), None, "nor is a mark without its power");
    assert_eq!(decode("v-.5e+3(0,1)").map(|s| encode(&s)), Some("v-.5e+3(0,1)".to_string()));
}

#[test]
fn the_same_desktop_a_moment_later_is_the_same_desktop() {
    let windows = vec![Win {
        app: "org.kde.konsole".into(),
        workspace: Some(1),
        slot: 0,
        focused: true,
        ..Win::default()
    }];
    let before = Record::new(1, windows.clone(), Vec::new());
    let mut after = Record::new(1, windows, Vec::new());
    after.saved_at = "2031-01-01T00:00:00Z".into();
    assert!(before.same_desktop(&after));
    // Anything that would put a window somewhere else is a different desktop.
    let mut moved = after.clone();
    moved.windows[0].workspace = Some(2);
    assert!(!before.same_desktop(&moved));
    let mut elsewhere = after.clone();
    elsewhere.active_workspace = 3;
    assert!(!before.same_desktop(&elsewhere));
    let mut untiled = after;
    untiled.workspaces.push(Tiling {
        index: 1,
        name: String::new(),
        tiles: "0".into(),
    });
    assert!(!before.same_desktop(&untiled));
}

#[test]
fn a_runaway_cannot_write_more_than_sixty_windows() {
    let windows = vec![Win::default(); MAX_WINDOWS + 20];
    assert_eq!(
        Record::new(1, windows, Vec::new()).windows.len(),
        MAX_WINDOWS
    );
}

#[test]
fn a_record_of_a_moment_keeps_what_it_was_given() {
    let windows = vec![Win::default(); 3];
    let record = Record::at(0, 2, windows.clone(), Vec::new());
    assert_eq!(record.version, VERSION);
    assert_eq!(record.saved_at, "1970-01-01T00:00:00Z");
    assert_eq!(record.active_workspace, 2);
    assert_eq!(record.windows, windows);
    assert!(!record.is_too_new());
    let newer = Record { version: VERSION + 1, ..record.clone() };
    assert!(newer.is_too_new());
}

#[test]
fn the_stamp_is_utc_to_the_second() {
    assert_eq!(stamp(1_757_703_851), "2025-09-12T19:04:11Z");
    assert_eq!(stamp(0), "1970-01-01T00:00:00Z");
    // A leap day, which is what the era shift is for.
    assert_eq!(stamp(1_709_164_800), "2024-02-29T00:00:00Z");
}

#[test]
fn days_before_the_epoch_and_across_centuries_have_their_dates() {
    assert_eq!(civil(0), (1970, 1, 1));
    assert_eq!(civil(-1), (1969, 12, 31));
    assert_eq!(civil(11_016), (2000, 2, 29));
    assert_eq!(civil(-25_508), (1900, 3, 1), "1900 was no leap year");
    assert_eq!(civil(47_541), (2100, 3, 1), "nor will 2100 be");
    assert_eq!(stamp(-1), "1969-12-31T23:59:59Z");
}

#[test]
fn the_first_workspace_whose_tiling_cannot_be_read_is_named() {
    let tiling = |index: usize, tiles: &str| Tiling { index, name: String::new(), tiles: tiles.into() };
    assert_eq!(unreadable_tiling(&vec![tiling(1, "0"), tiling(2, "v0.5(0,1)")]), None);
    assert_eq!(
        unreadable_tiling(&vec![tiling(1, "0"), tiling(4, "v0.5(0"), tiling(5, "x")]),
        Some(4)
    );
    assert_eq!(unreadable_tiling(&Vec::new()), None);
}

#[test]
fn a_record_whose_tree_is_too_deep_is_unreadable() {
    let deep = format!("{}0{}", "v0.5(".repeat(1000), ",1)".repeat(1000));
    let tiling = |index: usize, tiles: &str| Tiling { index, name: String::new(), tiles: tiles.to_string() };
    assert_eq!(unreadable_tiling(&vec![tiling(1, &deep)]), Some(1));
    assert_eq!(unreadable_tiling(&vec![tiling(1, "v0.5(0,1)")]), None);
}

#[test]
fn a_ratio_too_big_for_an_f32_is_no_ratio() {
    assert_eq!(decode("v1e39(0,1)"), None, "past the largest f32");
    assert_eq!(decode("v-1e39(0,1)"), None);
    assert_eq!(decode("v3.4028235e38(0,1)").map(|s| encode(&s)), Some("v3.4028235e38(0,1)".to_string()));
    assert!(decode("v340282356779733661637539395458142568447(0,1)").is_some(), "just below where it rounds up");
    assert!(decode("v340282356779733661637539395458142568449(0,1)").is_none());
    assert!(decode("v0.0000000000000000000000000000000000000000000001e60(0,1)").is_some());
    assert!(decode("v1e99999999999999999999999999(0,1)").is_none());
    assert!(decode("v1e-99999999999999999999999999(0,1)").is_some(), "a tiny ratio is zero, still finite");
    assert!(decode("v0e99999(0,1)").is_some(), "nothing scaled up is still nothing");
}
