use slipstream::sheet::{filtered, Row, Section};
use slipstream::sheet::{Outcome, Sheet, SheetKey};
use slipstream::share::{parse, Act, Choice, Key, Picker, Source, VISIBLE};

fn picker(count: usize) -> Picker {
    let choices = (0..count)
        .map(|n| Choice {
            line: format!("Window: Title {n} (id{n})"),
            source: Source::Window {
                identifier: format!("id{n}"),
            },
        })
        .collect::<Vec<_>>();
    Picker::new(choices)
}

#[test]
fn the_portals_lines_are_understood() {
    let choices = parse(
        "Monitor: eDP-1 BOE 0x0CB4 (eDP-1)\nWindow: notes (draft) - Kate (a1B2c3)\nnonsense\n",
    );
    assert_eq!(
        choices[0].source,
        Source::Screen {
            name: "eDP-1".into()
        }
    );
    // Brackets in a title don't fool it: the identifier is in the last pair.
    assert_eq!(
        choices[1].source,
        Source::Window {
            identifier: "a1B2c3".into()
        }
    );
    assert_eq!(choices[1].line, "Window: notes (draft) - Kate (a1B2c3)");
    assert_eq!(choices.len(), 2, "a line that names nothing isn't offered");
}

#[test]
fn a_line_that_names_nothing_is_left_out() {
    let choices = parse("Monitor:   \nWindow: no brackets\nWindow: empty ()\nWindow: open (x\r\nMonitor: \tHDMI-A-1\r\n");
    assert_eq!(choices.len(), 1);
    assert_eq!(choices[0].line, "Monitor: \tHDMI-A-1", "the line ending is not part of the line");
    assert_eq!(choices[0].source, Source::Screen { name: "HDMI-A-1".into() });
    assert!(parse("").is_empty());
}

#[test]
fn arrows_wrap_and_the_list_scrolls_with_them() {
    let mut picker = picker(12);
    assert_eq!(picker.key(Key::Up, false), Act::Nothing);
    assert_eq!(picker.selected(), 11, "up from the first wraps to the last");
    assert_eq!(picker.top(), 12 - VISIBLE, "and the last is in view");
    picker.key(Key::Down, false);
    assert_eq!((picker.selected(), picker.top()), (0, 0));
    assert_eq!(picker.key(Key::Return, false), Act::Share);
    assert_eq!(picker.key(Key::Escape, false), Act::Cancel);
}

#[test]
fn tab_moves_on_and_shift_tab_moves_back() {
    let mut picker = picker(3);
    picker.key(Key::Tab, false);
    assert_eq!(picker.selected(), 1);
    picker.key(Key::Tab, true);
    assert_eq!(picker.selected(), 0);
    picker.key(Key::LeftTab, false);
    assert_eq!(picker.selected(), 2);
    picker.key(Key::Home, false);
    assert_eq!(picker.selected(), 0);
    picker.key(Key::End, false);
    assert_eq!(picker.selected(), 2);
    assert_eq!(picker.key(Key::Other, false), Act::Nothing);
    assert_eq!(picker.selected(), 2);
}

#[test]
fn the_answer_is_the_portals_own_line_or_nothing() {
    let mut picker = picker(3);
    picker.key(Key::Down, false);
    assert_eq!(picker.answer_line(true).as_deref(), Some("Window: Title 1 (id1)\n"));
    assert_eq!(picker.answer_line(false), None);
    assert_eq!(Picker::new(Vec::new()).answer_line(true), None, "an empty list shares nothing");
}

#[test]
fn a_click_on_the_chosen_row_shares_it_and_on_another_chooses_that() {
    let mut picker = picker(3);
    assert_eq!(picker.click_row(2), Act::Nothing);
    assert_eq!(picker.selected(), 2);
    assert_eq!(picker.click_row(2), Act::Share);
    assert_eq!(picker.chosen().map(|c| c.line.as_str()), Some("Window: Title 2 (id2)"));
    assert_eq!(picker.click_row(7), Act::Nothing, "past the end is the last row");
    assert_eq!(picker.selected(), 2);
}

#[test]
fn typing_filters_and_esc_clears_the_filter_then_closes() {
    let mut sheet = Sheet::new();
    sheet.open();
    sheet.key(SheetKey::Other, Some('k'), 5);
    assert_eq!(sheet.query(), "k");
    sheet.key(SheetKey::Other, Some('\u{7}'), 5);
    assert_eq!(sheet.query(), "k", "a control character types nothing");
    sheet.key(SheetKey::BackSpace, None, 5);
    assert_eq!(sheet.query(), "");
    sheet.key(SheetKey::Other, Some('m'), 5);
    assert!(matches!(sheet.key(SheetKey::Escape, None, 5), Outcome::Nothing));
    assert!(matches!(sheet.key(SheetKey::Escape, None, 5), Outcome::Close));
}

#[test]
fn the_tour_steps_through_its_lessons_and_back_to_the_list() {
    let mut sheet = Sheet::new();
    sheet.open();
    sheet.key(SheetKey::Return, None, 2);
    assert_eq!(sheet.lesson_showing(), Some(0));
    sheet.key(SheetKey::Left, None, 2);
    assert_eq!(sheet.lesson_showing(), Some(0));
    sheet.key(SheetKey::Right, None, 2);
    assert_eq!(sheet.lesson_showing(), Some(1));
    sheet.key(SheetKey::Down, None, 2);
    assert!(!sheet.touring(), "past the last lesson it goes back to the list");
    assert!(sheet.is_open());
}

fn row(keys: &[&str], does: &str, binding: u32) -> Row<u32> {
    Row {
        keys: keys.iter().map(|key| key.to_string()).collect(),
        does: does.to_string(),
        bindings: vec![binding],
    }
}

fn sample() -> Vec<Section<u8, u32>> {
    vec![
        Section {
            group: 0,
            rows: vec![
                row(&["Super+M"], "minimise to the code rain", 1),
                row(&["Super+Shift+M"], "bring back the last minimised", 2),
                row(&["Super+Q"], "close", 3),
            ],
        },
        Section { group: 1, rows: vec![row(&["Super+F"], "maximise", 4)] },
        Section { group: 2, rows: vec![row(&["Super+N"], "Minimise", 5), row(&["Esc"], "back out", 6)] },
    ]
}

#[test]
fn typing_filters_the_rows_by_what_they_do_and_their_keys() {
    let found = filtered(sample(), "  MINIM ");
    let rows: Vec<&str> = found.iter().flat_map(|section| &section.rows).map(|row| row.does.as_str()).collect();
    assert_eq!(rows, ["minimise to the code rain", "bring back the last minimised", "Minimise"]);
    let groups: Vec<u8> = found.iter().map(|section| section.group).collect();
    assert_eq!(groups, [0, 2], "a section left with no rows goes");
    assert_eq!(found[1].rows[0].bindings, [5]);
    let by_key = filtered(sample(), "esc");
    assert_eq!(by_key.len(), 1);
    assert_eq!(by_key[0].rows[0].does, "back out");
    assert!(filtered(sample(), "nothing like this").is_empty());
    assert_eq!(filtered(sample(), "   "), sample(), "nothing typed leaves every row");
}
