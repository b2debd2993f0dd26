use slipstream::screencopy::Screencopy;
use slipstream::layout::Rect;
use slipstream::screenshot::{cropped, file_name, folder_in, numbered, Size};

#[test]
fn the_name_is_dated() {
    assert_eq!(
        file_name([2026, 3, 7, 9, 5, 2]),
        "Screenshot_2026-03-07_09-05-02.png"
    );
}

#[test]
fn the_folder_comes_from_user_dirs() {
    let home = "/home/alex";
    let dirs = "# written by xdg-user-dirs-update\n\
                XDG_DESKTOP_DIR=\"$HOME/Desktop\"\n\
                XDG_PICTURES_DIR=\"$HOME/Bilder\"\n";
    assert_eq!(folder_in(Some(dirs), home), "/home/alex/Bilder/Screenshots");
    assert_eq!(
        folder_in(Some("XDG_PICTURES_DIR=\"/srv/photos\"\n"), home),
        "/srv/photos/Screenshots"
    );
    assert_eq!(
        folder_in(Some("XDG_PICTURES_DIR=\"$HOME/\"\n"), home),
        "/home/alex/Pictures/Screenshots",
        "not the home folder itself"
    );
    assert_eq!(folder_in(None, home), "/home/alex/Pictures/Screenshots");
}

#[test]
fn a_line_that_names_no_folder_is_passed_over() {
    let home = "/home/alex";
    let dirs = "XDG_PICTURES_DIR=\"Pictures\"\n  XDG_PICTURES_DIR = \"/x\"\n\tXDG_PICTURES_DIR=\"\"/srv/a\"\"  \r\n";
    assert_eq!(folder_in(Some(dirs), home), "/srv/a/Screenshots");
    assert_eq!(
        folder_in(Some("XDG_PICTURES_DIR=\"/home/alex\"\nXDG_PICTURES_DIR=\"$HOME//Fotos\""), home),
        "/home/alex/Fotos/Screenshots"
    );
}

#[test]
fn a_second_screenshot_in_the_same_second_is_numbered() {
    let name = "Screenshot_2026-03-07_09-05-02.png";
    assert_eq!(numbered(name, 1), name);
    assert_eq!(numbered(name, 2), "Screenshot_2026-03-07_09-05-02_2.png");
    assert_eq!(numbered("a.png.png", 13), "a_13.png");
    assert_eq!(numbered("shot", 3), "shot_3.png");
}

#[test]
fn a_window_is_cut_from_its_screen_and_clipped_to_it() {
    let size = Size { w: 4, h: 3 };
    let pixels: Vec<u8> = (0..12u8).flat_map(|i| [i, i, i, 255]).collect();
    let (out, w, h) =
        cropped(&pixels, size, Rect { x: 1, y: 1, w: 2, h: 2 }).expect("inside");
    assert_eq!((w, h), (2, 2));
    assert_eq!(
        out.chunks(4).map(|p| p[0]).collect::<Vec<_>>(),
        [5, 6, 9, 10]
    );
    let (_, w, h) = cropped(&pixels, size, Rect { x: 3, y: -1, w: 5, h: 2 }).expect("partly inside");
    assert_eq!((w, h), (1, 1));
    assert!(cropped(&pixels, size, Rect { x: 9, y: 9, w: 2, h: 2 }).is_none());
    assert!(cropped(&pixels, size, Rect { x: i32::MAX, y: 0, w: i32::MAX, h: 1 }).is_none());
}

#[test]
fn allowing_a_program_once_lists_it_once() {
    let mut screencopy = Screencopy::new();
    let grim = "/usr/bin/grim".to_string();
    assert!(!screencopy.allowed_once(&grim));
    screencopy.allow_once(grim.clone());
    screencopy.allow_once(grim.clone());
    assert_eq!(screencopy.once(), &vec![grim.clone()]);
    assert!(screencopy.allowed_once(&grim));
    assert!(screencopy.allowed_once("/usr/bin//grim"), "the same place, written otherwise");
    // A program of the same name somewhere else is a different program.
    assert!(!screencopy.allowed_once("/home/someone/bin/grim"));
}
