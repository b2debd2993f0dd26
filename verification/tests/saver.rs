use slipstream::saver::turns::Saver;
use slipstream::saver::circuit::{joint, route, Step};
use slipstream::saver::departures::{clock_digits, info_line, places, position};
use slipstream::saver::frost::{bounce, Glass};
use slipstream::saver::maze::carve;
use slipstream::saver::preview::shrink;
use slipstream::saver::prompt::{slips, typed, PAUSE_KEYS};
use slipstream::saver::slipstream::{effects, Arrive, Leave};
use slipstream::saver::{art, art_width, blank, braille, fill, hash24, next_random, Grid, Layout, Readings};

#[test]
fn braille_patterns_put_their_dots_where_they_are_asked() {
    assert_eq!(braille(0), '\u{2800}');
    assert_eq!(braille(0b1), '⠁');
    assert_eq!(braille(0b10), '⠈');
    assert_eq!(braille(0b1100_0000), '⣀');
    assert_eq!(braille(0xff), '⣿');
}

#[test]
fn a_track_runs_from_the_edge_of_the_screen_to_its_pad_one_leg_at_a_time() {
    let steps = route(&[(0, 5), (6, 8), (10, 9)]);
    assert_eq!(steps.first().map(|s| (s.col, s.row)), Some((0, 5)));
    assert_eq!(steps.last().map(|s| (s.col, s.row)), Some((10, 9)));
    for pair in steps.windows(2) {
        let (a, b) = (pair[0], pair[1]);
        assert_eq!(
            (a.col - b.col).abs() + (a.row - b.row).abs(),
            1,
            "each step is one cell from the last"
        );
    }
    assert!(
        steps.iter().any(|step| step.ch == '┐' || step.ch == '┘'),
        "it turns a corner on the way"
    );
}

#[test]
fn a_track_turns_its_corners_with_the_right_joints() {
    let steps = route(&[(0, 0), (2, 2)]);
    let chars: String = steps.iter().map(|s| s.ch).collect();
    assert_eq!(chars, "──┐││");
    assert_eq!(steps[2], Step { col: 2, row: 0, ch: '┐' });
    assert!(route(&[]).is_empty());
    assert_eq!(route(&[(3, 4)]), vec![Step { col: 3, row: 4, ch: '─' }]);
    assert_eq!(joint((-1, 0), (0, -1)), '└');
    assert_eq!(joint((0, 1), (-1, 0)), '┘');
    assert_eq!(joint((0, -1), (1, 0)), '┌');
    assert_eq!(joint((0, 1), (0, 1)), '│');
}

#[test]
fn the_maze_is_connected_and_the_way_runs_through_open_squares() {
    for seed in 0..20 {
        let (map, way) = carve(seed);
        assert!(way.len() > 8, "a long way: {}", way.len());
        assert_eq!(way[0], (0, 0));
        for pair in way.windows(2) {
            let (a, b) = (pair[0], pair[1]);
            let between = ((a.0 + b.0 + 1) as i32, (a.1 + b.1 + 1) as i32);
            assert!(!map.solid(between.0, between.1), "the wall between is open");
            assert_eq!(a.0.abs_diff(b.0) + a.1.abs_diff(b.1), 1);
        }
    }
}

#[test]
fn the_maze_is_walled_round_and_every_cell_is_reached() {
    let (map, _) = carve(7);
    assert_eq!((map.w, map.h), (17, 13));
    for x in -1..18 {
        assert!(map.solid(x, 0) && map.solid(x, 12));
    }
    for y in 0..13 {
        assert!(map.solid(0, y) && map.solid(16, y));
    }
    for cy in 0..6 {
        for cx in 0..8 {
            assert!(!map.solid(cx * 2 + 1, cy * 2 + 1), "cell {cx}, {cy} is open");
        }
    }
    assert_eq!(carve(7).1, carve(7).1, "the same seed carves the same maze");
}

#[test]
fn the_way_ends_at_a_cell_furthest_from_the_start() {
    for seed in [0u64, 3, 11] {
        let (map, way) = carve(seed);
        // Distances from the first cell through open walls, breadth first.
        let mut dist = vec![usize::MAX; 48];
        dist[0] = 0;
        let mut queue = vec![(0i32, 0i32)];
        let mut at = 0;
        while at < queue.len() {
            let (x, y) = queue[at];
            at += 1;
            for (dx, dy) in [(1i32, 0i32), (-1, 0), (0, 1), (0, -1)] {
                let (nx, ny) = (x + dx, y + dy);
                if nx < 0 || ny < 0 || nx >= 8 || ny >= 6 {
                    continue;
                }
                if map.solid(x + nx + 1, y + ny + 1) {
                    continue;
                }
                let n = (ny * 8 + nx) as usize;
                if dist[n] == usize::MAX {
                    dist[n] = dist[(y * 8 + x) as usize] + 1;
                    queue.push((nx, ny));
                }
            }
        }
        assert!(dist.iter().all(|&d| d != usize::MAX), "every cell is reached");
        let furthest = *dist.iter().max().unwrap();
        let last = way[way.len() - 1];
        assert_eq!(way.len() - 1, furthest);
        assert_eq!(dist[last.1 * 8 + last.0], furthest);
    }
}

#[test]
fn a_block_shrinks_to_its_average() {
    let pixels = [
        0, 0, 0, 255, 100, 100, 100, 255, //
        200, 200, 200, 255, 100, 60, 20, 255,
    ];
    let mut small = [0u8; 4];
    shrink(&pixels, 2, 2, &mut small, 1, 1);
    assert_eq!(small, [100, 90, 80, 255]);
}

#[test]
fn a_picture_shrinks_block_by_block_and_leaves_the_rest() {
    let pixels: Vec<u8> = (0..16u8).flat_map(|i| [i * 10, i, 0, 255]).collect();
    let mut small = [7u8; 12];
    shrink(&pixels, 4, 2, &mut small, 2, 1);
    assert_eq!(&small[..8], &[25, 2, 0, 255, 45, 4, 0, 255]);
    assert_eq!(&small[8..], &[7, 7, 7, 7]);
}

#[test]
fn bounced_values_stay_on_the_board() {
    assert_eq!(bounce(-3, 10), 3);
    assert_eq!(bounce(-30, 10), 9);
    assert_eq!(bounce(12, 10), 6);
    assert_eq!(bounce(40, 10), 0);
    assert_eq!(bounce(4, 10), 4);
    for v in -50..50 {
        let b = bounce(v, 7);
        assert!((0..7).contains(&b), "{v} went to {b}");
    }
}

#[test]
fn each_cycle_takes_the_next_way_in_and_out() {
    assert_eq!(effects(0), (Arrive::Draft, Leave::Wake));
    assert_eq!(effects(1), (Arrive::Crosswind, Leave::Scatter));
    assert_eq!(effects(2), (Arrive::Shock, Leave::Wake));
    assert_eq!(effects(5), (Arrive::Shock, Leave::Scatter));
}

#[test]
fn the_typist_slips_in_the_second_turn_and_every_third_after() {
    let slipped: Vec<u64> = (0..10).filter(|&turn| slips(turn)).collect();
    assert_eq!(slipped, [1, 4, 7]);
}

#[test]
fn a_flap_finds_its_character_in_its_set() {
    let digits = ['0', '1', '2', '3', '4', '5', '6', '7', '8', '9'];
    assert_eq!(position(&digits, '7'), Some(7));
    assert_eq!(position(&digits, 'x'), None);
    assert_eq!(position(&['a', 'b', 'a'], 'a'), Some(0));
}

fn layout(logo: (i32, i32, i32, i32)) -> Layout {
    Layout {
        cols: 160,
        rows: 60,
        cell_w: 12,
        cell_h: 24,
        origin: (0, 0),
        letters: Vec::new(),
        logo,
    }
}

#[test]
fn the_board_goes_above_the_logo_when_there_is_room_and_below_it_otherwise() {
    assert_eq!(places(&layout((20, 30, 120, 6))), ((53, 15), (20, 27)));
    assert_eq!(places(&layout((20, 10, 120, 6))), ((53, 21), (20, 19)));
    assert_eq!(places(&layout((20, 30, 40, 6))), ((13, 15), (20, 27)), "a narrow logo");
}

fn readings() -> Readings {
    Readings {
        time: "09:41".into(),
        date: "Sat 12 Sep".into(),
        place: "Mail".into(),
        battery: Some((84, false)),
    }
}

#[test]
fn the_small_flaps_carry_the_date_the_workspace_and_the_battery() {
    let line: String = info_line(&readings(), 40).into_iter().collect();
    assert_eq!(line, "SAT 12 SEP        MAIL       BATTERY 84%");
    let numbered = Readings { place: "3".into(), ..readings() };
    let line: String = info_line(&numbered, 121).into_iter().collect();
    assert!(line.contains("WORKSPACE 3"), "{line:?}");
    let charging = Readings { battery: Some((100, true)), place: "Photos".into(), ..readings() };
    let line: String = info_line(&charging, 40).into_iter().collect();
    assert!(line.ends_with("CHARGING 100%"), "{line:?}");
    let cramped: String = info_line(&readings(), 24).into_iter().collect();
    assert_eq!(cramped.chars().count(), 24);
    assert!(!cramped.contains("MAIL"), "no room is left for the workspace: {cramped:?}");
    assert!(info_line(&readings(), 0).is_empty());
}

#[test]
fn a_grid_starts_blank_and_blanks_to_its_new_size() {
    let mut grid = Grid::new(3, 2);
    assert_eq!(grid.cells.len(), 6);
    assert!(grid.cells.iter().all(|cell| *cell == blank()));
    grid.cells[0].ch = 'x';
    grid.blank(4, 4);
    assert_eq!((grid.cols, grid.rows, grid.cells.len()), (4, 4, 16));
    assert!(grid.cells.iter().all(|cell| cell.ch == ' ' && cell.rgb == [11, 14, 19]));
    assert!(Grid::new(-2, 5).cells.is_empty());
}

#[test]
fn text_art_is_read_a_line_at_a_time() {
    let lines = art("ab\r\n\ncde\n");
    assert_eq!(lines, vec![vec!['a', 'b'], vec![], vec!['c', 'd', 'e']]);
    assert_eq!(art_width(&lines), 3);
    assert_eq!(art_width(&[]), 1);
}

#[test]
fn the_random_numbers_follow_splitmix() {
    let mut state = 0u64;
    assert_eq!(next_random(&mut state), 0xe220_a839_7b1d_cdaf);
    assert_eq!(state, 0x9e37_79b9_7f4a_7c15);
    assert_eq!(next_random(&mut state), 0x6e78_9e6a_a1b9_65f4);
    assert_eq!(hash24(0), 0xe220a8);
}

#[test]
fn a_slip_is_typed_rubbed_out_and_put_right_key_by_key() {
    let text = "$ slipstream --session";
    let at = |keys: usize| typed(text, keys, true).0;
    assert_eq!(at(9), "$ slipstr");
    assert_eq!(at(11), "$ slipstrae", "the fingers slip");
    assert_eq!(at(11 + PAUSE_KEYS), "$ slipstrae", "and it sits there");
    assert_eq!(at(12 + PAUSE_KEYS), "$ slipstra");
    assert_eq!(at(13 + PAUSE_KEYS), "$ slipstr", "rubbed out");
    assert_eq!(at(15 + PAUSE_KEYS), "$ slipstrea");
    let (done, typing) = typed(text, 380, true);
    assert_eq!(done, text, "and put right");
    assert!(!typing);
    assert_eq!(typed(text, 380, false), (text.to_string(), false));
    assert_eq!(typed(text, 5, false), ("$ sli".to_string(), true));
    assert_eq!(typed("$ ls", 2, true), ("$ ".to_string(), true), "too short to slip on");
    // A third of turns, never the first, so a fresh screen starts clean.
    let slipped = (0..300).filter(|&turn| slips(turn)).count();
    assert_eq!(slipped, 100);
    assert!(!slips(0));
}

fn board(cols: i32, rows: i32, living: &[(i32, i32)]) -> slipstream::saver::life::Board {
    let mut alive = vec![false; (cols * rows) as usize];
    for &(c, r) in living {
        alive[(r * cols + c) as usize] = true;
    }
    slipstream::saver::life::Board {
        cols,
        rows,
        age: vec![0; alive.len()],
        population: living.len(),
        alive,
        since_spark: 0,
    }
}

#[test]
fn a_blinker_turns_on_its_middle_and_a_block_stays_put() {
    let mut blinker = board(5, 5, &[(1, 2), (2, 2), (3, 2)]);
    assert_eq!(blinker.neighbours(2, 2), 2);
    assert_eq!(blinker.neighbours(2, 1), 3);
    blinker.generation();
    let living: Vec<(i32, i32)> = (0..25)
        .filter(|&i| blinker.alive[i as usize])
        .map(|i| (i % 5, i / 5))
        .collect();
    assert_eq!(living, [(2, 1), (2, 2), (2, 3)]);
    assert_eq!(blinker.age[(2 * 5 + 2) as usize], 1, "the middle carried on");
    assert_eq!(blinker.age[(1 * 5 + 2) as usize], 0, "the others are new");
    assert_eq!((blinker.population, blinker.since_spark), (3, 1));
    let mut block = board(4, 4, &[(1, 1), (2, 1), (1, 2), (2, 2)]);
    let before = block.alive.clone();
    block.generation();
    assert_eq!(block.alive, before);
    assert!(!block.at(-1, 0) && !block.at(4, 1), "nothing off the board is alive");
}

#[test]
fn variations_take_turns_in_a_shuffled_order() {
    let mut saver = Saver::new(vec![0, 1, 2, 3, 4], 7);
    let mut shown = vec![saver.current()];
    for _ in 0..40 {
        let next = saver.next_index();
        assert!(saver.change_to(next));
        shown.push(saver.current());
    }
    for pair in shown.windows(2) {
        assert_ne!(pair[0], pair[1], "none follows itself");
    }
    // Each round is the four not showing when it was dealt, each once.
    for (at, round) in shown[1..].chunks(4).enumerate() {
        let mut ids = round.to_vec();
        ids.sort_unstable();
        ids.dedup();
        assert_eq!(ids.len(), 4, "each takes a turn before any comes back: {shown:?}");
        assert!(!round.contains(&shown[at * 4]), "{shown:?}");
    }
    let in_file_order = shown.windows(2).all(|pair| pair[1] == (pair[0] + 1) % 5);
    assert!(!in_file_order, "the order is shuffled: {shown:?}");
}

#[test]
fn ticking_a_variation_on_shows_it_at_once() {
    let mut saver = Saver::new(vec![0], 3);
    assert_eq!(saver.current(), 0);
    assert!(saver.set_wallpaper(vec![0, 1]), "the one just added");
    assert_eq!(saver.current(), 1);
    // Unticking the other one leaves what's on screen alone.
    assert!(!saver.set_wallpaper(vec![1]));
    assert_eq!((saver.current(), saver.index()), (1, 0));
    assert!(saver.set_wallpaper(vec![2, 3]), "nothing chosen is on screen");
    assert_eq!(saver.current(), 2);
    saver.show(4);
    assert_eq!((saver.current(), saver.chosen().clone()), (4, vec![4]));
    assert!(!saver.change_to(3), "there is no fourth");
}

#[test]
fn the_local_clocks_offset_comes_from_the_reading_against_utc() {
    let at = |time: &str| Readings {
        time: time.into(),
        ..Default::default()
    };
    // 12:00 UTC.
    let utc = 720;
    assert_eq!(at("12:00").utc_offset(utc), Some(0));
    assert_eq!(at("13:00").utc_offset(utc), Some(60), "summer time");
    assert_eq!(at("17:30").utc_offset(utc), Some(330), "India");
    assert_eq!(at("07:00").utc_offset(utc), Some(-300), "New York");
    // The reading lags the clock by a second or two, across a minute.
    assert_eq!(at("13:00").utc_offset(utc + 1), Some(60));
    assert_eq!(at(" 13 : 00 ").utc_offset(utc), Some(60), "white space round the numbers");
    assert_eq!(at("").utc_offset(utc), None);
    assert_eq!(at("not a time").utc_offset(utc), None);
    assert_eq!(at("12:3x").utc_offset(utc), None);
}

#[test]
fn the_board_clock_reads_the_local_clock_or_else_the_bar() {
    let readings = Readings { time: "09:41".into(), ..Default::default() };
    assert_eq!(clock_digits(&readings, None), Some(['0', '9', '4', '1']));
    // Ten to eleven, some days after the epoch.
    let local = 20_000 * 1440 + 22 * 60 + 50;
    assert_eq!(clock_digits(&readings, Some(local)), Some(['2', '2', '5', '0']));
    assert_eq!(clock_digits(&readings, Some(-1)), Some(['2', '3', '5', '9']), "a minute before the epoch");
    let nonsense = Readings { time: "soon".into(), ..Default::default() };
    assert_eq!(clock_digits(&nonsense, None), None);
    let signed = Readings { time: "+7:-3".into(), ..Default::default() };
    assert_eq!(clock_digits(&signed, None), Some(['0', '7', '0', '7']));
}

#[test]
fn a_fill_paints_its_rectangle_solid_and_nothing_else() {

    let mut pixels = vec![0u8; 4 * 3 * 4];
    fill(&mut pixels, 4, 1, 1, 2, 2, [10, 20, 30]);
    let painted: Vec<usize> = (0..12).filter(|p| pixels[p * 4 + 3] == 255).collect();
    assert_eq!(painted, [5, 6, 9, 10]);
    assert_eq!(&pixels[20..24], &[10, 20, 30, 255]);
    assert_eq!(&pixels[0..4], &[0, 0, 0, 0]);
    fill(&mut pixels, 4, 0, 0, 0, 3, [1, 1, 1]);
    assert_eq!(pixels.iter().filter(|b| **b == 1).count(), 0, "a fill no columns wide paints nothing");
}

fn glass_with(ice_at: &[(usize, usize)]) -> Glass {
    let (w, h) = (20usize, 12usize);
    let mut ice = vec![0u32; w * h];
    let mut blocks = vec![0u16; 3 * 2];
    for &(x, y) in ice_at {
        ice[y * w + x] = 1;
        blocks[(y / 8) * 3 + x / 8] += 1;
    }
    Glass { w, h, ice, blocks }
}

#[test]
fn a_speck_is_near_ice_in_its_block_or_the_blocks_round_it() {
    let glass = glass_with(&[(17, 3)]);
    assert!(!glass.near(1, 1), "two blocks away");
    assert!(glass.near(9, 1), "the next block");
    assert!(glass.near(19, 11), "the block below");
    let corner = glass_with(&[(1, 1)]);
    assert!(corner.near(-9, 1), "-9 / 8 rounds towards zero, to the block beside");
    assert!(!corner.near(-17, 1));
    assert!(!glass_with(&[]).near(5, 5));
}

#[test]
fn a_speck_touches_the_first_frozen_neighbour_in_order() {
    let glass = glass_with(&[(5, 5)]);
    assert_eq!(glass.touching(4, 5), Some(5 * 20 + 5));
    assert_eq!(glass.touching(6, 6), Some(5 * 20 + 5), "the last corner looked at");
    assert_eq!(glass.touching(8, 8), None);
    let two = glass_with(&[(5, 5), (7, 6)]);
    assert_eq!(two.touching(6, 6), Some(6 * 20 + 7), "right comes before the corners");
    assert_eq!(two.touching(-1, 0), None);
}

#[test]
fn with_nothing_chosen_the_slipstream_variation_shows() {
    let saver = Saver::new(Vec::new(), 9);
    assert_eq!((saver.current(), saver.index()), (0, 0));
    let mut saver = Saver::new(vec![3, 4], 9);
    let before = saver.current();
    assert!(!saver.set_wallpaper(Vec::new()), "nothing takes over");
    assert_eq!(saver.current(), before);
    assert!(saver.chosen().is_empty());
}
