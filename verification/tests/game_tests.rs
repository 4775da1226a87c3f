use lifegame::game::Game;
use lifegame::ppair::{pack, unpack};
use lifegame::timing::Timestamp;

fn live(g: &Game) -> Vec<(i32, i32)> {
    let mut v: Vec<(i32, i32)> = g.live_cells().into_iter().map(unpack).collect();
    v.sort();
    v
}

fn marked(g: &Game) -> Vec<(i32, i32)> {
    let mut v: Vec<(i32, i32)> = g.marked_cells().into_iter().map(unpack).collect();
    v.sort();
    v
}

fn count_at(g: &Game, x: i32, y: i32) -> Option<u8> {
    g.neighbour_count(&pack(x, y))
}

fn with_cells(cells: &[(i32, i32)]) -> Game {
    let mut g = Game::default();
    for &(x, y) in cells {
        g.addcell(pack(x, y));
    }
    g
}

fn sorted(mut v: Vec<(i32, i32)>) -> Vec<(i32, i32)> {
    v.sort();
    v
}

#[test]
fn default_game_is_empty() {
    let g = Game::default();
    assert_eq!(g.cell_count(), 0);
    assert_eq!(g.marked_count(), 0);
    assert_eq!(g.bounds, ((-50, -50), (50, 50)));
    assert_eq!(g.lifetime, 0);
    assert_eq!(g.prevgen, 0);
    assert!(g.nrcells.0.is_empty() && g.nrcells.1.is_empty());
}

#[test]
fn new_is_default() {
    let g = Game::new();
    assert_eq!(g.cell_count(), 0);
    assert_eq!(g.bounds, ((-50, -50), (50, 50)));
}

#[test]
fn addcell_marks_block_and_counts_neighbours() {
    let g = with_cells(&[(0, 0)]);
    assert_eq!(live(&g), vec![(0, 0)]);
    let mut block = Vec::new();
    for x in -1..=1 {
        for y in -1..=1 {
            block.push((x, y));
        }
    }
    assert_eq!(marked(&g), sorted(block));
    assert_eq!(count_at(&g, 0, 0), None);
    assert_eq!(count_at(&g, 1, 1), Some(1));
    assert_eq!(count_at(&g, -1, 0), Some(1));
    assert_eq!(count_at(&g, 2, 0), None);
}

#[test]
fn addcell_twice_changes_nothing() {
    let mut g = with_cells(&[(3, 4)]);
    g.addcell(pack(3, 4));
    assert_eq!(live(&g), vec![(3, 4)]);
    assert_eq!(count_at(&g, 4, 4), Some(1));
}

#[test]
fn counts_add_up() {
    let g = with_cells(&[(0, 0), (1, 0), (2, 0)]);
    assert_eq!(count_at(&g, 1, 1), Some(3));
    assert_eq!(count_at(&g, 1, 0), Some(2));
    assert_eq!(count_at(&g, 0, 0), Some(1));
    assert_eq!(count_at(&g, 3, 0), Some(1));
    assert_eq!(count_at(&g, 4, 0), None);
}

#[test]
fn removecell_lowers_counts_and_drops_zeroes() {
    let mut g = with_cells(&[(0, 0), (1, 0)]);
    g.removecell(&pack(1, 0));
    assert_eq!(live(&g), vec![(0, 0)]);
    assert_eq!(count_at(&g, 1, 0), Some(1));
    assert_eq!(count_at(&g, 0, 0), None);
    assert_eq!(count_at(&g, 2, 0), None);
}

#[test]
fn removecell_of_dead_cell_changes_nothing() {
    let mut g = with_cells(&[(0, 0)]);
    g.removecell(&pack(5, 5));
    assert_eq!(live(&g), vec![(0, 0)]);
    assert_eq!(count_at(&g, 1, 0), Some(1));
}

#[test]
fn add_then_remove_restores_counts() {
    let mut g = with_cells(&[(0, 0), (2, 0)]);
    let before: Vec<Option<u8>> = (-2..=4).flat_map(|x| (-2..=2).map(move |y| (x, y))).map(|(x, y)| count_at(&g, x, y)).collect();
    g.addcell(pack(1, 1));
    g.removecell(&pack(1, 1));
    let after: Vec<Option<u8>> = (-2..=4).flat_map(|x| (-2..=2).map(move |y| (x, y))).map(|(x, y)| count_at(&g, x, y)).collect();
    assert_eq!(before, after);
    assert_eq!(live(&g), vec![(0, 0), (2, 0)]);
}

#[test]
fn activearound_marks_block() {
    let mut g = Game::default();
    g.activearound(&pack(10, -10));
    assert_eq!(marked(&g).len(), 9);
    assert!(g.is_marked(&pack(11, -9)));
    assert!(g.is_marked(&pack(9, -11)));
    assert_eq!(g.cell_count(), 0);
}

#[test]
fn insertglider_adds_five_cells() {
    let mut g = Game::default();
    g.insertglider();
    assert_eq!(live(&g), vec![(0, 1), (1, 0), (2, 0), (2, 1), (2, 2)]);
}

#[test]
fn lonely_cell_dies() {
    let mut g = with_cells(&[(7, 7)]);
    g.processactives();
    assert!(live(&g).is_empty());
    assert_eq!(g.lifetime, 1);
}

#[test]
fn block_is_still() {
    let cells = [(0, 0), (0, 1), (1, 0), (1, 1)];
    let mut g = with_cells(&cells);
    for _ in 0..5 {
        g.processactives();
        assert_eq!(live(&g), cells.to_vec());
    }
    assert_eq!(g.lifetime, 5);
}

#[test]
fn blinker_has_period_two() {
    let mut g = with_cells(&[(0, 0), (1, 0), (2, 0)]);
    g.processactives();
    assert_eq!(live(&g), vec![(1, -1), (1, 0), (1, 1)]);
    g.processactives();
    assert_eq!(live(&g), vec![(0, 0), (1, 0), (2, 0)]);
}

#[test]
fn glider_moves_after_four_generations() {
    let mut g = Game::default();
    g.insertglider();
    for _ in 0..4 {
        g.processactives();
    }
    assert_eq!(live(&g), vec![(1, 0), (2, -1), (3, -1), (3, 0), (3, 1)]);
}

#[test]
fn counts_stay_right_after_generations() {
    let mut g = Game::default();
    g.insertglider();
    for _ in 0..3 {
        g.processactives();
    }
    let cells = live(&g);
    for x in -3..=6 {
        for y in -4..=4 {
            let n = cells.iter().filter(|&&(a, b)| (a, b) != (x, y) && (a - x).abs() <= 1 && (b - y).abs() <= 1).count() as u8;
            let want = if n == 0 { None } else { Some(n) };
            assert_eq!(count_at(&g, x, y), want, "count at ({}, {})", x, y);
        }
    }
}

#[test]
fn processactives_old_agrees_with_processactives() {
    let start = [(0, 0), (1, 0), (2, 0), (2, 1), (1, 2), (5, 5), (6, 5), (5, 6), (6, 6), (-3, 4)];
    let mut a = with_cells(&start);
    let mut b = with_cells(&start);
    for _ in 0..6 {
        a.processactives();
        b.processactives_old();
        assert_eq!(live(&a), live(&b));
        assert_eq!(a.lifetime, b.lifetime);
    }
}

#[test]
fn advancelife_counts_generations() {
    let mut g = Game::default();
    g.advancelife();
    g.advancelife();
    assert_eq!(g.lifetime, 2);
}

#[test]
fn handleinput_scatters_cells_inside_view() {
    let mut g = Game::default();
    g.bounds = ((-3, -2), (4, 5));
    g.handleinput();
    let cells = live(&g);
    assert!(!cells.is_empty());
    assert!(cells.len() <= 4000);
    for (x, y) in cells {
        assert!(-3 <= x && x <= 4 && -2 <= y && y <= 5);
    }
}

#[test]
fn incbounds_moves_edges_within_steps() {
    for _ in 0..50 {
        let mut g = Game::default();
        g.incbounds();
        let ((l, b), (r, t)) = g.bounds;
        assert!(-55 <= l && l <= -46, "left {}", l);
        assert!(-52 <= b && b <= -49, "bottom {}", b);
        assert!(r >= l + 10 && t >= b + 10);
        assert!(46 <= r && r <= 56, "right {}", r);
        assert!(49 <= t && t <= 53, "top {}", t);
    }
}

#[test]
fn incbounds_widens_narrow_view() {
    let mut g = Game::default();
    g.bounds = ((0, 0), (0, 0));
    g.incbounds();
    let ((l, b), (r, t)) = g.bounds;
    assert_eq!(r, (l + 10).max(r));
    assert!(r - l >= 10 && t - b >= 10);
}

#[test]
fn debuginfo_describes_game() {
    let g = with_cells(&[(0, 0)]);
    assert_eq!(g.debuginfo(), "Cells: 1, Active: 9, Lifetime: 0, Bounds: ((-50, -50), (50, 50))");
}

fn terminal_frame(g: &mut Game, elapsed_ms: u128) -> Option<(i32, i32)> {
    g.loopgame_step();
    assert!(g.loopgame_fits(elapsed_ms));
    let r = g.loopgame(elapsed_ms);
    g.loopgame_end(r.is_some());
    r
}

#[test]
fn loopgame_reports_rates_after_200_ms() {
    let mut g = with_cells(&[(0, 0), (0, 1), (1, 0), (1, 1)]);
    g.bounds = ((0, 0), (1, 1));
    let r = terminal_frame(&mut g, 250);
    assert_eq!(r, Some((4, 250)));
    assert_eq!(g.prevgen, 1);
    assert_eq!(g.lifetime, 2);
    // generation 1 scatters cells, but only inside the view
    for (x, y) in live(&g) {
        assert!(0 <= x && x <= 1 && 0 <= y && y <= 1);
    }
}

#[test]
fn loopgame_quiet_before_200_ms() {
    let mut g = with_cells(&[(0, 0), (0, 1), (1, 0), (1, 1)]);
    g.lifetime = 5;
    let r = terminal_frame(&mut g, 199);
    assert_eq!(r, None);
    assert_eq!(g.prevgen, 0);
    assert_eq!(g.lifetime, 7);
    assert_eq!(live(&g), vec![(0, 0), (0, 1), (1, 0), (1, 1)]);
}

#[test]
fn loopgame_rates_count_generations_since_last_frame() {
    let mut g = with_cells(&[(0, 0), (0, 1), (1, 0), (1, 1)]);
    g.lifetime = 10;
    g.prevgen = 6;
    let r = g.loopgame(400);
    assert_eq!(r, Some((10, 100)));
    assert_eq!(g.prevgen, 6);
    g.loopgame_end(true);
    assert_eq!(g.prevgen, 10);
    assert_eq!(g.lifetime, 11);
}

#[test]
fn loopgame_seeds_in_generation_101() {
    let mut g = Game::default();
    g.bounds = ((3, 3), (5, 5));
    g.lifetime = 101;
    assert_eq!(g.loopgame(10), None);
    let cells = live(&g);
    assert!(!cells.is_empty() && cells.len() <= 9);
    assert!(cells.iter().all(|&(x, y)| (3..=5).contains(&x) && (3..=5).contains(&y)));
    assert_eq!(g.lifetime, 101);
}

#[test]
fn loopgame_fits_rejects_zero_generations() {
    let mut g = Game::default();
    g.lifetime = 5;
    g.prevgen = 5;
    assert!(!g.loopgame_fits(300));
    assert!(g.loopgame_fits(100));
    g.lifetime = i32::MAX;
    assert!(!g.loopgame_fits(100));
}

#[test]
fn timestamp_laps() {
    let mut ts = Timestamp::new();
    ts.bump();
    let d = ts.stamp();
    assert!(d.as_secs() < 60);
    let d2 = ts.stamp();
    assert!(d2.as_secs() < 60);
}

fn block_of_changed(before: &[(i32, i32)], after: &[(i32, i32)]) -> Vec<(i32, i32)> {
    let mut changed: Vec<(i32, i32)> = Vec::new();
    for c in before.iter().chain(after.iter()) {
        if before.contains(c) != after.contains(c) && !changed.contains(c) {
            changed.push(*c);
        }
    }
    let mut v: Vec<(i32, i32)> = Vec::new();
    for (x, y) in changed {
        for dx in -1..=1 {
            for dy in -1..=1 {
                if !v.contains(&(x + dx, y + dy)) {
                    v.push((x + dx, y + dy));
                }
            }
        }
    }
    v.sort();
    v
}

#[test]
fn still_block_leaves_nothing_marked() {
    let cells = [(0, 0), (0, 1), (1, 0), (1, 1)];
    let mut g = with_cells(&cells);
    let counts_before: Vec<Option<u8>> = (-2..=3).flat_map(|x| (-2..=3).map(move |y| (x, y))).map(|(x, y)| count_at(&g, x, y)).collect();
    g.processactives();
    assert_eq!(live(&g), cells.to_vec());
    assert_eq!(g.marked_count(), 0);
    let counts_after: Vec<Option<u8>> = (-2..=3).flat_map(|x| (-2..=3).map(move |y| (x, y))).map(|(x, y)| count_at(&g, x, y)).collect();
    assert_eq!(counts_before, counts_after);
    assert_eq!(g.lifetime, 1);
}

#[test]
fn marks_after_a_generation_are_blocks_of_changed_cells() {
    let mut g = with_cells(&[(0, 0), (1, 0), (2, 0), (10, 10)]);
    let before = live(&g);
    g.processactives();
    let after = live(&g);
    assert_eq!(marked(&g), block_of_changed(&before, &after));
    let mut h = with_cells(&[(0, 0), (1, 0), (2, 0), (10, 10)]);
    h.processactives_old();
    assert_eq!(marked(&h), marked(&g));
}

#[test]
fn both_steps_leave_the_same_state() {
    let start = [(0, 0), (1, 0), (2, 0), (2, 1), (1, 2), (7, 7), (7, 8), (8, 7)];
    let mut a = with_cells(&start);
    let mut b = with_cells(&start);
    for _ in 0..5 {
        a.processactives();
        b.processactives_old();
        assert_eq!(live(&a), live(&b));
        assert_eq!(marked(&a), marked(&b));
        for x in -3..=10 {
            for y in -3..=10 {
                assert_eq!(count_at(&a, x, y), count_at(&b, x, y));
            }
        }
    }
}

#[test]
fn add_cells_adds_each_listed_cell() {
    let mut g = with_cells(&[(0, 0)]);
    g.add_cells(&vec![pack(1, 1), pack(0, 0), pack(5, -5), pack(1, 1)]);
    assert_eq!(live(&g), vec![(0, 0), (1, 1), (5, -5)]);
    assert_eq!(count_at(&g, 1, 0), Some(2));
}

#[test]
fn handleinput_adds_at_most_4000_cells_and_some_in_view() {
    let mut g = with_cells(&[(1000, 1000)]);
    g.bounds = ((-100, -100), (100, 100));
    g.handleinput();
    let cells = live(&g);
    assert!(cells.contains(&(1000, 1000)));
    let new: Vec<&(i32, i32)> = cells.iter().filter(|&&c| c != (1000, 1000)).collect();
    assert!(!new.is_empty());
    assert!(new.len() <= 4000);
    assert!(new.iter().all(|&&(x, y)| -100 <= x && x <= 100 && -100 <= y && y <= 100));
}
