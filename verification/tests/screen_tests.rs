use lifegame::game::Game;
use lifegame::ppair::pack;
use lifegame::screen::{mapsb_fits, BLUE, RED, RESOLUTION, WHITE};

fn game_with(bounds: ((i32, i32), (i32, i32)), cells: &[(i32, i32)]) -> Game {
    let mut g = Game::default();
    g.bounds = bounds;
    for &(x, y) in cells {
        g.addcell(pack(x, y));
    }
    g
}

fn blank_canvas() -> (Vec<u8>, Vec<Vec<i8>>) {
    let w = RESOLUTION.0 as usize;
    let h = RESOLUTION.1 as usize;
    (vec![7u8; 4 * w * h], vec![vec![0i8; w]; h])
}

#[test]
fn mapsb_full_view_is_identity() {
    let g = game_with(((0, 0), (1920, 1080)), &[]);
    assert_eq!(g.mapsb((0, 0), &RESOLUTION), (0, 0));
    assert_eq!(g.mapsb((17, 300), &RESOLUTION), (17, 300));
    assert_eq!(g.mapsb((1919, 1079), &RESOLUTION), (1919, 1079));
}

#[test]
fn mapsb_scales_and_shifts() {
    let g = game_with(((-50, -50), (50, 50)), &[]);
    assert_eq!(g.mapsb((960, 540), &RESOLUTION), (0, 0));
    assert_eq!(g.mapsb((0, 0), &RESOLUTION), (-50, -50));
    // 1919 * 100 / 1920 = 99 (truncated), minus 50
    assert_eq!(g.mapsb((1919, 1079), &RESOLUTION), (49, 49));
}

#[test]
fn mapbs_scales_and_shifts() {
    let g = game_with(((-50, -50), (50, 50)), &[]);
    assert_eq!(g.mapbs(&(0, 0), &RESOLUTION), (960, 540));
    assert_eq!(g.mapbs(&(-50, -50), &RESOLUTION), (0, 0));
    // truncation toward zero for negative offsets
    assert_eq!(g.mapbs(&(-51, -51), &RESOLUTION), (-19, -10));
}

#[test]
fn mapbs_undoes_mapsb_at_unit_scale() {
    let g = game_with(((100, -20), (2020, 1060)), &[]);
    for &s in &[(0u16, 0u16), (5, 9), (1919, 1079), (640, 480)] {
        let p = g.mapsb(s, &RESOLUTION);
        assert_eq!(p, (100 + s.0 as i32, -20 + s.1 as i32));
        assert_eq!(g.mapbs(&p, &RESOLUTION), (s.0 as i32, s.1 as i32));
    }
}

#[test]
fn mapsb_fits_spots_overflow() {
    assert!(mapsb_fits(&((0, 0), (1920, 1080)), (100, 100), &RESOLUTION));
    assert!(!mapsb_fits(&((i32::MIN, 0), (i32::MAX, 10)), (1, 1), &RESOLUTION));
    assert!(!mapsb_fits(&((0, 0), (10, 10)), (1, 1), &(0, 10)));
}

#[test]
fn display_shows_cells() {
    let g = game_with(((0, 0), (4, 2)), &[(1, 0), (3, 1)]);
    assert!(g.screen_fits(&(4, 2)));
    let rows = g.display(&(4, 2));
    assert_eq!(rows, vec![vec![false, true, false, false], vec![false, false, false, true]]);
}

#[test]
fn display_scaled_down() {
    let g = game_with(((0, 0), (8, 4)), &[(2, 0), (6, 2)]);
    let rows = g.display(&(4, 2));
    assert_eq!(rows, vec![vec![false, true, false, false], vec![false, false, false, true]]);
}

#[test]
fn screen_fits_rejects_huge_view() {
    let g = game_with(((i32::MIN, 0), (i32::MAX, 1)), &[]);
    assert!(!g.screen_fits(&(4, 2)));
}

#[test]
fn draw_optimized_paints_cells_white_and_rest_red() {
    let mut g = game_with(((0, 0), (1920, 1080)), &[(5, 7)]);
    assert!(g.drawable());
    let (mut frame, mut fades) = blank_canvas();
    fades[0][0] = 3;
    g.draw_optimized(&mut frame, false, &mut fades);
    let at = |x: usize, y: usize| -> Vec<u8> {
        let i = 4 * (y * 1920 + x);
        frame[i..i + 4].to_vec()
    };
    assert_eq!(at(5, 7), WHITE.to_vec());
    assert!((100..=103).contains(&fades[7][5]));
    assert_eq!(at(6, 7), vec![RED[0], RED[1], RED[2], 0]);
    assert_eq!(fades[7][6], 0);
    // a fading pixel loses one level and shows ten alpha per level
    assert_eq!(fades[0][0], 2);
    assert_eq!(at(0, 0), vec![RED[0], RED[1], RED[2], 20]);
}

#[test]
fn draw_optimized_scales_cells_up() {
    let mut g = game_with(((0, 0), (960, 540)), &[(1, 1)]);
    let (mut frame, mut fades) = blank_canvas();
    g.draw_optimized(&mut frame, true, &mut fades);
    for &(x, y) in &[(2usize, 2usize), (3, 2), (2, 3), (3, 3)] {
        let i = 4 * (y * 1920 + x);
        assert_eq!(frame[i..i + 4].to_vec(), WHITE.to_vec());
    }
    let i = 4 * (2 * 1920 + 4);
    assert_eq!(frame[i + 3], 0);
}

#[test]
fn fade_alpha_wraps_like_a_byte() {
    let mut g = game_with(((0, 0), (1920, 1080)), &[]);
    let (mut frame, mut fades) = blank_canvas();
    fades[1][1] = 99;
    g.draw_optimized(&mut frame, false, &mut fades);
    let i = 4 * (1920 + 1);
    assert_eq!(fades[1][1], 98);
    assert_eq!(frame[i + 3], (98u32 * 10 % 256) as u8);
}

#[test]
fn drawable_rejects_overflowing_cells() {
    let g = game_with(((0, 0), (1920, 1080)), &[(i32::MAX, 0)]);
    assert!(!g.drawable());
}

#[test]
fn draw_paints_row_major_blue() {
    let g = game_with(((0, 0), (1920, 1080)), &[(3, 1)]);
    let mut frame = vec![9u8; 4 * 1920 * 2];
    let mut fades = vec![vec![0i8; 1920]; 2];
    fades[0][0] = 5;
    g.draw(&mut frame, false, &mut fades, &RESOLUTION);
    let i = 4 * (1920 + 3);
    assert_eq!(frame[i..i + 4].to_vec(), WHITE.to_vec());
    assert!((100..=103).contains(&fades[1][3]));
    assert_eq!(frame[0..4].to_vec(), vec![BLUE[0], BLUE[1], BLUE[2], 40]);
    assert_eq!(fades[0][0], 4);
}
