use lifegame::events::{counts_if, draw_lap, lap_if, lower_ascii, paint_brush, sample_counts, KeyInput, MouseButtonInput, Typed, UiState, WheelDelta};
use lifegame::game::Game;
use lifegame::ppair::{pack, unpack};
use lifegame::screen::RESOLUTION;

fn live(g: &Game) -> Vec<(i32, i32)> {
    let mut v: Vec<(i32, i32)> = g.live_cells().into_iter().map(unpack).collect();
    v.sort();
    v
}

fn screen_game() -> Game {
    let mut g = Game::default();
    g.bounds = ((0, 0), (1920, 1080));
    g
}

#[test]
fn new_state_is_paused_and_idle() {
    let g = screen_game();
    let ui = UiState::new(&g, 40, RESOLUTION);
    assert!(ui.paused);
    assert_eq!(ui.draw_state, None);
    assert_eq!(ui.lastcursorpos, (0, 0));
    assert_eq!(ui.targetbounds, g.bounds);
    assert_eq!(ui.currentlettercount, 0);
    assert_eq!(ui.zoomspeed, 40);
    assert_eq!(ui.resolution, RESOLUTION);
}

#[test]
fn enter_toggles_pause_and_resuming_restarts_text() {
    let mut g = screen_game();
    let mut ui = UiState::new(&g, 40, RESOLUTION);
    ui.currentlettercount = 3;
    ui.on_key(&mut g, KeyInput::Enter);
    assert!(!ui.paused);
    assert_eq!(ui.currentlettercount, 0);
    ui.currentlettercount = 2;
    ui.on_key(&mut g, KeyInput::Enter);
    assert!(ui.paused);
    assert_eq!(ui.currentlettercount, 2);
}

#[test]
fn escape_clears_board() {
    let mut g = screen_game();
    g.insertglider();
    let mut ui = UiState::new(&g, 40, RESOLUTION);
    ui.currentlettercount = 5;
    ui.on_key(&mut g, KeyInput::Escape);
    assert_eq!(g.cell_count(), 0);
    assert_eq!(g.marked_count(), 0);
    assert_eq!(ui.currentlettercount, 0);
    g.processactives();
    assert_eq!(g.cell_count(), 0);
}

#[test]
fn typing_a_capital_stamps_its_lower_case_letter() {
    let mut g = screen_game();
    let mut ui = UiState::new(&g, 40, RESOLUTION);
    assert!(ui.key_fits(&g, &KeyInput::Char('A')));
    ui.on_key(&mut g, KeyInput::Char('A'));
    assert_eq!(ui.currentlettercount, 1);
    // 'a' has 18 set font pixels, each a 4x4 square of cells at unit scale
    assert_eq!(g.cell_count(), 18 * 16);
    // top row of 'a' is columns 1 to 3, starting at the margin (40, 40)
    assert!(g.is_alive(&pack(44, 40)));
    assert!(g.is_alive(&pack(55, 43)));
    assert!(!g.is_alive(&pack(40, 40)));
    assert!(!g.is_alive(&pack(56, 40)));
}

#[test]
fn second_letter_goes_thirty_pixels_right() {
    let mut g = screen_game();
    let mut ui = UiState::new(&g, 40, RESOLUTION);
    ui.on_key(&mut g, KeyInput::Char('i'));
    let first = g.cell_count();
    ui.on_key(&mut g, KeyInput::Char('i'));
    assert_eq!(g.cell_count(), 2 * first);
    // the bar of 'i' is column 2: x 48..52 for the first, 78..82 for the second
    assert!(g.is_alive(&pack(48, 44)));
    assert!(g.is_alive(&pack(78, 44)));
}

#[test]
fn space_and_unknown_characters_only_advance() {
    let mut g = screen_game();
    let mut ui = UiState::new(&g, 40, RESOLUTION);
    ui.on_key(&mut g, KeyInput::Space);
    ui.on_key(&mut g, KeyInput::Char('#'));
    assert_eq!(ui.currentlettercount, 2);
    assert_eq!(g.cell_count(), 0);
}

#[test]
fn other_keys_change_nothing() {
    let mut g = screen_game();
    let mut ui = UiState::new(&g, 40, RESOLUTION);
    ui.on_key(&mut g, KeyInput::Other);
    assert!(ui.paused);
    assert_eq!(ui.currentlettercount, 0);
    assert_eq!(g.cell_count(), 0);
}

#[test]
fn typing_needs_a_wide_enough_screen() {
    let g = screen_game();
    let ui = UiState::new(&g, 40, (80, 200));
    assert!(!ui.key_fits(&g, &KeyInput::Char('a')));
    assert!(ui.key_fits(&g, &KeyInput::Enter));
}

#[test]
fn lower_ascii_only_touches_capitals() {
    assert_eq!(lower_ascii('A'), 'a');
    assert_eq!(lower_ascii('Z'), 'z');
    assert_eq!(lower_ascii('q'), 'q');
    assert_eq!(lower_ascii('@'), '@');
    assert_eq!(lower_ascii('['), '[');
    assert_eq!(lower_ascii('É'), 'É');
}

#[test]
fn mouse_buttons_start_and_stop_drawing() {
    let g = screen_game();
    let mut ui = UiState::new(&g, 40, RESOLUTION);
    ui.on_mouse_press(MouseButtonInput::Left);
    assert_eq!(ui.draw_state, Some(true));
    ui.on_mouse_press(MouseButtonInput::Other);
    assert_eq!(ui.draw_state, Some(true));
    ui.on_mouse_press(MouseButtonInput::Right);
    assert_eq!(ui.draw_state, Some(false));
    ui.on_mouse_release();
    assert_eq!(ui.draw_state, None);
}

#[test]
fn wheel_zooms_about_cursor() {
    let g = Game::default();
    let mut ui = UiState::new(&g, 40, RESOLUTION);
    ui.currentlettercount = 4;
    assert!(ui.wheel_fits(&g, &WheelDelta::Lines(1)));
    ui.on_wheel(&g, WheelDelta::Lines(1));
    assert_eq!(ui.targetbounds, ((-30, -30), (30, 30)));
    assert_eq!(ui.currentlettercount, 0);
    ui.on_wheel(&g, WheelDelta::Pixels(-200));
    assert_eq!(ui.targetbounds, ((-150, -150), (150, 150)));
}

#[test]
fn wheel_zoom_factor_has_a_floor_and_view_a_minimum_size() {
    let g = Game::default();
    let mut ui = UiState::new(&g, 40, RESOLUTION);
    ui.on_wheel(&g, WheelDelta::Lines(5));
    assert_eq!(ui.targetbounds, ((-5, -5), (15, 6)));
}

#[test]
fn wheel_zoom_about_off_centre_cursor() {
    let g = Game::default();
    let mut ui = UiState::new(&g, 40, RESOLUTION);
    ui.lastcursorpos = (10, -20);
    ui.on_wheel(&g, WheelDelta::Pixels(50));
    // factor 50: each edge halfway to the cursor, truncating toward the cursor
    assert_eq!(ui.targetbounds, ((-20, -35), (30, 15)));
}

#[test]
fn wheel_fits_spots_overflow() {
    let g = Game::default();
    let ui = UiState::new(&g, i32::MAX, RESOLUTION);
    assert!(!ui.wheel_fits(&g, &WheelDelta::Lines(2)));
    assert!(!ui.wheel_fits(&g, &WheelDelta::Pixels(i32::MIN)));
}

#[test]
fn cursor_move_remembers_position_only_when_idle() {
    let mut g = screen_game();
    let mut ui = UiState::new(&g, 40, RESOLUTION);
    assert!(ui.cursor_fits(&g, (100, 200)));
    ui.on_cursor(&mut g, (100, 200));
    assert_eq!(ui.lastcursorpos, (100, 200));
    assert_eq!(g.cell_count(), 0);
}

#[test]
fn cursor_drawing_scatters_cells_around_it() {
    let mut g = screen_game();
    let mut ui = UiState::new(&g, 40, RESOLUTION);
    ui.on_mouse_press(MouseButtonInput::Left);
    ui.on_cursor(&mut g, (500, 500));
    assert_eq!(ui.lastcursorpos, (500, 500));
    assert!(g.is_alive(&pack(500, 500)));
    for (x, y) in live(&g) {
        assert!((485..=515).contains(&x) && (485..=515).contains(&y));
    }
    g.processactives();
}

#[test]
fn cursor_erasing_kills_cell_under_it() {
    let mut g = screen_game();
    g.addcell(pack(7, 8));
    g.addcell(pack(8, 8));
    let mut ui = UiState::new(&g, 40, RESOLUTION);
    ui.on_mouse_press(MouseButtonInput::Right);
    ui.on_cursor(&mut g, (7, 8));
    assert_eq!(live(&g), vec![(8, 8)]);
}

#[test]
fn redraw_while_paused_only_eases_view() {
    let mut g = Game::default();
    g.bounds = ((0, 0), (100, 100));
    g.addcell(pack(0, 0));
    let mut ui = UiState::new(&g, 40, RESOLUTION);
    ui.targetbounds = ((10, 10), (200, 50));
    assert!(ui.redraw_fits(&g));
    ui.on_redraw(&mut g);
    assert_eq!(g.bounds, ((1, 1), (110, 95)));
    assert_eq!(live(&g), vec![(0, 0)]);
    assert_eq!(g.lifetime, 0);
}

#[test]
fn redraw_when_running_advances_a_generation() {
    let mut g = Game::default();
    for x in 0..3 {
        g.addcell(pack(x, 0));
    }
    let mut ui = UiState::new(&g, 40, RESOLUTION);
    ui.on_key(&mut g, KeyInput::Enter);
    ui.on_redraw(&mut g);
    assert_eq!(live(&g), vec![(1, -1), (1, 0), (1, 1)]);
    assert_eq!(g.lifetime, 1);
    assert_eq!(g.bounds, ((-50, -50), (50, 50)));
}

#[test]
fn redraw_fits_spots_overflow() {
    let mut g = Game::default();
    g.bounds = ((i32::MIN, 0), (0, 1));
    let mut ui = UiState::new(&g, 40, RESOLUTION);
    ui.targetbounds = ((i32::MAX, 0), (0, 1));
    assert!(!ui.redraw_fits(&g));
}

#[test]
fn sample_counts_gives_current_counts_now_and_then() {
    let mut g = Game::default();
    g.insertglider();
    let mut seen = 0;
    for _ in 0..2000 {
        if let Some((a, t)) = sample_counts(&g) {
            assert_eq!((a, t), (g.marked_count(), g.cell_count()));
            assert_eq!(t, 5);
            seen += 1;
        }
    }
    assert!(seen > 0 && seen < 2000);
}

#[test]
fn draw_lap_reports_now_and_then_and_keeps_cells() {
    let mut g = Game::default();
    g.insertglider();
    let mut seen = 0;
    for _ in 0..2000 {
        if draw_lap(&mut g).is_some() {
            seen += 1;
        }
    }
    assert!(seen > 0 && seen < 2000);
    assert_eq!(live(&g), vec![(0, 1), (1, 0), (2, 0), (2, 1), (2, 2)]);
}

#[test]
fn typing_reports_what_became_of_the_letter() {
    let mut g = screen_game();
    let mut ui = UiState::new(&g, 40, RESOLUTION);
    assert!(matches!(ui.on_key(&mut g, KeyInput::Char('b')), Some(Typed::Placed)));
    assert!(matches!(ui.on_key(&mut g, KeyInput::Char('#')), Some(Typed::Unsupported('#'))));
    assert!(matches!(ui.on_key(&mut g, KeyInput::Enter), None));
    ui.currentlettercount = 1963;
    assert!(matches!(ui.on_key(&mut g, KeyInput::Char('#')), Some(Typed::NoRoom(1064))));
    assert_eq!(ui.currentlettercount, 1964);
}

#[test]
fn counts_if_follows_the_byte() {
    let mut g = Game::default();
    g.insertglider();
    assert_eq!(counts_if(&g, 0), Some((g.marked_count(), 5)));
    assert_eq!(counts_if(&g, 40), Some((g.marked_count(), 5)));
    assert_eq!(counts_if(&g, 41), None);
    assert_eq!(counts_if(&g, 255), None);
}

#[test]
fn lap_if_follows_the_byte() {
    let mut g = Game::default();
    assert!(lap_if(&mut g, 0).is_some());
    assert!(lap_if(&mut g, 120).is_some());
    assert!(lap_if(&mut g, 61).is_none());
}

#[test]
fn paint_brush_draws_spots_whose_byte_is_a_multiple_of_five() {
    let mut g = Game::default();
    let mut bytes = vec![1u8; 961];
    bytes[0] = 5; // spot (0, 0): offset (-15, -15)
    bytes[31 * 15 + 15] = 10; // centre
    bytes[31 * 30 + 2] = 0; // spot (30, 2): offset (15, -13)
    paint_brush(&mut g, (100, 200), &bytes);
    assert_eq!(live(&g), vec![(85, 185), (100, 200), (115, 187)]);
}

#[test]
fn paused_redraw_keeps_marks() {
    let mut g = Game::default();
    g.addcell(pack(0, 0));
    let before: Vec<(i32, i32)> = {
        let mut v: Vec<(i32, i32)> = g.marked_cells().into_iter().map(unpack).collect();
        v.sort();
        v
    };
    let ui = UiState::new(&g, 40, RESOLUTION);
    ui.on_redraw(&mut g);
    let mut after: Vec<(i32, i32)> = g.marked_cells().into_iter().map(unpack).collect();
    after.sort();
    assert_eq!(before, after);
}

#[test]
fn even_enter_presses_leave_the_game_paused() {
    let mut g = Game::default();
    for x in 0..3 {
        g.addcell(pack(x, 0));
    }
    let mut ui = UiState::new(&g, 40, RESOLUTION);
    for key in [KeyInput::Enter, KeyInput::Char('q'), KeyInput::Enter, KeyInput::Other] {
        let _ = ui.on_key(&mut g, key);
    }
    ui.on_mouse_press(MouseButtonInput::Left);
    ui.on_mouse_release();
    let before = live(&g);
    let marks = g.marked_count();
    ui.on_redraw(&mut g);
    assert!(ui.paused);
    assert_eq!(live(&g), before);
    assert_eq!(g.marked_count(), marks);
    assert_eq!(g.lifetime, 0);
}

#[test]
fn lap_reports_time_since_last_lap() {
    let mut g = Game::default();
    g.ts.bump();
    let t0 = std::time::Instant::now();
    while t0.elapsed() < std::time::Duration::from_millis(20) {}
    let d = lap_if(&mut g, 0).unwrap();
    assert!(d.as_millis() >= 20);
    let d2 = lap_if(&mut g, 0).unwrap();
    assert!(d2 < d);
}
