use lifegame::game::Game;
use lifegame::letters::{draw_letter, letter_fits, letter_row, FONT_LETTERS, LETTER_SCALE};
use lifegame::screen::RESOLUTION;

fn screen_game() -> Game {
    let mut g = Game::default();
    g.bounds = ((0, 0), (1920, 1080));
    g
}

fn lit_pixels(g: usize) -> usize {
    FONT_LETTERS[g].iter().map(|r| r.count_ones() as usize).sum()
}

#[test]
fn letter_stamps_its_glyph() {
    let mut g = screen_game();
    assert!(letter_fits(&g.bounds, 0, &RESOLUTION));
    assert!(draw_letter(&mut g, 'z', 0, &RESOLUTION));
    let per = (LETTER_SCALE * LETTER_SCALE) as usize;
    assert_eq!(g.cell_count(), lit_pixels(25) * per);
}

#[test]
fn punctuation_has_glyphs() {
    let mut g = screen_game();
    assert!(draw_letter(&mut g, '!', 0, &RESOLUTION));
    assert!(draw_letter(&mut g, '\'', 1, &RESOLUTION));
    assert!(draw_letter(&mut g, ' ', 2, &RESOLUTION));
    let per = (LETTER_SCALE * LETTER_SCALE) as usize;
    assert_eq!(g.cell_count(), (lit_pixels(29) + lit_pixels(31)) * per);
}

#[test]
fn unsupported_character_changes_nothing() {
    let mut g = screen_game();
    assert!(!draw_letter(&mut g, 'A', 0, &RESOLUTION));
    assert!(!draw_letter(&mut g, '7', 0, &RESOLUTION));
    assert_eq!(g.cell_count(), 0);
}

#[test]
fn letters_wrap_and_stop_at_bottom() {
    let mut g = screen_game();
    // 1840 pixels of text per line, 30 per letter: letter 62 starts line 2
    assert!(draw_letter(&mut g, 'a', 62, &RESOLUTION));
    // lines are 32 pixels apart from 40; the last line that fits above
    // 1080 - 40 - 7 starts at 1032 (letters 1902 to 1962)
    assert!(letter_fits(&g.bounds, 1962, &RESOLUTION));
    assert!(draw_letter(&mut g, 'a', 1962, &RESOLUTION));
    assert!(letter_fits(&g.bounds, 1963, &RESOLUTION));
    assert!(!draw_letter(&mut g, 'a', 1963, &RESOLUTION));
}

#[test]
fn letter_fits_needs_room_in_u16() {
    let g = screen_game();
    assert!(!letter_fits(&g.bounds, 3000, &RESOLUTION));
    assert!(!letter_fits(&g.bounds, 0, &(80, 1080)));
}

#[test]
fn letter_rows_step_by_32() {
    assert_eq!(letter_row(0, &RESOLUTION), 40);
    assert_eq!(letter_row(61, &RESOLUTION), 40);
    assert_eq!(letter_row(62, &RESOLUTION), 72);
    assert_eq!(letter_row(1963, &RESOLUTION), 1064);
}
