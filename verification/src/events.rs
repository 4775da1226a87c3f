//! What the window's input does to the game: the state of the interactive
//! front end and one step of it for each kind of event. The window itself,
//! the clock and the drawing surface belong to the caller, who hands each
//! event over as plain values.
use vstd::prelude::*;
use crate::collections::{counts_clear, no_counts, set_clear, set_view};
use crate::game::{blocks, changed, counts_ok, stable, Game};
use crate::letters::{
    draw_letter, letter_cells, letter_fits, letter_index, letter_ok, letter_pos, letter_room, letter_row, LETTER_SIZE_Y,
    WINDOW_PADDING_Y,
};
use crate::chance::random_u8;
use crate::timing::elapsed;
use crate::life::life_step;
use crate::ppair::{hi_spec, lo_spec, pack, pack_spec, topack, unpack, Pair, P16};
use crate::screen::{fits_i32, mapsb_fits, mapsb_ok, mapsb_spec, trunc_div};

verus! {

/// A key that was pressed, as far as the front end tells keys apart.
pub enum KeyInput {
    /// Pauses or resumes the game.
    Enter,
    /// Clears the board.
    Escape,
    /// Types a space.
    Space,
    /// Types a character (a key whose text is one byte long).
    Char(char),
    /// Any other key.
    Other,
}

/// The pause flag after a key press: Enter flips it, any other key keeps it.
pub open spec fn pause_after_key(paused: bool, key: KeyInput) -> bool {
    if key is Enter {
        !paused
    } else {
        paused
    }
}

/// The pause flag after the key presses `keys`, from the start (paused). The
/// mouse, the wheel, the cursor and redraws leave the flag alone.
pub open spec fn pause_after_keys(keys: Seq<KeyInput>) -> bool
    decreases keys.len(),
{
    if keys.len() == 0 {
        true
    } else {
        pause_after_key(pause_after_keys(keys.drop_last()), keys.last())
    }
}

/// The number of Enter presses among `keys`.
pub open spec fn enter_count(keys: Seq<KeyInput>) -> nat
    decreases keys.len(),
{
    if keys.len() == 0 {
        0
    } else {
        enter_count(keys.drop_last()) + if keys.last() is Enter {
            1nat
        } else {
            0nat
        }
    }
}

/// The game is paused exactly after an even number of Enter presses; so a
/// redraw then leaves the cells, marks, counts and generation alone (see
/// `UiState::on_redraw`).
pub proof fn lemma_paused_after_even_enters(keys: Seq<KeyInput>)
    ensures
        pause_after_keys(keys) <==> enter_count(keys) % 2 == 0,
    decreases keys.len(),
{
    if keys.len() > 0 {
        lemma_paused_after_even_enters(keys.drop_last());
    }
}

/// What became of a typed letter.
pub enum Typed {
    /// Its glyph was stamped.
    Placed,
    /// It would start at this screen row, below the bottom margin.
    NoRoom(u16),
    /// The font has no glyph for this character.
    Unsupported(char),
}

/// What typing `c` as letter number `count` on a screen of `resolution` comes
/// to: no room is checked before the glyph.
pub open spec fn typed_result(c: char, count: int, resolution: P16) -> Typed {
    if !letter_room(count, resolution) {
        Typed::NoRoom(letter_pos(count, resolution).1 as u16)
    } else if letter_index(c) is None {
        Typed::Unsupported(c)
    } else {
        Typed::Placed
    }
}

/// A mouse button, as far as the front end tells buttons apart.
pub enum MouseButtonInput {
    Left,
    Right,
    Other,
}

/// The state of the interactive front end.
pub struct UiState {
    /// Whether generations are held back.
    pub paused: bool,
    /// While a button is held: `true` to draw cells, `false` to erase them.
    pub draw_state: Option<bool>,
    /// The plane position under the cursor when it last moved.
    pub lastcursorpos: Pair,
    /// The view bounds that the view moves toward.
    pub targetbounds: (Pair, Pair),
    /// The number of letters typed since the text was last restarted.
    pub currentlettercount: u16,
    /// How far one line of the mouse wheel zooms, in hundredths.
    pub zoomspeed: i32,
    /// The size of the drawing surface.
    pub resolution: P16,
}

/// `c` in lower case, where it is an ASCII capital; otherwise `c`.
pub open spec fn ascii_lower(c: char) -> char {
    if 'A' <= c <= 'Z' {
        ((c as u32) + 32) as char
    } else {
        c
    }
}

/// The character a key types, if it types one.
pub open spec fn typed_char(key: KeyInput) -> Option<char> {
    match key {
        KeyInput::Space => Some(' '),
        KeyInput::Char(c) => Some(ascii_lower(c)),
        _ => None,
    }
}

impl UiState {
    /// The front end's state at start: paused, no button held, the cursor at
    /// the origin, the view staying where `game` has it, no letters typed.
    pub fn new(game: &Game, zoomspeed: i32, resolution: P16) -> (r: UiState)
        ensures
            r.paused,
            r.draw_state == None::<bool>,
            r.lastcursorpos == (0i32, 0i32),
            r.targetbounds == game.bounds,
            r.currentlettercount == 0,
            r.zoomspeed == zoomspeed,
            r.resolution == resolution,
    {
        UiState {
            paused: true,
            draw_state: None,
            lastcursorpos: (0, 0),
            targetbounds: game.bounds,
            currentlettercount: 0,
            zoomspeed,
            resolution,
        }
    }

    /// All fields but the letter count are those of `other`.
    pub open spec fn same_but_count(&self, other: &UiState) -> bool {
        &&& self.paused == other.paused
        &&& self.draw_state == other.draw_state
        &&& self.lastcursorpos == other.lastcursorpos
        &&& self.targetbounds == other.targetbounds
        &&& self.zoomspeed == other.zoomspeed
        &&& self.resolution == other.resolution
    }

    /// A mouse button went down: the left one starts drawing, the right one
    /// starts erasing, any other changes nothing.
    pub fn on_mouse_press(&mut self, button: MouseButtonInput)
        ensures
            final(self).draw_state == match button {
                MouseButtonInput::Left => Some(true),
                MouseButtonInput::Right => Some(false),
                MouseButtonInput::Other => old(self).draw_state,
            },
            final(self).paused == old(self).paused,
            final(self).lastcursorpos == old(self).lastcursorpos,
            final(self).targetbounds == old(self).targetbounds,
            final(self).currentlettercount == old(self).currentlettercount,
            final(self).zoomspeed == old(self).zoomspeed,
            final(self).resolution == old(self).resolution,
    {
        match button {
            MouseButtonInput::Left => self.draw_state = Some(true),
            MouseButtonInput::Right => self.draw_state = Some(false),
            MouseButtonInput::Other => {},
        }
    }

    /// A mouse button went up: drawing or erasing stops.
    pub fn on_mouse_release(&mut self)
        ensures
            final(self).draw_state == None::<bool>,
            final(self).paused == old(self).paused,
            final(self).lastcursorpos == old(self).lastcursorpos,
            final(self).targetbounds == old(self).targetbounds,
            final(self).currentlettercount == old(self).currentlettercount,
            final(self).zoomspeed == old(self).zoomspeed,
            final(self).resolution == old(self).resolution,
    {
        self.draw_state = None;
    }

    /// The keys that `on_key` can take in this state: a key that types needs
    /// room to place the next letter without overflow.
    pub open spec fn key_ok(&self, bounds: (Pair, Pair), key: KeyInput) -> bool {
        typed_char(key) is Some ==> letter_ok(bounds, self.currentlettercount as int, self.resolution)
    }

    /// Whether `on_key` can take `key` with `game` as it is.
    pub fn key_fits(&self, game: &Game, key: &KeyInput) -> (r: bool)
        ensures
            r == self.key_ok(game.bounds, *key),
    {
        match key {
            KeyInput::Space | KeyInput::Char(_) => letter_fits(&game.bounds, self.currentlettercount, &self.resolution),
            _ => true,
        }
    }

    /// Stamps `c` as the next letter of the text and moves the text on.
    fn type_letter(&mut self, game: &mut Game, c: char) -> (r: Typed)
        requires
            old(game).wf(),
            letter_ok(old(game).bounds, old(self).currentlettercount as int, old(self).resolution),
        ensures
            final(game).wf(),
            r == typed_result(c, old(self).currentlettercount as int, old(self).resolution),
            final(self).same_but_count(old(self)),
            final(self).currentlettercount == old(self).currentlettercount + 1,
            final(game).cells_view() == if letter_room(old(self).currentlettercount as int, old(self).resolution)
                && letter_index(c) is Some {
                old(game).cells_view().union(
                    letter_cells(
                        old(game).bounds,
                        old(self).resolution,
                        letter_index(c)->0,
                        letter_pos(old(self).currentlettercount as int, old(self).resolution),
                    ),
                )
            } else {
                old(game).cells_view()
            },
            final(game).same_rest(old(game)),
    {
        let posy = letter_row(self.currentlettercount, &self.resolution);
        let placed = draw_letter(game, c, self.currentlettercount, &self.resolution);
        self.currentlettercount = self.currentlettercount + 1;
        if placed {
            Typed::Placed
        } else if posy > self.resolution.1 - WINDOW_PADDING_Y - LETTER_SIZE_Y {
            Typed::NoRoom(posy)
        } else {
            Typed::Unsupported(c)
        }
    }

    /// A key was pressed. Enter pauses or resumes (resuming restarts the
    /// text); Escape clears the board and restarts the text; a key that types
    /// stamps its letter (capitals in lower case) at the next place of the
    /// text and moves that place on, whether or not the letter could be
    /// placed; any other key changes nothing.
    pub fn on_key(&mut self, game: &mut Game, key: KeyInput) -> (r: Option<Typed>)
        requires
            old(game).wf(),
            old(self).key_ok(old(game).bounds, key),
        ensures
            final(game).wf(),
            final(self).paused == pause_after_key(old(self).paused, key),
            r == match typed_char(key) {
                Some(c) => Some(typed_result(c, old(self).currentlettercount as int, old(self).resolution)),
                None => None::<Typed>,
            },
            final(self).same_but_count(old(self)) || key is Enter,
            key is Enter ==> {
                &&& final(self).paused == !old(self).paused
                &&& final(self).currentlettercount == if old(self).paused { 0 } else { old(self).currentlettercount }
                &&& final(self).draw_state == old(self).draw_state
                &&& final(self).lastcursorpos == old(self).lastcursorpos
                &&& final(self).targetbounds == old(self).targetbounds
                &&& final(self).zoomspeed == old(self).zoomspeed
                &&& final(self).resolution == old(self).resolution
                &&& *final(game) == *old(game)
            },
            key is Escape ==> {
                &&& final(self).currentlettercount == 0
                &&& final(game).cells_view() == Set::<i64>::empty()
                &&& final(game).active_view() == Set::<i64>::empty()
                &&& final(game).counts_view() == no_counts()
                &&& final(game).same_rest(old(game))
            },
            typed_char(key) matches Some(c) ==> {
                &&& final(self).currentlettercount == old(self).currentlettercount + 1
                &&& final(game).cells_view() == if letter_room(old(self).currentlettercount as int, old(self).resolution)
                    && letter_index(c) is Some {
                    old(game).cells_view().union(
                        letter_cells(
                            old(game).bounds,
                            old(self).resolution,
                            letter_index(c)->0,
                            letter_pos(old(self).currentlettercount as int, old(self).resolution),
                        ),
                    )
                } else {
                    old(game).cells_view()
                }
                &&& final(game).same_rest(old(game))
            },
            key is Other ==> *final(self) == *old(self) && *final(game) == *old(game),
    {
        match key {
            KeyInput::Enter => {
                self.paused = !self.paused;
                if !self.paused {
                    self.currentlettercount = 0;
                }
                None
            },
            KeyInput::Escape => {
                self.currentlettercount = 0;
                set_clear(&mut game.cells);
                set_clear(&mut game.active);
                counts_clear(&mut game.nmap);
                proof {
                    assert forall|c: i64| #[trigger] crate::game::count_ok_at(game.cells_view(), game.counts_view(), c) by {
                        crate::life::lemma_count_where_none(|k: int| game.cells_view().contains(crate::ppair::neighbor(c, k)), 8);
                    }
                    assert forall|c: i64| #[trigger] crate::game::stable_at(game.cells_view(), game.active_view(), c) by {
                        crate::life::lemma_count_where_none(|k: int| game.cells_view().contains(crate::ppair::neighbor(c, k)), 8);
                    }
                }
                None
            },
            KeyInput::Space => Some(self.type_letter(game, ' ')),
            KeyInput::Char(c) => {
                let lc = lower_ascii(c);
                Some(self.type_letter(game, lc))
            },
            KeyInput::Other => None,
        }
    }
}

/// How the wheel turned: by lines (scaled by the zoom speed) or by pixels.
pub enum WheelDelta {
    Lines(i32),
    Pixels(i32),
}

/// The zoom a wheel turn asks for, in hundredths: positive zooms in.
pub open spec fn zoom_amount(delta: WheelDelta, zoomspeed: i32) -> int {
    match delta {
        WheelDelta::Lines(y) => y * zoomspeed,
        WheelDelta::Pixels(y) => y as int,
    }
}

/// The zoom factor in hundredths: `100 - zoom`, but no less than 10.
pub open spec fn zoom_factor(zoom: int) -> int {
    if 100 - zoom >= 10 {
        100 - zoom
    } else {
        10
    }
}

/// A coordinate `v` moved toward (or away from) the centre `c` by the factor
/// `zf` hundredths.
pub open spec fn zoom_axis(c: int, v: int, zf: int) -> int {
    c + trunc_div((v - c) * zf, 100)
}

/// `zoom_axis` is computed in `i32` without overflow.
pub open spec fn zoom_axis_ok(c: int, v: int, zf: int) -> bool {
    &&& fits_i32(v - c)
    &&& fits_i32((v - c) * zf)
    &&& fits_i32(zoom_axis(c, v, zf))
}

/// The view a wheel turn of `zoom` aims for, zooming about `cursor`: each
/// edge moved by the zoom factor, then widened to at least 20 across and 11
/// high.
pub open spec fn zoom_target(bounds: (Pair, Pair), cursor: Pair, zoom: int) -> (Pair, Pair) {
    let zf = zoom_factor(zoom);
    let min_x = zoom_axis(cursor.0 as int, bounds.0.0 as int, zf);
    let min_y = zoom_axis(cursor.1 as int, bounds.0.1 as int, zf);
    let max_x = zoom_axis(cursor.0 as int, bounds.1.0 as int, zf);
    let max_y = zoom_axis(cursor.1 as int, bounds.1.1 as int, zf);
    (
        (min_x as i32, min_y as i32),
        ((if max_x >= min_x + 20 { max_x } else { min_x + 20 }) as i32, (if max_y >= min_y + 11 { max_y } else { min_y + 11 }) as i32),
    )
}

/// `zoom_target` is computed in `i32` without overflow.
pub open spec fn zoom_ok(bounds: (Pair, Pair), cursor: Pair, zoom: int) -> bool {
    let zf = zoom_factor(zoom);
    &&& fits_i32(100 - zoom)
    &&& zoom_axis_ok(cursor.0 as int, bounds.0.0 as int, zf)
    &&& zoom_axis_ok(cursor.1 as int, bounds.0.1 as int, zf)
    &&& zoom_axis_ok(cursor.0 as int, bounds.1.0 as int, zf)
    &&& zoom_axis_ok(cursor.1 as int, bounds.1.1 as int, zf)
    &&& fits_i32(zoom_axis(cursor.0 as int, bounds.0.0 as int, zf) + 20)
    &&& fits_i32(zoom_axis(cursor.1 as int, bounds.0.1 as int, zf) + 11)
}

/// Computes `zoom_axis` in `i32`.
fn zoom_axis_exec(c: i32, v: i32, zf: i32) -> (r: i32)
    requires
        zoom_axis_ok(c as int, v as int, zf as int),
    ensures
        r == zoom_axis(c as int, v as int, zf as int),
{
    c + ((v - c) * zf) / 100
}

/// Whether `zoom_axis` can be computed in `i32` (`zoom_axis_ok`).
fn zoom_axis_fits(c: i32, v: i32, zf: i32) -> (r: bool)
    requires
        10 <= zf,
    ensures
        r == zoom_axis_ok(c as int, v as int, zf as int),
{
    let d: i64 = v as i64 - c as i64;
    if d < i32::MIN as i64 || d > i32::MAX as i64 {
        return false;
    }
    assert(-0x8000_0000 * 0x8000_0000 <= d * zf <= 0x8000_0000 * 0x8000_0000) by (nonlinear_arith)
        requires
            -0x8000_0000 <= d <= 0x7fff_ffff,
            -0x8000_0000 <= zf <= 0x7fff_ffff;
    let prod: i128 = d as i128 * zf as i128;
    if prod < i32::MIN as i128 || prod > i32::MAX as i128 {
        return false;
    }
    let moved: i128 = c as i128 + prod / 100;
    assert(moved == zoom_axis(c as int, v as int, zf as int));
    !(moved < i32::MIN as i128 || moved > i32::MAX as i128)
}

impl UiState {
    /// The wheel turns this state can take with the view `bounds`.
    pub open spec fn wheel_ok(&self, bounds: (Pair, Pair), delta: WheelDelta) -> bool {
        &&& fits_i32(zoom_amount(delta, self.zoomspeed))
        &&& zoom_ok(bounds, self.lastcursorpos, zoom_amount(delta, self.zoomspeed))
    }

    /// Whether `on_wheel` can take `delta` with `game` as it is.
    pub fn wheel_fits(&self, game: &Game, delta: &WheelDelta) -> (r: bool)
        ensures
            r == self.wheel_ok(game.bounds, *delta),
    {
        let zoom: i64 = match delta {
            WheelDelta::Lines(y) => {
                let a: i64 = *y as i64;
                let b: i64 = self.zoomspeed as i64;
                assert(-0x8000_0000 * 0x8000_0000 <= a * b <= 0x8000_0000 * 0x8000_0000) by (nonlinear_arith)
                    requires
                        -0x8000_0000 <= a <= 0x7fff_ffff,
                        -0x8000_0000 <= b <= 0x7fff_ffff;
                a * b
            },
            WheelDelta::Pixels(y) => *y as i64,
        };
        if zoom < i32::MIN as i64 || zoom > i32::MAX as i64 {
            return false;
        }
        let back: i64 = 100 - zoom;
        if back < i32::MIN as i64 || back > i32::MAX as i64 {
            return false;
        }
        let zf: i32 = if back >= 10 { back as i32 } else { 10 };
        let (cx, cy) = self.lastcursorpos;
        let ((min_x, min_y), (max_x, max_y)) = game.bounds;
        if !zoom_axis_fits(cx, min_x, zf) || !zoom_axis_fits(cy, min_y, zf) || !zoom_axis_fits(cx, max_x, zf)
            || !zoom_axis_fits(cy, max_y, zf) {
            return false;
        }
        let new_min_x = zoom_axis_exec(cx, min_x, zf);
        let new_min_y = zoom_axis_exec(cy, min_y, zf);
        new_min_x <= i32::MAX - 20 && new_min_y <= i32::MAX - 11
    }

    /// The wheel turned: the view is set to move toward `zoom_target`, zoomed
    /// about the last cursor position, and the text restarts. The view itself
    /// moves on each redraw.
    pub fn on_wheel(&mut self, game: &Game, delta: WheelDelta)
        requires
            old(self).wheel_ok(game.bounds, delta),
        ensures
            final(self).targetbounds == zoom_target(game.bounds, old(self).lastcursorpos, zoom_amount(delta, old(self).zoomspeed)),
            final(self).currentlettercount == 0,
            final(self).paused == old(self).paused,
            final(self).draw_state == old(self).draw_state,
            final(self).lastcursorpos == old(self).lastcursorpos,
            final(self).zoomspeed == old(self).zoomspeed,
            final(self).resolution == old(self).resolution,
    {
        let (cx, cy) = self.lastcursorpos;
        let (min_x, min_y) = game.bounds.0;
        let (max_x, max_y) = game.bounds.1;
        let zoom: i32 = match delta {
            WheelDelta::Lines(y) => y * self.zoomspeed,
            WheelDelta::Pixels(y) => y,
        };
        let zf: i32 = (100 - zoom).max(10);
        let new_min_x = zoom_axis_exec(cx, min_x, zf);
        let new_max_x = zoom_axis_exec(cx, max_x, zf);
        let new_min_y = zoom_axis_exec(cy, min_y, zf);
        let new_max_y = zoom_axis_exec(cy, max_y, zf);
        self.targetbounds = ((new_min_x, new_min_y), (new_max_x.max(new_min_x + 20), new_max_y.max(new_min_y + 11)));
        self.currentlettercount = 0;
    }
}

/// The square of side 31 centred on `c`, that the drawing brush reaches.
pub open spec fn brush(c: Pair) -> Set<i64> {
    Set::new(|p: i64| c.0 - 15 <= hi_spec(p) <= c.0 + 15 && c.1 - 15 <= lo_spec(p) <= c.1 + 15)
}

/// A view edge moved a tenth of the way toward its target (rounding toward
/// the edge).
pub open spec fn ease(b: i32, t: i32) -> i32 {
    (b + trunc_div(t - b, 10)) as i32
}

/// The view after one redraw, each edge eased toward `target`.
pub open spec fn eased(bounds: (Pair, Pair), target: (Pair, Pair)) -> (Pair, Pair) {
    (
        (ease(bounds.0.0, target.0.0), ease(bounds.0.1, target.0.1)),
        (ease(bounds.1.0, target.1.0), ease(bounds.1.1, target.1.1)),
    )
}

/// Every edge's distance to its target fits in an `i32`.
pub open spec fn ease_ok(bounds: (Pair, Pair), target: (Pair, Pair)) -> bool {
    &&& fits_i32(target.0.0 - bounds.0.0)
    &&& fits_i32(target.0.1 - bounds.0.1)
    &&& fits_i32(target.1.0 - bounds.1.0)
    &&& fits_i32(target.1.1 - bounds.1.1)
}

/// Moves a view edge a tenth of the way toward its target.
fn ease_exec(b: i32, t: i32) -> (r: i32)
    requires
        fits_i32(t - b),
    ensures
        r == ease(b, t),
{
    b + (t - b) / 10
}

/// Whether `t - b` fits in an `i32`.
fn diff_fits(b: i32, t: i32) -> (r: bool)
    ensures
        r == fits_i32(t - b),
{
    let d: i64 = t as i64 - b as i64;
    i32::MIN as i64 <= d && d <= i32::MAX as i64
}

/// Brush spot `(i, j)` (`0 <= i, j < 31`): the cell `(c.0 + i - 15, c.1 + j -
/// 15)`.
pub open spec fn brush_spot(c: Pair, i: int, j: int) -> i64 {
    pack_spec((c.0 + i - 15) as i32, (c.1 + j - 15) as i32)
}

/// Spot `(i, j)` is drawn: its random byte, number `31 * i + j`, is a
/// multiple of 5.
pub open spec fn spot_drawn(bytes: Seq<u8>, i: int, j: int) -> bool {
    bytes[31 * i + j] % 5 == 0
}

/// The drawn spots among the first ones: the rows before `i`, and the spots
/// before `j` of row `i`.
pub open spec fn brush_upto(c: Pair, bytes: Seq<u8>, i: int, j: int) -> Set<i64> {
    Set::new(
        |p: i64|
            exists|a: int, b: int|
                0 <= a < 31 && 0 <= b < 31 && (a < i || (a == i && b < j)) && spot_drawn(bytes, a, b) && p
                    == #[trigger] brush_spot(c, a, b),
    )
}

/// The cells the brush around `c` brings to life when its 961 random bytes
/// are `bytes`.
pub open spec fn brush_cells(c: Pair, bytes: Seq<u8>) -> Set<i64> {
    brush_upto(c, bytes, 31, 0)
}

/// The brush's cells lie in the square around `c`.
proof fn lemma_brush_within(c: Pair, bytes: Seq<u8>)
    requires
        i32::MIN + 15 <= c.0 <= i32::MAX - 15,
        i32::MIN + 15 <= c.1 <= i32::MAX - 15,
    ensures
        brush_cells(c, bytes).subset_of(brush(c)),
{
    assert forall|p: i64| #[trigger] brush_cells(c, bytes).contains(p) implies brush(c).contains(p) by {
        let (a, b) = choose|a: int, b: int|
            0 <= a < 31 && 0 <= b < 31 && (a < 31 || (a == 31 && b < 0)) && spot_drawn(bytes, a, b) && p
                == #[trigger] brush_spot(c, a, b);
        crate::ppair::lemma_unpack_pack((c.0 + a - 15) as i32, (c.1 + b - 15) as i32);
    }
}

/// `n` random bytes.
fn random_bytes(n: usize) -> (r: Vec<u8>)
    ensures
        r@.len() == n,
{
    let mut r: Vec<u8> = Vec::new();
    let mut k: usize = 0;
    while k < n
        invariant
            k <= n,
            r@.len() == k,
        decreases n - k,
    {
        r.push(random_u8());
        k = k + 1;
    }
    r
}

/// Brings to life the drawn spots of the brush around `c`: spot `(i, j)`
/// when byte number `31 * i + j` of `bytes` is a multiple of 5, row by row.
pub fn paint_brush(game: &mut Game, c: Pair, bytes: &Vec<u8>)
    requires
        old(game).wf(),
        bytes@.len() == 961,
        i32::MIN + 15 <= c.0 <= i32::MAX - 15,
        i32::MIN + 15 <= c.1 <= i32::MAX - 15,
    ensures
        final(game).wf(),
        final(game).cells_view() == old(game).cells_view().union(brush_cells(c, bytes@)),
        final(game).same_rest(old(game)),
{
    let ghost cells0 = game.cells_view();
    let mut i: usize = 0;
    while i < 31
        invariant
            i <= 31,
            bytes@.len() == 961,
            i32::MIN + 15 <= c.0 <= i32::MAX - 15,
            i32::MIN + 15 <= c.1 <= i32::MAX - 15,
            game.wf(),
            game.cells_view() == cells0.union(brush_upto(c, bytes@, i as int, 0)),
            game.same_rest(old(game)),
        decreases 31 - i,
    {
        let mut j: usize = 0;
        while j < 31
            invariant
                i < 31,
                j <= 31,
                bytes@.len() == 961,
                i32::MIN + 15 <= c.0 <= i32::MAX - 15,
                i32::MIN + 15 <= c.1 <= i32::MAX - 15,
                game.wf(),
                game.cells_view() == cells0.union(brush_upto(c, bytes@, i as int, j as int)),
                game.same_rest(old(game)),
            decreases 31 - j,
        {
            let ghost before = brush_upto(c, bytes@, i as int, j as int);
            let ghost after = brush_upto(c, bytes@, i as int, j + 1);
            if bytes[31 * i + j] % 5 == 0 {
                let p = pack(c.0 - 15 + i as i32, c.1 - 15 + j as i32);
                game.addcell(p);
                proof {
                    assert(p == brush_spot(c, i as int, j as int));
                    assert forall|q: i64| #[trigger] after.contains(q) == before.insert(p).contains(q) by {
                        if after.contains(q) {
                            let (a, b) = choose|a: int, b: int|
                                0 <= a < 31 && 0 <= b < 31 && (a < i || (a == i && b < j + 1)) && spot_drawn(bytes@, a, b)
                                    && q == #[trigger] brush_spot(c, a, b);
                            if !(a == i && b == j) {
                                assert(before.contains(q));
                            }
                        }
                        if before.contains(q) {
                            let (a, b) = choose|a: int, b: int|
                                0 <= a < 31 && 0 <= b < 31 && (a < i || (a == i && b < j)) && spot_drawn(bytes@, a, b)
                                    && q == #[trigger] brush_spot(c, a, b);
                            assert(after.contains(q));
                        }
                        if q == p {
                            assert(spot_drawn(bytes@, i as int, j as int));
                            assert(after.contains(q));
                        }
                    }
                    assert(game.cells_view() =~= cells0.union(after));
                }
            } else {
                proof {
                    assert forall|q: i64| #[trigger] after.contains(q) == before.contains(q) by {
                        if after.contains(q) {
                            let (a, b) = choose|a: int, b: int|
                                0 <= a < 31 && 0 <= b < 31 && (a < i || (a == i && b < j + 1)) && spot_drawn(bytes@, a, b)
                                    && q == #[trigger] brush_spot(c, a, b);
                            if a == i && b == j {
                                assert(!spot_drawn(bytes@, i as int, j as int));
                            } else {
                                assert(before.contains(q));
                            }
                        }
                        if before.contains(q) {
                            let (a, b) = choose|a: int, b: int|
                                0 <= a < 31 && 0 <= b < 31 && (a < i || (a == i && b < j)) && spot_drawn(bytes@, a, b)
                                    && q == #[trigger] brush_spot(c, a, b);
                            assert(after.contains(q));
                        }
                    }
                    assert(after =~= before);
                }
            }
            j = j + 1;
        }
        proof {
            assert(brush_upto(c, bytes@, i as int, 31) =~= brush_upto(c, bytes@, i + 1, 0));
        }
        i = i + 1;
    }
}

impl UiState {
    /// The cursor positions this state can take with the view `bounds`: the
    /// position maps into the plane, and while drawing the whole brush
    /// around it has coordinates.
    pub open spec fn cursor_ok(&self, bounds: (Pair, Pair), pos: P16) -> bool {
        let c = mapsb_spec(bounds, pos, self.resolution);
        &&& mapsb_ok(bounds, pos, self.resolution)
        &&& self.draw_state == Some(true) ==> i32::MIN + 15 <= c.0 <= i32::MAX - 15 && i32::MIN + 15 <= c.1
            <= i32::MAX - 15
    }

    /// Whether `on_cursor` can take `pos` with `game` as it is.
    pub fn cursor_fits(&self, game: &Game, pos: P16) -> (r: bool)
        ensures
            r == self.cursor_ok(game.bounds, pos),
    {
        if !mapsb_fits(&game.bounds, pos, &self.resolution) {
            return false;
        }
        let c = game.mapsb(pos, &self.resolution);
        match self.draw_state {
            Some(true) => i32::MIN + 15 <= c.0 && c.0 <= i32::MAX - 15 && i32::MIN + 15 <= c.1 && c.1 <= i32::MAX - 15,
            _ => true,
        }
    }

    /// The cursor moved to screen position `pos`. The plane position under it
    /// is remembered; while drawing, cells are scattered at random over the
    /// brush around it (each with chance one in five) and the cell under it
    /// comes to life; while erasing, the cell under it dies.
    pub fn on_cursor(&mut self, game: &mut Game, pos: P16)
        requires
            old(game).wf(),
            old(self).cursor_ok(old(game).bounds, pos),
        ensures
            final(game).wf(),
            final(self).lastcursorpos == mapsb_spec(old(game).bounds, pos, old(self).resolution),
            final(self).same_but_cursor(old(self)),
            old(self).draw_state is None ==> *final(game) == *old(game),
            ({
                let c = mapsb_spec(old(game).bounds, pos, old(self).resolution);
                &&& old(self).draw_state == Some(false) ==> final(game).cells_view() == old(game).cells_view().remove(
                    pack_spec(c.0, c.1),
                )
                &&& old(self).draw_state == Some(true) ==> {
                    &&& exists|bytes: Seq<u8>|
                        #![trigger brush_cells(c, bytes)]
                        bytes.len() == 961 && final(game).cells_view() == old(game).cells_view().union(
                            brush_cells(c, bytes),
                        ).insert(pack_spec(c.0, c.1))
                    &&& final(game).cells_view().contains(pack_spec(c.0, c.1))
                    &&& final(game).cells_view().subset_of(old(game).cells_view().union(brush(c)))
                }
            }),
            final(game).same_rest(old(game)),
    {
        let coord = topack(&game.mapsb(pos, &self.resolution));
        self.lastcursorpos = unpack(coord);
        let ghost c = self.lastcursorpos;
        let ghost cells0 = game.cells_view();
        match self.draw_state {
            Some(true) => {
                let bytes = random_bytes(961);
                paint_brush(game, self.lastcursorpos, &bytes);
                proof {
                    lemma_brush_within(c, bytes@);
                }
                self.lastcursorpos = unpack(coord);
                game.addcell(coord);
            },
            Some(false) => {
                game.removecell(&coord);
            },
            None => {},
        }
    }

    /// All fields but the cursor position are those of `other`.
    pub open spec fn same_but_cursor(&self, other: &UiState) -> bool {
        &&& self.paused == other.paused
        &&& self.draw_state == other.draw_state
        &&& self.targetbounds == other.targetbounds
        &&& self.currentlettercount == other.currentlettercount
        &&& self.zoomspeed == other.zoomspeed
        &&& self.resolution == other.resolution
    }

    /// The redraws this state can take with `game`: a running game has a next
    /// generation number, and each view edge's distance to its target fits in
    /// an `i32`.
    pub open spec fn redraw_ok(&self, game: &Game) -> bool {
        &&& !self.paused ==> game.lifetime < i32::MAX
        &&& ease_ok(game.bounds, self.targetbounds)
    }

    /// Whether `on_redraw` can run with `game` as it is.
    pub fn redraw_fits(&self, game: &Game) -> (r: bool)
        ensures
            r == self.redraw_ok(game),
    {
        (self.paused || game.lifetime < i32::MAX) && diff_fits(game.bounds.0.0, self.targetbounds.0.0) && diff_fits(
            game.bounds.0.1,
            self.targetbounds.0.1,
        ) && diff_fits(game.bounds.1.0, self.targetbounds.1.0) && diff_fits(game.bounds.1.1, self.targetbounds.1.1)
    }

    /// The game's part of a redraw: restarts the game's stopwatch, advances a
    /// generation unless paused, and eases the view toward its target. About
    /// one redraw in sixty (`lap_if` with a random byte) also ends a lap of
    /// the stopwatch and returns its time, for a report.
    pub fn on_redraw(&self, game: &mut Game) -> (report: Option<std::time::Duration>)
        requires
            old(game).wf(),
            self.redraw_ok(old(game)),
        ensures
            final(game).wf(),
            self.paused ==> {
                &&& final(game).cells == old(game).cells
                &&& final(game).active == old(game).active
                &&& final(game).nmap == old(game).nmap
                &&& final(game).lifetime == old(game).lifetime
            },
            !self.paused ==> {
                &&& final(game).cells_view() == life_step(old(game).cells_view())
                &&& final(game).active_view() == blocks(changed(old(game).cells_view(), final(game).cells_view()))
                &&& final(game).lifetime == old(game).lifetime + 1
            },
            final(game).bounds == eased(old(game).bounds, self.targetbounds),
            final(game).prevgen == old(game).prevgen,
    {
        game.ts.bump();
        if !self.paused {
            game.processactives();
        }
        let report = lap_if(game, random_u8());
        game.bounds.0.0 = ease_exec(game.bounds.0.0, self.targetbounds.0.0);
        game.bounds.0.1 = ease_exec(game.bounds.0.1, self.targetbounds.0.1);
        game.bounds.1.0 = ease_exec(game.bounds.1.0, self.targetbounds.1.0);
        game.bounds.1.1 = ease_exec(game.bounds.1.1, self.targetbounds.1.1);
        report
    }
}

/// Ends a lap of the game's stopwatch and returns its time when `byte` is a
/// multiple of 60; otherwise changes nothing. Nothing but the stopwatch
/// changes.
pub fn lap_if(game: &mut Game, byte: u8) -> (report: Option<std::time::Duration>)
    ensures
        report is Some <==> byte % 60 == 0,
        final(game).cells == old(game).cells,
        final(game).active == old(game).active,
        final(game).nmap == old(game).nmap,
        final(game).bounds == old(game).bounds,
        final(game).lifetime == old(game).lifetime,
        final(game).prevgen == old(game).prevgen,
        final(game).nrcells == old(game).nrcells,
        report is None ==> final(game).ts == old(game).ts,
        report matches Some(d) ==> d == elapsed(final(game).ts.start, old(game).ts.start),
{
    if byte % 60 == 0 {
        Some(game.ts.stamp())
    } else {
        None
    }
}

/// After drawing, about one frame in sixty: `lap_if` with a random byte, for
/// a report of the drawing time.
pub fn draw_lap(game: &mut Game) -> (report: Option<std::time::Duration>)
    ensures
        final(game).cells == old(game).cells,
        final(game).active == old(game).active,
        final(game).nmap == old(game).nmap,
        final(game).bounds == old(game).bounds,
        final(game).lifetime == old(game).lifetime,
        final(game).prevgen == old(game).prevgen,
        final(game).nrcells == old(game).nrcells,
        report is None ==> final(game).ts == old(game).ts,
        report matches Some(d) ==> d == elapsed(final(game).ts.start, old(game).ts.start),
{
    lap_if(game, random_u8())
}

/// The numbers of marked and live cells when `byte` is a multiple of 20,
/// otherwise nothing.
pub fn counts_if(game: &Game, byte: u8) -> (r: Option<(usize, usize)>)
    ensures
        r is Some <==> byte % 20 == 0,
        r matches Some((actives, total)) ==> actives == set_view(game.active).len() && total == set_view(
            game.cells,
        ).len(),
{
    if byte % 20 == 0 {
        Some((game.marked_count(), game.cell_count()))
    } else {
        None
    }
}

/// About one frame in twenty: `counts_if` with a random byte, to refresh the
/// figures drawn over the frame.
pub fn sample_counts(game: &Game) -> (r: Option<(usize, usize)>)
    ensures
        r matches Some((actives, total)) ==> actives == set_view(game.active).len() && total == set_view(
            game.cells,
        ).len(),
{
    counts_if(game, random_u8())
}

/// `c` in lower case, where it is an ASCII capital; otherwise `c`.
pub fn lower_ascii(c: char) -> (r: char)
    ensures
        r == ascii_lower(c),
{
    if 'A' <= c && c <= 'Z' {
        ((c as u8) + 32) as char
    } else {
        c
    }
}

} // verus!
