//! Typing letters onto the board: each letter of a small bitmap font is
//! stamped as live cells, in lines across the screen.
use vstd::prelude::*;
use crate::game::{counts_ok, stable, Game};
use crate::ppair::{hi_spec, lo_spec, pack, pack_spec, Pair, P16};
use crate::screen::{mapsb_fits, mapsb_ok, mapsb_spec};

verus! {

/// Glyph width, in font pixels.
pub const LETTER_SIZE_X: u16 = 5;
/// Glyph height, in font pixels.
pub const LETTER_SIZE_Y: u16 = 7;
/// Space between glyphs, in font pixels.
pub const LETTER_SPACING: u16 = 1;
/// Screen pixels per font pixel.
pub const LETTER_SCALE: u16 = 4;
/// Space between lines of text, in screen pixels.
pub const LINE_SPACING: u16 = 4;
/// Left and right margin, in screen pixels.
pub const WINDOW_PADDING_X: u16 = 40;
/// Top and bottom margin, in screen pixels.
pub const WINDOW_PADDING_Y: u16 = 40;

/// A 5x7 bitmap font: `a` to `z`, then space, `.`, `,`, `!`, `?` and `'`.
/// Each row holds five pixels, the leftmost in bit 4.
pub const FONT_LETTERS: [[u8; 7]; 32] = [
    [0x0E, 0x11, 0x11, 0x1F, 0x11, 0x11, 0x11],
    [0x1E, 0x11, 0x11, 0x1E, 0x11, 0x11, 0x1E],
    [0x0E, 0x11, 0x10, 0x10, 0x10, 0x11, 0x0E],
    [0x1E, 0x11, 0x11, 0x11, 0x11, 0x11, 0x1E],
    [0x1F, 0x10, 0x10, 0x1E, 0x10, 0x10, 0x1F],
    [0x1F, 0x10, 0x10, 0x1E, 0x10, 0x10, 0x10],
    [0x0E, 0x11, 0x10, 0x17, 0x11, 0x11, 0x0F],
    [0x11, 0x11, 0x11, 0x1F, 0x11, 0x11, 0x11],
    [0x0E, 0x04, 0x04, 0x04, 0x04, 0x04, 0x0E],
    [0x07, 0x02, 0x02, 0x02, 0x02, 0x12, 0x0C],
    [0x11, 0x12, 0x14, 0x18, 0x14, 0x12, 0x11],
    [0x10, 0x10, 0x10, 0x10, 0x10, 0x10, 0x1F],
    [0x11, 0x1B, 0x15, 0x15, 0x11, 0x11, 0x11],
    [0x11, 0x11, 0x19, 0x15, 0x13, 0x11, 0x11],
    [0x0E, 0x11, 0x11, 0x11, 0x11, 0x11, 0x0E],
    [0x1E, 0x11, 0x11, 0x1E, 0x10, 0x10, 0x10],
    [0x0E, 0x11, 0x11, 0x11, 0x15, 0x12, 0x0D],
    [0x1E, 0x11, 0x11, 0x1E, 0x14, 0x12, 0x11],
    [0x0F, 0x10, 0x10, 0x0E, 0x01, 0x01, 0x1E],
    [0x1F, 0x04, 0x04, 0x04, 0x04, 0x04, 0x04],
    [0x11, 0x11, 0x11, 0x11, 0x11, 0x11, 0x0E],
    [0x11, 0x11, 0x11, 0x11, 0x11, 0x0A, 0x04],
    [0x11, 0x11, 0x11, 0x15, 0x15, 0x15, 0x0A],
    [0x11, 0x11, 0x0A, 0x04, 0x0A, 0x11, 0x11],
    [0x11, 0x11, 0x0A, 0x04, 0x04, 0x04, 0x04],
    [0x1F, 0x01, 0x02, 0x04, 0x08, 0x10, 0x1F],
    [0x00, 0x00, 0x00, 0x00, 0x00, 0x00, 0x00],
    [0x00, 0x00, 0x00, 0x00, 0x00, 0x0C, 0x0C],
    [0x00, 0x00, 0x00, 0x00, 0x0C, 0x04, 0x08],
    [0x04, 0x04, 0x04, 0x04, 0x04, 0x00, 0x04],
    [0x0E, 0x11, 0x01, 0x02, 0x04, 0x00, 0x04],
    [0x04, 0x04, 0x08, 0x00, 0x00, 0x00, 0x00],
];

/// The glyph of `c` in `FONT_LETTERS`, if the font has one.
pub open spec fn letter_index(c: char) -> Option<int> {
    if 'a' <= c <= 'z' {
        Some((c as u32) - ('a' as u32))
    } else if c == ' ' {
        Some(26)
    } else if c == '.' {
        Some(27)
    } else if c == ',' {
        Some(28)
    } else if c == '!' {
        Some(29)
    } else if c == '?' {
        Some(30)
    } else if c == '\'' {
        Some(31)
    } else {
        None
    }
}

/// The characters of the glyphs of `FONT_LETTERS`, in order: the letters `a`
/// to `z`, then space, `.`, `,`, `!`, `?` and `'`.
pub open spec fn font_order() -> Seq<char> {
    seq![
        'a', 'b', 'c', 'd', 'e', 'f', 'g', 'h', 'i', 'j', 'k', 'l', 'm', 'n', 'o', 'p', 'q', 'r', 's', 't', 'u', 'v', 'w',
        'x', 'y', 'z', ' ', '.', ',', '!', '?', '\'',
    ]
}

/// A character is typed with glyph `g` exactly when it is the `g`-th
/// character of the font; every other character has no glyph.
pub proof fn lemma_letter_index_font_order(c: char, g: int)
    ensures
        letter_index(c) == Some(g) <==> (0 <= g < 32 && font_order()[g] == c),
        letter_index(c) is None <==> !font_order().contains(c),
{
    assert(font_order().len() == 32);
    if letter_index(c) is Some {
        let h = letter_index(c)->0;
        assert(0 <= h < 32);
        assert(font_order()[h] == c);
    }
    if 0 <= g < 32 && font_order()[g] == c {
        assert(letter_index(c) == Some(g));
    }
    if font_order().contains(c) {
        let i = choose|i: int| 0 <= i < 32 && font_order()[i] == c;
        assert(letter_index(c) == Some(i));
    }
}

/// The font pixel in column `dx` of row `dy` of glyph `g` is set.
pub open spec fn letter_bit(g: int, dy: int, dx: int) -> bool {
    (FONT_LETTERS@[g]@[dy] >> ((4 - dx) as u8)) & 1u8 != 0u8
}

/// Where letter number `count` goes on a screen of `resolution`: its top-left
/// corner, in screen pixels. Letters advance 30 pixels at a time and wrap at
/// the right margin onto lines 32 pixels apart.
pub open spec fn letter_pos(count: int, resolution: P16) -> (int, int) {
    let width = resolution.0 - 2 * WINDOW_PADDING_X;
    let lenx = (LETTER_SIZE_X + LETTER_SPACING) * count * LETTER_SIZE_X;
    let timeswrapped = lenx / width;
    (
        lenx % width + WINDOW_PADDING_X,
        WINDOW_PADDING_Y + (LETTER_SIZE_Y * LETTER_SCALE + LINE_SPACING) * timeswrapped,
    )
}

/// Letter number `count` still fits above the bottom margin.
pub open spec fn letter_room(count: int, resolution: P16) -> bool {
    letter_pos(count, resolution).1 <= resolution.1 - WINDOW_PADDING_Y - LETTER_SIZE_Y
}

/// The lesser of two integers.
pub open spec fn min_i(a: int, b: int) -> int {
    if a <= b {
        a
    } else {
        b
    }
}

/// The greater of two integers.
pub open spec fn max_i(a: int, b: int) -> int {
    if a >= b {
        a
    } else {
        b
    }
}

/// The plane cells under the screen square of font pixel `(dx, dy)` of a
/// letter with its corner at `pos`: those from the plane position of the
/// square's corner up to (not including) that of the opposite corner.
pub open spec fn under_square(bounds: (Pair, Pair), resolution: P16, pos: (int, int), dx: int, dy: int, p: i64) -> bool {
    let nx = pos.0 + dx * LETTER_SCALE;
    let ny = pos.1 + dy * LETTER_SCALE;
    let g1 = mapsb_spec(bounds, (nx as u16, ny as u16), resolution);
    let g2 = mapsb_spec(bounds, ((nx + LETTER_SCALE) as u16, (ny + LETTER_SCALE) as u16), resolution);
    &&& min_i(g1.0 as int, g2.0 as int) <= hi_spec(p) < max_i(g1.0 as int, g2.0 as int)
    &&& min_i(g1.1 as int, g2.1 as int) <= lo_spec(p) < max_i(g1.1 as int, g2.1 as int)
}

/// The cells that typing glyph `g` at `pos` brings to life.
pub open spec fn letter_cells(bounds: (Pair, Pair), resolution: P16, g: int, pos: (int, int)) -> Set<i64> {
    Set::new(
        |p: i64|
            exists|dy: int, dx: int|
                0 <= dy < 7 && 0 <= dx < 5 && letter_bit(g, dy, dx) && #[trigger] under_square(bounds, resolution, pos, dx, dy, p),
    )
}

/// `draw_letter` can run without overflow or division by zero.
pub open spec fn letter_ok(bounds: (Pair, Pair), count: int, resolution: P16) -> bool {
    let width = resolution.0 - 2 * WINDOW_PADDING_X;
    let lenx = (LETTER_SIZE_X + LETTER_SPACING) * count * LETTER_SIZE_X;
    let pos = letter_pos(count, resolution);
    &&& resolution.0 > 2 * WINDOW_PADDING_X
    &&& resolution.1 >= 2 * WINDOW_PADDING_Y
    &&& lenx <= u16::MAX
    &&& pos.1 <= u16::MAX
    &&& letter_room(count, resolution) ==> forall|dy: int, dx: int|
        0 <= dy < 7 && 0 <= dx < 5 ==> #[trigger] square_ok(bounds, resolution, pos, dx, dy)
}

/// The screen square of font pixel `(dx, dy)` maps into the plane without
/// overflow.
pub open spec fn square_ok(bounds: (Pair, Pair), resolution: P16, pos: (int, int), dx: int, dy: int) -> bool {
    let nx = pos.0 + dx * LETTER_SCALE;
    let ny = pos.1 + dy * LETTER_SCALE;
    &&& nx + LETTER_SCALE <= u16::MAX
    &&& ny + LETTER_SCALE <= u16::MAX
    &&& mapsb_ok(bounds, (nx as u16, ny as u16), resolution)
    &&& mapsb_ok(bounds, ((nx + LETTER_SCALE) as u16, (ny + LETTER_SCALE) as u16), resolution)
}

/// The cells from column `x0` up to `x1` and row `y0` up to `y1`.
pub open spec fn rect(x0: int, x1: int, y0: int, y1: int) -> Set<i64> {
    Set::new(|p: i64| x0 <= hi_spec(p) < x1 && y0 <= lo_spec(p) < y1)
}

impl Game {
    /// Brings every cell from column `x0` up to `x1` and row `y0` up to `y1`
    /// to life.
    pub fn fill_rect(&mut self, x0: i32, x1: i32, y0: i32, y1: i32)
        requires
            counts_ok(old(self).cells_view(), old(self).counts_view()),
        ensures
            old(self).cells_view().finite() ==> final(self).cells_view().finite(),
            final(self).cells_view() == old(self).cells_view().union(rect(x0 as int, x1 as int, y0 as int, y1 as int)),
            counts_ok(final(self).cells_view(), final(self).counts_view()),
            stable(old(self).cells_view(), old(self).active_view()) ==> stable(
                final(self).cells_view(),
                final(self).active_view(),
            ),
            final(self).same_rest(old(self)),
    {
        let ghost cells0 = self.cells_view();
        let ghost stable0 = stable(self.cells_view(), self.active_view());
        let mut gx: i32 = x0;
        while gx < x1
            invariant
                x0 <= gx,
                gx <= x1 || gx == x0,
                counts_ok(self.cells_view(), self.counts_view()),
                old(self).cells_view().finite() ==> self.cells_view().finite(),
                stable0 ==> stable(self.cells_view(), self.active_view()),
                self.cells_view() == cells0.union(rect(x0 as int, gx as int, y0 as int, y1 as int)),
                self.same_rest(old(self)),
            decreases x1 - gx,
        {
            let mut gy: i32 = y0;
            while gy < y1
                invariant
                    x0 <= gx < x1,
                    y0 <= gy,
                    gy <= y1 || gy == y0,
                    counts_ok(self.cells_view(), self.counts_view()),
                    old(self).cells_view().finite() ==> self.cells_view().finite(),
                old(self).cells_view().finite() ==> self.cells_view().finite(),
                    stable0 ==> stable(self.cells_view(), self.active_view()),
                    self.cells_view() == cells0.union(rect(x0 as int, gx as int, y0 as int, y1 as int)).union(
                        rect(gx as int, gx + 1, y0 as int, gy as int),
                    ),
                    self.same_rest(old(self)),
                decreases y1 - gy,
            {
                let c = pack(gx, gy);
                self.addcell(c);
                proof {
                    assert forall|p: i64| hi_spec(p) == gx && lo_spec(p) == gy implies p == c by {
                        crate::ppair::lemma_pack_unpack(p);
                    }
                    assert(self.cells_view() =~= cells0.union(rect(x0 as int, gx as int, y0 as int, y1 as int)).union(
                        rect(gx as int, gx + 1, y0 as int, gy + 1),
                    ));
                }
                gy = gy + 1;
            }
            proof {
                assert(self.cells_view() =~= cells0.union(rect(x0 as int, gx + 1, y0 as int, y1 as int)));
            }
            gx = gx + 1;
        }
        proof {
            assert(self.cells_view() =~= cells0.union(rect(x0 as int, x1 as int, y0 as int, y1 as int)));
        }
    }
}

/// The cells under the first font pixels of glyph `g` (rows before `dy`, and
/// columns before `dx` of row `dy`).
pub open spec fn letter_cells_upto(bounds: (Pair, Pair), resolution: P16, g: int, pos: (int, int), dy: int, dx: int) -> Set<i64> {
    Set::new(
        |p: i64|
            exists|y: int, x: int|
                0 <= y < 7 && 0 <= x < 5 && (y < dy || (y == dy && x < dx)) && letter_bit(g, y, x)
                    && #[trigger] under_square(bounds, resolution, pos, x, y, p),
    )
}

/// Stamps the glyph of `lettr` as live cells where letter number
/// `currlettercount` goes on the screen. Returns false, changing nothing, when
/// the letter would fall below the bottom margin or the font has no glyph for
/// it.
pub fn draw_letter(game: &mut Game, lettr: char, currlettercount: u16, resolution: &P16) -> (r: bool)
    requires
        counts_ok(old(game).cells_view(), old(game).counts_view()),
        letter_ok(old(game).bounds, currlettercount as int, *resolution),
    ensures
        old(game).cells_view().finite() ==> final(game).cells_view().finite(),
        r == (letter_room(currlettercount as int, *resolution) && letter_index(lettr) is Some),
        r ==> final(game).cells_view() == old(game).cells_view().union(
            letter_cells(old(game).bounds, *resolution, letter_index(lettr)->0, letter_pos(currlettercount as int, *resolution)),
        ),
        !r ==> *final(game) == *old(game),
        counts_ok(final(game).cells_view(), final(game).counts_view()),
        stable(old(game).cells_view(), old(game).active_view()) ==> stable(
            final(game).cells_view(),
            final(game).active_view(),
        ),
        final(game).same_rest(old(game)),
{
    let realresolution: P16 = (resolution.0 - 2 * WINDOW_PADDING_X, resolution.1 - 2 * WINDOW_PADDING_Y);
    let lenx: u16 = (LETTER_SIZE_X + LETTER_SPACING) * currlettercount * LETTER_SIZE_X;
    let timeswrapped: u16 = lenx / realresolution.0;
    let posy: u16 = WINDOW_PADDING_Y + (LETTER_SIZE_Y * LETTER_SCALE + LINE_SPACING) * timeswrapped;
    let ghost pos = letter_pos(currlettercount as int, *resolution);
    assert(posy == pos.1);
    if posy > resolution.1 - WINDOW_PADDING_Y - LETTER_SIZE_Y {
        return false;
    }
    let posx: u16 = lenx % realresolution.0 + WINDOW_PADDING_X;
    assert(posx == pos.0);
    let idx: usize = if 'a' <= lettr && lettr <= 'z' {
        (lettr as u32 - 'a' as u32) as usize
    } else if lettr == ' ' {
        26
    } else if lettr == '.' {
        27
    } else if lettr == ',' {
        28
    } else if lettr == '!' {
        29
    } else if lettr == '?' {
        30
    } else if lettr == '\'' {
        31
    } else {
        return false;
    };
    let ghost g = idx as int;
    assert(letter_index(lettr) == Some(g));
    let ghost bounds = game.bounds;
    let ghost cells0 = game.cells_view();
    let ghost stable0 = stable(game.cells_view(), game.active_view());
    let glyph = FONT_LETTERS[idx];
    let mut dy: usize = 0;
    while dy < 7
        invariant
            dy <= 7,
            g == idx as int,
            idx < 32,
            glyph@ == FONT_LETTERS@[g]@,
            pos == letter_pos(currlettercount as int, *resolution),
            posx == pos.0,
            posy == pos.1,
            letter_room(currlettercount as int, *resolution),
            letter_ok(bounds, currlettercount as int, *resolution),
            game.bounds == bounds,
            counts_ok(game.cells_view(), game.counts_view()),
            old(game).cells_view().finite() ==> game.cells_view().finite(),
            stable0 ==> stable(game.cells_view(), game.active_view()),
            game.cells_view() == cells0.union(letter_cells_upto(bounds, *resolution, g, pos, dy as int, 0)),
            game.same_rest(old(game)),
        decreases 7 - dy,
    {
        let bits: u8 = glyph[dy];
        let mut dx: usize = 0;
        while dx < 5
            invariant
                dy < 7,
                dx <= 5,
                g == idx as int,
                idx < 32,
                bits == FONT_LETTERS@[g]@[dy as int],
                pos == letter_pos(currlettercount as int, *resolution),
                posx == pos.0,
                posy == pos.1,
                letter_room(currlettercount as int, *resolution),
                letter_ok(bounds, currlettercount as int, *resolution),
                game.bounds == bounds,
                counts_ok(game.cells_view(), game.counts_view()),
                old(game).cells_view().finite() ==> game.cells_view().finite(),
            old(game).cells_view().finite() ==> game.cells_view().finite(),
                stable0 ==> stable(game.cells_view(), game.active_view()),
                game.cells_view() == cells0.union(letter_cells_upto(bounds, *resolution, g, pos, dy as int, dx as int)),
                game.same_rest(old(game)),
            decreases 5 - dx,
        {
            let ghost before = game.cells_view();
            if (bits >> ((4 - dx) as u8)) & 1 != 0 {
                proof {
                    assert(square_ok(bounds, *resolution, pos, dx as int, dy as int));
                }
                let nx1: u16 = posx + (dx as u16 * LETTER_SCALE);
                let ny1: u16 = posy + (dy as u16 * LETTER_SCALE);
                let gpos1: Pair = game.mapsb((nx1, ny1), resolution);
                let gpos2: Pair = game.mapsb((nx1 + LETTER_SCALE, ny1 + LETTER_SCALE), resolution);
                let x0: i32 = gpos1.0.min(gpos2.0);
                let x1: i32 = gpos1.0.max(gpos2.0);
                let y0: i32 = gpos1.1.min(gpos2.1);
                let y1: i32 = gpos1.1.max(gpos2.1);
                game.fill_rect(x0, x1, y0, y1);
                proof {
                    assert(letter_bit(g, dy as int, dx as int));
                    assert forall|p: i64| #[trigger] game.cells_view().contains(p) == cells0.union(
                        letter_cells_upto(bounds, *resolution, g, pos, dy as int, dx + 1),
                    ).contains(p) by {
                        if under_square(bounds, *resolution, pos, dx as int, dy as int, p) {
                            assert(letter_cells_upto(bounds, *resolution, g, pos, dy as int, dx + 1).contains(p));
                        }
                        if letter_cells_upto(bounds, *resolution, g, pos, dy as int, dx + 1).contains(p) {
                            let (y, x) = choose|y: int, x: int|
                                0 <= y < 7 && 0 <= x < 5 && (y < dy || (y == dy && x < dx + 1)) && letter_bit(g, y, x)
                                    && #[trigger] under_square(bounds, *resolution, pos, x, y, p);
                            if !(y == dy && x == dx) {
                                assert(letter_cells_upto(bounds, *resolution, g, pos, dy as int, dx as int).contains(p));
                            }
                        }
                        if letter_cells_upto(bounds, *resolution, g, pos, dy as int, dx as int).contains(p) {
                            let (y, x) = choose|y: int, x: int|
                                0 <= y < 7 && 0 <= x < 5 && (y < dy || (y == dy && x < dx)) && letter_bit(g, y, x)
                                    && #[trigger] under_square(bounds, *resolution, pos, x, y, p);
                            assert(letter_cells_upto(bounds, *resolution, g, pos, dy as int, dx + 1).contains(p));
                        }
                    }
                    assert(game.cells_view() =~= cells0.union(letter_cells_upto(bounds, *resolution, g, pos, dy as int, dx + 1)));
                }
            } else {
                proof {
                    assert(!letter_bit(g, dy as int, dx as int));
                    assert(letter_cells_upto(bounds, *resolution, g, pos, dy as int, dx + 1) =~= letter_cells_upto(
                        bounds,
                        *resolution,
                        g,
                        pos,
                        dy as int,
                        dx as int,
                    ));
                }
            }
            dx = dx + 1;
        }
        proof {
            assert(letter_cells_upto(bounds, *resolution, g, pos, dy + 1, 0) =~= letter_cells_upto(
                bounds,
                *resolution,
                g,
                pos,
                dy as int,
                5,
            ));
        }
        dy = dy + 1;
    }
    proof {
        assert(letter_cells_upto(bounds, *resolution, g, pos, 7, 0) =~= letter_cells(bounds, *resolution, g, pos));
    }
    true
}


/// The screen row at which letter number `count` starts (its top edge).
pub fn letter_row(count: u16, resolution: &P16) -> (r: u16)
    requires
        resolution.0 > 2 * WINDOW_PADDING_X,
        30 * count <= u16::MAX,
        letter_pos(count as int, *resolution).1 <= u16::MAX,
    ensures
        r == letter_pos(count as int, *resolution).1,
{
    let realwidth: u16 = resolution.0 - 2 * WINDOW_PADDING_X;
    let lenx: u16 = (LETTER_SIZE_X + LETTER_SPACING) * count * LETTER_SIZE_X;
    let timeswrapped: u16 = lenx / realwidth;
    WINDOW_PADDING_Y + (LETTER_SIZE_Y * LETTER_SCALE + LINE_SPACING) * timeswrapped
}

/// Whether `draw_letter` can place letter number `count` with the view
/// `bounds` on a screen of `resolution` without overflow or division by zero.
pub fn letter_fits(bounds: &(Pair, Pair), count: u16, resolution: &P16) -> (r: bool)
    ensures
        r == letter_ok(*bounds, count as int, *resolution),
{
    if resolution.0 <= 2 * WINDOW_PADDING_X || resolution.1 < 2 * WINDOW_PADDING_Y {
        return false;
    }
    let lenx: u32 = 30 * count as u32;
    if lenx > 0xffff {
        return false;
    }
    let width: u32 = (resolution.0 - 2 * WINDOW_PADDING_X) as u32;
    let posy: u32 = 40 + 32 * (lenx / width);
    let ghost pos = letter_pos(count as int, *resolution);
    assert(posy == pos.1);
    if posy > 0xffff {
        return false;
    }
    let posx: u32 = lenx % width + 40;
    assert(posx == pos.0);
    if posy > (resolution.1 - WINDOW_PADDING_Y - LETTER_SIZE_Y) as u32 {
        return true;
    }
    let mut dy: u32 = 0;
    while dy < 7
        invariant
            dy <= 7,
            posx == pos.0,
            posy == pos.1,
            posx <= 0xffff + 40,
            posy <= 0xffff,
            resolution.0 > 2 * WINDOW_PADDING_X,
            resolution.1 >= 2 * WINDOW_PADDING_Y,
            30 * count <= 0xffff,
            letter_room(count as int, *resolution),
            pos == letter_pos(count as int, *resolution),
            forall|y: int, x: int| 0 <= y < dy && 0 <= x < 5 ==> #[trigger] square_ok(*bounds, *resolution, pos, x, y),
        decreases 7 - dy,
    {
        let mut dx: u32 = 0;
        while dx < 5
            invariant
                dy < 7,
                dx <= 5,
                posx == pos.0,
                posy == pos.1,
                posx <= 0xffff + 40,
                posy <= 0xffff,
                resolution.0 > 2 * WINDOW_PADDING_X,
                resolution.1 >= 2 * WINDOW_PADDING_Y,
                30 * count <= 0xffff,
                letter_room(count as int, *resolution),
                pos == letter_pos(count as int, *resolution),
                forall|y: int, x: int| 0 <= y < dy && 0 <= x < 5 ==> #[trigger] square_ok(*bounds, *resolution, pos, x, y),
                forall|x: int| 0 <= x < dx ==> #[trigger] square_ok(*bounds, *resolution, pos, x, dy as int),
            decreases 5 - dx,
        {
            let nx: u32 = posx + dx * 4;
            let ny: u32 = posy + dy * 4;
            if nx + 4 > 0xffff || ny + 4 > 0xffff {
                proof {
                    assert(!square_ok(*bounds, *resolution, pos, dx as int, dy as int));
                }
                return false;
            }
            if !mapsb_fits(bounds, (nx as u16, ny as u16), resolution) || !mapsb_fits(
                bounds,
                ((nx + 4) as u16, (ny + 4) as u16),
                resolution,
            ) {
                proof {
                    assert(!square_ok(*bounds, *resolution, pos, dx as int, dy as int));
                }
                return false;
            }
            proof {
                assert(square_ok(*bounds, *resolution, pos, dx as int, dy as int));
            }
            dx = dx + 1;
        }
        dy = dy + 1;
    }
    true
}

} // verus!
