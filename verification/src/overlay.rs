//! Numbers drawn over the frame in a small bitmap font: the frame rate, the
//! marked and live cell counts, and the activeness figure.
use vstd::prelude::*;
use crate::ppair::P16;
use crate::screen::{BLUE, GREEN, WHITE};

verus! {

/// A 5x7 bitmap font for the digits 0 to 9 and, at index 10, a slash. Each
/// row holds five pixels, the leftmost in bit 4.
pub const FONT: [[u8; 7]; 11] = [
    [0x0E, 0x11, 0x13, 0x15, 0x19, 0x11, 0x0E],
    [0x04, 0x0C, 0x04, 0x04, 0x04, 0x04, 0x0E],
    [0x0E, 0x11, 0x01, 0x02, 0x04, 0x08, 0x1F],
    [0x1F, 0x02, 0x04, 0x02, 0x01, 0x11, 0x0E],
    [0x02, 0x06, 0x0A, 0x12, 0x1F, 0x02, 0x02],
    [0x1F, 0x10, 0x1E, 0x01, 0x01, 0x11, 0x0E],
    [0x06, 0x08, 0x10, 0x1E, 0x11, 0x11, 0x0E],
    [0x1F, 0x01, 0x02, 0x04, 0x08, 0x08, 0x08],
    [0x0E, 0x11, 0x11, 0x0E, 0x11, 0x11, 0x0E],
    [0x0E, 0x11, 0x11, 0x0F, 0x01, 0x02, 0x0C],
    [0x01, 0x01, 0x02, 0x04, 0x08, 0x10, 0x10],
];

/// The glyph pixel in column `col` of `row` of glyph `d` is set.
pub open spec fn glyph_bit(d: int, row: int, col: int) -> bool {
    (FONT@[d]@[row] >> ((4 - col) as u8)) & 1u8 != 0u8
}

/// Screen pixel `(x, y)` is a set pixel of one of `digits`, drawn left to
/// right from `(2, y_offset)`, 7 pixels apart.
pub open spec fn glyph_lit(digits: Seq<u8>, y_offset: int, x: int, y: int) -> bool {
    &&& x >= 2
    &&& (x - 2) % 7 < 5
    &&& (x - 2) / 7 < digits.len()
    &&& y_offset <= y < y_offset + 7
    &&& glyph_bit(digits[(x - 2) / 7] as int, y - y_offset, (x - 2) % 7)
}

/// Byte `j` of a frame of 4-byte pixels, `width` pixels to a row, belongs to a
/// pixel on a screen of `width` by `height` that `digits` light.
pub open spec fn byte_lit(digits: Seq<u8>, y_offset: int, width: int, height: int, j: int) -> bool {
    width > 0 && (j / 4) / width < height && glyph_lit(digits, y_offset, (j / 4) % width, (j / 4) / width)
}

/// The frame after drawing `digits` in `color`: the bytes of lit pixels hold
/// the colour, every other byte is unchanged.
pub open spec fn drawn(before: Seq<u8>, after: Seq<u8>, digits: Seq<u8>, color: [u8; 4], y_offset: int, resolution: P16) -> bool {
    &&& after.len() == before.len()
    &&& forall|j: int|
        0 <= j < before.len() ==> #[trigger] after[j] == if byte_lit(digits, y_offset, resolution.0 as int, resolution.1 as int, j) {
            color[j % 4]
        } else {
            before[j]
        }
}

/// Every lit pixel lies within the frame.
pub open spec fn glyphs_fit(frame_len: int, digits: Seq<u8>, y_offset: int, resolution: P16) -> bool {
    forall|x: int, y: int|
        0 <= x < resolution.0 && 0 <= y < resolution.1 && #[trigger] glyph_lit(digits, y_offset, x, y)
            ==> 4 * (y * resolution.0 + x) + 4 <= frame_len
}

/// Every digit names a glyph.
pub open spec fn glyphs_known(digits: Seq<u8>) -> bool {
    forall|i: int| 0 <= i < digits.len() ==> #[trigger] digits[i] <= 10
}

/// The drawing order of lit pixel `(x, y)`: digit, then row, then column.
pub open spec fn glyph_key(y_offset: int, x: int, y: int) -> int {
    ((x - 2) / 7) * 35 + (y - y_offset) * 5 + (x - 2) % 7
}

/// Draws `digits` (glyph numbers) left to right from `(2, y_offset)`, each
/// glyph 5 pixels wide and 7 apart, setting each lit pixel on the screen to
/// `color`.
fn draw_glyphs(frame: &mut [u8], digits: &Vec<u8>, color: [u8; 4], y_offset: usize, resolution: &P16)
    requires
        digits@.len() <= 1000,
        y_offset <= 1000,
        glyphs_known(digits@),
        glyphs_fit(old(frame)@.len() as int, digits@, y_offset as int, *resolution),
    ensures
        drawn(old(frame)@, final(frame)@, digits@, color, y_offset as int, *resolution),
{
    let ghost frame0 = frame@;
    let flen: usize = frame.len();
    let ghost w = resolution.0 as int;
    let ghost h = resolution.1 as int;
    let ghost yo = y_offset as int;
    let x_offset: usize = 2;
    let digit_spacing: usize = 2;
    let digit_width: usize = 5;
    let mut i: usize = 0;
    while i < digits.len()
        invariant
            digits@.len() <= 1000,
            y_offset <= 1000,
            yo == y_offset as int,
            frame0.len() == flen,
            w == resolution.0 as int,
            h == resolution.1 as int,
            glyphs_known(digits@),
            glyphs_fit(frame0.len() as int, digits@, yo, *resolution),
            x_offset == 2,
            digit_spacing == 2,
            digit_width == 5,
            i <= digits@.len(),
            frame@.len() == frame0.len(),
            forall|j: int| 0 <= j < frame0.len() ==> #[trigger] frame@[j] == if byte_lit(digits@, yo, w, h, j)
                && glyph_key(yo, (j / 4) % w, (j / 4) / w) < i * 35 {
                color[j % 4]
            } else {
                frame0[j]
            },
        decreases digits@.len() - i,
    {
        let d = digits[i];
        assert(d <= 10);
        let font = FONT[d as usize];
        let mut row: usize = 0;
        while row < 7
            invariant
                digits@.len() <= 1000,
                y_offset <= 1000,
                yo == y_offset as int,
                frame0.len() == flen,
                w == resolution.0 as int,
                h == resolution.1 as int,
                glyphs_known(digits@),
                glyphs_fit(frame0.len() as int, digits@, yo, *resolution),
                x_offset == 2,
                digit_spacing == 2,
                digit_width == 5,
                i < digits@.len(),
                d == digits@[i as int],
                font@ == FONT@[d as int]@,
                row <= 7,
                frame@.len() == frame0.len(),
                forall|j: int| 0 <= j < frame0.len() ==> #[trigger] frame@[j] == if byte_lit(digits@, yo, w, h, j)
                    && glyph_key(yo, (j / 4) % w, (j / 4) / w) < i * 35 + row * 5 {
                    color[j % 4]
                } else {
                    frame0[j]
                },
            decreases 7 - row,
        {
            let bits: u8 = font[row];
            let mut col: usize = 0;
            while col < digit_width
                invariant
                    digits@.len() <= 1000,
                    y_offset <= 1000,
                    yo == y_offset as int,
                    frame0.len() == flen,
                    w == resolution.0 as int,
                    h == resolution.1 as int,
                    glyphs_known(digits@),
                    glyphs_fit(frame0.len() as int, digits@, yo, *resolution),
                    x_offset == 2,
                    digit_spacing == 2,
                    digit_width == 5,
                    i < digits@.len(),
                    d == digits@[i as int],
                    bits == FONT@[d as int]@[row as int],
                    row < 7,
                    col <= 5,
                    frame@.len() == frame0.len(),
                    forall|j: int| 0 <= j < frame0.len() ==> #[trigger] frame@[j] == if byte_lit(digits@, yo, w, h, j)
                        && glyph_key(yo, (j / 4) % w, (j / 4) / w) < i * 35 + row * 5 + col {
                        color[j % 4]
                    } else {
                        frame0[j]
                    },
                decreases 5 - col,
            {
                let ghost cur = i * 35 + row * 5 + col;
                let shift: u8 = (digit_width - 1 - col) as u8;
                let x: usize = x_offset + i * (digit_width + digit_spacing) + col;
                let y: usize = y_offset + row;
                proof {
                    assert((x - 2) / 7 == i && (x - 2) % 7 == col) by (nonlinear_arith)
                        requires
                            x == 2 + i * 7 + col,
                            col < 5;
                    assert((x as int - 2) / 7 == i as int);
                    assert((x as int - 2) % 7 == col as int);
                    assert(y as int - yo == row as int);
                    assert(glyph_key(yo, x as int, y as int) == ((x as int - 2) / 7) * 35 + (y as int - yo) * 5 + (x as int - 2) % 7);
                    assert(glyph_key(yo, x as int, y as int) == cur);
                }
                let ghost f1 = frame@;
                if (bits >> shift) & 1 != 0 {
                    if x < resolution.0 as usize && y < resolution.1 as usize {
                        proof {
                            assert(glyph_lit(digits@, yo, x as int, y as int));
                            assert(4 * (y * w + x) + 4 <= frame0.len());
                            assert(y * resolution.0 as int == y * w);
                        }
                        let idx: usize = (y * resolution.0 as usize + x) * 4;
                        frame[idx] = color[0];
                        frame[idx + 1] = color[1];
                        frame[idx + 2] = color[2];
                        frame[idx + 3] = color[3];
                        proof {
                            assert forall|j: int| 0 <= j < frame0.len() implies #[trigger] frame@[j] == if byte_lit(digits@, yo, w, h, j)
                                && glyph_key(yo, (j / 4) % w, (j / 4) / w) < cur + 1 {
                                color[j % 4]
                            } else {
                                frame0[j]
                            } by {
                                let p = j / 4;
                                if idx <= j < idx + 4 {
                                    assert(p == y * w + x && j % 4 == j - idx) by (nonlinear_arith)
                                        requires
                                            idx == (y * w + x) * 4,
                                            idx <= j < idx + 4,
                                            p == j / 4;
                                    assert(p % w == x && p / w == y) by (nonlinear_arith)
                                        requires
                                            p == y * w + x,
                                            0 <= x < w;
                                } else {
                                    assert(f1[j] == frame@[j]);
                                    if w > 0 && p / w < h && (p % w == x && p / w == y) {
                                        assert(p == y * w + x) by (nonlinear_arith)
                                            requires
                                                w > 0,
                                                p % w == x,
                                                p / w == y,
                                                p >= 0;
                                        assert(idx <= j < idx + 4) by (nonlinear_arith)
                                            requires
                                                idx == (y * w + x) * 4,
                                                p == j / 4,
                                                p == y * w + x,
                                                j >= 0;
                                    }
                                    if byte_lit(digits@, yo, w, h, j) && glyph_key(yo, p % w, p / w) == cur {
                                        let px = p % w;
                                        let py = p / w;
                                        assert(px == x && py == y) by (nonlinear_arith)
                                            requires
                                                (px - 2) / 7 == i,
                                                (px - 2) % 7 == col,
                                                px >= 2,
                                                py - yo == row,
                                                x == 2 + i * 7 + col,
                                                y == yo + row;
                                    }
                                }
                            }
                        }
                    } else {
                        proof {
                            assert forall|j: int| 0 <= j < frame0.len() implies #[trigger] frame@[j] == if byte_lit(digits@, yo, w, h, j)
                                && glyph_key(yo, (j / 4) % w, (j / 4) / w) < cur + 1 {
                                color[j % 4]
                            } else {
                                frame0[j]
                            } by {
                                let p = j / 4;
                                if byte_lit(digits@, yo, w, h, j) && glyph_key(yo, p % w, p / w) == cur {
                                    let px = p % w;
                                    let py = p / w;
                                    assert(px == x && py == y) by (nonlinear_arith)
                                        requires
                                            (px - 2) / 7 == i,
                                            (px - 2) % 7 == col,
                                            px >= 2,
                                            py - yo == row,
                                            x == 2 + i * 7 + col,
                                            y == yo + row;
                                    assert(0 <= px < w);
                                }
                            }
                        }
                    }
                } else {
                    proof {
                        assert(!glyph_bit(d as int, row as int, col as int));
                        assert forall|j: int| 0 <= j < frame0.len() implies #[trigger] frame@[j] == if byte_lit(digits@, yo, w, h, j)
                            && glyph_key(yo, (j / 4) % w, (j / 4) / w) < cur + 1 {
                            color[j % 4]
                        } else {
                            frame0[j]
                        } by {
                            let p = j / 4;
                            if byte_lit(digits@, yo, w, h, j) && glyph_key(yo, p % w, p / w) == cur {
                                let px = p % w;
                                let py = p / w;
                                assert((px - 2) / 7 == i && (px - 2) % 7 == col && py - yo == row) by (nonlinear_arith)
                                    requires
                                        ((px - 2) / 7) * 35 + (py - yo) * 5 + (px - 2) % 7 == i * 35 + row * 5 + col,
                                        0 <= (px - 2) % 7 < 5,
                                        0 <= py - yo < 7,
                                        col < 5,
                                        row < 7;
                            }
                        }
                    }
                }
                col = col + 1;
            }
            row = row + 1;
        }
        i = i + 1;
    }
    proof {
        assert forall|j: int| 0 <= j < frame0.len() implies #[trigger] frame@[j] == if byte_lit(digits@, yo, w, h, j) {
            color[j % 4]
        } else {
            frame0[j]
        } by {
            let p = j / 4;
            if byte_lit(digits@, yo, w, h, j) {
                let px = p % w;
                let py = p / w;
                assert(glyph_key(yo, px, py) < digits@.len() * 35) by (nonlinear_arith)
                    requires
                        (px - 2) / 7 < digits@.len(),
                        0 <= (px - 2) % 7 < 5,
                        0 <= py - yo < 7,
                        px >= 2;
            }
        }
    }
}

/// The decimal digits of `n`, most significant first.
pub open spec fn dec_digits(n: nat) -> Seq<u8>
    decreases n,
{
    if n < 10 {
        seq![n as u8]
    } else {
        dec_digits(n / 10).push((n % 10) as u8)
    }
}

/// The number that decimal digits `d` (most significant first) spell.
pub open spec fn digits_number(d: Seq<u8>) -> nat
    decreases d.len(),
{
    if d.len() == 0 {
        0
    } else {
        digits_number(d.drop_last()) * 10 + d.last() as nat
    }
}

/// The decimal digits of `n` spell `n`, each is a digit, and the first is not
/// zero unless `n` is.
pub proof fn lemma_dec_digits_spell(n: nat)
    ensures
        digits_number(dec_digits(n)) == n,
        forall|i: int| 0 <= i < dec_digits(n).len() ==> #[trigger] dec_digits(n)[i] < 10,
        n > 0 ==> dec_digits(n)[0] != 0,
    decreases n,
{
    lemma_dec_digits_known(n);
    let d = dec_digits(n);
    if n >= 10 {
        lemma_dec_digits_spell(n / 10);
        assert(d.drop_last() =~= dec_digits(n / 10));
        assert(d.last() == (n % 10) as u8);
        lemma_dec_digits_len(n / 10);
        assert(d[0] == dec_digits(n / 10)[0]);
        assert(digits_number(d) == (n / 10) * 10 + n % 10);
    } else {
        assert(d.drop_last() =~= Seq::<u8>::empty());
        assert(digits_number(d) == digits_number(d.drop_last()) * 10 + d.last() as nat);
    }
}

/// Below 1000 the frame rate is drawn as its decimal digits, most
/// significant first, with no leading zero: the digits spell the rate.
pub proof fn lemma_fps_digits_spell(fps: nat)
    requires
        fps < 1000,
    ensures
        fps_digits(fps) == dec_digits(fps),
        digits_number(fps_digits(fps)) == fps,
        fps > 0 ==> fps_digits(fps)[0] != 0,
{
    lemma_dec_digits_spell(fps);
    if fps >= 10 {
        assert(dec_digits(fps / 10) == if fps / 10 < 10 {
            seq![(fps / 10) as u8]
        } else {
            dec_digits(fps / 100).push(((fps / 10) % 10) as u8)
        });
        if fps >= 100 {
            assert(fps / 10 / 10 == fps / 100);
            assert(dec_digits(fps / 100) == seq![(fps / 100) as u8]);
            assert(dec_digits(fps) =~= seq![(fps / 100) as u8, ((fps / 10) % 10) as u8, (fps % 10) as u8]);
        } else {
            assert(dec_digits(fps) =~= seq![(fps / 10) as u8, (fps % 10) as u8]);
        }
    }
}

/// The digits a counter shows for `n`: its decimal digits, with one more
/// leading zero when `n` is zero.
pub open spec fn counter_digits(n: nat) -> Seq<u8> {
    if n == 0 {
        seq![0u8, 0u8]
    } else {
        dec_digits(n)
    }
}

/// A counter's digits spell its number, most significant first; only zero
/// starts with a zero (and is shown as two zeros).
pub proof fn lemma_counter_digits_spell(n: nat)
    ensures
        digits_number(counter_digits(n)) == n,
        forall|i: int| 0 <= i < counter_digits(n).len() ==> #[trigger] counter_digits(n)[i] < 10,
        n > 0 ==> counter_digits(n)[0] != 0,
        n == 0 ==> counter_digits(n).len() == 2,
{
    lemma_dec_digits_spell(n);
    if n == 0 {
        let d = counter_digits(0);
        assert(d.drop_last() =~= seq![0u8]);
        assert(seq![0u8].drop_last() =~= Seq::<u8>::empty());
        assert(digits_number(seq![0u8]) == digits_number(Seq::<u8>::empty()) * 10 + 0);
    }
}

/// The digits shown for a frame rate: one, two or three, the first of three
/// being `fps / 100` (10 names the slash glyph).
pub open spec fn fps_digits(fps: nat) -> Seq<u8> {
    if fps < 10 {
        seq![fps as u8]
    } else if fps < 100 {
        seq![(fps / 10) as u8, (fps % 10) as u8]
    } else {
        seq![(fps / 100) as u8, ((fps / 10) % 10) as u8, (fps % 10) as u8]
    }
}

/// Appends the decimal digits of `n`, least significant first, with one more
/// zero first when `n` is zero.
fn push_counter_digits(v: &mut Vec<u8>, n: usize)
    requires
        old(v)@.len() <= 100,
    ensures
        final(v)@ == old(v)@ + counter_digits(n as nat).reverse(),
        final(v)@.len() <= old(v)@.len() + 21,
{
    let ghost v0 = v@;
    let mut rest = n;
    if rest == 0 {
        v.push(0);
    }
    let ghost lead = v@;
    proof {
        reveal_with_fuel(pow10, 21);
        assert(pow10(20) == 100000000000000000000nat);
        assert(n < pow10(20));
        lemma_dec_digits_bound(n as nat, 20);
    }
    while rest >= 10
        invariant
            v0.len() <= 100,
            lead == if n == 0 { v0.push(0u8) } else { v0 },
            dec_digits(n as nat).reverse() == v@.subrange(lead.len() as int, v@.len() as int) + dec_digits(rest as nat).reverse(),
            v@.subrange(0, lead.len() as int) == lead,
            v@.len() >= lead.len(),
            v@.len() - lead.len() + dec_digits(rest as nat).len() <= 20,
            dec_digits(rest as nat).len() >= 1,
        decreases rest,
    {
        let ghost before = v@;
        proof {
            lemma_dec_digits_len(rest as nat);
            assert(dec_digits(rest as nat) == dec_digits((rest / 10) as nat).push((rest % 10) as u8));
            assert(dec_digits(rest as nat).reverse() =~= seq![(rest % 10) as u8] + dec_digits((rest / 10) as nat).reverse());
        }
        v.push((rest % 10) as u8);
        rest = rest / 10;
        proof {
            assert(v@.subrange(lead.len() as int, v@.len() as int) =~= before.subrange(lead.len() as int, before.len() as int).push(
                v@.last(),
            ));
            assert(v@.subrange(0, lead.len() as int) =~= before.subrange(0, lead.len() as int));
        }
    }
    let ghost before = v@;
    v.push(rest as u8);
    proof {
        assert(dec_digits(rest as nat) == seq![rest as u8]);
        assert(dec_digits(rest as nat).reverse() =~= seq![rest as u8]);
        assert(v@.subrange(lead.len() as int, v@.len() as int) =~= before.subrange(lead.len() as int, before.len() as int).push(
            rest as u8,
        ));
        assert(v@ =~= v@.subrange(0, lead.len() as int) + v@.subrange(lead.len() as int, v@.len() as int));
        assert(v@.subrange(lead.len() as int, v@.len() as int) =~= dec_digits(n as nat).reverse());
        assert(v@ =~= lead + dec_digits(n as nat).reverse());
        if n == 0 {
            assert(counter_digits(0).reverse() =~= seq![0u8, 0u8]);
            assert(dec_digits(0) == seq![0u8]);
        }
        assert(v@ =~= v0 + counter_digits(n as nat).reverse());
    }
}

/// Ten to the power `k`.
pub open spec fn pow10(k: nat) -> nat
    decreases k,
{
    if k == 0 {
        1
    } else {
        10 * pow10((k - 1) as nat)
    }
}

proof fn lemma_dec_digits_bound(n: nat, k: nat)
    requires
        k >= 1,
        n < pow10(k),
    ensures
        dec_digits(n).len() <= k,
    decreases k,
{
    lemma_dec_digits_len(n);
    if n >= 10 {
        if k == 1 {
            reveal_with_fuel(pow10, 2);
            assert(pow10(1) == 10);
        } else {
            assert(n / 10 < pow10((k - 1) as nat));
            lemma_dec_digits_bound(n / 10, (k - 1) as nat);
        }
    }
}

proof fn lemma_dec_digits_len(n: nat)
    ensures
        1 <= dec_digits(n).len(),
        n < 10 ==> dec_digits(n).len() == 1,
        n >= 10 ==> dec_digits(n).len() == dec_digits(n / 10).len() + 1,
    decreases n,
{
    if n >= 10 {
        lemma_dec_digits_len(n / 10);
    }
}

/// A copy of `v` in reverse order.
fn reversed(v: &Vec<u8>) -> (r: Vec<u8>)
    ensures
        r@ == v@.reverse(),
{
    let mut r: Vec<u8> = Vec::new();
    let mut i: usize = v.len();
    while i > 0
        invariant
            i <= v@.len(),
            r@ =~= v@.subrange(i as int, v@.len() as int).reverse(),
        decreases i,
    {
        i = i - 1;
        r.push(v[i]);
        assert(r@ =~= v@.subrange(i as int, v@.len() as int).reverse());
    }
    r
}

proof fn lemma_dec_digits_known(n: nat)
    ensures
        forall|i: int| 0 <= i < dec_digits(n).len() ==> #[trigger] dec_digits(n)[i] < 10,
    decreases n,
{
    if n >= 10 {
        lemma_dec_digits_known(n / 10);
        assert forall|i: int| 0 <= i < dec_digits(n).len() implies #[trigger] dec_digits(n)[i] < 10 by {
            if i < dec_digits(n / 10).len() {
                assert(dec_digits(n)[i] == dec_digits(n / 10)[i]);
            }
        }
    }
}

/// On a frame of at least `4 * width * height` bytes every lit pixel fits.
pub proof fn lemma_full_frame_fits(frame_len: int, digits: Seq<u8>, y_offset: int, resolution: P16)
    requires
        frame_len >= 4 * (resolution.0 * resolution.1),
    ensures
        glyphs_fit(frame_len, digits, y_offset, resolution),
{
    assert forall|x: int, y: int|
        0 <= x < resolution.0 && 0 <= y < resolution.1 && #[trigger] glyph_lit(digits, y_offset, x, y)
            implies 4 * (y * resolution.0 + x) + 4 <= frame_len by {
        assert(y * resolution.0 + x + 1 <= resolution.0 * resolution.1) by (nonlinear_arith)
            requires
                0 <= x < resolution.0,
                0 <= y < resolution.1;
    }
}

/// Draws the frame rate in white at the top left.
pub fn draw_fps(frame: &mut [u8], fps: usize, resolution: &P16)
    requires
        fps < 1100,
        glyphs_fit(old(frame)@.len() as int, fps_digits(fps as nat), 2, *resolution),
    ensures
        drawn(old(frame)@, final(frame)@, fps_digits(fps as nat), WHITE, 2, *resolution),
{
    let digits: Vec<u8> = if fps < 10 {
        vec![fps as u8]
    } else if fps < 100 {
        vec![(fps / 10) as u8, (fps % 10) as u8]
    } else {
        vec![(fps / 100) as u8, ((fps / 10) % 10) as u8, (fps % 10) as u8]
    };
    assert(digits@ =~= fps_digits(fps as nat));
    let color = WHITE;
    let y_offset: usize = 2;
    draw_glyphs(frame, &digits, color, y_offset, resolution);
}

/// The digits shown for the marked and live counts: the marked count, a
/// slash, the live count.
pub open spec fn actives_digits(actives: nat, total: nat) -> Seq<u8> {
    counter_digits(actives) + seq![10u8] + counter_digits(total)
}

/// Draws the number of marked cells and the number of live cells, as
/// `actives/total`, in green below the frame rate.
pub fn draw_actives_len(frame: &mut [u8], actives: usize, total: usize, resolution: &P16)
    requires
        glyphs_fit(old(frame)@.len() as int, actives_digits(actives as nat, total as nat), 12, *resolution),
    ensures
        drawn(old(frame)@, final(frame)@, actives_digits(actives as nat, total as nat), GREEN, 12, *resolution),
{
    let mut digitvec: Vec<u8> = Vec::new();
    push_counter_digits(&mut digitvec, total);
    digitvec.push(10);
    push_counter_digits(&mut digitvec, actives);
    let activesdigits = reversed(&digitvec);
    proof {
        assert(activesdigits@ =~= actives_digits(actives as nat, total as nat)) by {
            let a = counter_digits(actives as nat);
            let t = counter_digits(total as nat);
            assert(digitvec@ =~= t.reverse() + seq![10u8] + a.reverse());
            assert((t.reverse() + seq![10u8] + a.reverse()).reverse() =~= a + seq![10u8] + t);
        }
        lemma_dec_digits_known(actives as nat);
        lemma_dec_digits_known(total as nat);
    }
    let color = GREEN;
    let y_offset: usize = 12;
    draw_glyphs(frame, &activesdigits, color, y_offset, resolution);
}

/// Draws the activeness figure in blue below the counts.
pub fn draw_activeness(frame: &mut [u8], activeness: usize, resolution: &P16)
    requires
        glyphs_fit(old(frame)@.len() as int, counter_digits(activeness as nat), 22, *resolution),
    ensures
        drawn(old(frame)@, final(frame)@, counter_digits(activeness as nat), BLUE, 22, *resolution),
{
    let mut digitvec: Vec<u8> = Vec::new();
    push_counter_digits(&mut digitvec, activeness);
    let activenessdigits = reversed(&digitvec);
    proof {
        assert(activenessdigits@ =~= counter_digits(activeness as nat)) by {
            assert(digitvec@ =~= counter_digits(activeness as nat).reverse());
            assert(counter_digits(activeness as nat).reverse().reverse() =~= counter_digits(activeness as nat));
        }
        lemma_dec_digits_known(activeness as nat);
    }
    let color = BLUE;
    let y_offset: usize = 22;
    draw_glyphs(frame, &activenessdigits, color, y_offset, resolution);
}

} // verus!
