use lifegame::overlay::{draw_actives_len, draw_activeness, draw_fps, FONT};
use lifegame::screen::{BLUE, GREEN, WHITE};

const W: usize = 60;
const H: usize = 32;

fn expected(glyphs: &[u8], y_offset: usize, color: [u8; 4], fill: u8) -> Vec<u8> {
    let mut f = vec![fill; 4 * W * H];
    for (i, &d) in glyphs.iter().enumerate() {
        for (row, bits) in FONT[d as usize].iter().enumerate() {
            for col in 0..5 {
                if (bits >> (4 - col)) & 1 != 0 {
                    let x = 2 + i * 7 + col;
                    let y = y_offset + row;
                    if x < W && y < H {
                        let idx = 4 * (y * W + x);
                        f[idx..idx + 4].copy_from_slice(&color);
                    }
                }
            }
        }
    }
    f
}

#[test]
fn fps_single_digit() {
    let mut frame = vec![0u8; 4 * W * H];
    draw_fps(&mut frame, 7, &(W as u16, H as u16));
    assert_eq!(frame, expected(&[7], 2, WHITE, 0));
    // the top bar of 7 starts at (2, 2)
    assert_eq!(frame[4 * (2 * W + 2)..4 * (2 * W + 2) + 4].to_vec(), WHITE.to_vec());
}

#[test]
fn fps_three_digits() {
    let mut frame = vec![1u8; 4 * W * H];
    draw_fps(&mut frame, 144, &(W as u16, H as u16));
    assert_eq!(frame, expected(&[1, 4, 4], 2, WHITE, 1));
}

#[test]
fn fps_thousand_shows_slash_for_ten_hundreds() {
    let mut frame = vec![0u8; 4 * W * H];
    draw_fps(&mut frame, 1005, &(W as u16, H as u16));
    assert_eq!(frame, expected(&[10, 0, 5], 2, WHITE, 0));
}

#[test]
fn actives_len_shows_counts_with_slash() {
    let mut frame = vec![0u8; 4 * W * H];
    draw_actives_len(&mut frame, 12, 345, &(W as u16, H as u16));
    assert_eq!(frame, expected(&[1, 2, 10, 3, 4, 5], 12, GREEN, 0));
}

#[test]
fn actives_len_zero_shows_double_zero() {
    let mut frame = vec![0u8; 4 * W * H];
    draw_actives_len(&mut frame, 0, 0, &(W as u16, H as u16));
    assert_eq!(frame, expected(&[0, 0, 10, 0, 0], 12, GREEN, 0));
}

#[test]
fn activeness_digits() {
    let mut frame = vec![0u8; 4 * W * H];
    draw_activeness(&mut frame, 907, &(W as u16, H as u16));
    assert_eq!(frame, expected(&[9, 0, 7], 22, BLUE, 0));
}

#[test]
fn glyphs_past_the_right_edge_are_clipped() {
    let mut frame = vec![0u8; 4 * W * H];
    draw_activeness(&mut frame, 123456789, &(W as u16, H as u16));
    assert_eq!(frame, expected(&[1, 2, 3, 4, 5, 6, 7, 8, 9], 22, BLUE, 0));
}
