use ledviz::config::MatrixConfiguration;
use ledviz::grid::{spectrum_grid, Grid};

#[test]
fn new_grid_is_blank_and_sized() {
    let g = Grid::new(4, 2);
    assert_eq!(g.width, 4);
    assert_eq!(g.height, 2);
    assert_eq!(g.canvas.len(), 16);
    assert!(g.canvas.iter().all(|row| row.len() == 32 && row.iter().all(|p| !p)));
}

#[test]
fn new_zero_grid() {
    let g = Grid::new(0, 0);
    assert!(g.canvas.is_empty());
}

#[test]
fn draw_point_lights_one_pixel() {
    let mut g = Grid::new(1, 1);
    g.draw_point(3, 5);
    for y in 0..8 {
        for x in 0..8 {
            assert_eq!(g.canvas[y][x], x == 3 && y == 5);
        }
    }
}

#[test]
fn draw_point_outside_is_ignored() {
    let mut g = Grid::new(1, 1);
    g.draw_point(8, 0);
    g.draw_point(0, 8);
    assert!(g.canvas.iter().all(|row| row.iter().all(|p| !p)));
}

#[test]
fn gen_bars_lights_rows_up_to_level() {
    let mut g = Grid::new(1, 1);
    g.gen_bars(&[0, 3, 7, 200]);
    for y in 0..8 {
        assert_eq!(g.canvas[y][0], y == 0);
        assert_eq!(g.canvas[y][1], y <= 3);
        assert!(g.canvas[y][2]);
        assert!(g.canvas[y][3]);
        for x in 4..8 {
            assert!(!g.canvas[y][x]);
        }
    }
}

#[test]
fn gen_bars_keeps_lit_pixels() {
    let mut g = Grid::new(1, 1);
    g.draw_point(7, 7);
    g.gen_bars(&[1]);
    assert!(g.canvas[7][7]);
    assert!(g.canvas[0][0]);
    assert!(g.canvas[1][0]);
    assert!(!g.canvas[2][0]);
}

#[test]
fn to_bytes_is_bincode_of_the_fields() {
    let g = Grid::new(1, 1);
    let bytes = g.to_bytes().unwrap();
    assert_eq!(bytes.len(), 8 + 8 + 8 + 8 * (8 + 8));
    assert_eq!(&bytes[0..8], &[1, 0, 0, 0, 0, 0, 0, 0]);
    assert_eq!(&bytes[8..16], &[1, 0, 0, 0, 0, 0, 0, 0]);
    assert_eq!(&bytes[16..24], &[8, 0, 0, 0, 0, 0, 0, 0]);
    assert_eq!(&bytes[24..32], &[8, 0, 0, 0, 0, 0, 0, 0]);
    assert!(bytes[32..40].iter().all(|b| *b == 0));
}

#[test]
fn grid_bytes_roundtrip() {
    let mut g = Grid::new(2, 1);
    g.draw_point(9, 4);
    g.gen_bars(&[2, 0, 5]);
    let back = Grid::from_bytes(&g.to_bytes().unwrap()).unwrap();
    assert_eq!(back.width, 2);
    assert_eq!(back.height, 1);
    assert_eq!(back.canvas, g.canvas);
}

#[test]
fn from_bytes_rejects_short_input() {
    assert!(Grid::from_bytes(&[1, 2, 3]).is_none());
}

#[test]
fn from_bytes_rejects_bad_bool() {
    let mut bytes = Grid::new(1, 1).to_bytes().unwrap();
    bytes[32] = 2;
    assert!(Grid::from_bytes(&bytes).is_none());
}

#[test]
fn from_bytes_or_blank_falls_back() {
    let g = Grid::from_bytes_or_blank(&[], 4, 2);
    assert_eq!(g.width, 4);
    assert_eq!(g.height, 2);
    assert_eq!(g.canvas.len(), 16);
    assert!(g.canvas.iter().all(|row| row.iter().all(|p| !p)));
}

#[test]
fn from_bytes_or_blank_decodes() {
    let mut g = Grid::new(1, 1);
    g.draw_point(1, 1);
    let back = Grid::from_bytes_or_blank(&g.to_bytes().unwrap(), 4, 2);
    assert_eq!(back.width, 1);
    assert!(back.canvas[1][1]);
}

#[test]
fn to_message_frames_the_encoding() {
    let g = Grid::new(1, 1);
    let message = g.to_message();
    // 152 bytes of encoding fit in one buffer.
    assert_eq!(message.len(), 1 + 256 + 1);
    assert_eq!(message[0], 0x00);
    assert_eq!(message[1], 152);
    assert_eq!(&message[2..154], &g.to_bytes().unwrap()[..]);
    assert_eq!(message[257], 0x01);
}

#[test]
fn spectrum_grid_reverses_levels() {
    let config = MatrixConfiguration { width: 1, height: 1 };
    let g = spectrum_grid(&config, &[7, 0, 2]);
    assert_eq!(g.width, 1);
    assert_eq!(g.height, 1);
    for y in 0..8 {
        assert_eq!(g.canvas[y][0], y <= 2);
        assert_eq!(g.canvas[y][1], y == 0);
        assert!(g.canvas[y][2]);
        assert!(!g.canvas[y][3]);
    }
}

#[test]
fn empty_grid_encodes_as_three_zero_lengths() {
    let g = Grid::new(0, 0);
    assert_eq!(g.to_bytes(), Some(vec![0u8; 24]));
    let back = Grid::from_bytes(&[0u8; 24]).unwrap();
    assert_eq!(back.width, 0);
    assert_eq!(back.height, 0);
    assert!(back.canvas.is_empty());
}

#[test]
fn encoding_writes_pixels_as_bytes() {
    let mut g = Grid::new(1, 1);
    g.draw_point(2, 0);
    let bytes = g.to_bytes().unwrap();
    assert_eq!(&bytes[32..40], &[0, 0, 1, 0, 0, 0, 0, 0]);
    assert_eq!(&bytes[40..48], &[8, 0, 0, 0, 0, 0, 0, 0]);
}

#[test]
fn from_bytes_ignores_bytes_after_the_grid() {
    let mut g = Grid::new(1, 1);
    g.draw_point(4, 6);
    let mut bytes = g.to_bytes().unwrap();
    bytes.extend_from_slice(&[9, 9, 9]);
    let back = Grid::from_bytes(&bytes).unwrap();
    assert_eq!(back.canvas, g.canvas);
}

#[test]
fn from_bytes_rejects_truncated_encoding() {
    let bytes = Grid::new(1, 1).to_bytes().unwrap();
    assert!(Grid::from_bytes(&bytes[..bytes.len() - 1]).is_none());
}
