use ledviz::grid::Grid;
use ledviz::matrix::{Command, Matrix, PinWrite};

/// The bytes clocked out between each chip-select low and high.
fn frames(signals: &[PinWrite]) -> Vec<Vec<u8>> {
    let mut out = Vec::new();
    let mut current: Option<Vec<u8>> = None;
    let mut bits: Vec<u8> = Vec::new();
    let mut i = 0;
    while i < signals.len() {
        match signals[i] {
            PinWrite::ChipSelect(0) => {
                current = Some(Vec::new());
                bits.clear();
                i += 1;
            }
            PinWrite::ChipSelect(_) => {
                out.push(current.take().unwrap());
                i += 1;
            }
            PinWrite::Data(level) => {
                assert_eq!(signals[i + 1], PinWrite::Clock(1));
                assert_eq!(signals[i + 2], PinWrite::Clock(0));
                bits.push(level);
                if bits.len() == 8 {
                    let byte = bits.iter().fold(0u8, |acc, b| (acc << 1) | b);
                    current.as_mut().unwrap().push(byte);
                    bits.clear();
                }
                i += 3;
            }
            PinWrite::Clock(_) => panic!("unexpected clock"),
        }
    }
    out
}

/// Performs register writes one by one, as the server does.
fn run(m: &mut Matrix, writes: Vec<(u8, u8, u8)>) -> Vec<PinWrite> {
    let mut signals = Vec::new();
    for (addr, header, data) in writes {
        signals.extend(m.write_raw(addr, header, data));
    }
    signals
}

#[test]
fn command_registers() {
    assert_eq!(Command::Noop.register(), 0x00);
    assert_eq!(Command::Digit0.register(), 0x01);
    assert_eq!(Command::Digit7.register(), 0x08);
    assert_eq!(Command::DecodeMode.register(), 0x09);
    assert_eq!(Command::Intensity.register(), 0x0A);
    assert_eq!(Command::ScanLimit.register(), 0x0B);
    assert_eq!(Command::Power.register(), 0x0C);
    assert_eq!(Command::DisplayTest.register(), 0x0F);
}

#[test]
fn send_command_signals() {
    let mut m = Matrix::new(1);
    let signals = { let writes = m.send_command(0, Command::Power, 1); run(&mut m, writes) };
    assert_eq!(signals.len(), 1 + 16 * 3 + 1);
    assert_eq!(signals[0], PinWrite::ChipSelect(0));
    assert_eq!(signals[49], PinWrite::ChipSelect(1));
    // 0x0C = 0b0000_1100
    let data: Vec<u8> = signals[1..49]
        .iter()
        .filter_map(|s| if let PinWrite::Data(d) = s { Some(*d) } else { None })
        .collect();
    assert_eq!(data, vec![0, 0, 0, 0, 1, 1, 0, 0, 0, 0, 0, 0, 0, 0, 0, 1]);
    assert_eq!(frames(&signals), vec![vec![0x0C, 0x01]]);
    assert_eq!(m.buffer[0], 0x0C);
    assert_eq!(m.buffer[1], 0x01);
}

#[test]
fn write_addresses_its_slot_of_the_chain() {
    let mut m = Matrix::new(3);
    let signals = { let writes = m.set_intensity(2, 7); run(&mut m, writes) };
    assert_eq!(frames(&signals), vec![vec![0, 0, 0, 0, 0x0A, 7]]);
    let mut expected = [0u8; 16];
    expected[4] = 0x0A;
    expected[5] = 7;
    assert_eq!(m.buffer, expected);
}

#[test]
fn init_sets_up_every_display() {
    let mut m = Matrix::new(2);
    let f = frames(&{ let writes = m.init(); run(&mut m, writes) });
    assert_eq!(
        f,
        vec![
            vec![0x0B, 0x07, 0, 0],
            vec![0x09, 0x00, 0, 0],
            vec![0x0F, 0x00, 0, 0],
            vec![0x0C, 0x01, 0, 0],
            vec![0, 0, 0x0B, 0x07],
            vec![0, 0, 0x09, 0x00],
            vec![0, 0, 0x0F, 0x00],
            vec![0, 0, 0x0C, 0x01],
        ]
    );
}

#[test]
fn init_of_empty_chain_does_nothing() {
    let mut m = Matrix::new(0);
    assert!(m.init().is_empty());
    assert!(run(&mut m, Vec::new()).is_empty());
    assert_eq!(m.buffer, [0u8; 16]);
}

#[test]
fn power_off_every_display() {
    let mut m = Matrix::new(2);
    assert_eq!(frames(&{ let writes = m.power_off(); run(&mut m, writes) }), vec![vec![0x0C, 0, 0, 0], vec![0, 0, 0x0C, 0]]);
}

#[test]
fn draw_raw_writes_digits_in_order() {
    let mut m = Matrix::new(1);
    let f = frames(&{ let writes = m.draw_raw(0, [10, 11, 12, 13, 14, 15, 16, 17]); run(&mut m, writes) });
    let expected: Vec<Vec<u8>> = (0..8u8).map(|i| vec![i + 1, 10 + i]).collect();
    assert_eq!(f, expected);
}

#[test]
fn clear_display_blanks_digits() {
    let mut m = Matrix::new(1);
    let f = frames(&{ let writes = m.clear_display(0); run(&mut m, writes) });
    let expected: Vec<Vec<u8>> = (1..=8u8).map(|i| vec![i, 0]).collect();
    assert_eq!(f, expected);
}

#[test]
fn draw_grid_packs_pixels_most_significant_first() {
    let mut m = Matrix::new(8);
    let mut g = Grid::new(2, 1);
    g.draw_point(0, 0);
    g.draw_point(7, 0);
    g.draw_point(9, 3);
    assert!(m.can_draw_grid(&g));
    let f = frames(&{ let writes = m.draw_grid(g); run(&mut m, writes) });
    // width 2: displays 0 and 1 of the band are drawn, 8 digit writes each.
    assert_eq!(f.len(), 16);
    assert_eq!(f[0][0..2], [1, 0b1000_0001]);
    assert_eq!(f[1][0..2], [2, 0]);
    assert_eq!(f[8][2..4], [1, 0]);
    assert_eq!(f[11][2..4], [4, 0b0100_0000]);
}

#[test]
fn draw_grid_of_single_column_draws_nothing() {
    let mut m = Matrix::new(8);
    let g = Grid::new(1, 2);
    assert!(m.can_draw_grid(&g));
    assert!(m.draw_grid(g).is_empty());
}

#[test]
fn draw_grid_band_offsets_chain_position() {
    let mut m = Matrix::new(8);
    let mut g = Grid::new(4, 2);
    g.draw_point(8, 8);
    assert!(m.can_draw_grid(&g));
    let f = frames(&{ let writes = m.draw_grid(g); run(&mut m, writes) });
    assert_eq!(f.len(), 8 * 8);
    // band 1, display 1 sits at chain position 1 + 1 * 4 = 5.
    let frame = &f[5 * 8];
    assert_eq!(frame[10..12], [1, 0b1000_0000]);
}

#[test]
fn can_draw_grid_rejects_ragged_canvas() {
    let m = Matrix::new(8);
    let mut g = Grid::new(2, 1);
    g.canvas[3].truncate(4);
    assert!(!m.can_draw_grid(&g));
}

#[test]
fn can_draw_grid_rejects_missing_rows() {
    let m = Matrix::new(8);
    let mut g = Grid::new(2, 1);
    g.canvas.truncate(7);
    assert!(!m.can_draw_grid(&g));
}

#[test]
fn can_draw_grid_leaves_chain_length_to_write_raw() {
    let m = Matrix::new(9);
    assert!(m.can_draw_grid(&Grid::new(2, 1)));
}

#[test]
fn draw_grid_yields_positions_past_the_buffer() {
    // A grid 4 displays wide and 3 high reaches chain position 8, which
    // `write_raw` does not take; the plan still lists it.
    let m = Matrix::new(8);
    let g = Grid::new(4, 3);
    assert!(m.can_draw_grid(&g));
    let writes = m.draw_grid(g);
    assert_eq!(writes.len(), 12 * 8);
    assert_eq!(writes[8 * 8], (8, 1, 0));
}

#[test]
fn buffer_holds_the_last_write() {
    let mut m = Matrix::new(2);
    m.write_raw(1, 0x0C, 1);
    m.write_raw(0, 0x0A, 3);
    let mut expected = [0u8; 16];
    expected[0] = 0x0A;
    expected[1] = 3;
    assert_eq!(m.buffer, expected);
}

#[test]
fn plans_do_not_touch_the_buffer() {
    let m = Matrix::new(3);
    assert_eq!(m.init().len(), 12);
    assert_eq!(m.power_off(), vec![(0, 0x0C, 0), (1, 0x0C, 0), (2, 0x0C, 0)]);
    assert_eq!(m.buffer, [0u8; 16]);
}
