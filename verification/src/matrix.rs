//! Driving a chain of MAX7219 LED display controllers over three GPIO lines
//! (chip select, data, clock). Every operation returns the register writes
//! it makes; `write_raw` turns one write into the line levels to set. The
//! caller performs the writes in order and stops at the first failure.
use vstd::prelude::*;
use crate::grid::Grid;
use vstd::arithmetic::mul::lemma_mul_inequality;

verus! {

/// Register addresses of a MAX7219.
#[derive(Clone, Copy, Debug, PartialEq, Eq, Structural)]
pub enum Command {
    Noop,
    Digit0,
    Digit1,
    Digit2,
    Digit3,
    Digit4,
    Digit5,
    Digit6,
    Digit7,
    DecodeMode,
    Intensity,
    ScanLimit,
    Power,
    DisplayTest,
}

impl Command {
    /// The register address a command writes.
    pub open spec fn spec_register(self) -> u8 {
        match self {
            Command::Noop => 0x00,
            Command::Digit0 => 0x01,
            Command::Digit1 => 0x02,
            Command::Digit2 => 0x03,
            Command::Digit3 => 0x04,
            Command::Digit4 => 0x05,
            Command::Digit5 => 0x06,
            Command::Digit6 => 0x07,
            Command::Digit7 => 0x08,
            Command::DecodeMode => 0x09,
            Command::Intensity => 0x0A,
            Command::ScanLimit => 0x0B,
            Command::Power => 0x0C,
            Command::DisplayTest => 0x0F,
        }
    }

    pub fn register(&self) -> (result: u8)
        ensures
            result == self.spec_register(),
    {
        match self {
            Command::Noop => 0x00,
            Command::Digit0 => 0x01,
            Command::Digit1 => 0x02,
            Command::Digit2 => 0x03,
            Command::Digit3 => 0x04,
            Command::Digit4 => 0x05,
            Command::Digit5 => 0x06,
            Command::Digit6 => 0x07,
            Command::Digit7 => 0x08,
            Command::DecodeMode => 0x09,
            Command::Intensity => 0x0A,
            Command::ScanLimit => 0x0B,
            Command::Power => 0x0C,
            Command::DisplayTest => 0x0F,
        }
    }
}

/// Setting one of the three lines to a level (0 or 1).
#[derive(Clone, Copy, Debug, PartialEq, Eq, Structural)]
pub enum PinWrite {
    ChipSelect(u8),
    Data(u8),
    Clock(u8),
}

/// Largest number of chained displays the shift buffer has room for.
pub const MAX_DISPLAYS: u8 = 8;

/// Columns (digit registers) of one display.
pub const MAX_DIGITS: u8 = 8;

/// A register write: the display's position in the chain, the register and
/// the value.
pub type RegisterWrite = (u8, u8, u8);

/// The shift buffer for one register write: two bytes per display, all zero
/// (no-op) but the register and value at the addressed display's slot.
pub open spec fn frame_buffer(write: RegisterWrite) -> Seq<u8> {
    Seq::new(16, |i: int| if i == 2 * write.0 { write.1 } else if i == 2 * write.0 + 1 { write.2 } else { 0u8 })
}

/// The data level of bit `i` of `value`, counting from the most significant.
pub open spec fn msb_bit(value: u8, i: u8) -> u8 {
    if value & (1u8 << ((7 - i) as u8)) > 0 { 1 } else { 0 }
}

/// The line levels that clock out the first `n` bits of `value`, most
/// significant first: for each, the data level, then a clock pulse.
pub open spec fn bit_signals(value: u8, n: nat) -> Seq<PinWrite>
    decreases n,
{
    if n == 0 {
        Seq::empty()
    } else {
        bit_signals(value, (n - 1) as nat) + seq![
            PinWrite::Data(msb_bit(value, (n - 1) as u8)),
            PinWrite::Clock(1),
            PinWrite::Clock(0),
        ]
    }
}

/// The line levels that clock out `bytes`, one byte after the other.
pub open spec fn bytes_signals(bytes: Seq<u8>) -> Seq<PinWrite>
    decreases bytes.len(),
{
    if bytes.len() == 0 {
        Seq::empty()
    } else {
        bytes_signals(bytes.drop_last()) + bit_signals(bytes.last(), 8)
    }
}

/// The line levels of one register write to a chain of `devices` displays:
/// chip select low, the first `2 * devices` bytes of the shift buffer, chip
/// select high.
pub open spec fn frame_signals(devices: u8, write: RegisterWrite) -> Seq<PinWrite> {
    seq![PinWrite::ChipSelect(0)] + bytes_signals(frame_buffer(write).take(2 * devices))
        + seq![PinWrite::ChipSelect(1)]
}

/// The line levels of a sequence of register writes, one after the other:
/// what `write_raw` returns for each of them, in order.
pub open spec fn writes_signals(devices: u8, writes: Seq<RegisterWrite>) -> Seq<PinWrite>
    decreases writes.len(),
{
    if writes.len() == 0 {
        Seq::empty()
    } else {
        writes_signals(devices, writes.drop_last()) + frame_signals(devices, writes.last())
    }
}

/// The register writes that set up each of `n` displays: scan all eight
/// digits, no decoding, display test off, power on.
pub open spec fn init_writes(n: nat) -> Seq<RegisterWrite>
    decreases n,
{
    if n == 0 {
        Seq::empty()
    } else {
        let d = (n - 1) as u8;
        init_writes((n - 1) as nat) + seq![(d, 0x0Bu8, 0x07u8), (d, 0x09u8, 0x00u8), (d, 0x0Fu8, 0x00u8), (d, 0x0Cu8, 0x01u8)]
    }
}

/// The register writes that power off each of `n` displays.
pub open spec fn power_off_writes(n: nat) -> Seq<RegisterWrite>
    decreases n,
{
    if n == 0 {
        Seq::empty()
    } else {
        power_off_writes((n - 1) as nat) + seq![((n - 1) as u8, 0x0Cu8, 0x00u8)]
    }
}

/// The register writes that show `columns` on display `addr`: digit
/// register `i + 1` gets `columns[i]`.
pub open spec fn digit_writes(addr: u8, columns: Seq<u8>) -> Seq<RegisterWrite> {
    Seq::new(columns.len(), |i: int| (addr, (i + 1) as u8, columns[i]))
}

/// The controller state: how many displays are chained, and the shift buffer
/// of the last register write.
pub struct Matrix {
    pub devices: u8,
    pub buffer: [u8; 16],
}

impl Matrix {
    pub fn new(devices: u8) -> (matrix: Self)
        ensures
            matrix.devices == devices,
            matrix.buffer@ == Seq::new(16, |i: int| 0u8),
    {
        let matrix = Matrix { devices, buffer: [0u8; 16] };
        assert(matrix.buffer@ =~= Seq::new(16, |i: int| 0u8));
        matrix
    }

    /// One register write: keeps its shift buffer and returns the line levels
    /// that send it down the chain. Every operation below is a sequence of
    /// these, performed in order, each after the lines of the one before
    /// were set.
    pub fn write_raw(&mut self, addr: u8, header: u8, data: u8) -> (signals: Vec<PinWrite>)
        requires
            old(self).devices <= MAX_DISPLAYS,
            addr < MAX_DISPLAYS,
        ensures
            final(self).devices == old(self).devices,
            final(self).buffer@ == frame_buffer((addr, header, data)),
            signals@ == frame_signals(old(self).devices, (addr, header, data)),
    {
        let mut signals: Vec<PinWrite> = Vec::new();
        let offset = addr as usize * 2;
        let max_bytes = self.devices * 2;
        self.buffer = [0u8; 16];
        self.buffer[offset] = header;
        self.buffer[offset + 1] = data;
        assert(self.buffer@ =~= frame_buffer((addr, header, data)));
        signals.push(PinWrite::ChipSelect(0));
        let mut b: usize = 0;
        while b < max_bytes as usize
            invariant
                b <= max_bytes as usize,
                max_bytes == 2 * self.devices,
                self.devices <= MAX_DISPLAYS,
                self.buffer@ == frame_buffer((addr, header, data)),
                signals@ == seq![PinWrite::ChipSelect(0)] + bytes_signals(self.buffer@.take(b as int)),
            decreases max_bytes as usize - b,
        {
            let value = self.buffer[b];
            let ghost before = signals@;
            let mut i: u8 = 0;
            while i < 8
                invariant
                    i <= 8,
                    signals@ == before + bit_signals(value, i as nat),
                decreases 8 - i,
            {
                if value & (1u8 << (7 - i)) > 0 {
                    signals.push(PinWrite::Data(1));
                } else {
                    signals.push(PinWrite::Data(0));
                }
                signals.push(PinWrite::Clock(1));
                signals.push(PinWrite::Clock(0));
                i = i + 1;
                assert(signals@ =~= before + bit_signals(value, i as nat));
            }
            proof {
                let taken = self.buffer@.take(b + 1);
                assert(taken.drop_last() =~= self.buffer@.take(b as int));
            }
            b = b + 1;
            assert(signals@ =~= seq![PinWrite::ChipSelect(0)] + bytes_signals(self.buffer@.take(b as int)));
        }
        signals.push(PinWrite::ChipSelect(1));
        assert(signals@ =~= frame_signals(self.devices, (addr, header, data)));
        signals
    }
}

/// The line levels of two sequences of register writes, one after the
/// other, are those of the first followed by those of the second.
pub proof fn lemma_writes_signals_append(devices: u8, first: Seq<RegisterWrite>, second: Seq<RegisterWrite>)
    ensures
        writes_signals(devices, first + second) == writes_signals(devices, first) + writes_signals(devices, second),
    decreases second.len(),
{
    if second.len() == 0 {
        assert(first + second =~= first);
        assert(writes_signals(devices, first) + writes_signals(devices, second) =~= writes_signals(devices, first));
    } else {
        lemma_writes_signals_append(devices, first, second.drop_last());
        assert((first + second).drop_last() =~= first + second.drop_last());
        assert((first + second).last() == second.last());
    }
}

impl Matrix {
    /// The register writes that set up every display of the chain: scan all
    /// eight digits, no decoding, display test off, power on.
    pub fn init(&self) -> (writes: Vec<RegisterWrite>)
        ensures
            writes@ == init_writes(self.devices as nat),
    {
        let mut writes: Vec<RegisterWrite> = Vec::new();
        let mut device: u8 = 0;
        while device < self.devices
            invariant
                device <= self.devices,
                writes@ == init_writes(device as nat),
            decreases self.devices - device,
        {
            writes.push((device, Command::ScanLimit.register(), 0x07));
            writes.push((device, Command::DecodeMode.register(), 0x00));
            writes.push((device, Command::DisplayTest.register(), 0x00));
            writes.push((device, Command::Power.register(), 0x01));
            device = device + 1;
            assert(writes@ =~= init_writes(device as nat));
        }
        writes
    }

    /// The register writes that power off every display of the chain.
    pub fn power_off(&self) -> (writes: Vec<RegisterWrite>)
        ensures
            writes@ == power_off_writes(self.devices as nat),
    {
        let mut writes: Vec<RegisterWrite> = Vec::new();
        let mut addr: u8 = 0;
        while addr < self.devices
            invariant
                addr <= self.devices,
                writes@ == power_off_writes(addr as nat),
            decreases self.devices - addr,
        {
            writes.push((addr, Command::Power.register(), 0x00));
            addr = addr + 1;
            assert(writes@ =~= power_off_writes(addr as nat));
        }
        writes
    }

    /// The register write of `value` to the `command` register of display
    /// `addr`.
    pub fn send_command(&self, addr: u8, command: Command, value: u8) -> (writes: Vec<RegisterWrite>)
        ensures
            writes@ == seq![(addr, command.spec_register(), value)],
    {
        let mut writes: Vec<RegisterWrite> = Vec::new();
        writes.push((addr, command.register(), value));
        assert(writes@ =~= seq![(addr, command.spec_register(), value)]);
        writes
    }

    /// The register writes that show the eight columns `data` on display
    /// `addr`: digit register `i + 1` gets `data[i]`.
    pub fn draw_raw(&self, addr: u8, data: [u8; 8]) -> (writes: Vec<RegisterWrite>)
        ensures
            writes@ == digit_writes(addr, data@),
    {
        let mut writes: Vec<RegisterWrite> = Vec::new();
        let mut digit: u8 = 1;
        let mut k: usize = 0;
        while k < 8
            invariant
                k <= 8,
                digit == k + 1,
                data@.len() == 8,
                writes@ == digit_writes(addr, data@.take(k as int)),
            decreases 8 - k,
        {
            writes.push((addr, digit, data[k]));
            digit = digit + 1;
            k = k + 1;
            assert(writes@ =~= digit_writes(addr, data@.take(k as int)));
        }
        assert(data@.take(8) =~= data@);
        writes
    }

    /// The register writes that blank every column of display `addr`.
    pub fn clear_display(&self, addr: u8) -> (writes: Vec<RegisterWrite>)
        ensures
            writes@ == digit_writes(addr, Seq::new(8, |i: int| 0u8)),
    {
        let mut writes: Vec<RegisterWrite> = Vec::new();
        let mut col: u8 = 1;
        while col <= MAX_DIGITS
            invariant
                1 <= col <= MAX_DIGITS + 1,
                writes@ == digit_writes(addr, Seq::new((col - 1) as nat, |i: int| 0u8)),
            decreases MAX_DIGITS + 1 - col,
        {
            writes.push((addr, col, 0x00));
            col = col + 1;
            assert(writes@ =~= digit_writes(addr, Seq::new((col - 1) as nat, |i: int| 0u8)));
        }
        writes
    }

    /// The register write that sets the brightness of display `addr` (the
    /// controller takes 0 to 15).
    pub fn set_intensity(&self, addr: u8, intensity: u8) -> (writes: Vec<RegisterWrite>)
        ensures
            writes@ == seq![(addr, Command::Intensity.spec_register(), intensity)],
    {
        self.send_command(addr, Command::Intensity, intensity)
    }
}

/// The byte whose bits, most significant first, are the first `n` of
/// `bits` (lit is 1), built by shifting left and setting the lowest bit.
pub open spec fn pack_bits(bits: Seq<bool>, n: nat) -> u8
    decreases n,
{
    if n == 0 {
        0
    } else {
        (pack_bits(bits, (n - 1) as nat) << 1u8) | (if bits[n - 1] { 1u8 } else { 0u8 })
    }
}

/// Whether the display at column `addr` of a grid `width` displays wide is
/// drawn, by the test the driver applies: `addr <= devices` and
/// `addr + 8 < width * 8`.
pub open spec fn drawn(devices: u8, width: usize, addr: int) -> bool {
    addr <= devices && addr + 8 < width * 8
}

/// The position in the chain the driver sends display (`addr`, band `band`)
/// to: `addr + band * width`, as a byte.
pub open spec fn chain_position(width: usize, band: int, addr: int) -> u8 {
    (addr + band * width) as u8
}

/// The eight column bytes of the display at column `addr` of band `band`:
/// byte `y` packs the eight pixels of row `band * 8 + y` under that display.
pub open spec fn device_columns(pixels: Seq<Seq<bool>>, band: int, addr: int) -> Seq<u8> {
    Seq::new(8, |y: int| pack_bits(pixels[band * 8 + y].subrange(addr * 8, addr * 8 + 8), 8))
}

/// The register writes for the display at column `addr` of band `band`.
pub open spec fn device_writes(devices: u8, width: usize, pixels: Seq<Seq<bool>>, band: int, addr: int) -> Seq<RegisterWrite> {
    if drawn(devices, width, addr) {
        digit_writes(chain_position(width, band, addr), device_columns(pixels, band, addr))
    } else {
        Seq::empty()
    }
}

/// The register writes for the first `n` displays of band `band`.
pub open spec fn band_writes(devices: u8, width: usize, pixels: Seq<Seq<bool>>, band: int, n: nat) -> Seq<RegisterWrite>
    decreases n,
{
    if n == 0 {
        Seq::empty()
    } else {
        band_writes(devices, width, pixels, band, (n - 1) as nat) + device_writes(devices, width, pixels, band, n - 1)
    }
}

/// The register writes for the first `n` bands of a grid.
pub open spec fn grid_writes(devices: u8, width: usize, pixels: Seq<Seq<bool>>, n: nat) -> Seq<RegisterWrite>
    decreases n,
{
    if n == 0 {
        Seq::empty()
    } else {
        grid_writes(devices, width, pixels, (n - 1) as nat) + band_writes(devices, width, pixels, n - 1, width as nat)
    }
}

/// The level of a pixel on the data line: 1 when lit.
pub open spec fn pixel_level(lit: bool) -> u8 {
    if lit { 1 } else { 0 }
}

/// Packing eight pixels into a byte keeps each one: bit `i` of the byte,
/// counting from the most significant, is pixel `i`.
pub proof fn lemma_pack_bits_keeps_pixels(bits: Seq<bool>, i: u8)
    requires
        bits.len() >= 8,
        i < 8,
    ensures
        msb_bit(pack_bits(bits, 8), i) == pixel_level(bits[i as int]),
{
    let b0 = pixel_level(bits[0]);
    let b1 = pixel_level(bits[1]);
    let b2 = pixel_level(bits[2]);
    let b3 = pixel_level(bits[3]);
    let b4 = pixel_level(bits[4]);
    let b5 = pixel_level(bits[5]);
    let b6 = pixel_level(bits[6]);
    let b7 = pixel_level(bits[7]);
    reveal_with_fuel(pack_bits, 9);
    let p = pack_bits(bits, 8);
    assert(p == ((((((((((((((((0u8 << 1u8) | b0) << 1u8) | b1) << 1u8) | b2) << 1u8) | b3) << 1u8) | b4) << 1u8)
        | b5) << 1u8) | b6) << 1u8) | b7));
    assert(b0 <= 1 && b1 <= 1 && b2 <= 1 && b3 <= 1 && b4 <= 1 && b5 <= 1 && b6 <= 1 && b7 <= 1 && i < 8 && p
        == ((((((((((((((((0u8 << 1u8) | b0) << 1u8) | b1) << 1u8) | b2) << 1u8) | b3) << 1u8) | b4) << 1u8) | b5)
        << 1u8) | b6) << 1u8) | b7) ==> {
        &&& (i == 0 ==> ((p & (1u8 << ((7 - i) as u8))) > 0) == (b0 == 1))
        &&& (i == 1 ==> ((p & (1u8 << ((7 - i) as u8))) > 0) == (b1 == 1))
        &&& (i == 2 ==> ((p & (1u8 << ((7 - i) as u8))) > 0) == (b2 == 1))
        &&& (i == 3 ==> ((p & (1u8 << ((7 - i) as u8))) > 0) == (b3 == 1))
        &&& (i == 4 ==> ((p & (1u8 << ((7 - i) as u8))) > 0) == (b4 == 1))
        &&& (i == 5 ==> ((p & (1u8 << ((7 - i) as u8))) > 0) == (b5 == 1))
        &&& (i == 6 ==> ((p & (1u8 << ((7 - i) as u8))) > 0) == (b6 == 1))
        &&& (i == 7 ==> ((p & (1u8 << ((7 - i) as u8))) > 0) == (b7 == 1))
    }) by (bit_vector);
}

/// What the driver sends a drawn display shows the grid: the data level
/// clocked out for bit `i` (most significant first) of column byte `y` is
/// the pixel at row `band * 8 + y`, column `addr * 8 + i`.
pub proof fn lemma_device_columns_show_pixels(pixels: Seq<Seq<bool>>, band: int, addr: int, y: int, i: u8)
    requires
        0 <= band,
        0 <= addr,
        0 <= y < 8,
        i < 8,
        band * 8 + y < pixels.len(),
        addr * 8 + 8 <= pixels[band * 8 + y].len(),
    ensures
        msb_bit(device_columns(pixels, band, addr)[y], i) == pixel_level(pixels[band * 8 + y][addr * 8 + i]),
{
    let bits = pixels[band * 8 + y].subrange(addr * 8, addr * 8 + 8);
    lemma_pack_bits_keeps_pixels(bits, i);
}

impl Matrix {
    /// What reading the display at column `addr` of band `band` needs: its
    /// eight rows and columns are on the canvas.
    pub open spec fn device_fits(&self, grid: Grid, band: int, addr: int) -> bool {
        &&& band * 8 + 8 <= grid.pixels().len()
        &&& forall|r: int| band * 8 <= r < band * 8 + 8 ==> addr * 8 + 8 <= #[trigger] grid.pixels()[r].len()
    }

    /// What `draw_grid` needs so as not to panic: the chain positions it
    /// computes fit in a `usize`, so does the canvas width, and every display
    /// it draws lies on the canvas. (Each write it yields asks, in its turn,
    /// what `write_raw` asks.)
    pub open spec fn grid_drawable(&self, grid: Grid) -> bool {
        &&& (grid.height == 0 || grid.width == 0 || (grid.height - 1) * grid.width + (grid.width - 1) <= usize::MAX)
        &&& (grid.height == 0 || grid.width == 0 || grid.width * 8 <= usize::MAX)
        &&& forall|band: int, addr: int|
            0 <= band < grid.height && 0 <= addr < grid.width && drawn(self.devices, grid.width, addr)
                ==> #[trigger] self.device_fits(grid, band, addr)
    }

    /// Whether the display at column `addr` of band `band` fits, as
    /// `device_fits` says.
    fn check_device(&self, grid: &Grid, band: usize, addr: usize) -> (ok: bool)
        requires
            addr < grid.width,
            band < grid.height,
            grid.width * 8 <= usize::MAX,
            (grid.height - 1) * grid.width + (grid.width - 1) <= usize::MAX,
        ensures
            ok == self.device_fits(*grid, band as int, addr as int),
    {
        let n_rows = grid.canvas.len();
        assert(grid.pixels().len() == n_rows);
        let first = match band.checked_mul(8) {
            Some(f) => f,
            None => return false,
        };
        let end = match first.checked_add(8) {
            Some(e) => e,
            None => return false,
        };
        if end > grid.canvas.len() {
            return false;
        }
        let mut r: usize = first;
        while r < end
            invariant
                first == band * 8,
                end == first + 8,
                first <= r <= end,
                end <= grid.canvas@.len(),
                addr < grid.width,
                grid.width * 8 <= usize::MAX,
                forall|q: int| first <= q < r ==> addr * 8 + 8 <= #[trigger] grid.pixels()[q].len(),
            decreases end - r,
        {
            if grid.canvas[r].len() < addr * 8 + 8 {
                assert(grid.pixels()[r as int].len() < addr * 8 + 8);
                return false;
            }
            r = r + 1;
        }
        true
    }

    /// Whether `draw_grid` can draw `grid`, as `grid_drawable` says.
    pub fn can_draw_grid(&self, grid: &Grid) -> (ok: bool)
        ensures
            ok == self.grid_drawable(*grid),
    {
        let width = grid.width;
        let height = grid.height;
        if height == 0 || width == 0 {
            return true;
        }
        let last_band = match (height - 1).checked_mul(width) {
            Some(p) => p,
            None => return false,
        };
        if last_band.checked_add(width - 1).is_none() {
            return false;
        }
        if width.checked_mul(8).is_none() {
            return false;
        }
        let mut band: usize = 0;
        while band < height
            invariant
                band <= height,
                height == grid.height,
                width == grid.width,
                width > 0,
                width * 8 <= usize::MAX,
                (height - 1) * width + (width - 1) <= usize::MAX,
                forall|b: int, a: int|
                    0 <= b < band && 0 <= a < width && drawn(self.devices, width, a)
                        ==> #[trigger] self.device_fits(*grid, b, a),
            decreases height - band,
        {
            let mut addr: usize = 0;
            while addr < width
                invariant
                    band < height,
                    addr <= width,
                    height == grid.height,
                    width == grid.width,
                    width * 8 <= usize::MAX,
                    (height - 1) * width + (width - 1) <= usize::MAX,
                    forall|b: int, a: int|
                        0 <= b < band && 0 <= a < width && drawn(self.devices, width, a)
                            ==> #[trigger] self.device_fits(*grid, b, a),
                    forall|a: int|
                        0 <= a < addr && drawn(self.devices, width, a)
                            ==> #[trigger] self.device_fits(*grid, band as int, a),
                decreases width - addr,
            {
                if addr <= self.devices as usize && addr + 8 < width * 8 {
                    if !self.check_device(grid, band, addr) {
                        return false;
                    }
                }
                addr = addr + 1;
            }
            band = band + 1;
        }
        true
    }

    /// The register writes that send every display of the grid that the
    /// driver draws its eight column bytes, band by band (8 rows each), left
    /// to right.
    pub fn draw_grid(&self, grid: Grid) -> (writes: Vec<RegisterWrite>)
        requires
            self.grid_drawable(grid),
        ensures
            writes@ == grid_writes(self.devices, grid.width, grid.pixels(), grid.height as nat),
    {
        let ghost pixels = grid.pixels();
        let ghost devices = self.devices;
        let mut writes: Vec<RegisterWrite> = Vec::new();
        let mut addr_offset: usize = 0;
        while addr_offset < grid.height
            invariant
                addr_offset <= grid.height,
                self.devices == devices,
                pixels == grid.pixels(),
                self.grid_drawable(grid),
                writes@ == grid_writes(devices, grid.width, pixels, addr_offset as nat),
            decreases grid.height - addr_offset,
        {
            let mut addr: usize = 0;
            while addr < grid.width
                invariant
                    addr <= grid.width,
                    addr_offset < grid.height,
                    self.devices == devices,
                    pixels == grid.pixels(),
                    self.grid_drawable(grid),
                    writes@ == grid_writes(devices, grid.width, pixels, addr_offset as nat) + band_writes(
                        devices,
                        grid.width,
                        pixels,
                        addr_offset as int,
                        addr as nat,
                    ),
                decreases grid.width - addr,
            {
                proof {
                    lemma_mul_inequality(addr_offset as int, grid.height - 1, grid.width as int);
                }
                let addr_with_offset = addr + (addr_offset * grid.width);
                let ghost before = writes@;
                if addr <= self.devices as usize && addr + 8 < grid.width * 8 {
                    assert(self.device_fits(grid, addr_offset as int, addr as int));
                    let ghost columns = device_columns(pixels, addr_offset as int, addr as int);
                    let n_rows = grid.canvas.len();
                    let mut bytes: [u8; 8] = [0u8; 8];
                    let mut y: usize = 0;
                    while y < 8
                        invariant
                            y <= 8,
                            addr < grid.width,
                            addr_offset < grid.height,
                            pixels == grid.pixels(),
                            self.device_fits(grid, addr_offset as int, addr as int),
                            columns == device_columns(pixels, addr_offset as int, addr as int),
                            bytes@.len() == 8,
                            bytes@.take(y as int) == columns.take(y as int),
                            n_rows == grid.canvas@.len(),
                            pixels.len() == grid.canvas@.len(),
                        decreases 8 - y,
                    {
                        let ghost row = pixels[y + addr_offset * 8];
                        assert(addr * 8 + 8 <= row.len());
                        let row_len = grid.canvas[y + (addr_offset * 8)].len();
                        assert(row_len == row.len());
                        let mut byte: u8 = 0b00000000;
                        let mut i: usize = 0;
                        while i < 8
                            invariant
                                i <= 8,
                                y < 8,
                                addr_offset < grid.height,
                                pixels == grid.pixels(),
                                row == pixels[y + addr_offset * 8],
                                addr * 8 + 8 <= row.len(),
                                row_len == row.len(),
                                y + addr_offset * 8 < pixels.len(),
                                pixels.len() == grid.canvas@.len(),
                                n_rows == grid.canvas@.len(),
                                byte == pack_bits(row.subrange(addr * 8, addr * 8 + 8), i as nat),
                            decreases 8 - i,
                        {
                            byte <<= 1;
                            let ghost shifted = byte;
                            if grid.canvas[y + (addr_offset * 8)][addr * 8 + i] {
                                byte |= 0b00000001;
                            }
                            proof {
                                let bits = row.subrange(addr * 8, addr * 8 + 8);
                                assert(bits[i as int] == row[addr * 8 + i]);
                                if !bits[i as int] {
                                    assert(shifted | 0u8 == shifted) by (bit_vector);
                                }
                            }
                            i = i + 1;
                        }
                        bytes[y] = byte;
                        y = y + 1;
                        assert(bytes@.take(y as int) =~= columns.take(y as int));
                    }
                    assert(bytes@.take(8) =~= bytes@);
                    assert(columns.take(8) =~= columns);
                    let position = #[verifier::truncate] (addr_with_offset as u8);
                    let mut digit: u8 = 1;
                    let mut k: usize = 0;
                    while k < 8
                        invariant
                            k <= 8,
                            digit == k + 1,
                            bytes@.len() == 8,
                            writes@ == before + digit_writes(position, bytes@.take(k as int)),
                        decreases 8 - k,
                    {
                        writes.push((position, digit, bytes[k]));
                        digit = digit + 1;
                        k = k + 1;
                        assert(writes@ =~= before + digit_writes(position, bytes@.take(k as int)));
                    }
                    assert(bytes@.take(8) =~= bytes@);
                }
                addr = addr + 1;
                proof {
                    assert(writes@ =~= grid_writes(devices, grid.width, pixels, addr_offset as nat) + band_writes(
                        devices,
                        grid.width,
                        pixels,
                        addr_offset as int,
                        addr as nat,
                    ));
                }
            }
            addr_offset = addr_offset + 1;
        }
        writes
    }
}

/// The digit command for column `k` of a display (0 to 7).
pub open spec fn digit_command(k: int) -> Command {
    if k == 0 {
        Command::Digit0
    } else if k == 1 {
        Command::Digit1
    } else if k == 2 {
        Command::Digit2
    } else if k == 3 {
        Command::Digit3
    } else if k == 4 {
        Command::Digit4
    } else if k == 5 {
        Command::Digit5
    } else if k == 6 {
        Command::Digit6
    } else {
        Command::Digit7
    }
}

/// Each command writes its own register: no two commands share one.
pub proof fn lemma_command_registers_distinct(first: Command, second: Command)
    ensures
        first.spec_register() == second.spec_register() ==> first == second,
{
}

/// The digit command of column `k` writes register `k + 1`, the register
/// `draw_raw` and `draw_grid` write column `k` of a display to; the other
/// commands write the controller's no-op (0x00), decode-mode (0x09),
/// intensity (0x0A), scan-limit (0x0B), shutdown (0x0C) and display-test
/// (0x0F) registers.
pub proof fn lemma_command_registers(addr: u8, columns: Seq<u8>)
    ensures
        forall|k: int| 0 <= k < 8 ==> #[trigger] digit_command(k).spec_register() == k + 1,
        forall|k: int|
            0 <= k < columns.len() && k < 8 ==> #[trigger] digit_writes(addr, columns)[k] == (
                addr,
                digit_command(k).spec_register(),
                columns[k],
            ),
        Command::Noop.spec_register() == 0x00,
        Command::DecodeMode.spec_register() == 0x09,
        Command::Intensity.spec_register() == 0x0A,
        Command::ScanLimit.spec_register() == 0x0B,
        Command::Power.spec_register() == 0x0C,
        Command::DisplayTest.spec_register() == 0x0F,
{
}

/// Setting up a chain of `n` displays makes four writes per display, display
/// by display: for display `d`, at positions `4d` to `4d + 3`, scan limit 7,
/// no decoding, display test off, power on.
pub proof fn lemma_init_writes(n: nat)
    ensures
        init_writes(n).len() == 4 * n,
        forall|d: int|
            0 <= d < n ==> {
                &&& #[trigger] init_writes(n)[4 * d] == (d as u8, Command::ScanLimit.spec_register(), 7u8)
                &&& init_writes(n)[4 * d + 1] == (d as u8, Command::DecodeMode.spec_register(), 0u8)
                &&& init_writes(n)[4 * d + 2] == (d as u8, Command::DisplayTest.spec_register(), 0u8)
                &&& init_writes(n)[4 * d + 3] == (d as u8, Command::Power.spec_register(), 1u8)
            },
        forall|d: int|
            0 <= d < n ==> {
                &&& #[trigger] init_writes(n)[4 * d] == (d as u8, 0x0Bu8, 0x07u8)
                &&& init_writes(n)[4 * d + 1] == (d as u8, 0x09u8, 0x00u8)
                &&& init_writes(n)[4 * d + 2] == (d as u8, 0x0Fu8, 0x00u8)
                &&& init_writes(n)[4 * d + 3] == (d as u8, 0x0Cu8, 0x01u8)
            },
    decreases n,
{
    if n > 0 {
        lemma_init_writes((n - 1) as nat);
        let prev = init_writes((n - 1) as nat);
        assert forall|d: int| 0 <= d < n implies {
            &&& #[trigger] init_writes(n)[4 * d] == (d as u8, 0x0Bu8, 0x07u8)
            &&& init_writes(n)[4 * d + 1] == (d as u8, 0x09u8, 0x00u8)
            &&& init_writes(n)[4 * d + 2] == (d as u8, 0x0Fu8, 0x00u8)
            &&& init_writes(n)[4 * d + 3] == (d as u8, 0x0Cu8, 0x01u8)
        } by {
            if d < n - 1 {
                assert(prev[4 * d] == (d as u8, 0x0Bu8, 0x07u8));
            }
        }
        assert forall|d: int| 0 <= d < n implies {
            &&& #[trigger] init_writes(n)[4 * d] == (d as u8, Command::ScanLimit.spec_register(), 7u8)
            &&& init_writes(n)[4 * d + 1] == (d as u8, Command::DecodeMode.spec_register(), 0u8)
            &&& init_writes(n)[4 * d + 2] == (d as u8, Command::DisplayTest.spec_register(), 0u8)
            &&& init_writes(n)[4 * d + 3] == (d as u8, Command::Power.spec_register(), 1u8)
        } by {
            assert(init_writes(n)[4 * d] == (d as u8, 0x0Bu8, 0x07u8));
        }
    }
}

/// Powering off a chain of `n` displays makes one write per display, in
/// order: write `d` turns display `d` off (shutdown register, 0).
pub proof fn lemma_power_off_writes(n: nat)
    ensures
        power_off_writes(n).len() == n,
        forall|d: int| 0 <= d < n ==> #[trigger] power_off_writes(n)[d] == (d as u8, 0x0Cu8, 0x00u8),
        forall|d: int|
            0 <= d < n ==> #[trigger] power_off_writes(n)[d] == (d as u8, Command::Power.spec_register(), 0u8),
    decreases n,
{
    if n > 0 {
        lemma_power_off_writes((n - 1) as nat);
        let prev = power_off_writes((n - 1) as nat);
        assert forall|d: int| 0 <= d < n implies #[trigger] power_off_writes(n)[d] == (d as u8, 0x0Cu8, 0x00u8) by {
            if d < n - 1 {
                assert(prev[d] == (d as u8, 0x0Cu8, 0x00u8));
            }
        }
    }
}

proof fn lemma_band_writes_contain(
    devices: u8,
    width: usize,
    pixels: Seq<Seq<bool>>,
    band: int,
    n: nat,
    addr: int,
    k: int,
)
    requires
        0 <= addr < n,
        0 <= k < 8,
        drawn(devices, width, addr),
    ensures
        band_writes(devices, width, pixels, band, n).contains(
            (((addr + band * width) as u8), (k + 1) as u8, device_columns(pixels, band, addr)[k]),
        ),
    decreases n,
{
    let write = (((addr + band * width) as u8), (k + 1) as u8, device_columns(pixels, band, addr)[k]);
    let prev = band_writes(devices, width, pixels, band, (n - 1) as nat);
    let last = device_writes(devices, width, pixels, band, n - 1);
    if addr == n - 1 {
        assert(last[k] == write);
        assert((prev + last)[prev.len() + k] == write);
    } else {
        lemma_band_writes_contain(devices, width, pixels, band, (n - 1) as nat, addr, k);
        let i = choose|i: int| 0 <= i < prev.len() && prev[i] == write;
        assert((prev + last)[i] == write);
    }
}

/// Drawing a grid sends every drawn display its eight columns at chain
/// position `addr + band * width` (as a byte), whatever the grid's width:
/// column `k` of the display at column `addr` of band `band` goes to digit
/// register `k + 1` of that position.
pub proof fn lemma_grid_writes_chain_position(
    devices: u8,
    width: usize,
    pixels: Seq<Seq<bool>>,
    height: nat,
    band: int,
    addr: int,
    k: int,
)
    requires
        0 <= band < height,
        0 <= addr < width,
        0 <= k < 8,
        addr <= devices,
        addr + 8 < width * 8,
    ensures
        grid_writes(devices, width, pixels, height).contains(
            (((addr + band * width) as u8), (k + 1) as u8, device_columns(pixels, band, addr)[k]),
        ),
    decreases height,
{
    let write = (((addr + band * width) as u8), (k + 1) as u8, device_columns(pixels, band, addr)[k]);
    let prev = grid_writes(devices, width, pixels, (height - 1) as nat);
    let last = band_writes(devices, width, pixels, height - 1, width as nat);
    if band == height - 1 {
        lemma_band_writes_contain(devices, width, pixels, band, width as nat, addr, k);
        let i = choose|i: int| 0 <= i < last.len() && last[i] == write;
        assert((prev + last)[prev.len() + i] == write);
    } else {
        lemma_grid_writes_chain_position(devices, width, pixels, (height - 1) as nat, band, addr, k);
        let i = choose|i: int| 0 <= i < prev.len() && prev[i] == write;
        assert((prev + last)[i] == write);
    }
}

/// Whether `write` is column `k` of the display at column `addr` of band
/// `band`, sent to chain position `addr + band * width` (as a byte), for a
/// display the driver draws.
pub open spec fn is_display_write(
    devices: u8,
    width: usize,
    pixels: Seq<Seq<bool>>,
    height: nat,
    write: RegisterWrite,
    band: int,
    addr: int,
    k: int,
) -> bool {
    &&& 0 <= band < height
    &&& 0 <= addr < width
    &&& addr <= devices
    &&& addr + 8 < width * 8
    &&& 0 <= k < 8
    &&& write == (((addr + band * width) as u8), (k + 1) as u8, device_columns(pixels, band, addr)[k])
}

proof fn lemma_band_writes_only_drawn(
    devices: u8,
    width: usize,
    pixels: Seq<Seq<bool>>,
    height: nat,
    band: int,
    n: nat,
    i: int,
)
    requires
        0 <= band < height,
        n <= width,
        0 <= i < band_writes(devices, width, pixels, band, n).len(),
    ensures
        exists|addr: int, k: int|
            #[trigger] is_display_write(devices, width, pixels, height, band_writes(devices, width, pixels, band, n)[i], band, addr, k),
    decreases n,
{
    let prev = band_writes(devices, width, pixels, band, (n - 1) as nat);
    let last = device_writes(devices, width, pixels, band, n - 1);
    let all = band_writes(devices, width, pixels, band, n);
    assert(all == prev + last);
    if i < prev.len() {
        lemma_band_writes_only_drawn(devices, width, pixels, height, band, (n - 1) as nat, i);
        let (addr, k) = choose|addr: int, k: int| #[trigger] is_display_write(devices, width, pixels, height, prev[i], band, addr, k);
        assert(all[i] == prev[i]);
        assert(is_display_write(devices, width, pixels, height, all[i], band, addr, k));
    } else {
        let k = i - prev.len();
        assert(drawn(devices, width, n - 1));
        assert(all[i] == last[k]);
        assert(is_display_write(devices, width, pixels, height, all[i], band, n - 1, k));
    }
}

/// Every register write of a drawn grid is column `k` of a display the
/// driver draws, sent to that display's chain position `addr + band *
/// width` (as a byte): drawing writes nothing else.
pub proof fn lemma_grid_writes_only_drawn(
    devices: u8,
    width: usize,
    pixels: Seq<Seq<bool>>,
    height: nat,
    i: int,
)
    requires
        0 <= i < grid_writes(devices, width, pixels, height).len(),
    ensures
        exists|band: int, addr: int, k: int|
            #[trigger] is_display_write(devices, width, pixels, height, grid_writes(devices, width, pixels, height)[i], band, addr, k),
    decreases height,
{
    let prev = grid_writes(devices, width, pixels, (height - 1) as nat);
    let last = band_writes(devices, width, pixels, height - 1, width as nat);
    let all = grid_writes(devices, width, pixels, height);
    assert(all == prev + last);
    if i < prev.len() {
        lemma_grid_writes_only_drawn(devices, width, pixels, (height - 1) as nat, i);
        let (band, addr, k) = choose|band: int, addr: int, k: int|
            #[trigger] is_display_write(devices, width, pixels, (height - 1) as nat, prev[i], band, addr, k);
        assert(all[i] == prev[i]);
        assert(is_display_write(devices, width, pixels, height, all[i], band, addr, k));
    } else {
        let j = i - prev.len();
        lemma_band_writes_only_drawn(devices, width, pixels, height, height - 1, width as nat, j);
        let (addr, k) = choose|addr: int, k: int|
            #[trigger] is_display_write(devices, width, pixels, height, last[j], height - 1, addr, k);
        assert(all[i] == last[j]);
        assert(is_display_write(devices, width, pixels, height, all[i], height - 1, addr, k));
    }
}

} // verus!
