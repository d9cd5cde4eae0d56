use vstd::prelude::*;
use crate::protocol::{seq_views, encode_message, spec_message};
use crate::codec::{grid_encoding, decodes_to, no_grid_encoded, lemma_grid_encoding_unique, serialize_grid, deserialize_grid};
use crate::config::MatrixConfiguration;

verus! {

/// A monochrome picture for a block of chained 8x8 LED displays: `width`
/// and `height` count displays, `canvas` holds the pixels row by row.
pub struct Grid {
    pub width: usize,
    pub height: usize,
    pub canvas: Vec<Vec<bool>>,
}

/// A picture of `rows` rows of `columns` unlit pixels.
pub open spec fn blank_canvas(columns: nat, rows: nat) -> Seq<Seq<bool>> {
    Seq::new(rows, |i: int| Seq::new(columns, |j: int| false))
}

/// Whether the bar graph of `data` lights pixel (`x`, `y`): column `x` has a
/// level and that level is at least the row number taken as a byte.
pub open spec fn bar_lit(data: Seq<u8>, x: int, y: int) -> bool {
    x < data.len() && data[x] >= (y as u8)
}

/// The bar graph of `data` on a canvas of `rows` rows of `columns` pixels.
pub open spec fn bar_graph(columns: nat, rows: nat, data: Seq<u8>) -> Seq<Seq<bool>> {
    Seq::new(rows, |i: int| Seq::new(columns, |j: int| bar_lit(data, j, i)))
}

/// A blank canvas has `rows` rows of `columns` pixels, none of them lit.
pub proof fn lemma_blank_canvas(columns: nat, rows: nat)
    ensures
        blank_canvas(columns, rows).len() == rows,
        forall|y: int| 0 <= y < rows ==> #[trigger] blank_canvas(columns, rows)[y].len() == columns,
        forall|y: int, x: int| 0 <= y < rows && 0 <= x < columns ==> !#[trigger] blank_canvas(columns, rows)[y][x],
{
}

/// A bar is lit at a pixel exactly when its column has a level and that
/// level is at least the row number taken as a byte, in whichever band of 8
/// rows the pixel lies; the bar graph of a canvas is lit exactly there.
pub proof fn lemma_bar_lit_rule(data: Seq<u8>, columns: nat, rows: nat)
    ensures
        forall|x: int, y: int| #[trigger] bar_lit(data, x, y) == (x < data.len() && data[x] >= (y as u8)),
        forall|y: int, x: int|
            0 <= y < rows && 0 <= x < columns ==> #[trigger] bar_graph(columns, rows, data)[y][x] == (x
                < data.len() && data[x] >= (y as u8)),
        bar_graph(columns, rows, data).len() == rows,
        forall|y: int| 0 <= y < rows ==> #[trigger] bar_graph(columns, rows, data)[y].len() == columns,
{
}

impl Grid {
    /// The pixels, row by row.
    pub open spec fn pixels(&self) -> Seq<Seq<bool>> {
        seq_views(self.canvas@)
    }

    /// The canvas has `height * 8` rows of `width * 8` pixels each.
    pub open spec fn wf(&self) -> bool {
        &&& self.pixels().len() == self.height * 8
        &&& forall|i: int| 0 <= i < self.pixels().len() ==> #[trigger] self.pixels()[i].len() == self.width * 8
    }

    /// What `gen_bars` needs so as not to panic: the loop bounds fit in a
    /// `usize`, and every pixel it lights lies on the canvas.
    pub open spec fn bars_fit(&self, data: Seq<u8>) -> bool {
        &&& self.height * 8 <= usize::MAX
        &&& (self.height == 0 || self.width * 8 <= usize::MAX)
        &&& forall|y: int, x: int|
            0 <= y < self.height * 8 && 0 <= x < self.width * 8 && #[trigger] bar_lit(data, x, y) ==> {
                &&& y < self.pixels().len()
                &&& x < self.pixels()[y].len()
            }
    }

    /// An unlit grid of `width` x `height` displays.
    pub fn new(width: usize, height: usize) -> (grid: Self)
        requires
            width * 8 <= usize::MAX,
            height * 8 <= usize::MAX,
        ensures
            grid.width == width,
            grid.height == height,
            grid.pixels() == blank_canvas(width as nat * 8, height as nat * 8),
            grid.wf(),
    {
        let columns = width * 8;
        let rows = height * 8;
        let mut canvas: Vec<Vec<bool>> = Vec::new();
        let mut i: usize = 0;
        while i < rows
            invariant
                i <= rows,
                columns == width * 8,
                seq_views(canvas@) == blank_canvas(columns as nat, i as nat),
            decreases rows - i,
        {
            let mut row: Vec<bool> = Vec::new();
            let mut j: usize = 0;
            while j < columns
                invariant
                    j <= columns,
                    row@ == Seq::new(j as nat, |k: int| false),
                decreases columns - j,
            {
                row.push(false);
                j = j + 1;
                assert(row@ =~= Seq::new(j as nat, |k: int| false));
            }
            let ghost before = seq_views(canvas@);
            assert(row@ =~= Seq::new(columns as nat, |k: int| false));
            canvas.push(row);
            i = i + 1;
            assert(seq_views(canvas@) =~= before.push(Seq::new(columns as nat, |k: int| false)));
            assert(seq_views(canvas@) =~= blank_canvas(columns as nat, i as nat));
        }
        Grid { width, height, canvas }
    }

    /// Lights pixel (`x`, `y`) when it lies within the first row's width and
    /// the number of rows; leaves the grid as it is otherwise.
    pub fn draw_point(&mut self, x: usize, y: usize)
        requires
            old(self).pixels().len() > 0,
            x < old(self).pixels()[0].len() && y < old(self).pixels().len() ==> x < old(self).pixels()[y as int].len(),
        ensures
            final(self).width == old(self).width,
            final(self).height == old(self).height,
            old(self).wf() ==> final(self).wf(),
            final(self).pixels() == if x < old(self).pixels()[0].len() && y < old(self).pixels().len() {
                old(self).pixels().update(y as int, old(self).pixels()[y as int].update(x as int, true))
            } else {
                old(self).pixels()
            },
    {
        if x < self.canvas[0].len() && y < self.canvas.len() {
            self.canvas[y][x] = true;
            assert(self.pixels() =~= old(self).pixels().update(
                y as int,
                old(self).pixels()[y as int].update(x as int, true),
            ));
        }
    }

    /// Draws the bar graph of `data` over the grid: column `x` is lit from
    /// the top row down to row `data[x]` (rows compared as bytes).
    pub fn gen_bars(&mut self, data: &[u8])
        requires
            old(self).bars_fit(data@),
        ensures
            final(self).width == old(self).width,
            final(self).height == old(self).height,
            final(self).pixels().len() == old(self).pixels().len(),
            old(self).wf() ==> final(self).wf(),
            forall|i: int|
                0 <= i < old(self).pixels().len() ==> #[trigger] final(self).pixels()[i].len() == old(self).pixels()[i].len(),
            forall|i: int, j: int|
                0 <= i < old(self).pixels().len() && 0 <= j < old(self).pixels()[i].len() ==> #[trigger] final(self).pixels()[i][j] == (old(self).pixels()[i][j] || (i < old(self).height * 8 && j
                    < old(self).width * 8 && j < data@.len() && data@[j] >= (i as u8))),
    {
        let ghost start = self.pixels();
        let rows = self.height * 8;
        let mut y: usize = 0;
        while y < rows
            invariant
                y <= rows,
                rows == self.height * 8,
                self.width == old(self).width,
                self.height == old(self).height,
                start == old(self).pixels(),
                old(self).bars_fit(data@),
                self.pixels().len() == start.len(),
                forall|i: int| 0 <= i < start.len() ==> #[trigger] self.pixels()[i].len() == start[i].len(),
                forall|i: int, j: int|
                    0 <= i < start.len() && 0 <= j < start[i].len() ==> #[trigger] self.pixels()[i][j] == (
                    start[i][j] || (i < y && j < self.width * 8 && bar_lit(data@, j, i))),
            decreases rows - y,
        {
            let columns = self.width * 8;
            let mut x: usize = 0;
            while x < columns
                invariant
                    x <= columns,
                    y < rows,
                    columns == self.width * 8,
                    rows == self.height * 8,
                    self.width == old(self).width,
                    self.height == old(self).height,
                    start == old(self).pixels(),
                    old(self).bars_fit(data@),
                    self.pixels().len() == start.len(),
                    forall|i: int| 0 <= i < start.len() ==> #[trigger] self.pixels()[i].len() == start[i].len(),
                    forall|i: int, j: int|
                        0 <= i < start.len() && 0 <= j < start[i].len() ==> #[trigger] self.pixels()[i][j]
                            == (start[i][j] || (i < y && j < self.width * 8 && bar_lit(data@, j, i)) || (
                        i == y && j < x && bar_lit(data@, j, i))),
                decreases columns - x,
            {
                if data.len() > x {
                    if data[x] >= #[verifier::truncate] (y as u8) {
                        assert(bar_lit(data@, x as int, y as int));
                        let ghost before = self.pixels();
                        assert(before[y as int].len() == start[y as int].len());
                        assert(before[y as int] == self.canvas@[y as int]@);
                        self.canvas[y][x] = true;
                        assert(self.pixels() =~= before.update(y as int, before[y as int].update(x as int, true)));
                    }
                }
                x = x + 1;
            }
            y = y + 1;
        }
    }
}

impl Grid {
    /// The wire encoding of the grid, as bincode writes it: width, height and
    /// row count as eight little-endian bytes each, then each row as its
    /// length and one byte per pixel.
    pub fn to_bytes(&self) -> (result: Option<Vec<u8>>)
        ensures
            result is Some,
            result->0@ == grid_encoding(self.width, self.height, self.pixels()),
    {
        serialize_grid(self.width, self.height, &self.canvas)
    }

    /// The grid that `bytes` begin with the encoding of, if any; bytes after
    /// it are ignored, and short or malformed input gives `None`. Bytes that
    /// `to_bytes` made of a grid decode to a grid with the same width, height
    /// and pixels.
    pub fn from_bytes(bytes: &[u8]) -> (result: Option<Self>)
        ensures
            match result {
                Some(grid) => decodes_to(bytes@, grid.width, grid.height, grid.pixels()),
                None => no_grid_encoded(bytes@),
            },
            (forall|width: usize, height: usize, canvas: Seq<Seq<bool>>|
                #[trigger] decodes_to(bytes@, width, height, canvas) ==> (result matches Some(grid)
                    && grid.width == width && grid.height == height && grid.pixels() == canvas)),
    {
        let result = match deserialize_grid(bytes) {
            Some((width, height, canvas)) => Some(Grid { width, height, canvas }),
            None => None,
        };
        proof {
            assert forall|width: usize, height: usize, canvas: Seq<Seq<bool>>|
                #[trigger] decodes_to(bytes@, width, height, canvas) implies (result matches Some(grid)
                    && grid.width == width && grid.height == height && grid.pixels() == canvas) by {
                if let Some(grid) = result {
                    lemma_grid_encoding_unique(bytes@, grid.width, grid.height, grid.pixels(), width, height, canvas);
                }
            }
        }
        result
    }

    /// The whole protocol message that carries this grid to the server: its
    /// encoding, framed in buffers (a single zero byte stands in should the
    /// encoding fail).
    pub fn to_message(&self) -> (result: Vec<u8>)
        ensures
            result@ == spec_message(grid_encoding(self.width, self.height, self.pixels())),
    {
        let data = match self.to_bytes() {
            Some(bytes) => bytes,
            None => vec![0u8],
        };
        encode_message(data.as_slice())
    }

    /// The grid the server shows for received `bytes`: the grid they decode
    /// to, or an unlit `width` x `height` grid when they decode to none.
    pub fn from_bytes_or_blank(bytes: &[u8], width: usize, height: usize) -> (result: Self)
        requires
            width * 8 <= usize::MAX,
            height * 8 <= usize::MAX,
        ensures
            (forall|w: usize, h: usize, canvas: Seq<Seq<bool>>|
                #[trigger] decodes_to(bytes@, w, h, canvas) ==> result.width == w && result.height == h
                    && result.pixels() == canvas),
            no_grid_encoded(bytes@) ==> result.width == width && result.height == height && result.pixels()
                == blank_canvas(width as nat * 8, height as nat * 8),
    {
        match Grid::from_bytes(bytes) {
            Some(grid) => grid,
            None => Grid::new(width, height),
        }
    }
}

/// A well-formed grid lights only pixels of its own canvas, whatever the
/// data, as long as its dimensions fit in a `usize`.
pub proof fn lemma_wf_bars_fit(grid: Grid, data: Seq<u8>)
    requires
        grid.wf(),
        grid.width * 8 <= usize::MAX,
        grid.height * 8 <= usize::MAX,
    ensures
        grid.bars_fit(data),
{
    assert forall|y: int, x: int|
        0 <= y < grid.height * 8 && 0 <= x < grid.width * 8 && #[trigger] bar_lit(data, x, y) implies {
            &&& y < grid.pixels().len()
            &&& x < grid.pixels()[y].len()
        } by {
        assert(grid.pixels()[y].len() == grid.width * 8);
    }
}

/// The grid the client sends for one frame of the spectrum: a grid of the
/// server's size whose bars are the `volumes` in reverse order.
pub fn spectrum_grid(config: &MatrixConfiguration, volumes: &[u8]) -> (grid: Grid)
    ensures
        grid.width == config.width as usize,
        grid.height == config.height as usize,
        grid.wf(),
        grid.pixels() == bar_graph(config.width as nat * 8, config.height as nat * 8, volumes@.reverse()),
{
    let mut data: Vec<u8> = Vec::new();
    let mut i: usize = volumes.len();
    while i > 0
        invariant
            i <= volumes.len(),
            data@ == volumes@.subrange(i as int, volumes@.len() as int).reverse(),
        decreases i,
    {
        i = i - 1;
        data.push(volumes[i]);
        assert(data@ =~= volumes@.subrange(i as int, volumes@.len() as int).reverse());
    }
    assert(volumes@.subrange(0, volumes@.len() as int) =~= volumes@);
    let mut grid = Grid::new(config.width as usize, config.height as usize);
    proof {
        lemma_wf_bars_fit(grid, data@);
    }
    grid.gen_bars(data.as_slice());
    proof {
        let expected = bar_graph(config.width as nat * 8, config.height as nat * 8, volumes@.reverse());
        assert forall|i: int| 0 <= i < grid.pixels().len() implies #[trigger] grid.pixels()[i]
            =~= expected[i] by {
            assert forall|j: int| 0 <= j < grid.pixels()[i].len() implies grid.pixels()[i][j]
                == expected[i][j] by {
                assert(blank_canvas(config.width as nat * 8, config.height as nat * 8)[i][j] == false);
            }
        }
        assert(grid.pixels() =~= expected);
    }
    grid
}

} // verus!
