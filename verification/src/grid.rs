//! The grid in which a pattern is drawn: four layers of rows and columns of cells, a column for
//! each X and a row for each Z.
use vstd::prelude::*;

use crate::bedrock::{
    compute_probability, prob_to_threshold, y_values, BedrockType, Block, Probability,
};

verus! {

/// What is known of one block of the pattern.
#[derive(Clone, Copy, PartialEq, Eq, Debug, Structural)]
pub enum CellState {
    Unknown,
    NonBedrock,
    Bedrock,
}

impl Default for CellState {
    fn default() -> (r: Self)
        ensures
            r == CellState::Unknown,
    {
        CellState::Unknown
    }
}

impl CellState {
    /// The state after this one: unknown, non-bedrock, bedrock, and round again.
    pub open spec fn following(self) -> CellState {
        match self {
            CellState::Unknown => CellState::NonBedrock,
            CellState::NonBedrock => CellState::Bedrock,
            CellState::Bedrock => CellState::Unknown,
        }
    }

    /// The state before this one.
    pub open spec fn preceding(self) -> CellState {
        match self {
            CellState::Unknown => CellState::Bedrock,
            CellState::NonBedrock => CellState::Unknown,
            CellState::Bedrock => CellState::NonBedrock,
        }
    }

    /// Steps to the next state.
    pub fn next(self) -> (r: Self)
        ensures
            r == self.following(),
    {
        match self {
            CellState::Unknown => CellState::NonBedrock,
            CellState::NonBedrock => CellState::Bedrock,
            CellState::Bedrock => CellState::Unknown,
        }
    }

    /// Steps to the previous state.
    pub fn prev(self) -> (r: Self)
        ensures
            r == self.preceding(),
    {
        match self {
            CellState::Unknown => CellState::Bedrock,
            CellState::NonBedrock => CellState::Unknown,
            CellState::Bedrock => CellState::NonBedrock,
        }
    }

    /// The text shown for this state.
    pub fn label(self) -> (r: &'static str)
        ensures
            r@ == match self {
                CellState::Unknown => "?"@,
                CellState::NonBedrock => "O"@,
                CellState::Bedrock => "X"@,
            },
    {
        match self {
            CellState::Unknown => "?",
            CellState::NonBedrock => "O",
            CellState::Bedrock => "X",
        }
    }
}

/// The two directions of stepping undo each other, and three steps lead round.
pub proof fn law_cell_states_cycle(c: CellState)
    ensures
        c.following().preceding() == c,
        c.preceding().following() == c,
        c.following().following().following() == c,
{
}

/// The cells of a layer, row by row.
pub open spec fn layer_of(layer: Seq<Vec<CellState>>) -> Seq<Seq<CellState>> {
    Seq::new(layer.len(), |r: int| layer[r]@)
}

/// The cells of a grid, layer by layer.
pub open spec fn grid_of(cells: Seq<Vec<Vec<CellState>>>) -> Seq<Seq<Seq<CellState>>> {
    Seq::new(cells.len(), |y: int| layer_of(cells[y]@))
}

/// A layer has the given numbers of rows and columns.
pub open spec fn layer_is(layer: Seq<Seq<CellState>>, rows: int, cols: int) -> bool {
    &&& layer.len() == rows
    &&& forall|r: int| 0 <= r < rows ==> (#[trigger] layer[r]).len() == cols
}

/// A grid has four layers with the given numbers of rows and columns.
pub open spec fn grid_is(grid: Seq<Seq<Seq<CellState>>>, rows: int, cols: int) -> bool {
    &&& grid.len() == 4
    &&& forall|y: int| 0 <= y < 4 ==> layer_is(#[trigger] grid[y], rows, cols)
}

/// All layers of a grid have the given numbers of rows and columns.
pub open spec fn layers_are(grid: Seq<Seq<Seq<CellState>>>, rows: int, cols: int) -> bool {
    forall|y: int| 0 <= y < grid.len() ==> layer_is(#[trigger] grid[y], rows, cols)
}

/// A layer has at least the given numbers of rows and columns.
pub open spec fn layer_covers(layer: Seq<Seq<CellState>>, rows: int, cols: int) -> bool {
    &&& layer.len() >= rows
    &&& forall|r: int| 0 <= r < rows ==> (#[trigger] layer[r]).len() >= cols
}

/// A layer of cells of which nothing is known.
pub open spec fn blank_layer(rows: int, cols: int) -> Seq<Seq<CellState>> {
    Seq::new(
        rows as nat,
        |r: int| Seq::new(cols as nat, |c: int| CellState::Unknown),
    )
}

/// Four layers of cells of which nothing is known.
pub open spec fn blank_grid(rows: int, cols: int) -> Seq<Seq<Seq<CellState>>> {
    Seq::new(4, |y: int| blank_layer(rows, cols))
}

/// Makes a grid of four layers in which every cell is unknown.
pub fn make_grid(rows: usize, cols: usize) -> (r: Vec<Vec<Vec<CellState>>>)
    ensures
        grid_of(r@) == blank_grid(rows as int, cols as int),
        grid_is(grid_of(r@), rows as int, cols as int),
{
    let mut cells: Vec<Vec<Vec<CellState>>> = Vec::new();
    let mut y: usize = 0;
    while y < 4
        invariant
            0 <= y <= 4,
            cells@.len() == y,
            forall|m: int|
                0 <= m < y ==> layer_of(#[trigger] cells@[m]@) == blank_layer(
                    rows as int,
                    cols as int,
                ),
        decreases 4 - y,
    {
        let blank: Vec<Vec<CellState>> = Vec::new();
        cells.push(resized_layer(&blank, rows, cols));
        assert(layer_of(cells@[y as int]@) =~~= blank_layer(rows as int, cols as int));
        y = y + 1;
    }
    assert(grid_of(cells@) =~= blank_grid(rows as int, cols as int));
    cells
}

/// A layer cut off or extended by unknown cells to the given numbers of rows and columns.
pub open spec fn resized(layer: Seq<Seq<CellState>>, rows: int, cols: int) -> Seq<
    Seq<CellState>,
> {
    Seq::new(
        rows as nat,
        |r: int|
            Seq::new(
                cols as nat,
                |c: int|
                    if r < layer.len() && c < layer[r].len() {
                        layer[r][c]
                    } else {
                        CellState::Unknown
                    },
            ),
    )
}

/// Cuts off or extends a layer to the given numbers of rows and columns.
fn resized_layer(layer: &Vec<Vec<CellState>>, rows: usize, cols: usize) -> (out: Vec<
    Vec<CellState>,
>)
    ensures
        layer_of(out@) == resized(layer_of(layer@), rows as int, cols as int),
{
    let ghost want = resized(layer_of(layer@), rows as int, cols as int);
    let mut out: Vec<Vec<CellState>> = Vec::new();
    let mut r: usize = 0;
    while r < rows
        invariant
            0 <= r <= rows,
            want == resized(layer_of(layer@), rows as int, cols as int),
            out@.len() == r,
            forall|m: int| 0 <= m < r ==> (#[trigger] out@[m])@ == want[m],
        decreases rows - r,
    {
        let mut line: Vec<CellState> = Vec::new();
        let mut c: usize = 0;
        while c < cols
            invariant
                0 <= r < rows,
                0 <= c <= cols,
                want == resized(layer_of(layer@), rows as int, cols as int),
                line@.len() == c,
                forall|m: int| 0 <= m < c ==> #[trigger] line@[m] == want[r as int][m],
            decreases cols - c,
        {
            if r < layer.len() && c < layer[r].len() {
                line.push(layer[r][c]);
            } else {
                line.push(CellState::Unknown);
            }
            c = c + 1;
        }
        assert(line@ =~= want[r as int]);
        out.push(line);
        r = r + 1;
    }
    assert(layer_of(out@) =~= want);
    out
}

/// Every layer of a grid, cut off or extended to the given numbers of rows and columns.
pub open spec fn resized_layers(grid: Seq<Seq<Seq<CellState>>>, rows: int, cols: int) -> Seq<
    Seq<Seq<CellState>>,
> {
    Seq::new(grid.len(), |y: int| resized(grid[y], rows, cols))
}

/// Cuts off or extends every layer of a grid to the given numbers of rows and columns.
pub fn resize_grid(cells: &[Vec<Vec<CellState>>], rows: usize, cols: usize) -> (out: Vec<
    Vec<Vec<CellState>>,
>)
    ensures
        grid_of(out@) == resized_layers(grid_of(cells@), rows as int, cols as int),
{
    let ghost want = resized_layers(grid_of(cells@), rows as int, cols as int);
    let mut out: Vec<Vec<Vec<CellState>>> = Vec::new();
    let mut y: usize = 0;
    while y < cells.len()
        invariant
            0 <= y <= cells@.len(),
            want == resized_layers(grid_of(cells@), rows as int, cols as int),
            out@.len() == y,
            forall|m: int| 0 <= m < y ==> layer_of(#[trigger] out@[m]@) == want[m],
        decreases cells@.len() - y,
    {
        out.push(resized_layer(&cells[y], rows, cols));
        y = y + 1;
    }
    assert(grid_of(out@) =~= want);
    out
}

/// A layer turned by a quarter clockwise: row `r` becomes column `rows - 1 - r`.
pub open spec fn turned_cw(layer: Seq<Seq<CellState>>, rows: int, cols: int) -> Seq<
    Seq<CellState>,
> {
    Seq::new(cols as nat, |r: int| Seq::new(rows as nat, |c: int| layer[rows - 1 - c][r]))
}

/// A layer turned by a quarter counter-clockwise: row `r` becomes column `r`, from the bottom up.
pub open spec fn turned_ccw(layer: Seq<Seq<CellState>>, rows: int, cols: int) -> Seq<
    Seq<CellState>,
> {
    Seq::new(cols as nat, |r: int| Seq::new(rows as nat, |c: int| layer[c][cols - 1 - r]))
}

/// Every layer of a grid, turned by a quarter in the given direction.
pub open spec fn turned_layers(
    grid: Seq<Seq<Seq<CellState>>>,
    rows: int,
    cols: int,
    clockwise: bool,
) -> Seq<Seq<Seq<CellState>>> {
    Seq::new(
        grid.len(),
        |y: int|
            if clockwise {
                turned_cw(grid[y], rows, cols)
            } else {
                turned_ccw(grid[y], rows, cols)
            },
    )
}

/// Turns one layer by a quarter.
fn turn_layer(layer: &Vec<Vec<CellState>>, rows: usize, cols: usize, clockwise: bool) -> (out: Vec<
    Vec<CellState>,
>)
    requires
        layer_covers(layer_of(layer@), rows as int, cols as int),
    ensures
        layer_of(out@) == if clockwise {
            turned_cw(layer_of(layer@), rows as int, cols as int)
        } else {
            turned_ccw(layer_of(layer@), rows as int, cols as int)
        },
{
    let ghost view = layer_of(layer@);
    let ghost want = if clockwise {
        turned_cw(view, rows as int, cols as int)
    } else {
        turned_ccw(view, rows as int, cols as int)
    };
    let mut out: Vec<Vec<CellState>> = Vec::new();
    let mut r: usize = 0;
    while r < cols
        invariant
            0 <= r <= cols,
            view == layer_of(layer@),
            layer_covers(view, rows as int, cols as int),
            want == if clockwise {
                turned_cw(view, rows as int, cols as int)
            } else {
                turned_ccw(view, rows as int, cols as int)
            },
            out@.len() == r,
            forall|m: int| 0 <= m < r ==> (#[trigger] out@[m])@ == want[m],
        decreases cols - r,
    {
        let mut line: Vec<CellState> = Vec::new();
        let mut c: usize = 0;
        while c < rows
            invariant
                0 <= r < cols,
                0 <= c <= rows,
                view == layer_of(layer@),
                layer_covers(view, rows as int, cols as int),
                want == if clockwise {
                    turned_cw(view, rows as int, cols as int)
                } else {
                    turned_ccw(view, rows as int, cols as int)
                },
                line@.len() == c,
                forall|m: int| 0 <= m < c ==> #[trigger] line@[m] == want[r as int][m],
            decreases rows - c,
        {
            assert(view[rows - 1 - c].len() >= cols);
            assert(view[c as int].len() >= cols);
            if clockwise {
                line.push(layer[rows - 1 - c][r]);
            } else {
                line.push(layer[c][cols - 1 - r]);
            }
            c = c + 1;
        }
        assert(line@ =~= want[r as int]);
        out.push(line);
        r = r + 1;
    }
    assert(layer_of(out@) =~= want);
    out
}

/// Turns every layer of a grid by a quarter.
fn turn_grid(cells: &[Vec<Vec<CellState>>], rows: usize, cols: usize, clockwise: bool) -> (out: Vec<
    Vec<Vec<CellState>>,
>)
    requires
        forall|y: int|
            0 <= y < cells@.len() ==> layer_covers(
                #[trigger] grid_of(cells@)[y],
                rows as int,
                cols as int,
            ),
    ensures
        grid_of(out@) == turned_layers(grid_of(cells@), rows as int, cols as int, clockwise),
{
    let ghost grid = grid_of(cells@);
    let ghost want = turned_layers(grid, rows as int, cols as int, clockwise);
    let mut out: Vec<Vec<Vec<CellState>>> = Vec::new();
    let mut y: usize = 0;
    while y < cells.len()
        invariant
            0 <= y <= cells@.len(),
            grid == grid_of(cells@),
            want == turned_layers(grid, rows as int, cols as int, clockwise),
            forall|m: int|
                0 <= m < cells@.len() ==> layer_covers(
                    #[trigger] grid[m],
                    rows as int,
                    cols as int,
                ),
            out@.len() == y,
            forall|m: int| 0 <= m < y ==> layer_of(#[trigger] out@[m]@) == want[m],
        decreases cells@.len() - y,
    {
        assert(layer_covers(grid[y as int], rows as int, cols as int));
        out.push(turn_layer(&cells[y], rows, cols, clockwise));
        y = y + 1;
    }
    assert(grid_of(out@) =~= want);
    out
}

/// Turns all layers by a quarter clockwise. The numbers of rows and columns change places.
pub fn rotate_grid_cw(cells: &[Vec<Vec<CellState>>], rows: usize, cols: usize) -> (r: (
    Vec<Vec<Vec<CellState>>>,
    usize,
    usize,
))
    requires
        forall|y: int|
            0 <= y < cells@.len() ==> layer_covers(
                #[trigger] grid_of(cells@)[y],
                rows as int,
                cols as int,
            ),
    ensures
        grid_of(r.0@) == turned_layers(grid_of(cells@), rows as int, cols as int, true),
        r.1 == cols,
        r.2 == rows,
{
    (turn_grid(cells, rows, cols, true), cols, rows)
}

/// Turns all layers by a quarter counter-clockwise. The numbers of rows and columns change places.
pub fn rotate_grid_ccw(cells: &[Vec<Vec<CellState>>], rows: usize, cols: usize) -> (r: (
    Vec<Vec<Vec<CellState>>>,
    usize,
    usize,
))
    requires
        forall|y: int|
            0 <= y < cells@.len() ==> layer_covers(
                #[trigger] grid_of(cells@)[y],
                rows as int,
                cols as int,
            ),
    ensures
        grid_of(r.0@) == turned_layers(grid_of(cells@), rows as int, cols as int, false),
        r.1 == cols,
        r.2 == rows,
{
    (turn_grid(cells, rows, cols, false), cols, rows)
}

/// A turn gives every layer the exchanged numbers of rows and columns.
pub proof fn law_turn_exchanges_sides(
    grid: Seq<Seq<Seq<CellState>>>,
    rows: int,
    cols: int,
    clockwise: bool,
)
    requires
        0 <= rows,
        0 <= cols,
    ensures
        layers_are(turned_layers(grid, rows, cols, clockwise), cols, rows),
{
}

/// Turning back undoes a turn, in either order.
pub proof fn law_turns_are_inverse(
    grid: Seq<Seq<Seq<CellState>>>,
    rows: int,
    cols: int,
    clockwise: bool,
)
    requires
        0 <= rows,
        0 <= cols,
        layers_are(grid, rows, cols),
    ensures
        turned_layers(turned_layers(grid, rows, cols, clockwise), cols, rows, !clockwise) == grid,
{
    let back = turned_layers(turned_layers(grid, rows, cols, clockwise), cols, rows, !clockwise);
    assert forall|y: int| 0 <= y < grid.len() implies #[trigger] back[y] == grid[y] by {
        assert(layer_is(grid[y], rows, cols));
        assert forall|r: int| 0 <= r < rows implies #[trigger] back[y][r] == grid[y][r] by {
            assert(grid[y][r].len() == cols);
            assert(back[y][r] =~= grid[y][r]);
        }
        assert(back[y] =~= grid[y]);
    }
    assert(back =~= grid);
}

/// Four turns in one direction lead back to the same grid.
pub proof fn law_four_grid_turns(
    grid: Seq<Seq<Seq<CellState>>>,
    rows: int,
    cols: int,
    clockwise: bool,
)
    requires
        0 <= rows,
        0 <= cols,
        layers_are(grid, rows, cols),
    ensures
        ({
            let once = turned_layers(grid, rows, cols, clockwise);
            let twice = turned_layers(once, cols, rows, clockwise);
            let thrice = turned_layers(twice, rows, cols, clockwise);
            turned_layers(thrice, cols, rows, clockwise) == grid
        }),
{
    let once = turned_layers(grid, rows, cols, clockwise);
    let twice = turned_layers(once, cols, rows, clockwise);
    let thrice = turned_layers(twice, rows, cols, clockwise);
    let round = turned_layers(thrice, cols, rows, clockwise);
    assert forall|y: int| 0 <= y < grid.len() implies #[trigger] round[y] == grid[y] by {
        assert(layer_is(grid[y], rows, cols));
        assert forall|r: int| 0 <= r < rows implies #[trigger] round[y][r] == grid[y][r] by {
            assert(grid[y][r].len() == cols);
            assert(round[y][r] =~= grid[y][r]);
        }
        assert(round[y] =~= grid[y]);
    }
    assert(round =~= grid);
}

/// A layer in which every unknown cell has become non-bedrock.
pub open spec fn filled(layer: Seq<Seq<CellState>>) -> Seq<Seq<CellState>> {
    Seq::new(
        layer.len(),
        |r: int|
            Seq::new(
                layer[r].len(),
                |c: int|
                    if layer[r][c] == CellState::Unknown {
                        CellState::NonBedrock
                    } else {
                        layer[r][c]
                    },
            ),
    )
}

/// Makes every unknown cell of a layer non-bedrock.
pub fn fill_unknown(layer: &Vec<Vec<CellState>>) -> (out: Vec<Vec<CellState>>)
    ensures
        layer_of(out@) == filled(layer_of(layer@)),
{
    let ghost want = filled(layer_of(layer@));
    let mut out: Vec<Vec<CellState>> = Vec::new();
    let mut r: usize = 0;
    while r < layer.len()
        invariant
            0 <= r <= layer@.len(),
            want == filled(layer_of(layer@)),
            out@.len() == r,
            forall|m: int| 0 <= m < r ==> (#[trigger] out@[m])@ == want[m],
        decreases layer@.len() - r,
    {
        let mut line: Vec<CellState> = Vec::new();
        let mut c: usize = 0;
        while c < layer[r as usize].len()
            invariant
                0 <= r < layer@.len(),
                0 <= c <= layer@[r as int]@.len(),
                want == filled(layer_of(layer@)),
                line@.len() == c,
                forall|m: int| 0 <= m < c ==> #[trigger] line@[m] == want[r as int][m],
            decreases layer@[r as int]@.len() - c,
        {
            if layer[r][c] == CellState::Unknown {
                line.push(CellState::NonBedrock);
            } else {
                line.push(layer[r][c]);
            }
            c = c + 1;
        }
        assert(line@ =~= want[r as int]);
        out.push(line);
        r = r + 1;
    }
    assert(layer_of(out@) =~= want);
    out
}

/// Something is known of a layer.
pub open spec fn layer_known(layer: Seq<Seq<CellState>>) -> bool {
    exists|r: int, c: int|
        0 <= r < layer.len() && 0 <= c < layer[r].len() && #[trigger] layer[r][c]
            != CellState::Unknown
}

/// Tells whether something is known of a layer.
pub fn layer_has_data(layer: &Vec<Vec<CellState>>) -> (b: bool)
    ensures
        b == layer_known(layer_of(layer@)),
{
    let ghost view = layer_of(layer@);
    let mut r: usize = 0;
    while r < layer.len()
        invariant
            0 <= r <= layer@.len(),
            view == layer_of(layer@),
            forall|m: int, c: int|
                0 <= m < r && 0 <= c < view[m].len() ==> #[trigger] view[m][c]
                    == CellState::Unknown,
        decreases layer@.len() - r,
    {
        let mut c: usize = 0;
        while c < layer[r as usize].len()
            invariant
                0 <= r < layer@.len(),
                0 <= c <= layer@[r as int]@.len(),
                view == layer_of(layer@),
                forall|m: int| 0 <= m < c ==> #[trigger] view[r as int][m] == CellState::Unknown,
            decreases layer@[r as int]@.len() - c,
        {
            if layer[r][c] != CellState::Unknown {
                assert(view[r as int][c as int] != CellState::Unknown);
                return true;
            }
            c = c + 1;
        }
        r = r + 1;
    }
    false
}

/// The block that a known cell of a layer stands for.
pub open spec fn cell_block(state: CellState, bt: BedrockType, y: int, x: int, z: int) -> Block {
    let height = crate::bedrock::layer_heights(bt)[y];
    let fifths = crate::bedrock::probability_fifths(height, bt);
    Block {
        x: x as i32,
        y: height as i32,
        z: z as i32,
        should_be_bedrock: state == CellState::Bedrock,
        probability: Probability { fifths: fifths as i32 },
        prob_threshold: crate::bedrock::threshold_of(fifths) as u64,
    }
}

/// The blocks of the first `n` cells of a row at `z` of layer `y`, from column 0 at `x0` on.
pub open spec fn row_blocks(
    line: Seq<CellState>,
    bt: BedrockType,
    y: int,
    x0: int,
    z: int,
    n: int,
) -> Seq<Block>
    decreases n,
{
    if n <= 0 {
        Seq::empty()
    } else {
        let before = row_blocks(line, bt, y, x0, z, n - 1);
        if line[n - 1] == CellState::Unknown {
            before
        } else {
            before.push(cell_block(line[n - 1], bt, y, x0 + n - 1, z))
        }
    }
}

/// The blocks of the first `n` rows of layer `y`, from row 0 at `z0` on.
pub open spec fn layer_blocks(
    layer: Seq<Seq<CellState>>,
    bt: BedrockType,
    y: int,
    x0: int,
    z0: int,
    cols: int,
    n: int,
) -> Seq<Block>
    decreases n,
{
    if n <= 0 {
        Seq::empty()
    } else {
        layer_blocks(layer, bt, y, x0, z0, cols, n - 1) + row_blocks(
            layer[n - 1],
            bt,
            y,
            x0,
            z0 + n - 1,
            cols,
        )
    }
}

/// The blocks of the first `n` layers of a grid.
pub open spec fn layers_blocks(
    grid: Seq<Seq<Seq<CellState>>>,
    bt: BedrockType,
    x0: int,
    z0: int,
    rows: int,
    cols: int,
    n: int,
) -> Seq<Block>
    decreases n,
{
    if n <= 0 {
        Seq::empty()
    } else {
        layers_blocks(grid, bt, x0, z0, rows, cols, n - 1) + layer_blocks(
            grid[n - 1],
            bt,
            n - 1,
            x0,
            z0,
            cols,
            rows,
        )
    }
}

/// The pattern drawn in a grid whose top left corner lies at `(x0, z0)`: a block for every known
/// cell, layer by layer and row by row.
pub open spec fn grid_pattern(
    grid: Seq<Seq<Seq<CellState>>>,
    bt: BedrockType,
    x0: int,
    z0: int,
    rows: int,
    cols: int,
) -> Seq<Block> {
    layers_blocks(grid, bt, x0, z0, rows, cols, 4)
}

/// The coordinates of every known cell of a grid fit.
pub open spec fn pattern_fits(
    grid: Seq<Seq<Seq<CellState>>>,
    x0: int,
    z0: int,
    rows: int,
    cols: int,
) -> bool {
    forall|y: int, r: int, c: int|
        0 <= y < 4 && 0 <= r < rows && 0 <= c < cols && #[trigger] grid[y][r][c]
            != CellState::Unknown ==> x0 + c <= i32::MAX && z0 + r <= i32::MAX
}

/// Tells whether the coordinates of every known cell of a grid fit.
pub fn grid_fits(
    cells: &Vec<Vec<Vec<CellState>>>,
    offset_x: i32,
    offset_z: i32,
    rows: usize,
    cols: usize,
) -> (b: bool)
    requires
        grid_is(grid_of(cells@), rows as int, cols as int),
    ensures
        b == pattern_fits(
            grid_of(cells@),
            offset_x as int,
            offset_z as int,
            rows as int,
            cols as int,
        ),
{
    let ghost grid = grid_of(cells@);
    let mut y: usize = 0;
    while y < 4
        invariant
            0 <= y <= 4,
            grid == grid_of(cells@),
            grid_is(grid, rows as int, cols as int),
            forall|m: int, r: int, c: int|
                0 <= m < y && 0 <= r < rows && 0 <= c < cols && #[trigger] grid[m][r][c]
                    != CellState::Unknown ==> offset_x + c <= i32::MAX && offset_z + r <= i32::MAX,
        decreases 4 - y,
    {
        assert(layer_is(grid[y as int], rows as int, cols as int));
        let mut r: usize = 0;
        while r < rows
            invariant
                0 <= y < 4,
                0 <= r <= rows,
                grid == grid_of(cells@),
                grid.len() == 4,
                layer_is(grid[y as int], rows as int, cols as int),
                forall|m: int, c: int|
                    0 <= m < r && 0 <= c < cols && #[trigger] grid[y as int][m][c]
                        != CellState::Unknown ==> offset_x + c <= i32::MAX && offset_z + m
                        <= i32::MAX,
            decreases rows - r,
        {
            assert(grid[y as int][r as int].len() == cols);
            let mut c: usize = 0;
            while c < cols
                invariant
                    0 <= y < 4,
                    0 <= r < rows,
                    0 <= c <= cols,
                    grid == grid_of(cells@),
                    grid.len() == 4,
                    grid[y as int].len() == rows,
                    grid[y as int][r as int].len() == cols,
                    forall|m: int|
                        0 <= m < c && #[trigger] grid[y as int][r as int][m] != CellState::Unknown
                            ==> offset_x + m <= i32::MAX && offset_z + r <= i32::MAX,
                decreases cols - c,
            {
                let state: CellState = cells[y][r][c];
                assert(state == grid[y as int][r as int][c as int]);
                if state != CellState::Unknown {
                    if c as i128 + offset_x as i128 > i32::MAX as i128 {
                        return false;
                    }
                    if r as i128 + offset_z as i128 > i32::MAX as i128 {
                        return false;
                    }
                }
                c = c + 1;
            }
            r = r + 1;
        }
        y = y + 1;
    }
    true
}

/// Makes the pattern drawn in a grid whose top left corner lies at the given offset.
pub fn grid_blocks(
    cells: &Vec<Vec<Vec<CellState>>>,
    bt: BedrockType,
    offset_x: i32,
    offset_z: i32,
    rows: usize,
    cols: usize,
) -> (out: Vec<Block>)
    requires
        grid_is(grid_of(cells@), rows as int, cols as int),
        pattern_fits(
            grid_of(cells@),
            offset_x as int,
            offset_z as int,
            rows as int,
            cols as int,
        ),
    ensures
        out@ == grid_pattern(
            grid_of(cells@),
            bt,
            offset_x as int,
            offset_z as int,
            rows as int,
            cols as int,
        ),
{
    let ghost grid = grid_of(cells@);
    let ghost x0 = offset_x as int;
    let ghost z0 = offset_z as int;
    let ys: [i32; 4] = y_values(bt);
    let mut out: Vec<Block> = Vec::new();
    let mut y: usize = 0;
    while y < 4
        invariant
            0 <= y <= 4,
            grid == grid_of(cells@),
            x0 == offset_x,
            z0 == offset_z,
            grid_is(grid, rows as int, cols as int),
            pattern_fits(grid, x0, z0, rows as int, cols as int),
            forall|i: int| 0 <= i < 4 ==> #[trigger] ys[i] == crate::bedrock::layer_heights(bt)[i],
            out@ == layers_blocks(grid, bt, x0, z0, rows as int, cols as int, y as int),
        decreases 4 - y,
    {
        let ghost before = out@;
        let ghost layer = grid[y as int];
        assert(layer_is(layer, rows as int, cols as int));
        let height: i32 = ys[y];
        assert(height == crate::bedrock::layer_heights(bt)[y as int]);
        proof {
            crate::bedrock::law_layer_heights_are_uncertain(height as int, bt);
            assert(crate::bedrock::layer_heights(bt).contains(height as int));
        }
        let mut r: usize = 0;
        assert(before + layer_blocks(layer, bt, y as int, x0, z0, cols as int, 0) =~= before);
        while r < rows
            invariant
                0 <= y < 4,
                0 <= r <= rows,
                grid == grid_of(cells@),
                layer == grid[y as int],
                grid.len() == 4,
                layer_is(layer, rows as int, cols as int),
                x0 == offset_x,
                z0 == offset_z,
                pattern_fits(grid, x0, z0, rows as int, cols as int),
                height == crate::bedrock::layer_heights(bt)[y as int],
                0 < crate::bedrock::probability_fifths(height as int, bt) < 5,
                out@ == before + layer_blocks(
                    layer,
                    bt,
                    y as int,
                    x0,
                    z0,
                    cols as int,
                    r as int,
                ),
            decreases rows - r,
        {
            let ghost above = out@;
            assert(layer[r as int].len() == cols);
            let mut c: usize = 0;
            assert(above + row_blocks(layer[r as int], bt, y as int, x0, z0 + r, 0) =~= above);
            while c < cols
                invariant
                    0 <= y < 4,
                    0 <= r < rows,
                    0 <= c <= cols,
                    grid == grid_of(cells@),
                    layer == grid[y as int],
                    grid.len() == 4,
                    layer.len() == rows,
                    layer[r as int].len() == cols,
                    x0 == offset_x,
                    z0 == offset_z,
                    pattern_fits(grid, x0, z0, rows as int, cols as int),
                    height == crate::bedrock::layer_heights(bt)[y as int],
                    0 < crate::bedrock::probability_fifths(height as int, bt) < 5,
                    out@ == above + row_blocks(
                        layer[r as int],
                        bt,
                        y as int,
                        x0,
                        z0 + r,
                        c as int,
                    ),
                decreases cols - c,
            {
                let state: CellState = cells[y][r][c];
                assert(state == grid[y as int][r as int][c as int]);
                if state != CellState::Unknown {
                    let prob = compute_probability(height, bt);
                    let x: i32 = (offset_x as i64 + c as i64) as i32;
                    let z: i32 = (offset_z as i64 + r as i64) as i32;
                    out.push(
                        Block {
                            x,
                            y: height,
                            z,
                            should_be_bedrock: state == CellState::Bedrock,
                            probability: prob,
                            prob_threshold: prob_to_threshold(prob),
                        },
                    );
                    assert(out@.last() == cell_block(state, bt, y as int, x0 + c, z0 + r));
                }
                assert(out@ =~= above + row_blocks(
                    layer[r as int],
                    bt,
                    y as int,
                    x0,
                    z0 + r,
                    c + 1,
                ));
                c = c + 1;
            }
            assert(out@ =~= before + layer_blocks(
                layer,
                bt,
                y as int,
                x0,
                z0,
                cols as int,
                r + 1,
            ));
            r = r + 1;
        }
        y = y + 1;
    }
    out
}

/// A block stands for one of the first `n` cells of a row.
pub open spec fn from_row(
    line: Seq<CellState>,
    bt: BedrockType,
    y: int,
    x0: int,
    z: int,
    n: int,
    b: Block,
) -> bool {
    exists|c: int|
        0 <= c < n && #[trigger] line[c] != CellState::Unknown && b == cell_block(
            line[c],
            bt,
            y,
            x0 + c,
            z,
        )
}

/// A block stands for a cell of the first `n` rows of a layer.
pub open spec fn from_layer(
    layer: Seq<Seq<CellState>>,
    bt: BedrockType,
    y: int,
    x0: int,
    z0: int,
    cols: int,
    n: int,
    b: Block,
) -> bool {
    exists|r: int| 0 <= r < n && from_row(#[trigger] layer[r], bt, y, x0, z0 + r, cols, b)
}

/// A block stands for a cell of the first `n` layers of a grid.
pub open spec fn from_layers(
    grid: Seq<Seq<Seq<CellState>>>,
    bt: BedrockType,
    x0: int,
    z0: int,
    rows: int,
    cols: int,
    n: int,
    b: Block,
) -> bool {
    exists|y: int| 0 <= y < n && from_layer(#[trigger] grid[y], bt, y, x0, z0, cols, rows, b)
}

pub proof fn lemma_row_holds(
    line: Seq<CellState>,
    bt: BedrockType,
    y: int,
    x0: int,
    z: int,
    n: int,
    b: Block,
)
    ensures
        row_blocks(line, bt, y, x0, z, n).contains(b) <==> from_row(line, bt, y, x0, z, n, b),
    decreases n,
{
    if n > 0 {
        lemma_row_holds(line, bt, y, x0, z, n - 1, b);
        let before = row_blocks(line, bt, y, x0, z, n - 1);
        let after = row_blocks(line, bt, y, x0, z, n);
        let new = cell_block(line[n - 1], bt, y, x0 + n - 1, z);
        if line[n - 1] != CellState::Unknown {
            assert(after.contains(b) <==> before.contains(b) || b == new) by {
                assert(after[before.len() as int] == new);
                if before.contains(b) {
                    let i = choose|i: int| 0 <= i < before.len() && before[i] == b;
                    assert(after[i] == b);
                }
            }
        }
    }
}

pub proof fn lemma_layer_holds(
    layer: Seq<Seq<CellState>>,
    bt: BedrockType,
    y: int,
    x0: int,
    z0: int,
    cols: int,
    n: int,
    b: Block,
)
    ensures
        layer_blocks(layer, bt, y, x0, z0, cols, n).contains(b) <==> from_layer(
            layer,
            bt,
            y,
            x0,
            z0,
            cols,
            n,
            b,
        ),
    decreases n,
{
    if n > 0 {
        lemma_layer_holds(layer, bt, y, x0, z0, cols, n - 1, b);
        lemma_row_holds(layer[n - 1], bt, y, x0, z0 + n - 1, cols, b);
        vstd::seq_lib::lemma_seq_concat_contains_all_elements(
            layer_blocks(layer, bt, y, x0, z0, cols, n - 1),
            row_blocks(layer[n - 1], bt, y, x0, z0 + n - 1, cols),
            b,
        );
    }
}

pub proof fn lemma_layers_hold(
    grid: Seq<Seq<Seq<CellState>>>,
    bt: BedrockType,
    x0: int,
    z0: int,
    rows: int,
    cols: int,
    n: int,
    b: Block,
)
    ensures
        layers_blocks(grid, bt, x0, z0, rows, cols, n).contains(b) <==> from_layers(
            grid,
            bt,
            x0,
            z0,
            rows,
            cols,
            n,
            b,
        ),
    decreases n,
{
    if n > 0 {
        lemma_layers_hold(grid, bt, x0, z0, rows, cols, n - 1, b);
        lemma_layer_holds(grid[n - 1], bt, n - 1, x0, z0, cols, rows, b);
        vstd::seq_lib::lemma_seq_concat_contains_all_elements(
            layers_blocks(grid, bt, x0, z0, rows, cols, n - 1),
            layer_blocks(grid[n - 1], bt, n - 1, x0, z0, cols, rows),
            b,
        );
    }
}

/// The pattern drawn in a grid holds exactly the blocks that the known cells stand for.
pub proof fn law_pattern_holds_known_cells(
    grid: Seq<Seq<Seq<CellState>>>,
    bt: BedrockType,
    x0: int,
    z0: int,
    rows: int,
    cols: int,
    b: Block,
)
    ensures
        grid_pattern(grid, bt, x0, z0, rows, cols).contains(b) <==> from_layers(
            grid,
            bt,
            x0,
            z0,
            rows,
            cols,
            4,
            b,
        ),
{
    lemma_layers_hold(grid, bt, x0, z0, rows, cols, 4, b);
}

proof fn lemma_uncertain_is_searchable(v: Seq<Block>)
    requires
        forall|i: int| 0 <= i < v.len() ==> 0 < (#[trigger] v[i]).probability.fifths < 5,
    ensures
        crate::prepare::first_error(v) is None,
    decreases v.len(),
{
    if v.len() > 0 {
        assert forall|i: int| 0 <= i < v.drop_first().len() implies 0 < (
        #[trigger] v.drop_first()[i]).probability.fifths < 5 by {
            assert(v.drop_first()[i] == v[i + 1]);
        }
        lemma_uncertain_is_searchable(v.drop_first());
    }
}

proof fn lemma_filter_keeps_all(v: Seq<Block>)
    requires
        forall|i: int| 0 <= i < v.len() ==> crate::prepare::is_uncertain(#[trigger] v[i]),
    ensures
        v.filter(|b: Block| crate::prepare::is_uncertain(b)) == v,
    decreases v.len(),
{
    reveal(Seq::filter);
    if v.len() > 0 {
        assert forall|i: int| 0 <= i < v.drop_last().len() implies crate::prepare::is_uncertain(
            #[trigger] v.drop_last()[i],
        ) by {
            assert(v.drop_last()[i] == v[i]);
        }
        lemma_filter_keeps_all(v.drop_last());
        assert(v.drop_last().push(v.last()) =~= v);
    }
}

/// No block of a pattern drawn in a grid is certain or impossible: every such pattern can be looked
/// for, and all of its blocks are looked at.
pub proof fn law_drawn_pattern_is_searchable(
    grid: Seq<Seq<Seq<CellState>>>,
    bt: BedrockType,
    x0: int,
    z0: int,
    rows: int,
    cols: int,
)
    ensures
        ({
            let v = grid_pattern(grid, bt, x0, z0, rows, cols);
            &&& crate::prepare::first_error(v) is None
            &&& crate::prepare::searchable(v).to_multiset() == v.to_multiset()
        }),
{
    let v = grid_pattern(grid, bt, x0, z0, rows, cols);
    assert forall|i: int| 0 <= i < v.len() implies 0 < (#[trigger] v[i]).probability.fifths
        < 5 by {
        law_pattern_holds_known_cells(grid, bt, x0, z0, rows, cols, v[i]);
        assert(v.contains(v[i]));
        let y = choose|y: int|
            0 <= y < 4 && from_layer(#[trigger] grid[y], bt, y, x0, z0, cols, rows, v[i]);
        let r = choose|r: int|
            0 <= r < rows && from_row(#[trigger] grid[y][r], bt, y, x0, z0 + r, cols, v[i]);
        let height = crate::bedrock::layer_heights(bt)[y];
        assert(crate::bedrock::layer_heights(bt).contains(height));
        crate::bedrock::law_layer_heights_are_uncertain(height, bt);
    }
    lemma_uncertain_is_searchable(v);
    lemma_filter_keeps_all(v);
    crate::prepare::law_searchable_keeps_uncertain_blocks(v);
}

/// In a pattern drawn in a grid, blocks at the same height have the same threshold.
pub proof fn law_drawn_thresholds_follow_heights(
    grid: Seq<Seq<Seq<CellState>>>,
    bt: BedrockType,
    x0: int,
    z0: int,
    rows: int,
    cols: int,
)
    ensures
        crate::search::thresholds_follow_heights(grid_pattern(grid, bt, x0, z0, rows, cols)),
{
    let v = grid_pattern(grid, bt, x0, z0, rows, cols);
    assert forall|i: int| 0 <= i < v.len() implies (#[trigger] v[i]).prob_threshold
        == crate::bedrock::threshold_of(
        crate::bedrock::probability_fifths(v[i].y as int, bt),
    ) as u64 by {
        law_pattern_holds_known_cells(grid, bt, x0, z0, rows, cols, v[i]);
        assert(v.contains(v[i]));
        let y = choose|y: int|
            0 <= y < 4 && from_layer(#[trigger] grid[y], bt, y, x0, z0, cols, rows, v[i]);
        assert(v[i].y == crate::bedrock::layer_heights(bt)[y]);
    }
}

/// How likely a block is to be satisfied, in fifths.
pub open spec fn block_factor(b: Block) -> int {
    if b.should_be_bedrock {
        b.probability.fifths as int
    } else {
        5 - b.probability.fifths
    }
}

/// How many blocks of a pattern are satisfied with a likelihood of `k` fifths.
pub open spec fn factor_count(v: Seq<Block>, k: int) -> int
    decreases v.len(),
{
    if v.len() == 0 {
        0
    } else {
        factor_count(v.drop_last(), k) + if block_factor(v.last()) == k {
            1int
        } else {
            0
        }
    }
}

/// Counts the blocks of a pattern by how likely they are to be satisfied: one to four fifths. The
/// product of these likelihoods is that of a match at one position.
pub fn pattern_factors(blocks: &Vec<Block>) -> (counts: [usize; 4])
    requires
        forall|i: int|
            0 <= i < blocks@.len() ==> 0 < (#[trigger] blocks@[i]).probability.fifths < 5,
    ensures
        forall|k: int| 0 <= k < 4 ==> #[trigger] counts[k] == factor_count(blocks@, k + 1),
        counts[0] + counts[1] + counts[2] + counts[3] == blocks@.len(),
{
    let mut counts: [usize; 4] = [0; 4];
    let mut i: usize = 0;
    while i < blocks.len()
        invariant
            0 <= i <= blocks@.len(),
            forall|m: int|
                0 <= m < blocks@.len() ==> 0 < (#[trigger] blocks@[m]).probability.fifths < 5,
            forall|k: int|
                0 <= k < 4 ==> #[trigger] counts[k] == factor_count(
                    blocks@.take(i as int),
                    k + 1,
                ),
            counts[0] + counts[1] + counts[2] + counts[3] == i,
        decreases blocks@.len() - i,
    {
        let b: Block = blocks[i];
        let fifths: i32 = if b.should_be_bedrock {
            b.probability.fifths
        } else {
            5 - b.probability.fifths
        };
        let slot: usize = (fifths - 1) as usize;
        let ghost before = counts;
        assert(counts[0] <= i && counts[1] <= i && counts[2] <= i && counts[3] <= i);
        let n: usize = counts[slot];
        counts[slot] = n + 1;
        proof {
            let more = blocks@.take(i + 1);
            assert(more.drop_last() =~= blocks@.take(i as int));
            assert(more.last() == b);
            assert(block_factor(b) == slot + 1);
            assert forall|k: int| 0 <= k < 4 implies #[trigger] counts[k] == factor_count(
                more,
                k + 1,
            ) by {
                assert(before[k] == factor_count(blocks@.take(i as int), k + 1));
            }
            assert(counts[slot as int] == before[slot as int] + 1);
            assert(forall|k: int| 0 <= k < 4 && k != slot ==> counts[k] == before[k]);
            assert(slot == 0 || slot == 1 || slot == 2 || slot == 3);
        }
        i = i + 1;
    }
    assert(blocks@.take(blocks@.len() as int) =~= blocks@);
    counts
}

/// A block says of the place `(x, z)` in layer `y` of the grid that there is bedrock, or that there
/// is none. The layers of the floor's grid run down from height -60, those of the roof's up from
/// height 124; from layer to layer bedrock is one fifth more likely.
pub open spec fn states_cell(
    b: Block,
    bt: BedrockType,
    y: int,
    x: int,
    z: int,
    bedrock: bool,
) -> bool {
    &&& b.x == x
    &&& b.z == z
    &&& b.y == if bt is Floor {
        -60 - y
    } else {
        124 + y
    }
    &&& b.should_be_bedrock == bedrock
    &&& b.probability.fifths == y + 1
    &&& 5 * b.prob_threshold <= (y + 1) * 0x100_0000 < 5 * b.prob_threshold + 5
}

proof fn lemma_cell_block_states(state: CellState, bt: BedrockType, y: int, x: int, z: int)
    requires
        0 <= y < 4,
        i32::MIN <= x <= i32::MAX,
        i32::MIN <= z <= i32::MAX,
    ensures
        states_cell(cell_block(state, bt, y, x, z), bt, y, x, z, state == CellState::Bedrock),
{
}

/// For each known cell of a grid the pattern holds a block at its place that demands what the cell
/// says, in either layer of the world: bedrock exactly if the cell says bedrock.
pub proof fn law_pattern_states_every_known_cell(
    grid: Seq<Seq<Seq<CellState>>>,
    bt: BedrockType,
    x0: i32,
    z0: i32,
    rows: int,
    cols: int,
    y: int,
    r: int,
    c: int,
)
    requires
        pattern_fits(grid, x0 as int, z0 as int, rows, cols),
        0 <= y < 4,
        0 <= r < rows,
        0 <= c < cols,
        grid[y][r][c] != CellState::Unknown,
    ensures
        exists|i: int|
            0 <= i < grid_pattern(grid, bt, x0 as int, z0 as int, rows, cols).len() && states_cell(
                #[trigger] grid_pattern(grid, bt, x0 as int, z0 as int, rows, cols)[i],
                bt,
                y,
                x0 + c,
                z0 + r,
                grid[y][r][c] == CellState::Bedrock,
            ),
{
    let v = grid_pattern(grid, bt, x0 as int, z0 as int, rows, cols);
    let b = cell_block(grid[y][r][c], bt, y, x0 + c, z0 + r);
    assert(from_row(grid[y][r], bt, y, x0 as int, z0 + r, cols, b)) by {
        assert(grid[y][r][c] != CellState::Unknown);
    }
    assert(from_layer(grid[y], bt, y, x0 as int, z0 as int, cols, rows, b));
    law_pattern_holds_known_cells(grid, bt, x0 as int, z0 as int, rows, cols, b);
    let i = choose|i: int| 0 <= i < v.len() && v[i] == b;
    lemma_cell_block_states(grid[y][r][c], bt, y, x0 + c, z0 + r);
    assert(states_cell(v[i], bt, y, x0 + c, z0 + r, grid[y][r][c] == CellState::Bedrock));
}

/// Each block of the pattern stands for a known cell of the grid: nothing is demanded of the places
/// of unknown cells, nor of any other.
pub proof fn law_every_block_states_a_known_cell(
    grid: Seq<Seq<Seq<CellState>>>,
    bt: BedrockType,
    x0: i32,
    z0: i32,
    rows: int,
    cols: int,
    i: int,
)
    requires
        pattern_fits(grid, x0 as int, z0 as int, rows, cols),
        0 <= i < grid_pattern(grid, bt, x0 as int, z0 as int, rows, cols).len(),
    ensures
        exists|y: int, r: int, c: int|
            {
                &&& 0 <= y < 4
                &&& 0 <= r < rows
                &&& 0 <= c < cols
                &&& #[trigger] grid[y][r][c] != CellState::Unknown
                &&& states_cell(
                    grid_pattern(grid, bt, x0 as int, z0 as int, rows, cols)[i],
                    bt,
                    y,
                    x0 + c,
                    z0 + r,
                    grid[y][r][c] == CellState::Bedrock,
                )
            },
{
    let v = grid_pattern(grid, bt, x0 as int, z0 as int, rows, cols);
    let b = v[i];
    assert(v.contains(b));
    law_pattern_holds_known_cells(grid, bt, x0 as int, z0 as int, rows, cols, b);
    let y = choose|y: int|
        0 <= y < 4 && from_layer(
            #[trigger] grid[y],
            bt,
            y,
            x0 as int,
            z0 as int,
            cols,
            rows,
            b,
        );
    let r = choose|r: int|
        0 <= r < rows && from_row(#[trigger] grid[y][r], bt, y, x0 as int, z0 + r, cols, b);
    let c = choose|c: int|
        0 <= c < cols && #[trigger] grid[y][r][c] != CellState::Unknown && b == cell_block(
            grid[y][r][c],
            bt,
            y,
            x0 + c,
            z0 + r,
        );
    assert(grid[y][r][c] != CellState::Unknown);
    lemma_cell_block_states(grid[y][r][c], bt, y, x0 + c, z0 + r);
}

/// A click leads from unknown to non-bedrock, from there to bedrock, and back to unknown; each of
/// the three has a text of its own.
pub proof fn law_cell_states_follow(c: CellState)
    ensures
        c.following() == CellState::NonBedrock <==> c == CellState::Unknown,
        c.following() == CellState::Bedrock <==> c == CellState::NonBedrock,
        c.following() == CellState::Unknown <==> c == CellState::Bedrock,
        c.preceding() == CellState::Bedrock <==> c == CellState::Unknown,
        c.preceding() == CellState::NonBedrock <==> c == CellState::Bedrock,
        c.preceding() == CellState::Unknown <==> c == CellState::NonBedrock,
{
}

/// A quarter turn clockwise takes the cell in row `r` and column `c` to row `c` and the column that
/// lies `r` before the last one. A quarter turn counter-clockwise takes it to the row that lies `c`
/// before the last one and column `r`.
pub proof fn law_turn_moves_cells(
    grid: Seq<Seq<Seq<CellState>>>,
    rows: int,
    cols: int,
    y: int,
    r: int,
    c: int,
)
    requires
        0 <= y < grid.len(),
        0 <= r < rows,
        0 <= c < cols,
    ensures
        turned_layers(grid, rows, cols, true).len() == grid.len(),
        turned_layers(grid, rows, cols, false).len() == grid.len(),
        turned_layers(grid, rows, cols, true)[y][c][rows - 1 - r] == grid[y][r][c],
        turned_layers(grid, rows, cols, false)[y][cols - 1 - c][r] == grid[y][r][c],
{
}

/// Making a grid larger or smaller keeps every cell that the old and the new size share, and what
/// is new is unknown. Every layer gets the new size.
pub proof fn law_resizing_keeps_cells(
    grid: Seq<Seq<Seq<CellState>>>,
    old_rows: int,
    old_cols: int,
    rows: int,
    cols: int,
    y: int,
    r: int,
    c: int,
)
    requires
        layers_are(grid, old_rows, old_cols),
        0 <= y < grid.len(),
        0 <= r < rows,
        0 <= c < cols,
    ensures
        resized_layers(grid, rows, cols).len() == grid.len(),
        layer_is(resized_layers(grid, rows, cols)[y], rows, cols),
        r < old_rows && c < old_cols ==> resized_layers(grid, rows, cols)[y][r][c] == grid[y][r][c],
        r >= old_rows || c >= old_cols ==> resized_layers(grid, rows, cols)[y][r][c]
            == CellState::Unknown,
{
    assert(layer_is(grid[y], old_rows, old_cols));
    if r < old_rows {
        assert(grid[y][r].len() == old_cols);
    }
}

/// Filling a layer leaves every known cell as it is and makes every unknown one non-bedrock.
pub proof fn law_filling_keeps_known_cells(layer: Seq<Seq<CellState>>, r: int, c: int)
    requires
        0 <= r < layer.len(),
        0 <= c < layer[r].len(),
    ensures
        filled(layer).len() == layer.len(),
        filled(layer)[r].len() == layer[r].len(),
        layer[r][c] != CellState::Unknown ==> filled(layer)[r][c] == layer[r][c],
        layer[r][c] == CellState::Unknown ==> filled(layer)[r][c] == CellState::NonBedrock,
{
}

/// A new grid has four layers of the given size, and nothing is known of any of their cells, so
/// that no pattern is drawn in it.
pub proof fn law_new_grid_is_unknown(rows: int, cols: int, bt: BedrockType, x0: i32, z0: i32)
    requires
        0 <= rows,
        0 <= cols,
    ensures
        grid_is(blank_grid(rows, cols), rows, cols),
        forall|y: int, r: int, c: int|
            0 <= y < 4 && 0 <= r < rows && 0 <= c < cols ==> #[trigger] blank_grid(
                rows,
                cols,
            )[y][r][c] == CellState::Unknown,
        forall|y: int| 0 <= y < 4 ==> !layer_known(#[trigger] blank_grid(rows, cols)[y]),
        grid_pattern(blank_grid(rows, cols), bt, x0 as int, z0 as int, rows, cols).len() == 0,
{
    let grid = blank_grid(rows, cols);
    let v = grid_pattern(grid, bt, x0 as int, z0 as int, rows, cols);
    if v.len() > 0 {
        law_every_block_states_a_known_cell(grid, bt, x0, z0, rows, cols, 0);
    }
}

/// One more block adds one to the number of blocks that are satisfied as likely as it is, and to no
/// other: a block that demands bedrock is as likely as bedrock, and one that demands none as its
/// absence.
pub proof fn law_factors_count_blocks(v: Seq<Block>, b: Block, k: int)
    ensures
        factor_count(Seq::empty(), k) == 0,
        b.should_be_bedrock && b.probability.fifths == k || !b.should_be_bedrock
            && b.probability.fifths + k == 5 ==> factor_count(v.push(b), k) == factor_count(v, k)
            + 1,
        !(b.should_be_bedrock && b.probability.fifths == k || !b.should_be_bedrock
            && b.probability.fifths + k == 5) ==> factor_count(v.push(b), k) == factor_count(v, k),
{
    assert(v.push(b).drop_last() =~= v);
}

/// A pattern is refused for its coordinates only where a known cell lies beyond the largest one.
pub proof fn law_pattern_fits_in_range(
    grid: Seq<Seq<Seq<CellState>>>,
    x0: int,
    z0: int,
    rows: int,
    cols: int,
)
    ensures
        x0 + cols <= 0x8000_0000 && z0 + rows <= 0x8000_0000 ==> pattern_fits(
            grid,
            x0,
            z0,
            rows,
            cols,
        ),
        forall|y: int, r: int, c: int|
            0 <= y < 4 && 0 <= r < rows && 0 <= c < cols && #[trigger] grid[y][r][c]
                != CellState::Unknown && (x0 + c >= 0x8000_0000 || z0 + r >= 0x8000_0000)
                ==> !pattern_fits(grid, x0, z0, rows, cols),
        (forall|y: int, r: int, c: int|
            0 <= y < 4 && 0 <= r < rows && 0 <= c < cols && #[trigger] grid[y][r][c]
                != CellState::Unknown ==> x0 + c < 0x8000_0000 && z0 + r < 0x8000_0000)
            ==> pattern_fits(grid, x0, z0, rows, cols),
{
}

} // verus!
